use singledispatch_native::compose::{
    append_new, compose, concat_chains, order_keys, order_longest_first, restrict_to,
    seed_sequence, select_candidates, select_eligible,
};
use singledispatch_native::graph::{TypeGraph, TypeInfo};
use singledispatch_native::linearize::{boundary, compute, is_implied};
use singledispatch_native::merge::{merge, MroError};

fn info(mro: &[usize], bases: &[usize], subclasses: &[usize], supertypes: &[usize], is_abstract: bool) -> TypeInfo {
    TypeInfo {
        mro: mro.to_vec(),
        bases: bases.to_vec(),
        subclasses: subclasses.to_vec(),
        supertypes: supertypes.to_vec(),
        is_abstract,
        introspectable: true,
        generic_alias: false,
    }
}

const A: usize = 0;
const B: usize = 1;
const C: usize = 2;
const D: usize = 3;
const X: usize = 4;

/// A (root), B(A), C(A), D(B, C); the abstract marker X, to which B conforms
/// and C does not.
fn diamond() -> TypeGraph {
    TypeGraph {
        types: vec![
            info(&[A], &[], &[B, C], &[A], false),
            info(&[B, A], &[A], &[D], &[B, A, X], false),
            info(&[C, A], &[A], &[D], &[C, A], false),
            info(&[D, B, C, A], &[B, C], &[], &[D, B, C, A, X], false),
            info(&[X], &[], &[], &[X], true),
        ],
    }
}

/// X and Y roots; A(X, Y) and B(Y, X) declare them in opposite orders, and
/// C(A, B) inherits from both.
fn crossed() -> TypeGraph {
    TypeGraph {
        types: vec![
            info(&[0], &[], &[2, 3], &[0], false),
            info(&[1], &[], &[2, 3], &[1], false),
            info(&[2, 0, 1], &[0, 1], &[4], &[2, 0, 1], false),
            info(&[3, 1, 0], &[1, 0], &[4], &[3, 1, 0], false),
            info(&[4, 2, 3, 0, 1], &[2, 3], &[], &[4, 2, 3, 0, 1], false),
        ],
    }
}

#[test]
fn diamond_places_marker_next_to_conforming_base() {
    let g = diamond();
    assert!(g.is_well_formed());
    let r = compute(&g, D, &vec![X]).unwrap();
    assert_eq!(r, vec![D, B, X, C, A]);
    let xb = r.iter().position(|&t| t == X).unwrap();
    let bb = r.iter().position(|&t| t == B).unwrap();
    let cb = r.iter().position(|&t| t == C).unwrap();
    assert_eq!(xb, bb + 1);
    assert!(xb < cb);
}

#[test]
fn diamond_compose_holds_the_registered_marker_only() {
    let g = diamond();
    assert_eq!(compose(&g, D, &vec![X]), Ok(vec![X]));
}

#[test]
fn diamond_seed_is_the_marker() {
    let g = diamond();
    assert_eq!(seed_sequence(&g, D, &vec![X, A, B]), vec![X]);
}

#[test]
fn crossed_declarations_are_inconsistent() {
    let g = crossed();
    assert!(g.is_well_formed());
    assert_eq!(compose(&g, 4, &vec![]), Err(MroError::Inconsistency));
    assert_eq!(compute(&g, 4, &vec![]), Err(MroError::Inconsistency));
}

#[test]
fn merge_of_opposite_orders_fails() {
    assert_eq!(merge(&vec![vec![1, 2], vec![2, 1]]), Err(MroError::Inconsistency));
}

#[test]
fn merge_of_classic_diamond() {
    let seqs = vec![vec![1], vec![2, 4], vec![3, 4], vec![2, 3]];
    assert_eq!(merge(&seqs), Ok(vec![1, 2, 3, 4]));
}

#[test]
fn merge_of_nothing_is_empty() {
    assert_eq!(merge(&vec![]), Ok(vec![]));
    assert_eq!(merge(&vec![vec![], vec![]]), Ok(vec![]));
}

#[test]
fn merge_keeps_each_label_once_and_in_order() {
    let seqs = vec![vec![5, 7, 9], vec![7, 8, 9], vec![5, 8]];
    let r = merge(&seqs).unwrap();
    assert_eq!(r, vec![5, 7, 8, 9]);
}

#[test]
fn merge_rejects_label_repeated_in_one_sequence() {
    assert_eq!(merge(&vec![vec![3, 3]]), Err(MroError::Inconsistency));
}

#[test]
fn empty_registry_on_root_gives_empty() {
    let g = diamond();
    assert_eq!(compose(&g, A, &vec![]), Ok(vec![]));
    assert_eq!(compose(&g, X, &vec![]), Ok(vec![]));
    assert_eq!(seed_sequence(&g, D, &vec![]), Vec::<usize>::new());
}

#[test]
fn empty_registry_gives_empty_result() {
    let g = diamond();
    assert_eq!(compose(&g, D, &vec![]), Ok(vec![]));
    assert_eq!(compose(&g, B, &vec![]), Ok(vec![]));
    assert_eq!(compute(&g, D, &vec![]), Ok(vec![D, B, C, A]));
}

#[test]
fn compose_is_deterministic() {
    let g = diamond();
    assert_eq!(compose(&g, D, &vec![X]), compose(&g, D, &vec![X]));
}

/// B a plain root; X and Y abstract roots; the query type Q(B) conforms to
/// X and Y, B to neither.
fn two_markers() -> TypeGraph {
    TypeGraph {
        types: vec![
            info(&[0], &[], &[], &[0], false),
            info(&[1], &[], &[], &[1], true),
            info(&[2], &[], &[], &[2], true),
            info(&[3, 0], &[0], &[], &[3, 0, 1, 2], false),
        ],
    }
}

#[test]
fn registry_order_plays_no_part() {
    let g = two_markers();
    assert!(g.is_well_formed());
    assert_eq!(compose(&g, 3, &vec![1, 2]), Ok(vec![1, 2]));
    assert_eq!(compose(&g, 3, &vec![2, 1]), Ok(vec![1, 2]));
    assert_eq!(compose(&g, 3, &vec![2, 1, 2]), Ok(vec![1, 2]));
    assert_eq!(order_keys(&g, &vec![2, 7, 1, 2]), vec![1, 2]);
}

/// A root; B(A); P abstract root; Q(P); S(Q) a known subclass of Q; the
/// query type q(B) conforms to S, and B conforms to P.
fn collapsed_ancestor() -> TypeGraph {
    TypeGraph {
        types: vec![
            info(&[0], &[], &[1], &[0], false),
            info(&[1, 0], &[0], &[5], &[1, 0, 2], false),
            info(&[2], &[], &[3], &[2], true),
            info(&[3, 2], &[2], &[4], &[3, 2], false),
            info(&[4, 3, 2], &[3], &[], &[4, 3, 2], false),
            info(&[5, 1, 0], &[1], &[], &[5, 1, 0, 2, 3, 4], false),
        ],
    }
}

#[test]
fn chains_keep_only_eligible_types() {
    let g = collapsed_ancestor();
    assert!(g.is_well_formed());
    assert_eq!(seed_sequence(&g, 5, &vec![3]), vec![3]);
    assert_eq!(seed_sequence(&g, 5, &vec![3, 2]), vec![3]);
    assert_eq!(compute(&g, 5, &vec![3]), Ok(vec![5, 3, 2, 1, 0]));
    assert_eq!(compose(&g, 5, &vec![3]), Ok(vec![3]));
    assert_eq!(compose(&g, 5, &vec![2, 3]), Ok(vec![3, 2]));
}

#[test]
fn ancestors_are_no_candidates() {
    let g = diamond();
    assert_eq!(select_candidates(&g, D, &vec![A, B, C, D, X]), vec![X]);
}

#[test]
fn unknown_alias_and_opaque_keys_are_no_candidates() {
    let mut g = diamond();
    g.types[X].generic_alias = true;
    assert_eq!(select_candidates(&g, D, &vec![X, 99]), Vec::<usize>::new());
    g.types[X].generic_alias = false;
    g.types[X].introspectable = false;
    assert_eq!(select_candidates(&g, D, &vec![X]), Vec::<usize>::new());
}

#[test]
fn strict_ancestor_candidate_is_collapsed() {
    // Q(P) and a query type that conforms to both without inheriting them.
    let g = TypeGraph {
        types: vec![
            info(&[0], &[], &[1], &[0], true),
            info(&[1, 0], &[0], &[], &[1, 0], true),
            info(&[2], &[], &[], &[2, 0, 1], false),
        ],
    };
    assert!(g.is_well_formed());
    let cands = select_candidates(&g, 2, &vec![0, 1]);
    assert_eq!(cands, vec![0, 1]);
    assert_eq!(select_eligible(&g, &cands), vec![1]);
    assert_eq!(seed_sequence(&g, 2, &vec![0, 1]), vec![1]);
}

#[test]
fn subclass_chain_orders_the_seed() {
    // T and U abstract roots; S conforms to both with linearization S, U, T,
    // is a known subclass of T, and the query type Q conforms to S.
    let g = TypeGraph {
        types: vec![
            info(&[0], &[], &[2], &[0], true),
            info(&[1], &[], &[], &[1], true),
            info(&[2, 1, 0], &[1, 0], &[], &[2, 1, 0], false),
            info(&[3], &[], &[], &[3, 2, 1, 0], false),
        ],
    };
    assert!(g.is_well_formed());
    assert_eq!(seed_sequence(&g, 3, &vec![0, 1]), vec![1, 0]);
}

#[test]
fn chains_come_longest_first() {
    let cs = vec![vec![1], vec![2, 3], vec![4], vec![5, 6]];
    assert_eq!(order_longest_first(&cs), vec![vec![2, 3], vec![5, 6], vec![1], vec![4]]);
    assert_eq!(concat_chains(&cs), vec![1, 2, 3, 4, 5, 6]);
}

#[test]
fn restrict_keeps_listed_entries_in_order() {
    assert_eq!(restrict_to(&vec![4, 1, 3, 2], &vec![2, 4]), vec![4, 2]);
}

#[test]
fn append_new_skips_present_entries() {
    let mut acc = vec![1, 2];
    append_new(&mut acc, &vec![2, 3, 1, 4, 3]);
    assert_eq!(acc, vec![1, 2, 3, 4]);
}

#[test]
fn boundary_follows_last_abstract_base() {
    let mut g = diamond();
    assert_eq!(boundary(&g, &vec![A, B, C]), 0);
    assert_eq!(boundary(&g, &vec![X, A, B]), 1);
    g.types[B].is_abstract = true;
    assert_eq!(boundary(&g, &vec![X, A, B, C]), 3);
    assert_eq!(boundary(&g, &vec![]), 0);
}

#[test]
fn marker_is_implied_only_where_first_conformed() {
    let g = diamond();
    assert!(is_implied(&g, B, X));
    assert!(!is_implied(&g, D, X));
    assert!(!is_implied(&g, C, X));
}

#[test]
fn compute_injects_marker_at_conforming_base() {
    let g = diamond();
    assert_eq!(compute(&g, B, &vec![X]), Ok(vec![B, X, A]));
    assert_eq!(compute(&g, C, &vec![X]), Ok(vec![C, A]));
}

#[test]
fn malformed_snapshot_is_detected() {
    let mut g = diamond();
    g.types[B].bases = vec![D];
    assert!(!g.is_well_formed());
    let mut h = diamond();
    h.types[A].subclasses = vec![42];
    assert!(!h.is_well_formed());
}
