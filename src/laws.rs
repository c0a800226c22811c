//! Properties of the merge, the seed and the composed linearization.
use vstd::prelude::*;
use crate::compose::{
    all_handles, candidates, chain, chains, collapsed, compose_spec, concat, eligible,
    is_candidate_type, level, levels_from, longest_first, max_len, push_new, qualifying_subclasses,
    registry_candidates, registry_order, restrict, seed, seed_over,
};
use crate::graph::{within, TypeGraph};
use crate::linearize::{
    abstract_bases, boundary_of, implied, lemma_abstract_split, lemma_boundary_le, linearize,
    merge_order, remaining_abstracts, sub_linearizations,
};
use crate::merge::{
    all_empty, c3_merge, drop_head, first_candidate_from, in_tail, lemma_drop_head_shrinks,
    lemma_first_candidate_is_candidate, total_len,
};

verus! {

/// `x` comes before `y` in `r`.
pub open spec fn precedes(r: Seq<usize>, x: usize, y: usize) -> bool {
    exists|p: int, q: int| 0 <= p < q < r.len() && #[trigger] r[p] == x && #[trigger] r[q] == y
}

/// Every entry of every input sequence ends up in the merge result.
pub proof fn lemma_merge_complete(seqs: Seq<Seq<usize>>)
    ensures
        c3_merge(seqs) matches Some(r) ==> forall|k: int, i: int|
            0 <= k < seqs.len() && 0 <= i < seqs[k].len() ==> r.contains(#[trigger] seqs[k][i]),
    decreases total_len(seqs),
{
    if let Some(r) = c3_merge(seqs) {
        if !all_empty(seqs) {
            lemma_first_candidate_is_candidate(seqs, 0);
            let k0 = first_candidate_from(seqs, 0)->Some_0;
            let x = seqs[k0][0];
            let next = drop_head(seqs, x);
            lemma_drop_head_shrinks(seqs, k0);
            lemma_merge_complete(next);
            let rest = c3_merge(next)->Some_0;
            assert(r == seq![x] + rest);
            assert forall|k: int, i: int| 0 <= k < seqs.len() && 0 <= i < seqs[k].len() implies r.contains(
                #[trigger] seqs[k][i],
            ) by {
                if seqs[k][0] == x && i == 0 {
                    assert(r[0] == x);
                } else if seqs[k][0] == x {
                    assert(next[k][i - 1] == seqs[k][i]);
                    let p = choose|p: int| 0 <= p < rest.len() && rest[p] == seqs[k][i];
                    assert(r[p + 1] == seqs[k][i]);
                } else {
                    assert(next[k][i] == seqs[k][i]);
                    let p = choose|p: int| 0 <= p < rest.len() && rest[p] == seqs[k][i];
                    assert(r[p + 1] == seqs[k][i]);
                }
            }
        }
    }
}

/// Monotonicity: where `x` comes before `y` in an input sequence, `x` comes
/// before `y` in the merge result.
pub proof fn lemma_merge_monotonic(seqs: Seq<Seq<usize>>)
    ensures
        c3_merge(seqs) matches Some(r) ==> forall|k: int, i: int, j: int|
            0 <= k < seqs.len() && 0 <= i < j < seqs[k].len() ==> precedes(
                r,
                #[trigger] seqs[k][i],
                #[trigger] seqs[k][j],
            ),
    decreases total_len(seqs),
{
    if let Some(r) = c3_merge(seqs) {
        if !all_empty(seqs) {
            lemma_first_candidate_is_candidate(seqs, 0);
            let k0 = first_candidate_from(seqs, 0)->Some_0;
            let x = seqs[k0][0];
            let next = drop_head(seqs, x);
            lemma_drop_head_shrinks(seqs, k0);
            lemma_merge_monotonic(next);
            lemma_merge_complete(next);
            let rest = c3_merge(next)->Some_0;
            assert(r == seq![x] + rest);
            assert forall|k: int, i: int, j: int|
                0 <= k < seqs.len() && 0 <= i < j < seqs[k].len() implies precedes(
                r,
                #[trigger] seqs[k][i],
                #[trigger] seqs[k][j],
            ) by {
                if seqs[k][0] == x && i == 0 {
                    assert(next[k][j - 1] == seqs[k][j]);
                    assert(rest.contains(next[k][j - 1]));
                    let q = choose|q: int| 0 <= q < rest.len() && rest[q] == seqs[k][j];
                    assert(r[0] == x && r[q + 1] == seqs[k][j]);
                } else {
                    let (a, b) = if seqs[k][0] == x {
                        (i - 1, j - 1)
                    } else {
                        (i, j)
                    };
                    assert(next[k][a] == seqs[k][i] && next[k][b] == seqs[k][j]);
                    assert(precedes(rest, next[k][a], next[k][b]));
                    let (p, q) = choose|p: int, q: int|
                        0 <= p < q < rest.len() && #[trigger] rest[p] == seqs[k][i] && #[trigger] rest[q]
                            == seqs[k][j];
                    assert(r[p + 1] == seqs[k][i] && r[q + 1] == seqs[k][j]);
                }
            }
        }
    }
}

/// `x` stands somewhere in one of `seqs`.
pub open spec fn occurs_in(seqs: Seq<Seq<usize>>, x: usize) -> bool {
    exists|k: int, i: int| 0 <= k < seqs.len() && 0 <= i < seqs[k].len() && #[trigger] seqs[k][i] == x
}

/// Every entry of the merge result comes from some input sequence.
pub proof fn lemma_merge_sound(seqs: Seq<Seq<usize>>)
    ensures
        c3_merge(seqs) matches Some(r) ==> forall|p: int|
            0 <= p < r.len() ==> occurs_in(seqs, #[trigger] r[p]),
    decreases total_len(seqs),
{
    if let Some(r) = c3_merge(seqs) {
        if !all_empty(seqs) {
            lemma_first_candidate_is_candidate(seqs, 0);
            let k0 = first_candidate_from(seqs, 0)->Some_0;
            let x = seqs[k0][0];
            let next = drop_head(seqs, x);
            lemma_drop_head_shrinks(seqs, k0);
            lemma_merge_sound(next);
            let rest = c3_merge(next)->Some_0;
            assert(r == seq![x] + rest);
            assert forall|p: int| 0 <= p < r.len() implies occurs_in(seqs, #[trigger] r[p]) by {
                if p == 0 {
                    assert(seqs[k0][0] == r[p]);
                } else {
                    assert(rest[p - 1] == r[p]);
                    assert(occurs_in(next, rest[p - 1]));
                    let (k, i) = choose|k: int, i: int|
                        0 <= k < next.len() && 0 <= i < next[k].len() && #[trigger] next[k][i]
                            == rest[p - 1];
                    if seqs[k].len() > 0 && seqs[k][0] == x {
                        assert(seqs[k][i + 1] == r[p]);
                    } else {
                        assert(seqs[k][i] == r[p]);
                    }
                }
            }
        }
    }
}

/// No duplicates: each entry occurs at most once in a merge result.
pub proof fn lemma_merge_no_duplicates(seqs: Seq<Seq<usize>>)
    ensures
        c3_merge(seqs) matches Some(r) ==> r.no_duplicates(),
    decreases total_len(seqs),
{
    if let Some(r) = c3_merge(seqs) {
        if !all_empty(seqs) {
            lemma_first_candidate_is_candidate(seqs, 0);
            let k0 = first_candidate_from(seqs, 0)->Some_0;
            let x = seqs[k0][0];
            let next = drop_head(seqs, x);
            lemma_drop_head_shrinks(seqs, k0);
            lemma_merge_no_duplicates(next);
            lemma_merge_sound(next);
            let rest = c3_merge(next)->Some_0;
            assert(r == seq![x] + rest);
            assert(!in_tail(seqs, x));
            assert forall|p: int| 0 <= p < rest.len() implies #[trigger] rest[p] != x by {
                assert(occurs_in(next, rest[p]));
                let (k, i) = choose|k: int, i: int|
                    0 <= k < next.len() && 0 <= i < next[k].len() && #[trigger] next[k][i]
                        == rest[p];
                if seqs[k].len() > 0 && seqs[k][0] == x {
                    assert(seqs[k][i + 1] == rest[p]);
                } else {
                    assert(seqs[k][i] == rest[p]);
                    if i == 0 {
                        assert(seqs[k][0] != x);
                    }
                }
            }
            assert forall|a: int, b: int| 0 <= a < r.len() && 0 <= b < r.len() && a != b implies r[a]
                != r[b] by {
                if a == 0 {
                    assert(rest[b - 1] != x);
                } else if b == 0 {
                    assert(rest[a - 1] != x);
                } else {
                    assert(r[a] == rest[a - 1] && r[b] == rest[b - 1]);
                }
            }
        }
    }
}

/// The sequences whose merge gives the linearization of `t`, where `t` has
/// direct supertypes: `t` alone, the linearizations of the types of
/// `merge_order`, and the explicit, abstract and other bases as lists.
pub open spec fn contributing(g: TypeGraph, t: usize, abcs: Seq<usize>) -> Seq<Seq<usize>> {
    let b = boundary_of(g, g.bases(t)) as int;
    seq![seq![t]] + sub_linearizations(g, t, abcs).map_values(|o: Option<Seq<usize>>| o->Some_0)
        + seq![g.bases(t).take(b), abstract_bases(g, t, abcs), g.bases(t).skip(b)]
}

proof fn lemma_subtype_transitive(g: TypeGraph, a: usize, b: usize, c: usize)
    requires
        g.wf(),
        g.valid(a),
        g.is_subtype(a, b),
        g.is_subtype(b, c),
    ensures
        g.is_subtype(a, c),
{
    assert(g.info_wf(a));
    let sup = g.types@[a as int].supertypes@;
    let i = choose|i: int| 0 <= i < sup.len() && sup[i] == b;
    assert(within(g.types@[sup[i] as int].supertypes@, sup));
    let j = choose|j: int|
        0 <= j < g.types@[b as int].supertypes@.len() && g.types@[b as int].supertypes@[j] == c;
    assert(sup.contains(g.types@[b as int].supertypes@[j]));
}

/// Every entry of a linearization of `t` is a supertype of `t`: `t` itself,
/// an ancestor, or an injected abstract type that `t` conforms to, or one of
/// its supertypes.
pub proof fn lemma_linearize_supertypes(g: TypeGraph, t: usize, abcs: Seq<usize>)
    requires
        g.wf(),
        g.valid(t),
    ensures
        linearize(g, t, abcs) matches Some(r) ==> forall|i: int|
            0 <= i < r.len() ==> g.is_subtype(t, #[trigger] r[i]),
    decreases abcs.len(), g.mro(t).len(),
{
    if let Some(r) = linearize(g, t, abcs) {
        if g.bases(t).len() > 0 {
            assert(g.info_wf(t));
            let info = g.types@[t as int];
            let bases = g.bases(t);
            let b = boundary_of(g, bases) as int;
            let absb = abstract_bases(g, t, abcs);
            let rem = remaining_abstracts(g, t, abcs);
            let order = merge_order(g, t, abcs);
            let subs = sub_linearizations(g, t, abcs);
            let cs = contributing(g, t, abcs);
            lemma_boundary_le(g, bases);
            lemma_abstract_split(g, t, abcs);
            lemma_merge_sound(cs);
            assert(r == c3_merge(cs)->Some_0);
            assert forall|i: int| 0 <= i < absb.len() implies g.is_subtype(t, #[trigger] absb[i]) by {
                abcs.lemma_filter_pred(|a: usize| implied(g, t, a), i);
            }
            assert forall|m: int| 0 <= m < order.len() implies g.is_subtype(t, #[trigger] order[m]) && g.valid(order[m]) by {
                if m < b {
                    assert(order[m] == bases[m]);
                    assert(info.supertypes@.contains(bases[m]));
                } else if m < b + absb.len() {
                    assert(order[m] == absb[m - b]);
                } else {
                    assert(order[m] == bases[m - absb.len()]);
                    assert(info.supertypes@.contains(bases[m - absb.len()]));
                }
                let j = choose|j: int| 0 <= j < info.supertypes@.len() && info.supertypes@[j] == order[m];
                assert(info.supertypes@[j] < g.len());
            }
            assert forall|p: int| 0 <= p < r.len() implies g.is_subtype(t, #[trigger] r[p]) by {
                assert(occurs_in(cs, r[p]));
                let (k, i) = choose|k: int, i: int|
                    0 <= k < cs.len() && 0 <= i < cs[k].len() && #[trigger] cs[k][i] == r[p];
                if k == 0 {
                    assert(cs[0] == seq![t]);
                    assert(info.mro@[0] == t);
                    assert(info.supertypes@.contains(info.mro@[0]));
                } else if k <= order.len() {
                    let m = k - 1;
                    let x = order[m];
                    assert(subs[m] == linearize(g, x, rem));
                    assert(cs[k] == subs[m]->Some_0);
                    if m < b || m >= b + absb.len() {
                        if m < b {
                            assert(x == bases[m]);
                        } else {
                            assert(x == bases[m - absb.len()]);
                        }
                        assert(g.mro(x).len() < g.mro(t).len());
                    }
                    lemma_linearize_supertypes(g, x, rem);
                    lemma_subtype_transitive(g, t, x, r[p]);
                } else if k == order.len() + 1 {
                    assert(cs[k] == bases.take(b));
                    assert(info.supertypes@.contains(bases[i]));
                } else if k == order.len() + 2 {
                    assert(cs[k] == absb);
                } else {
                    assert(cs[k] == bases.skip(b));
                    assert(info.supertypes@.contains(bases[i + b]));
                }
            }
        }
    }
}

/// `s` without the entry `a`.
pub open spec fn without(s: Seq<usize>, a: usize) -> Seq<usize> {
    s.filter(|x: usize| x != a)
}

proof fn lemma_without_split(g: TypeGraph, t: usize, abcs: Seq<usize>, a: usize)
    requires
        !implied(g, t, a),
    ensures
        abstract_bases(g, t, without(abcs, a)) == abstract_bases(g, t, abcs),
        remaining_abstracts(g, t, without(abcs, a)) == without(remaining_abstracts(g, t, abcs), a),
    decreases abcs.len(),
{
    reveal(Seq::filter);
    if abcs.len() > 0 {
        let d = abcs.drop_last();
        let x = abcs.last();
        lemma_without_split(g, t, d, a);
        if x != a {
            assert(without(abcs, a) == without(d, a).push(x));
            assert(without(abcs, a).drop_last() =~= without(d, a));
            assert(without(abcs, a).last() == x);
            if !implied(g, t, x) {
                assert(remaining_abstracts(g, t, abcs) == remaining_abstracts(g, t, d).push(x));
                let rp = remaining_abstracts(g, t, d).push(x);
                assert(rp.drop_last() =~= remaining_abstracts(g, t, d));
            }
        } else {
            assert(without(abcs, a) == without(d, a));
            assert(remaining_abstracts(g, t, abcs) == remaining_abstracts(g, t, d).push(x));
            let rp = remaining_abstracts(g, t, d).push(x);
            assert(rp.drop_last() =~= remaining_abstracts(g, t, d));
        }
    }
}

/// An abstract type that `t` does not conform to is never injected at `t`
/// or below it: leaving it out of `abcs` changes nothing.
pub proof fn lemma_unconformed_abstract_ignored(g: TypeGraph, t: usize, abcs: Seq<usize>, a: usize)
    requires
        g.wf(),
        g.valid(t),
        !g.is_subtype(t, a),
    ensures
        linearize(g, t, abcs) == linearize(g, t, without(abcs, a)),
    decreases abcs.len(), g.mro(t).len(),
{
    if g.bases(t).len() > 0 {
        assert(g.info_wf(t));
        let info = g.types@[t as int];
        let abcs2 = without(abcs, a);
        let bases = g.bases(t);
        let b = boundary_of(g, bases) as int;
        let absb = abstract_bases(g, t, abcs);
        let rem = remaining_abstracts(g, t, abcs);
        let order = merge_order(g, t, abcs);
        lemma_without_split(g, t, abcs, a);
        lemma_boundary_le(g, bases);
        lemma_abstract_split(g, t, abcs);
        assert(merge_order(g, t, abcs2) == order);
        let s1 = sub_linearizations(g, t, abcs);
        let s2 = sub_linearizations(g, t, abcs2);
        assert forall|m: int| 0 <= m < order.len() implies #[trigger] s1[m] == s2[m] by {
            let x = order[m];
            if m < b {
                assert(x == bases[m]);
                assert(info.supertypes@.contains(bases[m]));
                assert(g.mro(x).len() < g.mro(t).len());
            } else if m < b + absb.len() {
                assert(x == absb[m - b]);
                abcs.lemma_filter_pred(|c: usize| implied(g, t, c), m - b);
            } else {
                assert(x == bases[m - absb.len()]);
                assert(info.supertypes@.contains(bases[m - absb.len()]));
                assert(g.mro(x).len() < g.mro(t).len());
            }
            let j = choose|j: int| 0 <= j < info.supertypes@.len() && info.supertypes@[j] == x;
            assert(info.supertypes@[j] < g.len());
            if g.is_subtype(x, a) {
                lemma_subtype_transitive(g, t, x, a);
            }
            lemma_unconformed_abstract_ignored(g, x, rem, a);
        }
        assert(s1 =~= s2);
    }
}

/// Monotonicity at every node: the linearization of any type `t` keeps the
/// order of each sequence that contributes to its merge.
pub proof fn lemma_linearize_monotonic(g: TypeGraph, t: usize, abcs: Seq<usize>)
    requires
        g.wf(),
        g.valid(t),
        g.bases(t).len() > 0,
    ensures
        linearize(g, t, abcs) matches Some(r) ==> forall|k: int, i: int, j: int|
            0 <= k < contributing(g, t, abcs).len() && 0 <= i < j < contributing(g, t, abcs)[k].len()
                ==> precedes(
                r,
                #[trigger] contributing(g, t, abcs)[k][i],
                #[trigger] contributing(g, t, abcs)[k][j],
            ),
{
    lemma_merge_monotonic(contributing(g, t, abcs));
}

/// Two input sequences that order the distinct entries `x` and `y` in
/// opposite ways make the merge fail.
pub proof fn lemma_merge_conflict(
    seqs: Seq<Seq<usize>>,
    k1: int,
    i1: int,
    j1: int,
    k2: int,
    i2: int,
    j2: int,
)
    requires
        0 <= k1 < seqs.len(),
        0 <= k2 < seqs.len(),
        0 <= i1 < j1 < seqs[k1].len(),
        0 <= i2 < j2 < seqs[k2].len(),
        seqs[k1][i1] == seqs[k2][j2],
        seqs[k1][j1] == seqs[k2][i2],
        seqs[k1][i1] != seqs[k1][j1],
    ensures
        c3_merge(seqs) is None,
{
    lemma_merge_monotonic(seqs);
    lemma_merge_no_duplicates(seqs);
    if let Some(r) = c3_merge(seqs) {
        let x = seqs[k1][i1];
        let y = seqs[k1][j1];
        assert(precedes(r, seqs[k1][i1], seqs[k1][j1]));
        assert(precedes(r, seqs[k2][i2], seqs[k2][j2]));
        let (p1, q1) = choose|p: int, q: int| 0 <= p < q < r.len() && #[trigger] r[p] == x && #[trigger] r[q] == y;
        let (p2, q2) = choose|p: int, q: int| 0 <= p < q < r.len() && #[trigger] r[p] == y && #[trigger] r[q] == x;
        assert(r[p1] == r[q2]);
        assert(r[q1] == r[p2]);
    }
}

/// Inconsistency at any node: where two sequences contributing to the merge
/// at `t` order two types in opposite ways, `t` has no linearization, and
/// neither has any type whose linearization needs it.
pub proof fn lemma_linearize_conflict(
    g: TypeGraph,
    t: usize,
    abcs: Seq<usize>,
    k1: int,
    i1: int,
    j1: int,
    k2: int,
    i2: int,
    j2: int,
)
    requires
        g.wf(),
        g.valid(t),
        g.bases(t).len() > 0,
        0 <= k1 < contributing(g, t, abcs).len(),
        0 <= k2 < contributing(g, t, abcs).len(),
        0 <= i1 < j1 < contributing(g, t, abcs)[k1].len(),
        0 <= i2 < j2 < contributing(g, t, abcs)[k2].len(),
        contributing(g, t, abcs)[k1][i1] == contributing(g, t, abcs)[k2][j2],
        contributing(g, t, abcs)[k1][j1] == contributing(g, t, abcs)[k2][i2],
        contributing(g, t, abcs)[k1][i1] != contributing(g, t, abcs)[k1][j1],
    ensures
        linearize(g, t, abcs) is None,
{
    lemma_merge_conflict(contributing(g, t, abcs), k1, i1, j1, k2, i2, j2);
}

/// A failure below propagates: `t` has a linearization only where every
/// linearization its merge needs exists.
pub proof fn lemma_linearize_needs_parts(g: TypeGraph, t: usize, abcs: Seq<usize>, m: int)
    requires
        g.wf(),
        g.valid(t),
        g.bases(t).len() > 0,
        0 <= m < merge_order(g, t, abcs).len(),
        linearize(g, merge_order(g, t, abcs)[m], remaining_abstracts(g, t, abcs)) is None,
    ensures
        linearize(g, t, abcs) is None,
{
    assert(g.info_wf(t));
    lemma_boundary_le(g, g.bases(t));
    lemma_abstract_split(g, t, abcs);
    let subs = sub_linearizations(g, t, abcs);
    let rem = remaining_abstracts(g, t, abcs);
    let x = merge_order(g, t, abcs)[m];
    assert(subs[m] == linearize(g, x, rem));
    assert(!(subs[m] is Some));
}

/// Cutting a sequence to the entries of `c` keeps it free of duplicates.
pub proof fn lemma_restrict_no_duplicates(s: Seq<usize>, c: Seq<usize>)
    requires
        s.no_duplicates(),
    ensures
        restrict(s, c).no_duplicates(),
    decreases s.len(),
{
    reveal(Seq::filter);
    if s.len() > 0 {
        let d = s.drop_last();
        assert(d.no_duplicates()) by {
            assert forall|i: int, j: int| 0 <= i < d.len() && 0 <= j < d.len() && i != j implies d[i]
                != d[j] by {
                assert(d[i] == s[i] && d[j] == s[j]);
            }
        }
        lemma_restrict_no_duplicates(d, c);
        let rd = restrict(d, c);
        let x = s.last();
        if c.contains(x) {
            assert(restrict(s, c) == rd.push(x));
            assert forall|i: int| 0 <= i < rd.len() implies #[trigger] rd[i] != x by {
                assert(rd.contains(rd[i]));
                d.lemma_filter_contains_rev(|y: usize| c.contains(y), rd[i]);
                let j = choose|j: int| 0 <= j < d.len() && d[j] == rd[i];
                assert(s[j] == d[j]);
            }
            assert forall|i: int, j: int|
                0 <= i < rd.len() + 1 && 0 <= j < rd.len() + 1 && i != j implies rd.push(x)[i]
                != rd.push(x)[j] by {
                if i < rd.len() && j < rd.len() {
                    assert(rd.push(x)[i] == rd[i] && rd.push(x)[j] == rd[j]);
                }
            }
        } else {
            assert(restrict(s, c) == rd);
        }
    }
}

/// Cutting a sequence to the entries of `c` keeps the order of those it keeps.
pub proof fn lemma_restrict_precedes(s: Seq<usize>, c: Seq<usize>, x: usize, y: usize)
    requires
        precedes(s, x, y),
        c.contains(x),
        c.contains(y),
    ensures
        precedes(restrict(s, c), x, y),
    decreases s.len(),
{
    reveal(Seq::filter);
    let (p, q) = choose|p: int, q: int| 0 <= p < q < s.len() && #[trigger] s[p] == x && #[trigger] s[q] == y;
    let d = s.drop_last();
    let rd = restrict(d, c);
    if q == s.len() - 1 {
        assert(d[p] == x);
        d.lemma_filter_contains(|z: usize| c.contains(z), p);
        let i = choose|i: int| 0 <= i < rd.len() && rd[i] == x;
        assert(restrict(s, c) == rd.push(y));
        assert(rd.push(y)[i] == x && rd.push(y)[rd.len() as int] == y);
    } else {
        assert(d[p] == x && d[q] == y);
        lemma_restrict_precedes(d, c, x, y);
        let (i, j) = choose|i: int, j: int| 0 <= i < j < rd.len() && #[trigger] rd[i] == x && #[trigger] rd[j] == y;
        if c.contains(s.last()) {
            assert(restrict(s, c) == rd.push(s.last()));
            assert(rd.push(s.last())[i] == x && rd.push(s.last())[j] == y);
        } else {
            assert(restrict(s, c) == rd);
        }
    }
}

/// No duplicates: each type occurs at most once in a composed linearization.
pub proof fn lemma_compose_no_duplicates(g: TypeGraph, q: usize, keys: Seq<usize>)
    requires
        g.wf(),
        g.valid(q),
    ensures
        compose_spec(g, q, keys) matches Some(r) ==> r.no_duplicates(),
{
    if let Some(lin) = linearize(g, q, seed(g, q, keys)) {
        if g.bases(q).len() > 0 {
            lemma_merge_no_duplicates(contributing(g, q, seed(g, q, keys)));
        }
        lemma_restrict_no_duplicates(lin, registry_candidates(g, q, keys));
    }
}

/// Monotonicity: where candidates `x` and `y` stand in this order in a
/// sequence that contributes to the final merge, `x` comes before `y` in the
/// composed linearization.
pub proof fn lemma_compose_monotonic(g: TypeGraph, q: usize, keys: Seq<usize>, k: int, i: int, j: int)
    requires
        g.wf(),
        g.valid(q),
        g.bases(q).len() > 0,
        0 <= k < contributing(g, q, seed(g, q, keys)).len(),
        0 <= i < j < contributing(g, q, seed(g, q, keys))[k].len(),
        registry_candidates(g, q, keys).contains(contributing(g, q, seed(g, q, keys))[k][i]),
        registry_candidates(g, q, keys).contains(contributing(g, q, seed(g, q, keys))[k][j]),
    ensures
        compose_spec(g, q, keys) matches Some(r) ==> precedes(
            r,
            contributing(g, q, seed(g, q, keys))[k][i],
            contributing(g, q, seed(g, q, keys))[k][j],
        ),
{
    let cs = contributing(g, q, seed(g, q, keys));
    lemma_merge_monotonic(cs);
    if let Some(lin) = linearize(g, q, seed(g, q, keys)) {
        assert(precedes(lin, cs[k][i], cs[k][j]));
        lemma_restrict_precedes(lin, registry_candidates(g, q, keys), cs[k][i], cs[k][j]);
    }
}

proof fn lemma_restrict_agree(s: Seq<usize>, c1: Seq<usize>, c2: Seq<usize>)
    requires
        forall|h: usize| c1.contains(h) == c2.contains(h),
    ensures
        restrict(s, c1) == restrict(s, c2),
    decreases s.len(),
{
    reveal(Seq::filter);
    if s.len() > 0 {
        lemma_restrict_agree(s.drop_last(), c1, c2);
    }
}

/// Determinism: the composed linearization depends on the snapshot, the
/// query type and the set of registry keys alone, not on their order or
/// repetition.
pub proof fn lemma_compose_deterministic(g: TypeGraph, q: usize, keys1: Seq<usize>, keys2: Seq<usize>)
    requires
        forall|h: usize| keys1.contains(h) == keys2.contains(h),
    ensures
        compose_spec(g, q, keys1) == compose_spec(g, q, keys2),
{
    lemma_restrict_agree(all_handles(g.len()), keys1, keys2);
    assert(registry_order(g, keys1) == registry_order(g, keys2));
}

/// Transitive collapse: a candidate that is a strict ancestor of another
/// candidate is not eligible, so it never enters the seed on its own.
pub proof fn lemma_transitive_collapse(g: TypeGraph, cands: Seq<usize>, p: usize, c: usize)
    requires
        cands.contains(c),
        p != c,
        g.mro(c).contains(p),
    ensures
        !eligible(g, cands).contains(p),
{
    let i = choose|i: int| 0 <= i < cands.len() && cands[i] == c;
    assert(collapsed(g, cands, p));
    let pred = |k: usize| !collapsed(g, cands, k);
    if eligible(g, cands).contains(p) {
        let j = choose|j: int| 0 <= j < eligible(g, cands).len() && eligible(g, cands)[j] == p;
        cands.lemma_filter_pred(pred, j);
    }
}

/// Ancestor exclusion, for the candidates: no ordinary ancestor of the query
/// type is a candidate.
pub proof fn lemma_candidates_exclude_ancestors(g: TypeGraph, q: usize, keys: Seq<usize>, x: usize)
    requires
        g.mro(q).contains(x),
    ensures
        !candidates(g, q, keys).contains(x),
{
    let pred = |k: usize| is_candidate_type(g, q, k);
    if candidates(g, q, keys).contains(x) {
        let j = choose|j: int| 0 <= j < candidates(g, q, keys).len() && candidates(g, q, keys)[j] == x;
        keys.lemma_filter_pred(pred, j);
    }
}

proof fn lemma_push_new_within(acc: Seq<usize>, xs: Seq<usize>, c: Seq<usize>)
    requires
        within(acc, c),
        within(xs, c),
    ensures
        within(push_new(acc, xs), c),
    decreases xs.len(),
{
    if xs.len() > 0 {
        assert(within(xs.drop_last(), c)) by {
            assert forall|i: int| 0 <= i < xs.drop_last().len() implies c.contains(
                #[trigger] xs.drop_last()[i],
            ) by {
                assert(xs.drop_last()[i] == xs[i]);
            }
        }
        lemma_push_new_within(acc, xs.drop_last(), c);
        assert(c.contains(xs[xs.len() - 1]));
    }
}

proof fn lemma_concat_within(cs: Seq<Seq<usize>>, c: Seq<usize>)
    requires
        forall|k: int| 0 <= k < cs.len() ==> within(#[trigger] cs[k], c),
    ensures
        within(concat(cs), c),
    decreases cs.len(),
{
    if cs.len() > 0 {
        assert forall|k: int| 0 <= k < cs.drop_last().len() implies within(
            #[trigger] cs.drop_last()[k],
            c,
        ) by {
            assert(cs.drop_last()[k] == cs[k]);
        }
        lemma_concat_within(cs.drop_last(), c);
        let a = concat(cs.drop_last());
        let last = cs[cs.len() - 1];
        assert(within(last, c));
        assert forall|i: int| 0 <= i < concat(cs).len() implies c.contains(#[trigger] concat(cs)[i]) by {
            if i < a.len() {
                assert(concat(cs)[i] == a[i]);
            } else {
                assert(concat(cs)[i] == last[i - a.len()]);
            }
        }
    }
}

proof fn lemma_levels_within(cs: Seq<Seq<usize>>, l: nat, c: Seq<usize>)
    requires
        forall|k: int| 0 <= k < cs.len() ==> within(#[trigger] cs[k], c),
    ensures
        forall|k: int| 0 <= k < levels_from(cs, l).len() ==> within(#[trigger] levels_from(cs, l)[k], c),
    decreases l,
{
    let lv = level(cs, l);
    assert forall|k: int| 0 <= k < lv.len() implies within(#[trigger] lv[k], c) by {
        assert(lv.contains(lv[k]));
        cs.lemma_filter_contains_rev(|s: Seq<usize>| s.len() == l, lv[k]);
        let j = choose|j: int| 0 <= j < cs.len() && cs[j] == lv[k];
        assert(within(cs[j], c));
    }
    if l > 0 {
        lemma_levels_within(cs, (l - 1) as nat, c);
        let rest = levels_from(cs, (l - 1) as nat);
        assert forall|k: int| 0 <= k < levels_from(cs, l).len() implies within(
            #[trigger] levels_from(cs, l)[k],
            c,
        ) by {
            if k < lv.len() {
                assert(levels_from(cs, l)[k] == lv[k]);
            } else {
                assert(levels_from(cs, l)[k] == rest[k - lv.len()]);
            }
        }
    }
}

proof fn lemma_seed_over_within(g: TypeGraph, q: usize, cands: Seq<usize>, el: Seq<usize>)
    requires
        within(el, cands),
    ensures
        within(seed_over(g, q, cands, el), cands),
    decreases el.len(),
{
    if el.len() > 0 {
        assert(within(el.drop_last(), cands)) by {
            assert forall|i: int| 0 <= i < el.drop_last().len() implies cands.contains(
                #[trigger] el.drop_last()[i],
            ) by {
                assert(el.drop_last()[i] == el[i]);
            }
        }
        lemma_seed_over_within(g, q, cands, el.drop_last());
        let acc = seed_over(g, q, cands, el.drop_last());
        let t = el[el.len() - 1];
        assert(cands.contains(t));
        if qualifying_subclasses(g, q, t).len() == 0 {
            assert(within(seq![t], cands));
            lemma_push_new_within(acc, seq![t], cands);
        } else {
            let cs = chains(g, q, cands, t);
            assert forall|k: int| 0 <= k < cs.len() implies within(#[trigger] cs[k], cands) by {
                let s = qualifying_subclasses(g, q, t)[k];
                assert(cs[k] == chain(g, cands, s));
                assert forall|i: int| 0 <= i < chain(g, cands, s).len() implies cands.contains(
                    #[trigger] chain(g, cands, s)[i],
                ) by {
                    g.mro(s).lemma_filter_pred(|x: usize| cands.contains(x), i);
                }
            }
            lemma_levels_within(cs, max_len(cs), cands);
            lemma_concat_within(longest_first(cs), cands);
            lemma_push_new_within(acc, concat(longest_first(cs)), cands);
        }
    }
}

/// Ancestor exclusion, for the seed: no ordinary ancestor of the query type
/// is among the abstract types handed to the linearizer.
pub proof fn lemma_seed_excludes_ancestors(g: TypeGraph, q: usize, keys: Seq<usize>)
    ensures
        forall|i: int| 0 <= i < seed(g, q, keys).len() ==> !g.mro(q).contains(#[trigger] seed(g, q, keys)[i]),
{
    let order = registry_order(g, keys);
    let cands = candidates(g, q, order);
    let el = eligible(g, cands);
    assert(within(el, el));
    lemma_seed_over_within(g, q, el, el);
    assert forall|i: int| 0 <= i < seed(g, q, keys).len() implies !g.mro(q).contains(
        #[trigger] seed(g, q, keys)[i],
    ) by {
        let x = seed(g, q, keys)[i];
        assert(el.contains(x));
        cands.lemma_filter_contains_rev(|k: usize| !collapsed(g, cands, k), x);
        if g.mro(q).contains(x) {
            lemma_candidates_exclude_ancestors(g, q, order, x);
        }
    }
}

/// Ancestor exclusion: every entry of a composed linearization is a
/// registry key and a candidate, so never an ordinary ancestor of the query
/// type.
pub proof fn lemma_compose_excludes_ancestors(g: TypeGraph, q: usize, keys: Seq<usize>)
    ensures
        compose_spec(g, q, keys) matches Some(r) ==> forall|i: int|
            0 <= i < r.len() ==> keys.contains(#[trigger] r[i]) && is_candidate_type(g, q, r[i])
                && !g.mro(q).contains(r[i]),
{
    if let Some(r) = compose_spec(g, q, keys) {
        let lin = linearize(g, q, seed(g, q, keys))->Some_0;
        let order = registry_order(g, keys);
        let cands = registry_candidates(g, q, keys);
        assert forall|i: int| 0 <= i < r.len() implies keys.contains(#[trigger] r[i])
            && is_candidate_type(g, q, r[i]) && !g.mro(q).contains(r[i]) by {
            lin.lemma_filter_pred(|x: usize| cands.contains(x), i);
            let j = choose|j: int| 0 <= j < cands.len() && cands[j] == r[i];
            order.lemma_filter_pred(|k: usize| is_candidate_type(g, q, k), j);
            order.lemma_filter_contains_rev(|k: usize| is_candidate_type(g, q, k), r[i]);
            let m = choose|m: int| 0 <= m < order.len() && order[m] == r[i];
            all_handles(g.len()).lemma_filter_pred(|h: usize| keys.contains(h), m);
        }
    }
}

proof fn lemma_restrict_empty(s: Seq<usize>)
    ensures
        restrict(s, Seq::empty()) == Seq::<usize>::empty(),
    decreases s.len(),
{
    reveal(Seq::filter);
    if s.len() > 0 {
        lemma_restrict_empty(s.drop_last());
    }
}

/// Empty registry: the result is empty, unless the query type's own
/// hierarchy is inconsistent.
pub proof fn lemma_empty_registry(g: TypeGraph, q: usize)
    ensures
        seed(g, q, Seq::empty()) == Seq::<usize>::empty(),
        compose_spec(g, q, Seq::empty()) == match linearize(g, q, Seq::empty()) {
            Some(_) => Some(Seq::<usize>::empty()),
            None => None,
        },
{
    reveal(Seq::filter);
    lemma_restrict_empty(all_handles(g.len()));
    let cands = registry_candidates(g, q, Seq::empty());
    assert(cands == Seq::<usize>::empty());
    assert(eligible(g, cands) == Seq::<usize>::empty());
    if let Some(lin) = linearize(g, q, Seq::empty()) {
        lemma_restrict_empty(lin);
    }
}

} // verus!
