//! The recursive linearizer: C3 over the supertype graph, with abstract
//! markers spliced in where a type conforms to them without declaring them.
use vstd::prelude::*;
use crate::graph::{copy_range, handles_below, TypeGraph};
use crate::merge::{c3_merge, merge, outcome, views, MroError};

verus! {

/// The index right after the last abstract entry of `bases`; 0 when none is
/// abstract.
pub open spec fn boundary_of(g: TypeGraph, bases: Seq<usize>) -> nat
    decreases bases.len(),
{
    if bases.len() == 0 {
        0
    } else if g.is_abstract(bases.last()) {
        bases.len()
    } else {
        boundary_of(g, bases.drop_last())
    }
}

/// `t` conforms to the abstract type `a`, but none of its direct supertypes
/// does: `a` enters the linearization at `t`.
pub open spec fn implied(g: TypeGraph, t: usize, a: usize) -> bool {
    &&& g.is_subtype(t, a)
    &&& !exists|i: int| 0 <= i < g.bases(t).len() && g.is_subtype(#[trigger] g.bases(t)[i], a)
}

pub open spec fn abstract_bases(g: TypeGraph, t: usize, abcs: Seq<usize>) -> Seq<usize> {
    abcs.filter(|a: usize| implied(g, t, a))
}

pub open spec fn remaining_abstracts(g: TypeGraph, t: usize, abcs: Seq<usize>) -> Seq<usize> {
    abcs.filter(|a: usize| !implied(g, t, a))
}

/// The types whose linearizations feed the merge at `t`: explicit bases,
/// then the abstract ones implied at `t`, then the other bases.
pub open spec fn merge_order(g: TypeGraph, t: usize, abcs: Seq<usize>) -> Seq<usize> {
    let b = boundary_of(g, g.bases(t)) as int;
    g.bases(t).take(b) + abstract_bases(g, t, abcs) + g.bases(t).skip(b)
}

pub proof fn lemma_abstract_split(g: TypeGraph, t: usize, abcs: Seq<usize>)
    ensures
        abstract_bases(g, t, abcs).len() + remaining_abstracts(g, t, abcs).len() == abcs.len(),
    decreases abcs.len(),
{
    reveal(Seq::filter);
    if abcs.len() > 0 {
        lemma_abstract_split(g, t, abcs.drop_last());
        assert(abstract_bases(g, t, abcs) == if implied(g, t, abcs.last()) {
            abstract_bases(g, t, abcs.drop_last()).push(abcs.last())
        } else {
            abstract_bases(g, t, abcs.drop_last())
        });
        assert(remaining_abstracts(g, t, abcs) == if !implied(g, t, abcs.last()) {
            remaining_abstracts(g, t, abcs.drop_last()).push(abcs.last())
        } else {
            remaining_abstracts(g, t, abcs.drop_last())
        });
    }
}

pub proof fn lemma_boundary_le(g: TypeGraph, bases: Seq<usize>)
    ensures
        boundary_of(g, bases) <= bases.len(),
    decreases bases.len(),
{
    if bases.len() > 0 {
        lemma_boundary_le(g, bases.drop_last());
    }
}

/// The linearizations of the types of `merge_order`, each with the abstract
/// types that remain once those implied at `t` are taken out.
pub open spec fn sub_linearizations(g: TypeGraph, t: usize, abcs: Seq<usize>) -> Seq<Option<Seq<usize>>>
    decreases abcs.len(), g.mro(t).len(), 0nat,
    when g.wf() && g.valid(t)
{
    let bases = g.bases(t);
    let b = boundary_of(g, bases) as int;
    let absb = abstract_bases(g, t, abcs);
    let rem = remaining_abstracts(g, t, abcs);
    let order = merge_order(g, t, abcs);
    proof {
        assert(g.info_wf(t));
        lemma_boundary_le(g, bases);
        lemma_abstract_split(g, t, abcs);
        assert forall|i: int| 0 <= i < order.len() && !(b <= i < b + absb.len()) implies g.mro(
            #[trigger] order[i],
        ).len() < g.mro(t).len() by {
            if i < b {
                assert(order[i] == bases[i]);
            } else {
                assert(order[i] == bases[i - absb.len()]);
            }
        }
    }
    Seq::new(
        order.len(),
        |i: int|
            if 0 <= i < order.len() {
                linearize(g, order[i], rem)
            } else {
                None
            },
    )
}

/// The linearization of `t` when `abcs` are the abstract types still to be
/// injected; `None` where a merge on the way is inconsistent.
pub open spec fn linearize(g: TypeGraph, t: usize, abcs: Seq<usize>) -> Option<Seq<usize>>
    decreases abcs.len(), g.mro(t).len(), 1nat,
    when g.wf() && g.valid(t)
{
    let bases = g.bases(t);
    if bases.len() == 0 {
        Some(Seq::empty())
    } else {
        let b = boundary_of(g, bases) as int;
        let subs = sub_linearizations(g, t, abcs);
        if forall|i: int| 0 <= i < subs.len() ==> #[trigger] subs[i] is Some {
            c3_merge(
                seq![seq![t]] + subs.map_values(|o: Option<Seq<usize>>| o->Some_0) + seq![
                    bases.take(b),
                    abstract_bases(g, t, abcs),
                    bases.skip(b),
                ],
            )
        } else {
            None
        }
    }
}

/// The boundary between explicit and other bases: right after the last
/// abstract one, or 0.
pub fn boundary(g: &TypeGraph, bases: &Vec<usize>) -> (b: usize)
    requires
        handles_below(bases@, g.len()),
    ensures
        b == boundary_of(*g, bases@),
{
    let mut i: usize = bases.len();
    assert(bases@.take(i as int) =~= bases@);
    while i > 0
        invariant
            i <= bases@.len(),
            handles_below(bases@, g.len()),
            boundary_of(*g, bases@) == boundary_of(*g, bases@.take(i as int)),
        decreases i,
    {
        assert(bases@.take(i as int).drop_last() =~= bases@.take(i - 1));
        if g.types[bases[i - 1]].is_abstract {
            return i;
        }
        i -= 1;
    }
    0
}

/// Whether the abstract type `a` enters the linearization at `t`.
pub fn is_implied(g: &TypeGraph, t: usize, a: usize) -> (r: bool)
    requires
        g.wf(),
        g.valid(t),
    ensures
        r == implied(*g, t, a),
{
    assert(g.info_wf(t));
    if !g.subtype(t, a) {
        return false;
    }
    let bases = &g.types[t].bases;
    let mut i: usize = 0;
    while i < bases.len()
        invariant
            g.wf(),
            g.valid(t),
            bases@ == g.bases(t),
            handles_below(bases@, g.len()),
            i <= bases@.len(),
            forall|j: int| 0 <= j < i ==> !g.is_subtype(#[trigger] bases@[j], a),
        decreases bases@.len() - i,
    {
        if g.subtype(bases[i], a) {
            return false;
        }
        i += 1;
    }
    true
}

/// Splits `abcs` into those implied at `t` and the rest, order kept.
fn split_abstracts(g: &TypeGraph, t: usize, abcs: &Vec<usize>) -> (r: (Vec<usize>, Vec<usize>))
    requires
        g.wf(),
        g.valid(t),
    ensures
        r.0@ == abstract_bases(*g, t, abcs@),
        r.1@ == remaining_abstracts(*g, t, abcs@),
        handles_below(r.0@, g.len()),
{
    reveal(Seq::filter);
    let mut absb: Vec<usize> = Vec::new();
    let mut rem: Vec<usize> = Vec::new();
    let mut i: usize = 0;
    while i < abcs.len()
        invariant
            g.wf(),
            g.valid(t),
            i <= abcs@.len(),
            absb@ == abstract_bases(*g, t, abcs@.take(i as int)),
            rem@ == remaining_abstracts(*g, t, abcs@.take(i as int)),
            handles_below(absb@, g.len()),
        decreases abcs@.len() - i,
    {
        proof {
        reveal(Seq::filter);
        assert(abcs@.take(i + 1).drop_last() =~= abcs@.take(i as int));
        assert(abcs@.take(i + 1).last() == abcs@[i as int]);
        assert(abstract_bases(*g, t, abcs@.take(i + 1)) == if implied(*g, t, abcs@[i as int]) {
            abstract_bases(*g, t, abcs@.take(i as int)).push(abcs@[i as int])
        } else {
            abstract_bases(*g, t, abcs@.take(i as int))
        });
        assert(remaining_abstracts(*g, t, abcs@.take(i + 1)) == if !implied(*g, t, abcs@[i as int]) {
            remaining_abstracts(*g, t, abcs@.take(i as int)).push(abcs@[i as int])
        } else {
            remaining_abstracts(*g, t, abcs@.take(i as int))
        });
        }
        if is_implied(g, t, abcs[i]) {
            proof {
                assert(g.info_wf(t));
                let j = choose|j: int|
                    0 <= j < g.types@[t as int].supertypes@.len()
                        && g.types@[t as int].supertypes@[j] == abcs@[i as int];
                assert(g.types@[t as int].supertypes@[j] < g.len());
            }
            absb.push(abcs[i]);
        } else {
            rem.push(abcs[i]);
        }
        i += 1;
    }
    assert(abcs@.take(i as int) =~= abcs@);
    (absb, rem)
}

/// The linearization of `t`, with the abstract types of `abcs` injected
/// where `t` or its ancestors imply them.
pub fn compute(g: &TypeGraph, t: usize, abcs: &Vec<usize>) -> (r: Result<Vec<usize>, MroError>)
    requires
        g.wf(),
        g.valid(t),
    ensures
        outcome(r) == linearize(*g, t, abcs@),
    decreases abcs@.len(), g.mro(t).len(),
{
    assert(g.info_wf(t));
    let bases = &g.types[t].bases;
    assert(bases@ == g.bases(t));
    if bases.len() == 0 {
        return Ok(Vec::new());
    }
    let b = boundary(g, bases);
    proof {
        lemma_boundary_le(*g, bases@);
        lemma_abstract_split(*g, t, abcs@);
    }
    let (absb, rem) = split_abstracts(g, t, abcs);
    let explicit = copy_range(bases, 0, b);
    let other = copy_range(bases, b, bases.len());
    let mut order: Vec<usize> = Vec::new();
    order.append(&mut copy_range(bases, 0, b));
    order.append(&mut copy_range(&absb, 0, absb.len()));
    order.append(&mut copy_range(bases, b, bases.len()));
    let ghost order_spec = merge_order(*g, t, abcs@);
    assert(order@ =~= order_spec);
    assert(absb@.subrange(0, absb@.len() as int) =~= absb@);
    let ghost subs = sub_linearizations(*g, t, abcs@);
    assert(forall|k: int|
        0 <= k < order_spec.len() ==> #[trigger] subs[k] == linearize(*g, order_spec[k], rem@));
    let mut seqs: Vec<Vec<usize>> = Vec::new();
    seqs.push(vec![t]);
    let mut i: usize = 0;
    while i < order.len()
        invariant
            g.wf(),
            g.valid(t),
            g.info_wf(t),
            order@ == order_spec,
            subs.len() == order@.len(),
            g.bases(t).len() > 0,
            subs == sub_linearizations(*g, t, abcs@),
            forall|k: int|
                0 <= k < order_spec.len() ==> #[trigger] subs[k] == linearize(*g, order_spec[k], rem@),
            bases@ == g.bases(t),
            order_spec == g.bases(t).take(b as int) + absb@ + g.bases(t).skip(b as int),
            b == boundary_of(*g, g.bases(t)),
            b <= g.bases(t).len(),
            absb@ == abstract_bases(*g, t, abcs@),
            rem@ == remaining_abstracts(*g, t, abcs@),
            absb@.len() + rem@.len() == abcs@.len(),
            handles_below(absb@, g.len()),
            order@.len() == g.bases(t).len() + absb@.len(),
            i <= order@.len(),
            seqs@.len() == i + 1,
            views(seqs@)[0] == seq![t],
            forall|j: int| 0 <= j < i ==> #[trigger] subs[j] == Some(views(seqs@)[j + 1]),
        decreases order@.len() - i,
    {
        let x = order[i];
        proof {
            assert(order@ == g.bases(t).take(b as int) + absb@ + g.bases(t).skip(b as int));
            if i < b {
                assert(order@[i as int] == g.bases(t)[i as int]);
            } else if i >= b + absb@.len() {
                assert(order@[i as int] == g.bases(t)[i - absb@.len()]);
            }
        }
        assert(subs[i as int] == linearize(*g, x, rem@));
        match compute(g, x, &rem) {
            Ok(s) => {
                let ghost before = seqs@;
                seqs.push(s);
                assert forall|j: int| 0 <= j < i + 1 implies #[trigger] subs[j] == Some(views(seqs@)[j + 1]) by {
                    if j < i {
                        assert(views(seqs@)[j + 1] == views(before)[j + 1]);
                    }
                }
            },
            Err(e) => {
                assert(!(subs[i as int] is Some));
                assert(linearize(*g, t, abcs@) is None);
                return Err(e);
            },
        }
        i += 1;
    }
    let ghost mid = seqs@;
    seqs.push(explicit);
    seqs.push(absb);
    seqs.push(other);
    assert forall|j: int| 0 <= j < mid.len() implies #[trigger] views(seqs@)[j] == views(mid)[j] by {}
    assert(views(seqs@)[mid.len() as int] == g.bases(t).take(b as int));
    let ghost all = seq![seq![t]] + subs.map_values(|o: Option<Seq<usize>>| o->Some_0) + seq![
        g.bases(t).take(b as int),
        abstract_bases(*g, t, abcs@),
        g.bases(t).skip(b as int),
    ];
    assert(views(seqs@)[mid.len() + 1int] == abstract_bases(*g, t, abcs@));
    assert(views(seqs@)[mid.len() + 2int] == g.bases(t).skip(b as int));
    assert(all.len() == seqs@.len());
    assert forall|j: int| 0 <= j < all.len() implies #[trigger] all[j] == views(seqs@)[j] by {
        if 1 <= j < mid.len() {
            assert(subs[j - 1] == Some(views(mid)[j]));
            assert(views(mid)[j] == subs[j - 1]->Some_0);
        }
    }
    assert(views(seqs@) =~= all);
    assert(forall|k: int| 0 <= k < subs.len() ==> #[trigger] subs[k] is Some);
    assert(linearize(*g, t, abcs@) == c3_merge(all));
    merge(&seqs)
}

} // verus!
