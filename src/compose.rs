//! The entry point: narrow a registry to the types relevant to a query type,
//! order them into a seed sequence, linearize the query type with them, and
//! keep the registered candidates of that linearization.
use vstd::prelude::*;
use crate::graph::{contains_handle, copy_range, handles_below, TypeGraph};
use crate::linearize::{compute, linearize};
use crate::merge::{outcome, views, MroError};

verus! {

/// A registered type that may take part in the query's linearization: not an
/// ordinary ancestor of `q`, known to the graph and introspectable, no parameterized alias, and a
/// supertype of `q`.
pub open spec fn is_candidate_type(g: TypeGraph, q: usize, k: usize) -> bool {
    &&& g.valid(k)
    &&& !g.mro(q).contains(k)
    &&& g.types@[k as int].introspectable
    &&& !g.types@[k as int].generic_alias
    &&& g.is_subtype(q, k)
}

/// Every handle of a graph of `n` types, ascending.
pub open spec fn all_handles(n: nat) -> Seq<usize> {
    Seq::new(n, |i: int| i as usize)
}

/// The registry keys known to the graph, ascending and once each: the order
/// in which the keys were given plays no part.
pub open spec fn registry_order(g: TypeGraph, keys: Seq<usize>) -> Seq<usize> {
    restrict(all_handles(g.len()), keys)
}

/// The candidates among `keys`, in the order they are given.
pub open spec fn candidates(g: TypeGraph, q: usize, keys: Seq<usize>) -> Seq<usize> {
    keys.filter(|k: usize| is_candidate_type(g, q, k))
}

/// `p` is a strict ancestor of some other entry of `cands`.
pub open spec fn collapsed(g: TypeGraph, cands: Seq<usize>, p: usize) -> bool {
    exists|i: int| 0 <= i < cands.len() && cands[i] != p && g.mro(#[trigger] cands[i]).contains(p)
}

/// The candidates that are no strict ancestor of another candidate.
pub open spec fn eligible(g: TypeGraph, cands: Seq<usize>) -> Seq<usize> {
    cands.filter(|k: usize| !collapsed(g, cands, k))
}

/// The known subclasses of `t` that are no ordinary ancestor of `q` and are
/// supertypes of `q`.
pub open spec fn qualifying_subclasses(g: TypeGraph, q: usize, t: usize) -> Seq<usize> {
    g.subclasses(t).filter(|s: usize| !g.mro(q).contains(s) && g.is_subtype(q, s))
}

/// The entries of `s` that are entries of `c`, in order.
pub open spec fn restrict(s: Seq<usize>, c: Seq<usize>) -> Seq<usize> {
    s.filter(|x: usize| c.contains(x))
}

/// The linearization of `s` restricted to the eligible types `el`.
pub open spec fn chain(g: TypeGraph, el: Seq<usize>, s: usize) -> Seq<usize> {
    restrict(g.mro(s), el)
}

pub open spec fn chains(g: TypeGraph, q: usize, el: Seq<usize>, t: usize) -> Seq<Seq<usize>> {
    qualifying_subclasses(g, q, t).map_values(|s: usize| chain(g, el, s))
}

pub open spec fn max_len(cs: Seq<Seq<usize>>) -> nat
    decreases cs.len(),
{
    if cs.len() == 0 {
        0
    } else {
        let m = max_len(cs.drop_last());
        if cs.last().len() > m {
            cs.last().len()
        } else {
            m
        }
    }
}

/// The entries of `cs` of length `l`, then those of each shorter length, each
/// group in its order in `cs`.
pub open spec fn level(cs: Seq<Seq<usize>>, l: nat) -> Seq<Seq<usize>> {
    cs.filter(|c: Seq<usize>| c.len() == l)
}

pub open spec fn levels_from(cs: Seq<Seq<usize>>, l: nat) -> Seq<Seq<usize>>
    decreases l,
{
    if l == 0 {
        level(cs, l)
    } else {
        level(cs, l) + levels_from(cs, (l - 1) as nat)
    }
}

/// `cs` ordered by descending length; equal lengths keep their order.
pub open spec fn longest_first(cs: Seq<Seq<usize>>) -> Seq<Seq<usize>> {
    levels_from(cs, max_len(cs))
}

pub open spec fn concat(cs: Seq<Seq<usize>>) -> Seq<usize>
    decreases cs.len(),
{
    if cs.len() == 0 {
        Seq::empty()
    } else {
        concat(cs.drop_last()) + cs.last()
    }
}

/// `acc` with each entry of `xs` appended in order, unless already present.
pub open spec fn push_new(acc: Seq<usize>, xs: Seq<usize>) -> Seq<usize>
    decreases xs.len(),
{
    if xs.len() == 0 {
        acc
    } else {
        let a = push_new(acc, xs.drop_last());
        if a.contains(xs.last()) {
            a
        } else {
            a.push(xs.last())
        }
    }
}

/// What the eligible type `t` adds to the seed: itself where no qualifying
/// subclass is known, else its stabilizing chains, longest first.
pub open spec fn seed_step(g: TypeGraph, q: usize, el: Seq<usize>, acc: Seq<usize>, t: usize) -> Seq<usize> {
    if qualifying_subclasses(g, q, t).len() == 0 {
        push_new(acc, seq![t])
    } else {
        push_new(acc, concat(longest_first(chains(g, q, el, t))))
    }
}

pub open spec fn seed_over(g: TypeGraph, q: usize, cands: Seq<usize>, el: Seq<usize>) -> Seq<usize>
    decreases el.len(),
{
    if el.len() == 0 {
        Seq::empty()
    } else {
        seed_step(g, q, cands, seed_over(g, q, cands, el.drop_last()), el.last())
    }
}

/// The candidates of the registry `keys` for the query type `q`.
pub open spec fn registry_candidates(g: TypeGraph, q: usize, keys: Seq<usize>) -> Seq<usize> {
    candidates(g, q, registry_order(g, keys))
}

/// The seed sequence for the query type `q` and the registry keys `keys`.
pub open spec fn seed(g: TypeGraph, q: usize, keys: Seq<usize>) -> Seq<usize> {
    let el = eligible(g, registry_candidates(g, q, keys));
    seed_over(g, q, el, el)
}

/// The order in which dispatch tries the registered types for `q`: the
/// linearization of `q` with the seed injected, cut to the candidates. The
/// query type's ordinary ancestors are left to the host object model.
pub open spec fn compose_spec(g: TypeGraph, q: usize, keys: Seq<usize>) -> Option<Seq<usize>> {
    match linearize(g, q, seed(g, q, keys)) {
        Some(r) => Some(restrict(r, registry_candidates(g, q, keys))),
        None => None,
    }
}

fn is_candidate_exec(g: &TypeGraph, q: usize, k: usize) -> (r: bool)
    requires
        g.wf(),
        g.valid(q),
    ensures
        r == is_candidate_type(*g, q, k),
{
    k < g.types.len() && !contains_handle(&g.types[q].mro, k) && g.types[k].introspectable
        && !g.types[k].generic_alias && g.subtype(q, k)
}

/// The registry keys that may take part in the linearization of `q`.
pub fn select_candidates(g: &TypeGraph, q: usize, keys: &Vec<usize>) -> (r: Vec<usize>)
    requires
        g.wf(),
        g.valid(q),
    ensures
        r@ == candidates(*g, q, keys@),
        handles_below(r@, g.len()),
{
    let mut r: Vec<usize> = Vec::new();
    let mut i: usize = 0;
    while i < keys.len()
        invariant
            g.wf(),
            g.valid(q),
            i <= keys@.len(),
            r@ == candidates(*g, q, keys@.take(i as int)),
            handles_below(r@, g.len()),
        decreases keys@.len() - i,
    {
        proof {
            reveal(Seq::filter);
            assert(keys@.take(i + 1).drop_last() =~= keys@.take(i as int));
            assert(keys@.take(i + 1).last() == keys@[i as int]);
        }
        if is_candidate_exec(g, q, keys[i]) {
            r.push(keys[i]);
        }
        i += 1;
    }
    assert(keys@.take(i as int) =~= keys@);
    r
}

fn is_collapsed(g: &TypeGraph, cands: &Vec<usize>, p: usize) -> (r: bool)
    requires
        g.wf(),
        handles_below(cands@, g.len()),
    ensures
        r == collapsed(*g, cands@, p),
{
    let mut i: usize = 0;
    while i < cands.len()
        invariant
            g.wf(),
            handles_below(cands@, g.len()),
            i <= cands@.len(),
            forall|j: int|
                0 <= j < i ==> !(cands@[j] != p && g.mro(#[trigger] cands@[j]).contains(p)),
        decreases cands@.len() - i,
    {
        if cands[i] != p && contains_handle(&g.types[cands[i]].mro, p) {
            return true;
        }
        i += 1;
    }
    false
}

/// The candidates that are no strict ancestor of another candidate, in order.
pub fn select_eligible(g: &TypeGraph, cands: &Vec<usize>) -> (r: Vec<usize>)
    requires
        g.wf(),
        handles_below(cands@, g.len()),
    ensures
        r@ == eligible(*g, cands@),
        handles_below(r@, g.len()),
{
    let mut r: Vec<usize> = Vec::new();
    let mut i: usize = 0;
    while i < cands.len()
        invariant
            g.wf(),
            handles_below(cands@, g.len()),
            i <= cands@.len(),
            r@ == cands@.take(i as int).filter(|k: usize| !collapsed(*g, cands@, k)),
            handles_below(r@, g.len()),
        decreases cands@.len() - i,
    {
        proof {
            reveal(Seq::filter);
            assert(cands@.take(i + 1).drop_last() =~= cands@.take(i as int));
            assert(cands@.take(i + 1).last() == cands@[i as int]);
        }
        if !is_collapsed(g, cands, cands[i]) {
            r.push(cands[i]);
        }
        i += 1;
    }
    assert(cands@.take(i as int) =~= cands@);
    r
}

fn select_subclasses(g: &TypeGraph, q: usize, t: usize) -> (r: Vec<usize>)
    requires
        g.wf(),
        g.valid(q),
        g.valid(t),
    ensures
        r@ == qualifying_subclasses(*g, q, t),
        handles_below(r@, g.len()),
{
    assert(g.info_wf(t));
    let subs = &g.types[t].subclasses;
    let mut r: Vec<usize> = Vec::new();
    let mut i: usize = 0;
    while i < subs.len()
        invariant
            g.wf(),
            g.valid(q),
            subs@ == g.subclasses(t),
            handles_below(subs@, g.len()),
            i <= subs@.len(),
            r@ == subs@.take(i as int).filter(
                |s: usize| !g.mro(q).contains(s) && g.is_subtype(q, s),
            ),
            handles_below(r@, g.len()),
        decreases subs@.len() - i,
    {
        proof {
            reveal(Seq::filter);
            assert(subs@.take(i + 1).drop_last() =~= subs@.take(i as int));
            assert(subs@.take(i + 1).last() == subs@[i as int]);
        }
        let s = subs[i];
        if !contains_handle(&g.types[q].mro, s) && g.subtype(q, s) {
            r.push(s);
        }
        i += 1;
    }
    assert(subs@.take(i as int) =~= subs@);
    r
}

/// The entries of `s` that `c` holds, in order.
pub fn restrict_to(s: &Vec<usize>, c: &Vec<usize>) -> (r: Vec<usize>)
    ensures
        r@ == restrict(s@, c@),
{
    let mut r: Vec<usize> = Vec::new();
    let mut i: usize = 0;
    while i < s.len()
        invariant
            i <= s@.len(),
            r@ == restrict(s@.take(i as int), c@),
        decreases s@.len() - i,
    {
        proof {
            reveal(Seq::filter);
            assert(s@.take(i + 1).drop_last() =~= s@.take(i as int));
            assert(s@.take(i + 1).last() == s@[i as int]);
        }
        if contains_handle(c, s[i]) {
            r.push(s[i]);
        }
        i += 1;
    }
    assert(s@.take(i as int) =~= s@);
    r
}

/// The registry keys the graph knows, ascending and once each.
pub fn order_keys(g: &TypeGraph, keys: &Vec<usize>) -> (r: Vec<usize>)
    ensures
        r@ == registry_order(*g, keys@),
{
    let n = g.types.len();
    let ghost all = all_handles(n as nat);
    let mut r: Vec<usize> = Vec::new();
    let mut h: usize = 0;
    while h < n
        invariant
            n == g.len(),
            all == all_handles(n as nat),
            h <= n,
            r@ == restrict(all.take(h as int), keys@),
        decreases n - h,
    {
        proof {
            reveal(Seq::filter);
            assert(all.take(h + 1).drop_last() =~= all.take(h as int));
            assert(all.take(h + 1).last() == h);
        }
        if contains_handle(keys, h) {
            r.push(h);
        }
        h += 1;
    }
    assert(all.take(h as int) =~= all);
    r
}

/// The chains, longest first; chains of equal length keep their order.
pub fn order_longest_first(cs: &Vec<Vec<usize>>) -> (r: Vec<Vec<usize>>)
    ensures
        views(r@) == longest_first(views(cs@)),
{
    let ghost v = views(cs@);
    let mut m: usize = 0;
    let mut i: usize = 0;
    while i < cs.len()
        invariant
            v == views(cs@),
            i <= cs@.len(),
            m == max_len(v.take(i as int)),
        decreases cs@.len() - i,
    {
        assert(v.take(i + 1).drop_last() =~= v.take(i as int));
        assert(v.take(i + 1).last() == cs@[i as int]@);
        if cs[i].len() > m {
            m = cs[i].len();
        }
        i += 1;
    }
    assert(v.take(i as int) =~= v);
    let mut out: Vec<Vec<usize>> = Vec::new();
    let mut l: usize = m;
    let mut done = false;
    assert(views(out@) + levels_from(v, l as nat) =~= levels_from(v, m as nat));
    while !done
        invariant
            v == views(cs@),
            l <= m,
            !done ==> views(out@) + levels_from(v, l as nat) == levels_from(v, m as nat),
            done ==> views(out@) == levels_from(v, m as nat),
        decreases l + (if done { 0int } else { 1int }),
    {
        let ghost before = views(out@);
        let mut j: usize = 0;
        assert(before + level(v.take(0), l as nat) =~= before) by {
            reveal(Seq::filter);
        }
        while j < cs.len()
            invariant
                v == views(cs@),
                j <= cs@.len(),
                views(out@) == before + level(v.take(j as int), l as nat),
            decreases cs@.len() - j,
        {
            proof {
                reveal(Seq::filter);
                assert(v.take(j + 1).drop_last() =~= v.take(j as int));
                assert(v.take(j + 1).last() == cs@[j as int]@);
            }
            if cs[j].len() == l {
                let c = copy_range(&cs[j], 0, cs[j].len());
                assert(c@ =~= cs@[j as int]@);
                let ghost prev = out@;
                out.push(c);
                assert(views(out@) =~= views(prev).push(c@));
                assert(views(out@) =~= before + level(v.take(j + 1), l as nat));
            }
            j += 1;
        }
        assert(v.take(j as int) =~= v);
        if l == 0 {
            assert(views(out@) =~= levels_from(v, m as nat));
            done = true;
        } else {
            assert(levels_from(v, l as nat) == level(v, l as nat) + levels_from(v, (l - 1) as nat));
            assert(views(out@) + levels_from(v, (l - 1) as nat) =~= levels_from(v, m as nat));
            l -= 1;
        }
    }
    out
}

/// The chains one after another.
pub fn concat_chains(cs: &Vec<Vec<usize>>) -> (r: Vec<usize>)
    ensures
        r@ == concat(views(cs@)),
{
    let ghost v = views(cs@);
    let mut out: Vec<usize> = Vec::new();
    let mut i: usize = 0;
    while i < cs.len()
        invariant
            v == views(cs@),
            i <= cs@.len(),
            out@ == concat(v.take(i as int)),
        decreases cs@.len() - i,
    {
        assert(v.take(i + 1).drop_last() =~= v.take(i as int));
        assert(v.take(i + 1).last() == cs@[i as int]@);
        let mut c = copy_range(&cs[i], 0, cs[i].len());
        assert(c@ =~= cs@[i as int]@);
        out.append(&mut c);
        i += 1;
    }
    assert(v.take(i as int) =~= v);
    out
}

/// Appends each entry of `xs` that `acc` does not hold yet, in order.
pub fn append_new(acc: &mut Vec<usize>, xs: &Vec<usize>)
    ensures
        final(acc)@ == push_new(old(acc)@, xs@),
{
    let ghost start = acc@;
    let mut i: usize = 0;
    assert(xs@.take(0) =~= Seq::<usize>::empty());
    while i < xs.len()
        invariant
            i <= xs@.len(),
            acc@ == push_new(start, xs@.take(i as int)),
        decreases xs@.len() - i,
    {
        assert(xs@.take(i + 1).drop_last() =~= xs@.take(i as int));
        assert(xs@.take(i + 1).last() == xs@[i as int]);
        if !contains_handle(acc, xs[i]) {
            acc.push(xs[i]);
        }
        i += 1;
    }
    assert(xs@.take(i as int) =~= xs@);
}

/// The seed sequence: the eligible registry types, each followed or replaced
/// by the chains of its known subclasses that stabilize its position.
pub fn seed_sequence(g: &TypeGraph, q: usize, keys: &Vec<usize>) -> (r: Vec<usize>)
    requires
        g.wf(),
        g.valid(q),
    ensures
        r@ == seed(*g, q, keys@),
{
    let ordered = order_keys(g, keys);
    let cands = select_candidates(g, q, &ordered);
    let el = select_eligible(g, &cands);
    let mut acc: Vec<usize> = Vec::new();
    let mut i: usize = 0;
    while i < el.len()
        invariant
            g.wf(),
            g.valid(q),
            cands@ == registry_candidates(*g, q, keys@),
            handles_below(cands@, g.len()),
            el@ == eligible(*g, cands@),
            handles_below(el@, g.len()),
            i <= el@.len(),
            acc@ == seed_over(*g, q, el@, el@.take(i as int)),
        decreases el@.len() - i,
    {
        assert(el@.take(i + 1).drop_last() =~= el@.take(i as int));
        assert(el@.take(i + 1).last() == el@[i as int]);
        let t = el[i];
        let subs = select_subclasses(g, q, t);
        if subs.len() == 0 {
            let mut one: Vec<usize> = Vec::new();
            one.push(t);
            assert(one@ =~= seq![t]);
            append_new(&mut acc, &one);
        } else {
            let mut cs: Vec<Vec<usize>> = Vec::new();
            let mut j: usize = 0;
            while j < subs.len()
                invariant
                    g.wf(),
                    handles_below(subs@, g.len()),
                    j <= subs@.len(),
                    cs@.len() == j,
                    forall|k: int| 0 <= k < j ==> #[trigger] cs@[k]@ == chain(*g, el@, subs@[k]),
                decreases subs@.len() - j,
            {
                let c = restrict_to(&g.types[subs[j]].mro, &el);
                cs.push(c);
                j += 1;
            }
            assert(views(cs@) =~= chains(*g, q, el@, t));
            let sorted = order_longest_first(&cs);
            let flat = concat_chains(&sorted);
            append_new(&mut acc, &flat);
        }
        i += 1;
    }
    assert(el@.take(i as int) =~= el@);
    acc
}

/// The order in which dispatch tries the registered types for the query
/// type `q` when the registry holds `keys`: the seed is spliced into the C3
/// linearization of `q`, which is then cut to the candidates. The error comes
/// exactly where a merge on the way finds the declared orders inconsistent.
pub fn compose(g: &TypeGraph, q: usize, keys: &Vec<usize>) -> (r: Result<Vec<usize>, MroError>)
    requires
        g.wf(),
        g.valid(q),
    ensures
        outcome(r) == compose_spec(*g, q, keys@),
{
    let s = seed_sequence(g, q, keys);
    match compute(g, q, &s) {
        Ok(lin) => {
            let cands = select_candidates(g, q, &order_keys(g, keys));
            Ok(restrict_to(&lin, &cands))
        },
        Err(e) => Err(e),
    }
}

} // verus!
