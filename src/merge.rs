//! The C3 merge of ordered label sequences.
//!
//! The merge knows nothing of types: it works on any sequences of `usize`
//! labels, and fails when no order is consistent with all of them.
use vstd::prelude::*;

verus! {

/// The one way a linearization can fail: the declared orders contradict
/// each other.
#[derive(Debug, Clone, Copy, PartialEq, Eq, Structural)]
pub enum MroError {
    Inconsistency,
}

/// Whether `x` stands anywhere but first in some sequence of `seqs`.
pub open spec fn in_tail(seqs: Seq<Seq<usize>>, x: usize) -> bool {
    exists|k: int, i: int| 0 <= k < seqs.len() && 1 <= i < seqs[k].len() && #[trigger] seqs[k][i] == x
}

/// Whether the head of sequence `k` may come next.
pub open spec fn is_candidate(seqs: Seq<Seq<usize>>, k: int) -> bool {
    0 <= k < seqs.len() && seqs[k].len() > 0 && !in_tail(seqs, seqs[k][0])
}

/// The first sequence at or after `k` whose head may come next.
pub open spec fn first_candidate_from(seqs: Seq<Seq<usize>>, k: int) -> Option<int>
    decreases seqs.len() - k,
{
    if k < 0 || k >= seqs.len() {
        None
    } else if is_candidate(seqs, k) {
        Some(k)
    } else {
        first_candidate_from(seqs, k + 1)
    }
}

pub open spec fn all_empty(seqs: Seq<Seq<usize>>) -> bool {
    forall|k: int| 0 <= k < seqs.len() ==> #[trigger] seqs[k].len() == 0
}

/// `seqs` with `x` taken off the front of each sequence that starts with it.
pub open spec fn drop_head(seqs: Seq<Seq<usize>>, x: usize) -> Seq<Seq<usize>> {
    Seq::new(
        seqs.len(),
        |k: int|
            if seqs[k].len() > 0 && seqs[k][0] == x {
                seqs[k].drop_first()
            } else {
                seqs[k]
            },
    )
}

pub open spec fn total_len(seqs: Seq<Seq<usize>>) -> nat
    decreases seqs.len(),
{
    if seqs.len() == 0 {
        0
    } else {
        total_len(seqs.drop_last()) + seqs.last().len()
    }
}

/// The C3 merge: repeatedly take the first head that is in no tail, until all
/// sequences are used up; `None` where at some step no head qualifies.
pub open spec fn c3_merge(seqs: Seq<Seq<usize>>) -> Option<Seq<usize>>
    decreases total_len(seqs),
{
    if all_empty(seqs) {
        Some(Seq::empty())
    } else {
        match first_candidate_from(seqs, 0) {
            None => None,
            Some(k) => {
                proof {
                    lemma_first_candidate_is_candidate(seqs, 0);
                    lemma_drop_head_shrinks(seqs, k);
                }
                match c3_merge(drop_head(seqs, seqs[k][0])) {
                    Some(r) => Some(seq![seqs[k][0]] + r),
                    None => None,
                }
            },
        }
    }
}

pub proof fn lemma_first_candidate_is_candidate(seqs: Seq<Seq<usize>>, k: int)
    ensures
        first_candidate_from(seqs, k) matches Some(j) ==> k <= j && is_candidate(seqs, j),
    decreases seqs.len() - k,
{
    if 0 <= k < seqs.len() && !is_candidate(seqs, k) {
        lemma_first_candidate_is_candidate(seqs, k + 1);
    }
}

pub proof fn lemma_drop_head_total(seqs: Seq<Seq<usize>>, x: usize)
    ensures
        total_len(drop_head(seqs, x)) <= total_len(seqs),
        (exists|k: int| 0 <= k < seqs.len() && seqs[k].len() > 0 && #[trigger] seqs[k][0] == x)
            ==> total_len(drop_head(seqs, x)) < total_len(seqs),
    decreases seqs.len(),
{
    if seqs.len() > 0 {
        let d = drop_head(seqs, x);
        assert(d.drop_last() =~= drop_head(seqs.drop_last(), x));
        lemma_drop_head_total(seqs.drop_last(), x);
        if exists|k: int| 0 <= k < seqs.len() && seqs[k].len() > 0 && #[trigger] seqs[k][0] == x {
            let k = choose|k: int| 0 <= k < seqs.len() && seqs[k].len() > 0 && #[trigger] seqs[k][0] == x;
            if k < seqs.len() - 1 {
                assert(seqs.drop_last()[k][0] == x);
            }
        }
    }
}

pub proof fn lemma_drop_head_shrinks(seqs: Seq<Seq<usize>>, k: int)
    requires
        0 <= k < seqs.len(),
        seqs[k].len() > 0,
    ensures
        total_len(drop_head(seqs, seqs[k][0])) < total_len(seqs),
{
    lemma_drop_head_total(seqs, seqs[k][0]);
}

/// Each vector's contents, in order.
pub open spec fn views(seqs: Seq<Vec<usize>>) -> Seq<Seq<usize>> {
    Seq::new(seqs.len(), |k: int| seqs[k]@)
}

/// What is left of each vector from its start position on.
pub open spec fn suffixes(seqs: Seq<Vec<usize>>, starts: Seq<usize>) -> Seq<Seq<usize>> {
    Seq::new(seqs.len(), |k: int| seqs[k]@.subrange(starts[k] as int, seqs[k]@.len() as int))
}

pub open spec fn starts_ok(seqs: Seq<Vec<usize>>, starts: Seq<usize>) -> bool {
    &&& starts.len() == seqs.len()
    &&& forall|k: int| 0 <= k < seqs.len() ==> #[trigger] starts[k] <= seqs[k]@.len()
}

pub open spec fn prepend(p: Seq<usize>, r: Option<Seq<usize>>) -> Option<Seq<usize>> {
    match r {
        Some(s) => Some(p + s),
        None => None,
    }
}

/// A merge outcome as the spec functions state it.
pub open spec fn outcome(r: Result<Vec<usize>, MroError>) -> Option<Seq<usize>> {
    match r {
        Ok(v) => Some(v@),
        Err(_) => None,
    }
}

fn occurs_in_tail(seqs: &Vec<Vec<usize>>, starts: &Vec<usize>, x: usize) -> (r: bool)
    requires
        starts_ok(seqs@, starts@),
    ensures
        r == in_tail(suffixes(seqs@, starts@), x),
{
    let ghost cur = suffixes(seqs@, starts@);
    let mut k: usize = 0;
    while k < seqs.len()
        invariant
            k <= seqs@.len(),
            starts_ok(seqs@, starts@),
            cur == suffixes(seqs@, starts@),
            forall|k2: int, i: int|
                0 <= k2 < k && 1 <= i < cur[k2].len() ==> #[trigger] cur[k2][i] != x,
        decreases seqs@.len() - k,
    {
        let s = &seqs[k];
        let first = starts[k];
        if first < s.len() {
            let mut i: usize = first + 1;
            while i < s.len()
                invariant
                    k < seqs@.len(),
                    s == seqs@[k as int],
                    first == starts@[k as int],
                    first < i <= s@.len(),
                    cur == suffixes(seqs@, starts@),
                    forall|j: int| 1 <= j < i - first ==> #[trigger] cur[k as int][j] != x,
                decreases s@.len() - i,
            {
                if s[i] == x {
                    assert(cur[k as int][i - first] == x);
                    return true;
                }
                i += 1;
            }
        }
        k += 1;
    }
    false
}

/// Merges the sequences by C3: the result is `c3_merge` of their contents,
/// and the error comes exactly where `c3_merge` gives `None`.
pub fn merge(seqs: &Vec<Vec<usize>>) -> (r: Result<Vec<usize>, MroError>)
    ensures
        outcome(r) == c3_merge(views(seqs@)),
{
    let n = seqs.len();
    let mut starts: Vec<usize> = Vec::new();
    while starts.len() < n
        invariant
            n == seqs@.len(),
            starts@.len() <= n,
            forall|k: int| 0 <= k < starts@.len() ==> #[trigger] starts@[k] == 0,
        decreases n - starts@.len(),
    {
        starts.push(0);
    }
    assert(suffixes(seqs@, starts@) =~= views(seqs@)) by {
        assert forall|k: int| 0 <= k < n implies #[trigger] suffixes(seqs@, starts@)[k] =~= views(
            seqs@,
        )[k] by {}
    }
    let mut result: Vec<usize> = Vec::new();
    proof {
        match c3_merge(views(seqs@)) {
            Some(m) => assert(result@ + m =~= m),
            None => {},
        }
    }
    loop
        invariant
            n == seqs@.len(),
            starts_ok(seqs@, starts@),
            c3_merge(views(seqs@)) == prepend(result@, c3_merge(suffixes(seqs@, starts@))),
        decreases total_len(suffixes(seqs@, starts@)),
    {
        let ghost cur = suffixes(seqs@, starts@);
        let mut k: usize = 0;
        let mut empty = true;
        while k < n
            invariant
                n == seqs@.len(),
                k <= n,
                starts_ok(seqs@, starts@),
                cur == suffixes(seqs@, starts@),
                empty == (forall|j: int| 0 <= j < k ==> #[trigger] cur[j].len() == 0),
            decreases n - k,
        {
            assert(cur[k as int].len() == seqs@[k as int]@.len() - starts@[k as int]);
            if starts[k] < seqs[k].len() {
                empty = false;
            }
            k += 1;
        }
        if empty {
            assert(all_empty(cur));
            assert(result@ + Seq::<usize>::empty() =~= result@);
            return Ok(result);
        }
        let mut k: usize = 0;
        let mut found = false;
        while !found && k < n
            invariant
                n == seqs@.len(),
                k <= n,
                starts_ok(seqs@, starts@),
                cur == suffixes(seqs@, starts@),
                first_candidate_from(cur, 0) == first_candidate_from(cur, k as int),
                found ==> k < n && is_candidate(cur, k as int),
            decreases n - k + (if found { 0int } else { 1int }),
        {
            if starts[k] < seqs[k].len() && !occurs_in_tail(seqs, &starts, seqs[k][starts[k]]) {
                found = true;
            } else {
                k += 1;
            }
        }
        if !found {
            return Err(MroError::Inconsistency);
        }
        let x = seqs[k][starts[k]];
        assert(cur[k as int][0] == x);
        proof {
            lemma_drop_head_shrinks(cur, k as int);
        }
        let ghost next = drop_head(cur, x);
        let mut j: usize = 0;
        while j < n
            invariant
                n == seqs@.len(),
                j <= n,
                starts_ok(seqs@, starts@),
                cur.len() == n,
                next == drop_head(cur, x),
                forall|i: int| 0 <= i < j ==> #[trigger] suffixes(seqs@, starts@)[i] == next[i],
                forall|i: int| j <= i < n ==> #[trigger] suffixes(seqs@, starts@)[i] == cur[i],
            decreases n - j,
        {
            let ghost before = starts@;
            assert(cur[j as int] == suffixes(seqs@, starts@)[j as int]);
            assert(cur[j as int].len() > 0 ==> cur[j as int][0] == seqs@[j as int]@[starts@[j as int] as int]);
            if starts[j] < seqs[j].len() && seqs[j][starts[j]] == x {
                let s = starts[j] + 1;
                starts.set(j, s);
                assert(suffixes(seqs@, starts@)[j as int] =~= next[j as int]);
            } else {
                assert(suffixes(seqs@, starts@)[j as int] =~= next[j as int]);
            }
            assert forall|i: int| 0 <= i < n && i != j implies #[trigger] suffixes(seqs@, starts@)[i]
                == suffixes(seqs@, before)[i] by {}
            j += 1;
        }
        assert(suffixes(seqs@, starts@) =~= next);
        let ghost old_result = result@;
        result.push(x);
        proof {
            match c3_merge(next) {
                Some(m) => assert(old_result + (seq![x] + m) =~= result@ + m),
                None => {},
            }
        }
    }
}

} // verus!
