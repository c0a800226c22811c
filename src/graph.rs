//! A read-only snapshot of the host object model: what the linearization
//! needs to know of each type.
use vstd::prelude::*;

verus! {

/// What introspection reports of one type. Every handle in it is an index
/// into the same `TypeGraph`.
#[derive(Debug)]
pub struct TypeInfo {
    /// The type's own linearization: itself first, no duplicates.
    pub mro: Vec<usize>,
    /// The direct supertypes, in declaration order; empty for a root type.
    pub bases: Vec<usize>,
    /// The subclasses known at the time of the snapshot.
    pub subclasses: Vec<usize>,
    /// Every type this one is a subtype of, by inheritance or by declared
    /// conformance.
    pub supertypes: Vec<usize>,
    /// Whether the type exposes unimplemented capability members.
    pub is_abstract: bool,
    /// Whether the type can be introspected at all.
    pub introspectable: bool,
    /// Whether the type is a parameterized alias of another type.
    pub generic_alias: bool,
}

/// A snapshot of the supertype graph, indexed by `TypeHandle`.
#[derive(Debug)]
pub struct TypeGraph {
    pub types: Vec<TypeInfo>,
}

/// Every entry of `s` is an entry of `c`.
pub open spec fn within(s: Seq<usize>, c: Seq<usize>) -> bool {
    forall|i: int| 0 <= i < s.len() ==> c.contains(#[trigger] s[i])
}

/// Whether every entry of `s` is below `n`.
pub open spec fn handles_below(s: Seq<usize>, n: nat) -> bool {
    forall|i: int| 0 <= i < s.len() ==> #[trigger] s[i] < n
}

impl TypeGraph {
    pub open spec fn len(self) -> nat {
        self.types@.len()
    }

    pub open spec fn valid(self, t: usize) -> bool {
        t < self.types@.len()
    }

    pub open spec fn mro(self, t: usize) -> Seq<usize> {
        self.types@[t as int].mro@
    }

    pub open spec fn bases(self, t: usize) -> Seq<usize> {
        self.types@[t as int].bases@
    }

    pub open spec fn subclasses(self, t: usize) -> Seq<usize> {
        self.types@[t as int].subclasses@
    }

    pub open spec fn is_abstract(self, t: usize) -> bool {
        self.types@[t as int].is_abstract
    }

    /// `a` is a subtype of `b`.
    pub open spec fn is_subtype(self, a: usize, b: usize) -> bool {
        self.types@[a as int].supertypes@.contains(b)
    }

    pub open spec fn info_wf(self, t: usize) -> bool {
        let info = self.types@[t as int];
        &&& handles_below(info.mro@, self.len())
        &&& handles_below(info.bases@, self.len())
        &&& handles_below(info.subclasses@, self.len())
        &&& handles_below(info.supertypes@, self.len())
        &&& forall|i: int|
            0 <= i < info.bases@.len() ==> self.mro(#[trigger] info.bases@[i]).len()
                < info.mro@.len()
        &&& info.mro@.len() > 0
        &&& info.mro@[0] == t
        &&& within(info.mro@, info.supertypes@)
        &&& within(info.bases@, info.supertypes@)
        &&& forall|i: int|
            0 <= i < info.supertypes@.len() ==> within(
                self.types@[#[trigger] info.supertypes@[i] as int].supertypes@,
                info.supertypes@,
            )
    }

    /// Every handle is in range; each direct supertype has a shorter
    /// linearization than its subtype, so the supertype graph has no cycle; a
    /// type's linearization starts with itself; and the subtype relation holds
    /// the linearization and the bases, and is transitive.
    pub open spec fn wf(self) -> bool {
        forall|t: usize| t < self.len() ==> #[trigger] self.info_wf(t)
    }
}

/// Whether `x` occurs in `s`.
pub fn contains_handle(s: &Vec<usize>, x: usize) -> (r: bool)
    ensures
        r == s@.contains(x),
{
    let mut i: usize = 0;
    while i < s.len()
        invariant
            i <= s@.len(),
            forall|j: int| 0 <= j < i ==> s@[j] != x,
        decreases s@.len() - i,
    {
        if s[i] == x {
            return true;
        }
        i += 1;
    }
    false
}

/// The entries of `s` from `lo` up to `hi`.
pub fn copy_range(s: &Vec<usize>, lo: usize, hi: usize) -> (r: Vec<usize>)
    requires
        lo <= hi <= s@.len(),
    ensures
        r@ == s@.subrange(lo as int, hi as int),
{
    let mut r: Vec<usize> = Vec::new();
    let mut i: usize = lo;
    while i < hi
        invariant
            lo <= i <= hi,
            hi <= s@.len(),
            r@ == s@.subrange(lo as int, i as int),
        decreases hi - i,
    {
        r.push(s[i]);
        i += 1;
        assert(r@ =~= s@.subrange(lo as int, i as int));
    }
    r
}

fn all_below(s: &Vec<usize>, n: usize) -> (r: bool)
    ensures
        r == handles_below(s@, n as nat),
{
    let mut i: usize = 0;
    while i < s.len()
        invariant
            i <= s@.len(),
            forall|j: int| 0 <= j < i ==> #[trigger] s@[j] < n,
        decreases s@.len() - i,
    {
        if s[i] >= n {
            return false;
        }
        i += 1;
    }
    true
}

fn all_within(s: &Vec<usize>, c: &Vec<usize>) -> (r: bool)
    ensures
        r == within(s@, c@),
{
    let mut i: usize = 0;
    while i < s.len()
        invariant
            i <= s@.len(),
            forall|j: int| 0 <= j < i ==> c@.contains(#[trigger] s@[j]),
        decreases s@.len() - i,
    {
        if !contains_handle(c, s[i]) {
            return false;
        }
        i += 1;
    }
    true
}

impl TypeGraph {
    fn info_well_formed(&self, t: usize) -> (r: bool)
        requires
            self.valid(t),
        ensures
            r == self.info_wf(t),
    {
        let n = self.types.len();
        let info = &self.types[t];
        if !(all_below(&info.mro, n) && all_below(&info.bases, n) && all_below(&info.subclasses, n)
            && all_below(&info.supertypes, n)) {
            return false;
        }
        let mut i: usize = 0;
        while i < info.bases.len()
            invariant
                n == self.len(),
                self.valid(t),
                info == self.types@[t as int],
                handles_below(info.bases@, n as nat),
                i <= info.bases@.len(),
                forall|j: int|
                    0 <= j < i ==> self.mro(#[trigger] info.bases@[j]).len() < info.mro@.len(),
            decreases info.bases@.len() - i,
        {
            if self.types[info.bases[i]].mro.len() >= info.mro.len() {
                return false;
            }
            i += 1;
        }
        if info.mro.len() == 0 || info.mro[0] != t || !all_within(&info.mro, &info.supertypes)
            || !all_within(&info.bases, &info.supertypes) {
            return false;
        }
        let sup = &info.supertypes;
        let mut k: usize = 0;
        while k < sup.len()
            invariant
                n == self.len(),
                self.valid(t),
                info == self.types@[t as int],
                sup == &info.supertypes,
                handles_below(sup@, n as nat),
                k <= sup@.len(),
                forall|j: int|
                    0 <= j < k ==> within(
                        self.types@[#[trigger] sup@[j] as int].supertypes@,
                        sup@,
                    ),
            decreases sup@.len() - k,
        {
            if !all_within(&self.types[sup[k]].supertypes, sup) {
                return false;
            }
            k += 1;
        }
        true
    }

    /// Whether the snapshot is well formed (`wf`): every handle in range, and
    /// no direct supertype with a linearization as long as its subtype's.
    pub fn is_well_formed(&self) -> (r: bool)
        ensures
            r == self.wf(),
    {
        let mut t: usize = 0;
        while t < self.types.len()
            invariant
                t <= self.len(),
                forall|u: usize| u < t ==> #[trigger] self.info_wf(u),
            decreases self.len() - t,
        {
            if !self.info_well_formed(t) {
                return false;
            }
            t += 1;
        }
        true
    }

    /// Whether `a` is a subtype of `b`.
    pub fn subtype(&self, a: usize, b: usize) -> (r: bool)
        requires
            self.valid(a),
        ensures
            r == self.is_subtype(a, b),
    {
        contains_handle(&self.types[a].supertypes, b)
    }
}

} // verus!
