use crate::ordmap::{MapKey, OrdMap};
use vstd::prelude::*;

verus! {

/// A change found by a diff.
pub trait Patch {
    /// The change changes nothing.
    spec fn spec_is_empty(&self) -> bool;

    fn is_empty(&self) -> (r: bool)
        ensures
            r == self.spec_is_empty(),
    ;
}

/// Values that can be diffed.
pub trait Diff: Sized {
    type Patch: Patch;

    /// `other` holds nothing that `self` lacks.
    spec fn spec_unchanged(&self, other: &Self) -> bool;

    /// `p` is the change that `diff` finds from `self` to `other`.
    spec fn patch_of(&self, other: &Self, p: &Self::Patch) -> bool;

    /// Computes a one-way diff that when applied to `self` would yield `other`.
    fn diff(&self, other: &Self) -> (r: Self::Patch)
        ensures
            r.spec_is_empty() == self.spec_unchanged(other),
            self.patch_of(other, &r),
    ;
}

/// Values that are diffed as a whole.
pub trait PrimDiff: Sized {
    /// `self` and `other` are the same value.
    spec fn spec_same(&self, other: &Self) -> bool;

    fn same(&self, other: &Self) -> (r: bool)
        ensures
            r == self.spec_same(other),
    ;

    fn copy_value(&self) -> (r: Self)
        ensures
            self.spec_same(&r),
    ;
}

impl PrimDiff for bool {
    open spec fn spec_same(&self, other: &Self) -> bool {
        *self == *other
    }

    fn same(&self, other: &Self) -> (r: bool) {
        *self == *other
    }

    fn copy_value(&self) -> (r: Self) {
        *self
    }
}

impl PrimDiff for u32 {
    open spec fn spec_same(&self, other: &Self) -> bool {
        *self == *other
    }

    fn same(&self, other: &Self) -> (r: bool) {
        *self == *other
    }

    fn copy_value(&self) -> (r: Self) {
        *self
    }
}

impl PrimDiff for i32 {
    open spec fn spec_same(&self, other: &Self) -> bool {
        *self == *other
    }

    fn same(&self, other: &Self) -> (r: bool) {
        *self == *other
    }

    fn copy_value(&self) -> (r: Self) {
        *self
    }
}

impl PrimDiff for String {
    open spec fn spec_same(&self, other: &Self) -> bool {
        self@ == other@
    }

    fn same(&self, other: &Self) -> (r: bool) {
        crate::text::str_eq(self.as_str(), other.as_str())
    }

    fn copy_value(&self) -> (r: Self) {
        self.clone()
    }
}

/// The change of a value diffed as a whole: the new value, if it differs.
pub struct PrimPatch<T> {
    pub value: Option<T>,
}

impl<T> Patch for PrimPatch<T> {
    open spec fn spec_is_empty(&self) -> bool {
        self.value is None
    }

    fn is_empty(&self) -> (r: bool) {
        self.value.is_none()
    }
}

/// The change from `a` to `b` of a value diffed as a whole.
pub fn prim_diff<T: PrimDiff>(a: &T, b: &T) -> (r: PrimPatch<T>)
    ensures
        a.spec_same(b) ==> r.value is None,
        !a.spec_same(b) ==> (r.value matches Some(v) && b.spec_same(&v)),
{
    if !a.same(b) {
        PrimPatch { value: Some(b.copy_value()) }
    } else {
        PrimPatch { value: None }
    }
}

impl Diff for bool {
    type Patch = PrimPatch<bool>;

    open spec fn spec_unchanged(&self, other: &Self) -> bool {
        self.spec_same(other)
    }

    open spec fn patch_of(&self, other: &Self, p: &PrimPatch<bool>) -> bool {
        &&& self.spec_same(other) ==> p.value is None
        &&& !self.spec_same(other) ==> (p.value matches Some(v) && other.spec_same(&v))
    }

    fn diff(&self, other: &Self) -> (r: PrimPatch<bool>) {
        prim_diff(self, other)
    }
}

impl Diff for u32 {
    type Patch = PrimPatch<u32>;

    open spec fn spec_unchanged(&self, other: &Self) -> bool {
        self.spec_same(other)
    }

    open spec fn patch_of(&self, other: &Self, p: &PrimPatch<u32>) -> bool {
        &&& self.spec_same(other) ==> p.value is None
        &&& !self.spec_same(other) ==> (p.value matches Some(v) && other.spec_same(&v))
    }

    fn diff(&self, other: &Self) -> (r: PrimPatch<u32>) {
        prim_diff(self, other)
    }
}

impl Diff for i32 {
    type Patch = PrimPatch<i32>;

    open spec fn spec_unchanged(&self, other: &Self) -> bool {
        self.spec_same(other)
    }

    open spec fn patch_of(&self, other: &Self, p: &PrimPatch<i32>) -> bool {
        &&& self.spec_same(other) ==> p.value is None
        &&& !self.spec_same(other) ==> (p.value matches Some(v) && other.spec_same(&v))
    }

    fn diff(&self, other: &Self) -> (r: PrimPatch<i32>) {
        prim_diff(self, other)
    }
}

impl Diff for String {
    type Patch = PrimPatch<String>;

    open spec fn spec_unchanged(&self, other: &Self) -> bool {
        self.spec_same(other)
    }

    open spec fn patch_of(&self, other: &Self, p: &PrimPatch<String>) -> bool {
        &&& self.spec_same(other) ==> p.value is None
        &&& !self.spec_same(other) ==> (p.value matches Some(v) && other.spec_same(&v))
    }

    fn diff(&self, other: &Self) -> (r: PrimPatch<String>) {
        prim_diff(self, other)
    }
}

/// The change of a sequence: patches at the positions both have, the elements that only the new
/// one has, and how many elements at the end of the old one the new one lacks (they are dropped).
pub struct VecPatch<T: Diff> {
    pub changed: OrdMap<u64, T::Patch>,
    pub added: Vec<T>,
    pub removed: usize,
}

impl<T: Diff> Patch for VecPatch<T> {
    open spec fn spec_is_empty(&self) -> bool {
        self.changed@ == Map::<u64, T::Patch>::empty() && self.added@.len() == 0 && self.removed == 0
    }

    fn is_empty(&self) -> (r: bool) {
        self.changed.is_empty() && self.added.len() == 0 && self.removed == 0
    }
}

/// Values that can be copied.
pub trait CopyValue: Sized {
    fn copy_value(&self) -> (r: Self)
        ensures
            r == *self,
    ;
}

impl CopyValue for bool {
    fn copy_value(&self) -> (r: Self) {
        *self
    }
}

impl CopyValue for u32 {
    fn copy_value(&self) -> (r: Self) {
        *self
    }
}

impl CopyValue for i32 {
    fn copy_value(&self) -> (r: Self) {
        *self
    }
}

impl<T: Diff + CopyValue> Diff for Vec<T> {
    type Patch = VecPatch<T>;

    open spec fn spec_unchanged(&self, other: &Self) -> bool {
        &&& other@.len() == self@.len()
        &&& forall|i: int| 0 <= i < other@.len() ==> #[trigger] self@[i].spec_unchanged(&other@[i])
    }

    open spec fn patch_of(&self, other: &Self, p: &VecPatch<T>) -> bool {
        &&& forall|k: u64|
            #[trigger] p.changed@.contains_key(k) == (k < self@.len() && k < other@.len()
                && !self@[k as int].spec_unchanged(&other@[k as int]))
        &&& forall|k: u64|
            #[trigger] p.changed@.contains_key(k) ==> self@[k as int].patch_of(&other@[k as int], &p.changed@[k])
        &&& p.added@ == (if self@.len() < other@.len() {
            other@.skip(self@.len() as int)
        } else {
            Seq::empty()
        })
        &&& p.removed == (if self@.len() > other@.len() {
            self@.len() - other@.len()
        } else {
            0
        })
    }

    fn diff(&self, other: &Self) -> (r: VecPatch<T>) {
        let mut changed: OrdMap<u64, T::Patch> = OrdMap::new();
        let n = if self.len() < other.len() {
            self.len()
        } else {
            other.len()
        };
        let mut i: usize = 0;
        while i < n
            invariant
                n <= self@.len(),
                n <= other@.len(),
                n == if self@.len() < other@.len() { self@.len() } else { other@.len() },
                i <= n,
                forall|k: u64| #[trigger] changed@.contains_key(k) == (k < i && !self@[k as int].spec_unchanged(&other@[k as int])),
                forall|k: u64| #[trigger] changed@.contains_key(k) ==> self@[k as int].patch_of(&other@[k as int], &changed@[k]),
            decreases n - i,
        {
            let p = self[i].diff(&other[i]);
            if !p.is_empty() {
                changed.insert(i as u64, p);
            }
            i = i + 1;
        }
        let mut added: Vec<T> = Vec::new();
        let mut j = n;
        while j < other.len()
            invariant
                n <= j <= other@.len(),
                added@.len() == j - n,
                forall|k: int| 0 <= k < added@.len() ==> added@[k] == other@[n + k],
            decreases other.len() - j,
        {
            added.push(other[j].copy_value());
            j = j + 1;
        }
        let removed = self.len() - n;
        let r = VecPatch { changed, added, removed };
        proof {
            if r.spec_is_empty() {
                assert forall|k: int| 0 <= k < other@.len() implies #[trigger] self@[k].spec_unchanged(&other@[k]) by {
                    assert(!changed@.contains_key(k as u64));
                }
            }
            if self.spec_unchanged(other) {
                assert(changed@ =~= Map::<u64, T::Patch>::empty());
            }
            if self@.len() < other@.len() {
                assert(added@ =~= other@.skip(self@.len() as int));
            } else {
                assert(added@ =~= Seq::<T>::empty());
            }
        }
        r
    }
}

/// The change of a map: patches at the keys both have, and the entries that only the new one
/// has; entries that only the old one has are kept.
pub struct BTreeMapPatch<K: MapKey, V: Diff> {
    pub changed: OrdMap<K, V::Patch>,
    pub added: OrdMap<K, V>,
}

impl<K: MapKey, V: Diff> Patch for BTreeMapPatch<K, V> {
    open spec fn spec_is_empty(&self) -> bool {
        self.changed@ == Map::<K::V, V::Patch>::empty() && self.added@ == Map::<K::V, V>::empty()
    }

    fn is_empty(&self) -> (r: bool) {
        self.changed.is_empty() && self.added.is_empty()
    }
}

impl<K: MapKey, V: Diff + CopyValue> Diff for OrdMap<K, V> {
    type Patch = BTreeMapPatch<K, V>;

    open spec fn spec_unchanged(&self, other: &Self) -> bool {
        forall|k: K::V|
            #[trigger] other@.contains_key(k) ==> self@.contains_key(k) && self@[k].spec_unchanged(
                &other@[k],
            )
    }

    open spec fn patch_of(&self, other: &Self, p: &BTreeMapPatch<K, V>) -> bool {
        &&& forall|k: K::V|
            #[trigger] p.changed@.contains_key(k) == (other@.contains_key(k) && self@.contains_key(k)
                && !self@[k].spec_unchanged(&other@[k]))
        &&& forall|k: K::V|
            #[trigger] p.changed@.contains_key(k) ==> self@[k].patch_of(&other@[k], &p.changed@[k])
        &&& p.added@ == other@.remove_keys(self@.dom())
    }

    fn diff(&self, other: &Self) -> (r: BTreeMapPatch<K, V>) {
        proof {
            use_type_invariant(other);
            other.lemma_inv();
        }
        let mut changed: OrdMap<K, V::Patch> = OrdMap::new();
        let mut added: OrdMap<K, V> = OrdMap::new();
        let n = other.len();
        let mut i: usize = 0;
        while i < n
            invariant
                n == other.seq().len(),
                i <= n,
                forall|j: int| 0 <= j < other.seq().len() ==> other@.contains_key(#[trigger] other.seq()[j].0@)
                    && other@[other.seq()[j].0@] == other.seq()[j].1,
                forall|k: K::V| #[trigger] other@.contains_key(k) <==> crate::ordmap::has_key(other.seq(), k),
                forall|k: K::V|
                    #[trigger] changed@.contains_key(k) == ((exists|j: int| 0 <= j < i && #[trigger] other.seq()[j].0@ == k)
                        && self@.contains_key(k) && !self@[k].spec_unchanged(&other@[k])),
                forall|k: K::V|
                    #[trigger] added@.contains_key(k) == ((exists|j: int| 0 <= j < i && #[trigger] other.seq()[j].0@ == k)
                        && !self@.contains_key(k)),
                forall|k: K::V| #[trigger] changed@.contains_key(k) ==> self@[k].patch_of(&other@[k], &changed@[k]),
                forall|k: K::V| #[trigger] added@.contains_key(k) ==> added@[k] == other@[k],
            decreases n - i,
        {
            let e = other.entry_at(i);
            match self.get(&e.0) {
                Some(v) => {
                    let p = v.diff(&e.1);
                    if !p.is_empty() {
                        changed.insert(e.0.clone_key(), p);
                    }
                },
                None => {
                    added.insert(e.0.clone_key(), e.1.copy_value());
                },
            }
            proof {
                assert(other.seq()[i as int].0@ == e.0@);
            }
            i = i + 1;
        }
        let r = BTreeMapPatch { changed, added };
        proof {
            assert forall|k: K::V| #[trigger] other@.contains_key(k) implies crate::ordmap::has_key(other.seq(), k) by {}
            if r.spec_is_empty() {
                assert forall|k: K::V| #[trigger] other@.contains_key(k) implies self@.contains_key(k)
                    && self@[k].spec_unchanged(&other@[k]) by {
                    let j = choose|j: int| 0 <= j < other.seq().len() && #[trigger] other.seq()[j].0@ == k;
                    assert(!changed@.contains_key(k));
                    assert(!added@.contains_key(k));
                }
            }
            if self.spec_unchanged(other) {
                assert(changed@ =~= Map::<K::V, V::Patch>::empty());
                assert(added@ =~= Map::<K::V, V>::empty());
            }
            assert forall|k: K::V| #[trigger] changed@.contains_key(k) == (other@.contains_key(k)
                && self@.contains_key(k) && !self@[k].spec_unchanged(&other@[k])) by {
                if other@.contains_key(k) {
                    assert(crate::ordmap::has_key(other.seq(), k));
                    let j = choose|j: int| 0 <= j < other.seq().len() && #[trigger] other.seq()[j].0@ == k;
                }
            }
            assert forall|k: K::V| #[trigger] added@.contains_key(k) == other@.remove_keys(self@.dom()).contains_key(k) by {
                if other@.contains_key(k) {
                    assert(crate::ordmap::has_key(other.seq(), k));
                    let j = choose|j: int| 0 <= j < other.seq().len() && #[trigger] other.seq()[j].0@ == k;
                }
            }
            assert(added@ =~= other@.remove_keys(self@.dom()));
        }
        r
    }
}

} // verus!
