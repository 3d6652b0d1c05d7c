use vstd::prelude::*;

verus! {

/// A value that a patch replaces as a whole, compared by what it denotes.
pub trait SameValue: Sized {
    type Model;

    /// What the value denotes.
    spec fn model(&self) -> Self::Model;

    /// Whether the two values are the same, as the type's `==` says.
    spec fn same_as(&self, other: &Self) -> bool;

    /// Whether the two values are the same, as `same_as` says.
    fn same(&self, other: &Self) -> (r: bool)
        ensures
            r == self.same_as(other),
    ;
}

impl SameValue for bool {
    type Model = bool;

    open spec fn model(&self) -> bool {
        *self
    }

    open spec fn same_as(&self, other: &Self) -> bool {
        *self == *other
    }

    fn same(&self, other: &Self) -> (r: bool) {
        *self == *other
    }
}

impl SameValue for i32 {
    type Model = i32;

    open spec fn model(&self) -> i32 {
        *self
    }

    open spec fn same_as(&self, other: &Self) -> bool {
        *self == *other
    }

    fn same(&self, other: &Self) -> (r: bool) {
        *self == *other
    }
}

impl SameValue for u32 {
    type Model = u32;

    open spec fn model(&self) -> u32 {
        *self
    }

    open spec fn same_as(&self, other: &Self) -> bool {
        *self == *other
    }

    fn same(&self, other: &Self) -> (r: bool) {
        *self == *other
    }
}

/// A `u64` that a patch replaces is the bits of a double, compared as `f64 ==` compares doubles.
impl SameValue for u64 {
    type Model = u64;

    open spec fn model(&self) -> u64 {
        *self
    }

    open spec fn same_as(&self, other: &Self) -> bool {
        crate::xfconf::double_same(*self, *other)
    }

    fn same(&self, other: &Self) -> (r: bool) {
        crate::xfconf::double_bits_same(*self, *other)
    }
}

impl SameValue for String {
    type Model = Seq<char>;

    open spec fn model(&self) -> Seq<char> {
        self@
    }

    open spec fn same_as(&self, other: &Self) -> bool {
        self@ == other@
    }

    fn same(&self, other: &Self) -> (r: bool) {
        crate::text::str_eq(self.as_str(), other.as_str())
    }
}

/// The change of a value that is replaced as a whole.
pub open spec fn simple_diff<M>(old: M, new: M) -> Option<M> {
    if old != new {
        Some(new)
    } else {
        None
    }
}

/// The value after a change of a value that is replaced as a whole.
pub open spec fn simple_apply<M>(p: Option<M>, old: M) -> M {
    match p {
        Some(v) => v,
        None => old,
    }
}

/// Applying the change from `old` to `new` to `old` gives `new`, and a value's change from
/// itself is empty.
pub proof fn lemma_simple_apply_diff<M>(old: M, new: M)
    ensures
        simple_apply(simple_diff(old, new), old) == new,
        simple_diff(new, new) is None,
{
}

/// The new value, where it differs from the old one.
pub struct SimplePatch<T> {
    pub value: Option<T>,
}

impl<T: SameValue> SimplePatch<T> {
    /// What the patch denotes: the new value's model, if any.
    pub open spec fn model(&self) -> Option<T::Model> {
        match self.value {
            Some(v) => Some(v.model()),
            None => None,
        }
    }

    /// Records `new` where it is not the same as `old`.
    pub fn diff(old: T, new: T) -> (r: Self)
        ensures
            r.model() == (if old.same_as(&new) {
                None::<T::Model>
            } else {
                Some(new.model())
            }),
            r.value is Some ==> r.value->0 == new,
    {
        if !old.same(&new) {
            SimplePatch { value: Some(new) }
        } else {
            SimplePatch { value: None }
        }
    }

    pub fn is_empty(&self) -> (r: bool)
        ensures
            r == (self.value is None),
            r == (self.model() is None),
    {
        self.value.is_none()
    }

    /// Replaces `target` by the recorded value, if there is one.
    pub fn apply_to_old(self, target: &mut T)
        ensures
            final(target).model() == simple_apply(self.model(), old(target).model()),
            self.value is Some ==> *final(target) == self.value->0,
            self.value is None ==> *final(target) == *old(target),
    {
        if let Some(value) = self.value {
            *target = value;
        }
    }
}

} // verus!
