use vstd::prelude::*;
use vstd::std_specs::cmp::PartialEqSpec;

verus! {

/// What a series of observations of one fact says: nothing yet, one value
/// throughout, or two values that disagreed (the first two, kept for good).
#[derive(Clone, Copy, Debug)]
pub enum Consistency<T> {
    Unobserved,
    Consistent(T),
    Conflicting(T, T),
}

impl<T: PartialEq> Consistency<T> {
    /// The state after observing `value`.
    pub open spec fn merged(self, value: T) -> Consistency<T> {
        match self {
            Consistency::Unobserved => Consistency::Consistent(value),
            Consistency::Consistent(v) => if v.eq_spec(&value) {
                Consistency::Consistent(v)
            } else {
                Consistency::Conflicting(v, value)
            },
            Consistency::Conflicting(a, b) => Consistency::Conflicting(a, b),
        }
    }

    pub fn new() -> (r: Self)
        ensures
            r is Unobserved,
    {
        Consistency::Unobserved
    }

    /// Records one more observation.
    pub fn merge(&mut self, value: T)
        requires
            T::obeys_eq_spec(),
        ensures
            *final(self) == old(self).merged(value),
    {
        let mut prev = Consistency::Unobserved;
        std::mem::swap(&mut prev, self);
        *self = match prev {
            Consistency::Unobserved => Consistency::Consistent(value),
            Consistency::Consistent(v) => {
                if v == value {
                    Consistency::Consistent(v)
                } else {
                    Consistency::Conflicting(v, value)
                }
            },
            Consistency::Conflicting(a, b) => Consistency::Conflicting(a, b),
        };
    }

    /// The value, where every observation agreed on it.
    pub fn into_consistent(self) -> (r: Option<T>)
        ensures
            self matches Consistency::Consistent(v) ==> r == Some(v),
            !(self is Consistent) ==> r is None,
    {
        match self {
            Consistency::Consistent(v) => Some(v),
            _ => None,
        }
    }
}

impl<T> Default for Consistency<T> {
    fn default() -> (r: Self)
        ensures
            r is Unobserved,
    {
        Consistency::Unobserved
    }
}

/// Merging into nothing observed gives that value; a different value then
/// gives the conflicting pair; and a conflict never changes again.
pub proof fn lemma_merge_transitions<T: PartialEq>(v: T, v2: T, w: T)
    requires
        !v.eq_spec(&v2),
    ensures
        Consistency::<T>::Unobserved.merged(v) == Consistency::Consistent(v),
        Consistency::Consistent(v).merged(v2) == Consistency::Conflicting(v, v2),
        Consistency::Conflicting(v, v2).merged(w) == Consistency::Conflicting(v, v2),
{
}

/// Once conflicting, any sequence of further observations leaves the same
/// pair.
pub proof fn lemma_conflict_is_sticky<T: PartialEq>(a: T, b: T, more: Seq<T>)
    ensures
        more.fold_left(Consistency::Conflicting(a, b), |c: Consistency<T>, x: T| c.merged(x))
            == Consistency::Conflicting(a, b),
    decreases more.len(),
{
    if more.len() > 0 {
        lemma_conflict_is_sticky(a, b, more.drop_last());
    }
}

} // verus!
