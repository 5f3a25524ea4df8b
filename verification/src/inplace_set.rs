//! A sorted-array set whose assigning forms overwrite the set's own buffer
//! through the bounded in-place merge state.
//!
//! Unlike [`crate::array_set::ArraySet`], the `_with` forms here borrow the
//! other operand, and single-element insertion and removal are themselves
//! merges against a one-element sequence.

use vstd::prelude::*;

use crate::array_set::vec_shrink_to_fit;
use crate::binary_merge::{find_key, SetOp};
use crate::merge_state::{BoolOpMergeState, InPlaceMergeState, VecMergeState};
use crate::order::{has_key, lemma_has_key_singleton, sorted, Element};

verus! {

/// A sorted, duplicate-free array of elements, seen as a set.
pub struct ArraySet<T>(Vec<T>);

impl<T> View for ArraySet<T> {
    type V = Seq<T>;

    closed spec fn view(&self) -> Seq<T> {
        self.0@
    }
}

impl<T: Element> ArraySet<T> {
    /// The set is well formed: strictly increasing, hence duplicate-free.
    pub open spec fn wf(&self) -> bool {
        sorted(self@)
    }

    /// The set with exactly one element.
    pub fn single(value: T) -> (r: Self)
        ensures
            r.wf(),
            r@ =~= seq![value],
    {
        Self(vec![value])
    }

    /// Give up the backing vector.
    pub fn into_vec(self) -> (r: Vec<T>)
        ensures
            r@ == self@,
    {
        self.0
    }

    /// The elements, as a sorted slice.
    pub fn as_slice(&self) -> (r: &[T])
        ensures
            r@ == self@,
    {
        self.0.as_slice()
    }

    /// The elements, as a mutable slice.  Writing through it may break the
    /// sortedness the operations require.
    pub fn as_mut_slice(&mut self) -> (r: &mut [T])
        ensures
            r@ == old(self)@,
            final(r)@ == final(self)@,
    {
        self.0.as_mut_slice()
    }

    /// Whether the set has no elements.
    pub fn is_empty(&self) -> (r: bool)
        ensures
            r == (self@.len() == 0),
    {
        self.0.is_empty()
    }

    /// The set with no elements.
    pub fn empty() -> (r: Self)
        ensures
            r.wf(),
            r@ =~= Seq::<T>::empty(),
    {
        Self(Vec::new())
    }

    /// Drop unused capacity of the backing vector.
    pub fn shrink_to_fit(&mut self)
        ensures
            final(self)@ == old(self)@,
    {
        vec_shrink_to_fit(&mut self.0);
    }

    /// Sort and deduplicate an arbitrary vector into a set.
    pub fn from_vec(vec: Vec<T>) -> (r: Self)
        ensures
            r.wf(),
            forall|k: int| #[trigger] has_key(r@, k) == has_key(vec@, k),
    {
        Self(crate::array_set::ArraySet::from_vec(vec).into_vec())
    }

    /// Whether no element is in both sets.
    pub fn is_disjoint(&self, that: &ArraySet<T>) -> (r: bool)
        requires
            self.wf(),
            that.wf(),
        ensures
            r == forall|k: int| #[trigger] has_key(self@, k) ==> !has_key(that@, k),
    {
        let produced = BoolOpMergeState::merge(
            self.0.as_slice(),
            that.0.as_slice(),
            SetOp::Intersection,
        );
        !produced
    }

    /// Whether every element of this set is also in `that`.
    pub fn is_subset(&self, that: &ArraySet<T>) -> (r: bool)
        requires
            self.wf(),
            that.wf(),
        ensures
            r == forall|k: int| #[trigger] has_key(self@, k) ==> has_key(that@, k),
    {
        let produced = BoolOpMergeState::merge(
            self.0.as_slice(),
            that.0.as_slice(),
            SetOp::Diff,
        );
        !produced
    }

    /// Whether every element of `that` is also in this set.
    pub fn is_superset(&self, that: &ArraySet<T>) -> (r: bool)
        requires
            self.wf(),
            that.wf(),
        ensures
            r == forall|k: int| #[trigger] has_key(that@, k) ==> has_key(self@, k),
    {
        that.is_subset(self)
    }

    /// Whether the set holds an element with the key of `value`.
    pub fn contains(&self, value: &T) -> (r: bool)
        requires
            self.wf(),
        ensures
            r == has_key(self@, value.key()),
    {
        let n = self.0.len();
        let (found, idx) = find_key(&self.0, 0, n, value);
        proof {
            if found {
                assert(has_key(self@, value.key()));
            } else if has_key(self@, value.key()) {
                let i = choose|i: int|
                    0 <= i < self@.len() && #[trigger] self@[i].key() == value.key();
                assert(self@[i].key() < value.key() || self@[i].key() > value.key());
            }
        }
        found
    }

    /// Union in place, overwriting this set's buffer.
    pub fn union_with(&mut self, that: &ArraySet<T>)
        requires
            old(self).wf(),
            that.wf(),
        ensures
            final(self).wf(),
            forall|k: int|
                #[trigger] has_key(final(self)@, k) == (has_key(old(self)@, k) || has_key(
                    that@,
                    k,
                )),
    {
        InPlaceMergeState::merge(&mut self.0, that.0.as_slice(), SetOp::Union);
    }

    /// The set of elements in either set.
    pub fn union(&self, that: &ArraySet<T>) -> (r: ArraySet<T>)
        requires
            self.wf(),
            that.wf(),
        ensures
            r.wf(),
            forall|k: int|
                #[trigger] has_key(r@, k) == (has_key(self@, k) || has_key(that@, k)),
    {
        ArraySet(VecMergeState::merge(self.0.as_slice(), that.0.as_slice(), SetOp::Union))
    }

    /// Intersection in place, overwriting this set's buffer.
    pub fn intersection_with(&mut self, that: &ArraySet<T>)
        requires
            old(self).wf(),
            that.wf(),
        ensures
            final(self).wf(),
            forall|k: int|
                #[trigger] has_key(final(self)@, k) == (has_key(old(self)@, k) && has_key(
                    that@,
                    k,
                )),
    {
        InPlaceMergeState::merge(&mut self.0, that.0.as_slice(), SetOp::Intersection);
    }

    /// The set of elements in both sets.
    pub fn intersection(&self, that: &ArraySet<T>) -> (r: ArraySet<T>)
        requires
            self.wf(),
            that.wf(),
        ensures
            r.wf(),
            forall|k: int|
                #[trigger] has_key(r@, k) == (has_key(self@, k) && has_key(that@, k)),
    {
        ArraySet(VecMergeState::merge(self.0.as_slice(), that.0.as_slice(), SetOp::Intersection))
    }

    /// Symmetric difference in place, overwriting this set's buffer.
    pub fn xor_with(&mut self, that: &ArraySet<T>)
        requires
            old(self).wf(),
            that.wf(),
        ensures
            final(self).wf(),
            forall|k: int|
                #[trigger] has_key(final(self)@, k) == (has_key(old(self)@, k) != has_key(
                    that@,
                    k,
                )),
    {
        InPlaceMergeState::merge(&mut self.0, that.0.as_slice(), SetOp::Xor);
    }

    /// The set of elements in exactly one of the two sets.
    pub fn xor(&self, that: &ArraySet<T>) -> (r: ArraySet<T>)
        requires
            self.wf(),
            that.wf(),
        ensures
            r.wf(),
            forall|k: int|
                #[trigger] has_key(r@, k) == (has_key(self@, k) != has_key(that@, k)),
    {
        ArraySet(VecMergeState::merge(self.0.as_slice(), that.0.as_slice(), SetOp::Xor))
    }

    /// Difference in place, overwriting this set's buffer.
    pub fn difference_with(&mut self, that: &ArraySet<T>)
        requires
            old(self).wf(),
            that.wf(),
        ensures
            final(self).wf(),
            forall|k: int|
                #[trigger] has_key(final(self)@, k) == (has_key(old(self)@, k) && !has_key(
                    that@,
                    k,
                )),
    {
        InPlaceMergeState::merge(&mut self.0, that.0.as_slice(), SetOp::Diff);
    }

    /// The set of elements in this set but not in `that`.
    pub fn difference(&self, that: &ArraySet<T>) -> (r: ArraySet<T>)
        requires
            self.wf(),
            that.wf(),
        ensures
            r.wf(),
            forall|k: int|
                #[trigger] has_key(r@, k) == (has_key(self@, k) && !has_key(that@, k)),
    {
        ArraySet(VecMergeState::merge(self.0.as_slice(), that.0.as_slice(), SetOp::Diff))
    }

    /// Put an element into the set: a union with a one-element sequence.
    pub fn insert(&mut self, that: T)
        requires
            old(self).wf(),
        ensures
            final(self).wf(),
            forall|k: int|
                #[trigger] has_key(final(self)@, k) == (has_key(old(self)@, k) || k
                    == that.key()),
    {
        let one = vec![that];
        proof {
            assert forall|k: int| #[trigger] has_key(one@, k) == (k == that.key()) by {
                lemma_has_key_singleton(one@, k);
            }
        }
        InPlaceMergeState::merge(&mut self.0, one.as_slice(), SetOp::Union);
    }

    /// Take an element out of the set: a difference with a one-element
    /// sequence.
    pub fn remove(&mut self, that: &T)
        requires
            old(self).wf(),
        ensures
            final(self).wf(),
            forall|k: int|
                #[trigger] has_key(final(self)@, k) == (has_key(old(self)@, k) && k
                    != that.key()),
    {
        let one = vec![*that];
        proof {
            assert forall|k: int| #[trigger] has_key(one@, k) == (k == that.key()) by {
                lemma_has_key_singleton(one@, k);
            }
        }
        InPlaceMergeState::merge(&mut self.0, one.as_slice(), SetOp::Diff);
    }
}

/// Union the second sorted vector into the first, in place.
pub fn union_u32(a: &mut Vec<u32>, b: &[u32])
    requires
        sorted(old(a)@),
        sorted(b@),
    ensures
        sorted(final(a)@),
        forall|k: int|
            #[trigger] has_key(final(a)@, k) == (has_key(old(a)@, k) || has_key(b@, k)),
{
    InPlaceMergeState::merge(a, b, SetOp::Union)
}

} // verus!
