//! A set of totally ordered elements, kept as a sorted, duplicate-free
//! vector.
//!
//! Binary operations run through the merge kernel: the non-consuming forms
//! build a fresh vector, the consuming `_with` forms overwrite this set's
//! own buffer, and the predicates use the early-out boolean backend.

use vstd::prelude::*;

use crate::binary_merge::{find_key, SetOp};
use crate::merge_state::{BoolOpMergeState, UnsafeInPlaceMergeState, VecMergeState};
use crate::order::{
    has_key, lemma_insert_sorted, lemma_remove_sorted, sorted, Element,
};

verus! {

/// A sorted, duplicate-free array of elements, seen as a set.
pub struct ArraySet<T>(Vec<T>);

impl<T> View for ArraySet<T> {
    type V = Seq<T>;

    closed spec fn view(&self) -> Seq<T> {
        self.0@
    }
}

/// Relies on `Vec::shrink_to_fit`: it may shrink the capacity and leaves the
/// contents unchanged.
#[verifier::external_body]
pub(crate) fn vec_shrink_to_fit<T>(v: &mut Vec<T>)
    ensures
        final(v)@ == old(v)@,
{
    v.shrink_to_fit()
}

/// A forward iterator over the elements of a set, in increasing key order.
pub struct SetIter<T> {
    elems: Vec<T>,
    pos: usize,
}

impl<T: Element> SetIter<T> {
    /// The elements not yet yielded.
    pub closed spec fn remaining(&self) -> Seq<T> {
        self.elems@.skip(self.pos as int)
    }

    /// The iterator's own well-formedness.
    pub closed spec fn inv(&self) -> bool {
        self.pos <= self.elems.len()
    }

    /// The next element, or `None` once all have been yielded.
    pub fn next(&mut self) -> (r: Option<T>)
        requires
            old(self).inv(),
        ensures
            final(self).inv(),
            old(self).remaining().len() == 0 ==> r is None && final(self).remaining()
                == old(self).remaining(),
            old(self).remaining().len() > 0 ==> r == Some(old(self).remaining()[0])
                && final(self).remaining() == old(self).remaining().skip(1),
    {
        if self.pos < self.elems.len() {
            let e = self.elems[self.pos];
            self.pos = self.pos + 1;
            proof {
                assert(self.remaining() =~= old(self).remaining().skip(1));
            }
            Some(e)
        } else {
            None
        }
    }
}

impl<T: Element> ArraySet<T> {
    /// The set is well formed: strictly increasing, hence duplicate-free.
    pub open spec fn wf(&self) -> bool {
        sorted(self@)
    }

    /// The set with exactly one element.
    pub fn single(value: T) -> (r: Self)
        ensures
            r.wf(),
            r@ =~= seq![value],
    {
        Self(vec![value])
    }

    /// Give up the backing vector.
    pub fn into_vec(self) -> (r: Vec<T>)
        ensures
            r@ == self@,
    {
        self.0
    }

    /// The elements, as a sorted slice.
    pub fn as_slice(&self) -> (r: &[T])
        ensures
            r@ == self@,
    {
        self.0.as_slice()
    }

    /// How many elements the set holds.
    pub fn len(&self) -> (n: usize)
        ensures
            n == self@.len(),
    {
        self.0.len()
    }

    /// Drop unused capacity of the backing vector.
    pub fn shrink_to_fit(&mut self)
        ensures
            final(self)@ == old(self)@,
    {
        vec_shrink_to_fit(&mut self.0);
    }

    /// Whether the set has no elements.
    pub fn is_empty(&self) -> (r: bool)
        ensures
            r == (self@.len() == 0),
    {
        self.0.is_empty()
    }

    /// The set with no elements.
    pub fn empty() -> (r: Self)
        ensures
            r.wf(),
            r@ =~= Seq::<T>::empty(),
    {
        Self(Vec::new())
    }

    /// Iterate over the elements in increasing key order.
    pub fn iter(&self) -> (r: SetIter<T>)
        ensures
            r.inv(),
            r.remaining() == self@,
    {
        SetIter { elems: vstd::slice::slice_to_vec(self.0.as_slice()), pos: 0 }
    }

    /// Sort and deduplicate an arbitrary vector into a set.
    pub fn from_vec(vec: Vec<T>) -> (r: Self)
        ensures
            r.wf(),
            forall|k: int| #[trigger] has_key(r@, k) == has_key(vec@, k),
    {
        let mut r: Vec<T> = Vec::new();
        let mut i: usize = 0;
        while i < vec.len()
            invariant
                i <= vec.len(),
                sorted(r@),
                forall|k: int| #[trigger] has_key(r@, k) == has_key(vec@.take(i as int), k),
            decreases vec.len() - i,
        {
            let x = vec[i];
            let rlen = r.len();
            let (found, idx) = find_key(&r, 0, rlen, &x);
            let ghost r0 = r@;
            if !found {
                proof {
                    lemma_insert_sorted(r@, idx as int, x);
                }
                r.insert(idx, x);
            }
            i = i + 1;
            proof {
                assert(vec@.take(i as int) =~= vec@.take(i - 1) + seq![vec@[i - 1]]);
                assert forall|k: int| #[trigger] has_key(r@, k) == has_key(
                    vec@.take(i as int),
                    k,
                ) by {
                    crate::order::lemma_has_key_concat(vec@.take(i - 1), seq![vec@[i - 1]], k);
                    crate::order::lemma_has_key_singleton(seq![vec@[i - 1]], k);
                    if found {
                        assert(r0[idx as int].key() == x.key());
                        assert(has_key(r0, x.key()));
                    }
                }
            }
        }
        proof {
            assert(vec@.take(vec@.len() as int) =~= vec@);
        }
        Self(r)
    }

    /// Whether no element is in both sets.
    pub fn is_disjoint(&self, that: &ArraySet<T>) -> (r: bool)
        requires
            self.wf(),
            that.wf(),
        ensures
            r == forall|k: int| #[trigger] has_key(self@, k) ==> !has_key(that@, k),
    {
        let produced = BoolOpMergeState::merge(
            self.0.as_slice(),
            that.0.as_slice(),
            SetOp::Intersection,
        );
        !produced
    }

    /// Whether every element of this set is also in `that`.
    pub fn is_subset(&self, that: &ArraySet<T>) -> (r: bool)
        requires
            self.wf(),
            that.wf(),
        ensures
            r == forall|k: int| #[trigger] has_key(self@, k) ==> has_key(that@, k),
    {
        let produced = BoolOpMergeState::merge(
            self.0.as_slice(),
            that.0.as_slice(),
            SetOp::Diff,
        );
        !produced
    }

    /// Whether every element of `that` is also in this set.
    pub fn is_superset(&self, that: &ArraySet<T>) -> (r: bool)
        requires
            self.wf(),
            that.wf(),
        ensures
            r == forall|k: int| #[trigger] has_key(that@, k) ==> has_key(self@, k),
    {
        that.is_subset(self)
    }

    /// Whether the set holds an element with the key of `value`.
    pub fn contains(&self, value: &T) -> (r: bool)
        requires
            self.wf(),
        ensures
            r == has_key(self@, value.key()),
    {
        let n = self.0.len();
        let (found, idx) = find_key(&self.0, 0, n, value);
        proof {
            if found {
                assert(has_key(self@, value.key()));
            } else {
                if has_key(self@, value.key()) {
                    let i = choose|i: int|
                        0 <= i < self@.len() && #[trigger] self@[i].key() == value.key();
                    assert(self@[i].key() < value.key() || self@[i].key() > value.key());
                }
            }
        }
        found
    }

    /// The set of elements in either set.
    pub fn union(&self, that: &ArraySet<T>) -> (r: ArraySet<T>)
        requires
            self.wf(),
            that.wf(),
        ensures
            r.wf(),
            forall|k: int|
                #[trigger] has_key(r@, k) == (has_key(self@, k) || has_key(that@, k)),
    {
        ArraySet(VecMergeState::merge(self.0.as_slice(), that.0.as_slice(), SetOp::Union))
    }

    /// The set of elements in both sets.
    pub fn intersection(&self, that: &ArraySet<T>) -> (r: ArraySet<T>)
        requires
            self.wf(),
            that.wf(),
        ensures
            r.wf(),
            forall|k: int|
                #[trigger] has_key(r@, k) == (has_key(self@, k) && has_key(that@, k)),
    {
        ArraySet(VecMergeState::merge(self.0.as_slice(), that.0.as_slice(), SetOp::Intersection))
    }

    /// The set of elements in exactly one of the two sets.
    pub fn xor(&self, that: &ArraySet<T>) -> (r: ArraySet<T>)
        requires
            self.wf(),
            that.wf(),
        ensures
            r.wf(),
            forall|k: int|
                #[trigger] has_key(r@, k) == (has_key(self@, k) != has_key(that@, k)),
    {
        ArraySet(VecMergeState::merge(self.0.as_slice(), that.0.as_slice(), SetOp::Xor))
    }

    /// The set of elements in this set but not in `that`.
    pub fn difference(&self, that: &ArraySet<T>) -> (r: ArraySet<T>)
        requires
            self.wf(),
            that.wf(),
        ensures
            r.wf(),
            forall|k: int|
                #[trigger] has_key(r@, k) == (has_key(self@, k) && !has_key(that@, k)),
    {
        ArraySet(VecMergeState::merge(self.0.as_slice(), that.0.as_slice(), SetOp::Diff))
    }

    /// Union in place, consuming `that` and reusing this set's buffer.
    pub fn union_with(&mut self, that: ArraySet<T>)
        requires
            old(self).wf(),
            that.wf(),
        ensures
            final(self).wf(),
            forall|k: int|
                #[trigger] has_key(final(self)@, k) == (has_key(old(self)@, k) || has_key(
                    that@,
                    k,
                )),
    {
        UnsafeInPlaceMergeState::merge_shortcut(&mut self.0, that.0, SetOp::Union);
    }

    /// Intersection in place, consuming `that` and reusing this set's buffer.
    pub fn intersection_with(&mut self, that: ArraySet<T>)
        requires
            old(self).wf(),
            that.wf(),
        ensures
            final(self).wf(),
            forall|k: int|
                #[trigger] has_key(final(self)@, k) == (has_key(old(self)@, k) && has_key(
                    that@,
                    k,
                )),
    {
        UnsafeInPlaceMergeState::merge_shortcut(&mut self.0, that.0, SetOp::Intersection);
    }

    /// Symmetric difference in place, consuming `that` and reusing this
    /// set's buffer.
    pub fn xor_with(&mut self, that: ArraySet<T>)
        requires
            old(self).wf(),
            that.wf(),
        ensures
            final(self).wf(),
            forall|k: int|
                #[trigger] has_key(final(self)@, k) == (has_key(old(self)@, k) != has_key(
                    that@,
                    k,
                )),
    {
        UnsafeInPlaceMergeState::merge_shortcut(&mut self.0, that.0, SetOp::Xor);
    }

    /// Difference in place, consuming `that` and reusing this set's buffer.
    pub fn difference_with(&mut self, that: ArraySet<T>)
        requires
            old(self).wf(),
            that.wf(),
        ensures
            final(self).wf(),
            forall|k: int|
                #[trigger] has_key(final(self)@, k) == (has_key(old(self)@, k) && !has_key(
                    that@,
                    k,
                )),
    {
        UnsafeInPlaceMergeState::merge_shortcut(&mut self.0, that.0, SetOp::Diff);
    }

    /// Keep only the elements the test accepts.
    pub fn retain<F: Fn(&T) -> bool>(&mut self, f: F)
        requires
            old(self).wf(),
            forall|x: T| #[trigger] f.requires((&x,)),
        ensures
            final(self).wf(),
            forall|k: int| #[trigger] has_key(final(self)@, k) ==> has_key(old(self)@, k),
            forall|i: int|
                0 <= i < final(self)@.len() ==> f.ensures((&final(self)@[i],), true),
            forall|j: int|
                0 <= j < old(self)@.len() ==> has_key(
                    final(self)@,
                    #[trigger] old(self)@[j].key(),
                ) || f.ensures((&old(self)@[j],), false),
    {
        let ghost src = self@;
        let mut kept: Vec<T> = Vec::new();
        let n = self.0.len();
        let mut i: usize = 0;
        while i < n
            invariant
                n == src.len(),
                i <= n,
                self@ == src,
                sorted(src),
                sorted(kept@),
                forall|x: T| #[trigger] f.requires((&x,)),
                forall|j: int| 0 <= j < kept@.len() ==> has_key(src, #[trigger] kept@[j].key()),
                forall|j: int, m: int|
                    0 <= j < kept@.len() && i <= m < n ==> #[trigger] kept@[j].key()
                        < #[trigger] src[m].key(),
                forall|j: int| 0 <= j < kept@.len() ==> f.ensures((&kept@[j],), true),
                forall|j: int|
                    0 <= j < i ==> has_key(kept@, #[trigger] src[j].key()) || f.ensures(
                        (&src[j],),
                        false,
                    ),
            decreases n - i,
        {
            let x = self.0[i];
            let ghost kept0 = kept@;
            if f(&x) {
                proof {
                    assert forall|p: int, q: int|
                        0 <= p < q < kept@.push(x).len() implies #[trigger] kept@.push(x)[p].key()
                        < #[trigger] kept@.push(x)[q].key() by {
                        if q < kept@.len() {
                            assert(kept@.push(x)[p] == kept@[p]);
                            assert(kept@.push(x)[q] == kept@[q]);
                        } else {
                            assert(kept@.push(x)[q] == x);
                        }
                    }
                }
                kept.push(x);
                proof {
                    assert forall|j: int|
                        0 <= j < i + 1 implies has_key(kept@, #[trigger] src[j].key())
                        || f.ensures((&src[j],), false) by {
                        if j == i {
                            assert(kept@[kept@.len() - 1] == x);
                            assert(has_key(kept@, src[j].key()));
                        } else if has_key(kept0, src[j].key()) {
                            let m = choose|m: int|
                                0 <= m < kept0.len() && #[trigger] kept0[m].key() == src[j].key();
                            assert(kept@[m].key() == src[j].key());
                        }
                    }
                }
            }
            i = i + 1;
        }
        self.0 = kept;
        proof {
            assert forall|k: int| #[trigger] has_key(self@, k) implies has_key(src, k) by {
                if has_key(self@, k) {
                    let j = choose|j: int| 0 <= j < self@.len() && #[trigger] self@[j].key() == k;
                }
            }
        }
    }

    /// Put an element into the set.
    pub fn insert(&mut self, that: T)
        requires
            old(self).wf(),
        ensures
            final(self).wf(),
            forall|k: int|
                #[trigger] has_key(final(self)@, k) == (has_key(old(self)@, k) || k
                    == that.key()),
    {
        let n = self.0.len();
        let (found, idx) = find_key(&self.0, 0, n, &that);
        if found {
            proof {
                T::key_injective(old(self)@[idx as int], that);
            }
            self.0[idx] = that;
            proof {
                assert(self@ =~= old(self)@);
                assert(old(self)@[idx as int].key() == that.key());
                assert(has_key(old(self)@, that.key()));
            }
        } else {
            proof {
                lemma_insert_sorted(self@, idx as int, that);
            }
            self.0.insert(idx, that);
        }
    }

    /// Take an element out of the set.
    pub fn remove(&mut self, that: &T)
        requires
            old(self).wf(),
        ensures
            final(self).wf(),
            forall|k: int|
                #[trigger] has_key(final(self)@, k) == (has_key(old(self)@, k) && k
                    != that.key()),
    {
        let n = self.0.len();
        let (found, idx) = find_key(&self.0, 0, n, that);
        if found {
            proof {
                lemma_remove_sorted(self@, idx as int);
            }
            self.0.remove(idx);
        } else {
            proof {
                assert forall|k: int| #[trigger] has_key(self@, k) implies k != that.key() by {
                    if has_key(self@, k) && k == that.key() {
                        let i = choose|i: int|
                            0 <= i < self@.len() && #[trigger] self@[i].key() == k;
                        assert(self@[i].key() < that.key() || self@[i].key() > that.key());
                    }
                }
            }
        }
    }
}

/// Union the second sorted vector into the first, in place.
pub fn union_u32(a: &mut Vec<u32>, b: &[u32])
    requires
        sorted(old(a)@),
        sorted(b@),
    ensures
        sorted(final(a)@),
        forall|k: int|
            #[trigger] has_key(final(a)@, k) == (has_key(old(a)@, k) || has_key(b@, k)),
{
    crate::merge_state::InPlaceMergeState::merge(a, b, SetOp::Union)
}

} // verus!
