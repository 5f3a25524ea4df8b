//! Merge state backends: where the elements selected by a merge end up.
//!
//! Four backends implement the same effect interface: a fresh output vector,
//! an in-place overwrite of the first operand's buffer, a buffer-consuming
//! in-place variant, and a boolean that stops the traversal as soon as any
//! element would be produced.

use vstd::prelude::*;

use crate::binary_merge::{
    any_kept, find_key, keeps, lemma_prefix_keys_below, lemma_sorted_subrange,
    lemma_split_disjoint, lemma_split_disjoint_at, lemma_window_keys_above, lemma_window_split,
    lemma_window_split_at, merge0, MergeStateMod, SetOp,
};
use crate::order::{has_key, sorted, Element};

verus! {

/// A merge state that builds the result in a fresh vector.
pub struct VecMergeState<T> {
    a: Vec<T>,
    b: Vec<T>,
    ai: usize,
    bi: usize,
    r: Vec<T>,
}

impl<T: Element> MergeStateMod<T> for VecMergeState<T> {
    closed spec fn a_rem(&self) -> Seq<T> {
        self.a@.skip(self.ai as int)
    }

    closed spec fn b_rem(&self) -> Seq<T> {
        self.b@.skip(self.bi as int)
    }

    closed spec fn out(&self) -> Seq<T> {
        self.r@
    }

    closed spec fn inv(&self) -> bool {
        self.ai <= self.a.len() && self.bi <= self.b.len()
    }

    fn a_at(&self, i: usize) -> (r: T) {
        self.a[self.ai + i]
    }

    fn b_at(&self, i: usize) -> (r: T) {
        self.b[self.bi + i]
    }

    fn move_a(&mut self, n: usize) {
        let mut j: usize = 0;
        while j < n
            invariant
                old(self).inv(),
                n <= old(self).a_rem().len(),
                j <= n,
                self.a == old(self).a,
                self.b == old(self).b,
                self.ai == old(self).ai,
                self.bi == old(self).bi,
                self.r@ == old(self).r@ + old(self).a@.subrange(
                    old(self).ai as int,
                    old(self).ai + j,
                ),
            decreases n - j,
        {
            let e = self.a[self.ai + j];
            self.r.push(e);
            j = j + 1;
            proof {
                assert(self.r@ =~= old(self).r@ + old(self).a@.subrange(
                    old(self).ai as int,
                    old(self).ai + j,
                ));
            }
        }
        self.ai = self.ai + n;
        proof {
            assert(old(self).a@.subrange(old(self).ai as int, old(self).ai + n) =~= old(
                self,
            ).a_rem().take(n as int));
            assert(self.a_rem() =~= old(self).a_rem().skip(n as int));
        }
    }

    fn skip_a(&mut self, n: usize) {
        self.ai = self.ai + n;
        proof {
            assert(self.a_rem() =~= old(self).a_rem().skip(n as int));
        }
    }

    fn move_b(&mut self, n: usize) {
        let mut j: usize = 0;
        while j < n
            invariant
                old(self).inv(),
                n <= old(self).b_rem().len(),
                j <= n,
                self.a == old(self).a,
                self.b == old(self).b,
                self.ai == old(self).ai,
                self.bi == old(self).bi,
                self.r@ == old(self).r@ + old(self).b@.subrange(
                    old(self).bi as int,
                    old(self).bi + j,
                ),
            decreases n - j,
        {
            let e = self.b[self.bi + j];
            self.r.push(e);
            j = j + 1;
            proof {
                assert(self.r@ =~= old(self).r@ + old(self).b@.subrange(
                    old(self).bi as int,
                    old(self).bi + j,
                ));
            }
        }
        self.bi = self.bi + n;
        proof {
            assert(old(self).b@.subrange(old(self).bi as int, old(self).bi + n) =~= old(
                self,
            ).b_rem().take(n as int));
            assert(self.b_rem() =~= old(self).b_rem().skip(n as int));
        }
    }

    fn skip_b(&mut self, n: usize) {
        self.bi = self.bi + n;
        proof {
            assert(self.b_rem() =~= old(self).b_rem().skip(n as int));
        }
    }
}

impl<T: Element> VecMergeState<T> {
    /// A fresh state over the two inputs, appending to `r`.
    pub fn new(a: &[T], b: &[T], r: Vec<T>) -> (s: Self)
        ensures
            s.inv(),
            s.a_rem() == a@,
            s.b_rem() == b@,
            s.out() == r@,
    {
        let s = Self { a: vstd::slice::slice_to_vec(a), b: vstd::slice::slice_to_vec(b), ai: 0, bi: 0, r };
        proof {
            assert(s.a_rem() =~= a@);
            assert(s.b_rem() =~= b@);
        }
        s
    }

    /// The finished output.
    pub fn into_vec(self) -> (r: Vec<T>)
        ensures
            r@ == self.out(),
    {
        self.r
    }

    /// Merge two sorted inputs into a fresh sorted vector holding exactly the
    /// keys that `op` keeps.
    pub fn merge(a: &[T], b: &[T], op: SetOp) -> (r: Vec<T>)
        requires
            sorted(a@),
            sorted(b@),
        ensures
            sorted(r@),
            forall|k: int| #[trigger] has_key(r@, k) == keeps(op, has_key(a@, k), has_key(b@, k)),
    {
        let mut state = VecMergeState::new(a, b, Vec::new());
        let an = a.len();
        let bn = b.len();
        proof {
            assert(state.a_rem().take(an as int) =~= a@);
            assert(state.b_rem().take(bn as int) =~= b@);
        }
        merge0(op, &mut state, an, bn);
        state.into_vec()
    }
}

/// A merge state that overwrites the buffer that holds the first input.
///
/// The buffer is treated as two cursor-delimited regions: an already
/// produced prefix `[0, rn)` and the unconsumed input suffix `[ab, len)`,
/// with `rn <= ab` at all times, so output never overwrites data that has
/// not been consumed yet.  When elements of the second input must be
/// inserted and the gap is too small, the buffer is widened once by the
/// whole remaining length of the second input.
pub struct InPlaceMergeState<T> {
    a: Vec<T>,
    b: Vec<T>,
    bi: usize,
    // number of result elements
    rn: usize,
    // base of the remaining elements of the first input
    ab: usize,
}

impl<T: Element> MergeStateMod<T> for InPlaceMergeState<T> {
    closed spec fn a_rem(&self) -> Seq<T> {
        self.a@.skip(self.ab as int)
    }

    closed spec fn b_rem(&self) -> Seq<T> {
        self.b@.skip(self.bi as int)
    }

    closed spec fn out(&self) -> Seq<T> {
        self.a@.take(self.rn as int)
    }

    closed spec fn inv(&self) -> bool {
        self.rn <= self.ab <= self.a.len() && self.bi <= self.b.len()
    }

    fn a_at(&self, i: usize) -> (r: T) {
        self.a[self.ab + i]
    }

    fn b_at(&self, i: usize) -> (r: T) {
        self.b[self.bi + i]
    }

    fn move_a(&mut self, n: usize) {
        if self.ab != self.rn {
            let mut i: usize = 0;
            while i < n
                invariant
                    old(self).inv(),
                    old(self).rn < old(self).ab,
                    n <= old(self).a_rem().len(),
                    i <= n,
                    self.b == old(self).b,
                    self.bi == old(self).bi,
                    self.rn == old(self).rn,
                    self.ab == old(self).ab,
                    self.a@.len() == old(self).a@.len(),
                    forall|j: int|
                        0 <= j < self.a@.len() && !(old(self).rn <= j < old(self).rn + i)
                            ==> self.a@[j] == old(self).a@[j],
                    forall|j: int|
                        old(self).rn <= j < old(self).rn + i ==> #[trigger] self.a@[j] == old(
                            self,
                        ).a@[j - old(self).rn + old(self).ab],
                decreases n - i,
            {
                let e = self.a[self.ab + i];
                self.a[self.rn + i] = e;
                i = i + 1;
            }
        }
        self.ab = self.ab + n;
        self.rn = self.rn + n;
        proof {
            assert(self.out() =~= old(self).out() + old(self).a_rem().take(n as int));
            assert(self.a_rem() =~= old(self).a_rem().skip(n as int));
            assert(self.b_rem() =~= old(self).b_rem());
        }
    }

    fn skip_a(&mut self, n: usize) {
        self.ab = self.ab + n;
        proof {
            assert(self.a_rem() =~= old(self).a_rem().skip(n as int));
        }
    }

    fn move_b(&mut self, n: usize) {
        if n > 0 {
            self.ensure_capacity(n);
            let ghost mid = *self;
            let mut i: usize = 0;
            while i < n
                invariant
                    mid.inv(),
                    n <= mid.b_rem().len(),
                    mid.ab - mid.rn >= n,
                    i <= n,
                    self.b == mid.b,
                    self.bi == mid.bi,
                    self.rn == mid.rn,
                    self.ab == mid.ab,
                    self.a@.len() == mid.a@.len(),
                    forall|j: int|
                        0 <= j < self.a@.len() && !(mid.rn <= j < mid.rn + i) ==> self.a@[j]
                            == mid.a@[j],
                    forall|j: int|
                        mid.rn <= j < mid.rn + i ==> #[trigger] self.a@[j] == mid.b@[j - mid.rn
                            + mid.bi],
                decreases n - i,
            {
                let e = self.b[self.bi + i];
                self.a[self.rn + i] = e;
                i = i + 1;
            }
            self.bi = self.bi + n;
            self.rn = self.rn + n;
            proof {
                assert(mid.out() == old(self).out());
                assert(mid.a_rem() == old(self).a_rem());
                assert(mid.b_rem() == old(self).b_rem());
                assert(self.out() =~= old(self).out() + old(self).b_rem().take(n as int));
                assert(self.a_rem() =~= old(self).a_rem());
                assert(self.b_rem() =~= old(self).b_rem().skip(n as int));
            }
        } else {
            proof {
                assert(self.out() =~= old(self).out() + old(self).b_rem().take(0));
                assert(self.b_rem() =~= old(self).b_rem().skip(0));
            }
        }
    }

    fn skip_b(&mut self, n: usize) {
        self.bi = self.bi + n;
        proof {
            assert(self.b_rem() =~= old(self).b_rem().skip(n as int));
        }
    }
}

impl<T: Element> InPlaceMergeState<T> {
    /// The gap between the produced prefix and the unconsumed suffix.
    pub closed spec fn gap(&self) -> int {
        self.ab - self.rn
    }

    /// A fresh state that will overwrite `a`.
    pub fn new(a: Vec<T>, b: &[T]) -> (s: Self)
        ensures
            s.inv(),
            s.a_rem() == a@,
            s.b_rem() == b@,
            s.out() == Seq::<T>::empty(),
    {
        Self::from_vecs(a, vstd::slice::slice_to_vec(b))
    }

    /// A fresh state that will overwrite `a`, taking the second input by
    /// value.
    pub(crate) fn from_vecs(a: Vec<T>, b: Vec<T>) -> (s: Self)
        ensures
            s.inv(),
            s.a_rem() == a@,
            s.b_rem() == b@,
            s.out() == Seq::<T>::empty(),
    {
        let s = Self { a, b, bi: 0, rn: 0, ab: 0 };
        proof {
            assert(s.a_rem() =~= s.a@);
            assert(s.b_rem() =~= s.b@);
            assert(s.out() =~= Seq::<T>::empty());
        }
        s
    }

    /// The produced prefix of the buffer.
    pub fn r_slice(&self) -> (r: &[T])
        requires
            self.inv(),
        ensures
            r@ == self.out(),
    {
        vstd::slice::slice_subrange(self.a.as_slice(), 0, self.rn)
    }

    /// The finished output: the buffer truncated to the produced prefix.
    pub fn into_vec(self) -> (r: Vec<T>)
        requires
            self.inv(),
        ensures
            r@ == self.out(),
    {
        let rn = self.rn;
        let mut r = self.a;
        r.truncate(rn);
        r
    }

    /// Widen the gap between the produced prefix and the unconsumed suffix
    /// to at least `required` slots.  Where the gap already suffices this is
    /// a no-op; otherwise exactly the whole remaining length of the second
    /// input is spliced in at the read position, once, pessimistically.
    pub fn ensure_capacity(&mut self, required: usize)
        requires
            old(self).inv(),
            required <= old(self).b_rem().len(),
        ensures
            final(self).inv(),
            final(self).a_rem() == old(self).a_rem(),
            final(self).b_rem() == old(self).b_rem(),
            final(self).out() == old(self).out(),
            final(self).gap() >= required,
            old(self).gap() >= required ==> *final(self) == *old(self),
            old(self).gap() < required ==> final(self).gap() == old(self).gap() + old(
                self,
            ).b_rem().len(),
    {
        let rn = self.rn;
        let ab = self.ab;
        let capacity = ab - rn;
        if capacity < required {
            // once something from the second input must be inserted, reserve
            // room pessimistically for all of its remaining elements
            let missing = self.b.len() - self.bi;
            let fill = self.b[self.bi];
            let mut j: usize = 0;
            while j < missing
                invariant
                    old(self).inv(),
                    j <= missing,
                    self.b == old(self).b,
                    self.bi == old(self).bi,
                    self.rn == old(self).rn,
                    self.ab == old(self).ab,
                    self.a@ == old(self).a@.take(old(self).ab as int) + Seq::new(
                        j as nat,
                        |_i: int| fill,
                    ) + old(self).a@.skip(old(self).ab as int),
                decreases missing - j,
            {
                self.a.insert(self.ab, fill);
                j = j + 1;
                proof {
                    assert(self.a@ =~= old(self).a@.take(old(self).ab as int) + Seq::new(
                        j as nat,
                        |_i: int| fill,
                    ) + old(self).a@.skip(old(self).ab as int));
                }
            }
            proof {
                assert(self.a@.len() == old(self).a@.len() + missing);
                assert(self.ab as int + missing as int <= self.a.len() as int);
            }
            self.ab = self.ab + missing;
            proof {
                assert(self.out() =~= old(self).out());
                assert(self.a_rem() =~= old(self).a_rem());
            }
        }
    }

    /// Merge the second input into `a` in place: afterwards `a` is sorted
    /// and holds exactly the keys that `op` keeps.
    pub fn merge(a: &mut Vec<T>, b: &[T], op: SetOp)
        requires
            sorted(old(a)@),
            sorted(b@),
        ensures
            sorted(final(a)@),
            forall|k: int|
                #[trigger] has_key(final(a)@, k) == keeps(op, has_key(old(a)@, k), has_key(b@, k)),
    {
        let mut t: Vec<T> = Vec::new();
        core::mem::swap(a, &mut t);
        let an = t.len();
        let bn = b.len();
        let mut state = InPlaceMergeState::new(t, b);
        proof {
            assert(state.a_rem().take(an as int) =~= old(a)@);
            assert(state.b_rem().take(bn as int) =~= b@);
        }
        merge0(op, &mut state, an, bn);
        *a = state.into_vec();
    }
}

/// The buffer-consuming variant of the in-place merge state: the second
/// input is taken by value and drained as the merge proceeds.  The unsafe
/// zero-copy technique of reusing one allocation through a raw read/write
/// cursor pair is modelled safely with the same two-cursor discipline,
/// which keeps the hard invariant `write <= read` checked by the verifier.
pub struct UnsafeInPlaceMergeState<T> {
    s: InPlaceMergeState<T>,
}

impl<T: Element> MergeStateMod<T> for UnsafeInPlaceMergeState<T> {
    closed spec fn a_rem(&self) -> Seq<T> {
        self.s.a_rem()
    }

    closed spec fn b_rem(&self) -> Seq<T> {
        self.s.b_rem()
    }

    closed spec fn out(&self) -> Seq<T> {
        self.s.out()
    }

    closed spec fn inv(&self) -> bool {
        self.s.inv()
    }

    fn a_at(&self, i: usize) -> (r: T) {
        self.s.a_at(i)
    }

    fn b_at(&self, i: usize) -> (r: T) {
        self.s.b_at(i)
    }

    fn move_a(&mut self, n: usize) {
        self.s.move_a(n);
    }

    fn skip_a(&mut self, n: usize) {
        self.s.skip_a(n);
    }

    fn move_b(&mut self, n: usize) {
        self.s.move_b(n);
    }

    fn skip_b(&mut self, n: usize) {
        self.s.skip_b(n);
    }
}

impl<T: Element> UnsafeInPlaceMergeState<T> {
    fn new(a: Vec<T>, b: Vec<T>) -> (s: Self)
        ensures
            s.inv(),
            s.a_rem() == a@,
            s.b_rem() == b@,
            s.out() == Seq::<T>::empty(),
    {
        Self { s: InPlaceMergeState::from_vecs(a, b) }
    }

    fn result(self) -> (r: Vec<T>)
        requires
            self.inv(),
        ensures
            r@ == self.out(),
    {
        self.s.into_vec()
    }

    /// Merge the second input into `a` in place, consuming it, with the
    /// early-out capable operation protocol.
    pub fn merge_shortcut(a: &mut Vec<T>, b: Vec<T>, op: SetOp)
        requires
            sorted(old(a)@),
            sorted(b@),
        ensures
            sorted(final(a)@),
            forall|k: int|
                #[trigger] has_key(final(a)@, k) == keeps(op, has_key(old(a)@, k), has_key(b@, k)),
    {
        Self::merge(a, b, op);
    }

    /// Merge the second input into `a` in place, consuming it.
    pub fn merge(a: &mut Vec<T>, b: Vec<T>, op: SetOp)
        requires
            sorted(old(a)@),
            sorted(b@),
        ensures
            sorted(final(a)@),
            forall|k: int|
                #[trigger] has_key(final(a)@, k) == keeps(op, has_key(old(a)@, k), has_key(b@, k)),
    {
        let mut t: Vec<T> = Vec::new();
        core::mem::swap(a, &mut t);
        let an = t.len();
        let bn = b.len();
        let ghost bv = b@;
        let mut state = UnsafeInPlaceMergeState::new(t, b);
        proof {
            assert(state.a_rem().take(an as int) =~= old(a)@);
            assert(state.b_rem().take(bn as int) =~= bv);
        }
        merge0(op, &mut state, an, bn);
        *a = state.result();
    }
}

/// A merge state that only records whether any element would be produced,
/// and stops the traversal as soon as one is.
pub struct BoolOpMergeState<T> {
    a: Vec<T>,
    b: Vec<T>,
    ai: usize,
    bi: usize,
    r: bool,
}

impl<T: Element> BoolOpMergeState<T> {
    /// The remaining, not yet consumed part of the first input.
    pub closed spec fn a_rem(&self) -> Seq<T> {
        self.a@.skip(self.ai as int)
    }

    /// The remaining, not yet consumed part of the second input.
    pub closed spec fn b_rem(&self) -> Seq<T> {
        self.b@.skip(self.bi as int)
    }

    /// The flag: whether an element has been produced.
    pub closed spec fn produced(&self) -> bool {
        self.r
    }

    /// The backend's own well-formedness.
    pub closed spec fn inv(&self) -> bool {
        self.ai <= self.a.len() && self.bi <= self.b.len()
    }

    /// A fresh state over the two inputs.
    pub fn new(a: &[T], b: &[T]) -> (s: Self)
        ensures
            s.inv(),
            s.a_rem() == a@,
            s.b_rem() == b@,
            !s.produced(),
    {
        let s = Self {
            a: vstd::slice::slice_to_vec(a),
            b: vstd::slice::slice_to_vec(b),
            ai: 0,
            bi: 0,
            r: false,
        };
        proof {
            assert(s.a_rem() =~= a@);
            assert(s.b_rem() =~= b@);
        }
        s
    }

    fn a_at(&self, i: usize) -> (r: T)
        requires
            self.inv(),
            i < self.a_rem().len(),
        ensures
            r == self.a_rem()[i as int],
    {
        self.a[self.ai + i]
    }

    fn move_a(&mut self, n: usize) -> (cont: bool)
        requires
            old(self).inv(),
        ensures
            final(self).inv(),
            cont == (n == 0),
            cont ==> *final(self) == *old(self),
            !cont ==> final(self).produced() && final(self).a_rem() == old(self).a_rem()
                && final(self).b_rem() == old(self).b_rem(),
    {
        if n > 0 {
            self.r = true;
            false
        } else {
            true
        }
    }

    fn skip_a(&mut self, n: usize)
        requires
            old(self).inv(),
            n <= old(self).a_rem().len(),
        ensures
            final(self).inv(),
            final(self).a_rem() == old(self).a_rem().skip(n as int),
            final(self).b_rem() == old(self).b_rem(),
            final(self).produced() == old(self).produced(),
    {
        self.ai = self.ai + n;
        proof {
            assert(self.a_rem() =~= old(self).a_rem().skip(n as int));
        }
    }

    fn move_b(&mut self, n: usize) -> (cont: bool)
        requires
            old(self).inv(),
        ensures
            final(self).inv(),
            cont == (n == 0),
            cont ==> *final(self) == *old(self),
            !cont ==> final(self).produced() && final(self).a_rem() == old(self).a_rem()
                && final(self).b_rem() == old(self).b_rem(),
    {
        if n > 0 {
            self.r = true;
            false
        } else {
            true
        }
    }

    fn skip_b(&mut self, n: usize)
        requires
            old(self).inv(),
            n <= old(self).b_rem().len(),
        ensures
            final(self).inv(),
            final(self).a_rem() == old(self).a_rem(),
            final(self).b_rem() == old(self).b_rem().skip(n as int),
            final(self).produced() == old(self).produced(),
    {
        self.bi = self.bi + n;
        proof {
            assert(self.b_rem() =~= old(self).b_rem().skip(n as int));
        }
    }

    /// The early-out traversal: stop the moment an element would be produced.
    fn merge0_shortcut(&mut self, op: SetOp, an: usize, bn: usize) -> (cont: bool)
        requires
            old(self).inv(),
            !old(self).produced(),
            an <= old(self).a_rem().len(),
            bn <= old(self).b_rem().len(),
            sorted(old(self).a_rem()),
            sorted(old(self).b_rem()),
        ensures
            final(self).inv(),
            cont ==> !final(self).produced() && final(self).a_rem() == old(self).a_rem().skip(
                an as int,
            ) && final(self).b_rem() == old(self).b_rem().skip(bn as int) && !any_kept(
                op,
                old(self).a_rem().take(an as int),
                old(self).b_rem().take(bn as int),
            ),
            !cont ==> final(self).produced() && any_kept(
                op,
                old(self).a_rem().take(an as int),
                old(self).b_rem().take(bn as int),
            ),
        decreases an + bn,
    {
        let ghost ar = self.a_rem();
        let ghost br = self.b_rem();
        let ghost wa = ar.take(an as int);
        let ghost wb = br.take(bn as int);
        if an == 0 {
            proof {
                assert(ar.skip(0) =~= ar);
                assert(wa.len() == 0);
            }
            if bn > 0 {
                match op {
                    SetOp::Union | SetOp::Xor => {
                        let c = self.move_b(bn);
                        proof {
                            assert(wb[0].key() == br[0].key());
                            assert(has_key(wb, wb[0].key()));
                            assert(keeps(op, has_key(wa, wb[0].key()), has_key(wb, wb[0].key())));
                        }
                        c
                    }
                    SetOp::Intersection | SetOp::Diff => {
                        self.skip_b(bn);
                        true
                    }
                }
            } else {
                proof {
                    assert(br.skip(0) =~= br);
                }
                true
            }
        } else if bn == 0 {
            proof {
                assert(br.skip(0) =~= br);
                assert(wb.len() == 0);
            }
            match op {
                SetOp::Union | SetOp::Xor | SetOp::Diff => {
                    let c = self.move_a(an);
                    proof {
                        assert(wa[0].key() == ar[0].key());
                        assert(has_key(wa, wa[0].key()));
                        assert(keeps(op, has_key(wa, wa[0].key()), has_key(wb, wa[0].key())));
                    }
                    c
                }
                SetOp::Intersection => {
                    self.skip_a(an);
                    true
                }
            }
        } else {
            let am: usize = an / 2;
            let pivot = self.a_at(am);
            let ghost pk = pivot.key();
            proof {
                assert(wa[am as int] == ar[am as int]);
                assert(has_key(wa, pk));
            }
            proof {
                lemma_sorted_subrange(br, 0, bn as int);
                assert(self.b@.subrange(self.bi as int, self.bi + bn) =~= br.take(bn as int));
            }
            let (found, idx) = find_key(&self.b, self.bi, self.bi + bn, &pivot);
            let ghost bsplit: int = idx - self.bi;
            proof {
                assert(forall|j: int|
                    0 <= j < br.len() ==> #[trigger] br[j] == self.b@[self.bi + j]);
            }
            if found {
                let bm = idx - self.bi;
                proof {
                    assert(br[bm as int].key() == pk);
                    assert(wb[bm as int] == br[bm as int]);
                    assert(has_key(wb, pk));
                }
                let c1 = self.merge0_shortcut(op, am, bm);
                if !c1 {
                    proof {
                        lemma_lift_left(op, ar, br, an as int, bn as int, am as int, bm as int);
                    }
                    return false;
                }
                match op {
                    SetOp::Union | SetOp::Intersection => {
                        let c = self.move_a(1);
                        proof {
                            assert(keeps(op, has_key(wa, pk), has_key(wb, pk)));
                        }
                        return false;
                    }
                    SetOp::Xor | SetOp::Diff => {
                        self.skip_a(1);
                        self.skip_b(1);
                    }
                }
                proof {
                    assert(self.a_rem() =~= ar.skip(am + 1));
                    assert(self.b_rem() =~= br.skip(bm + 1));
                    lemma_sorted_subrange(ar, am + 1, ar.len() as int);
                    assert(self.a_rem() =~= ar.subrange(am + 1, ar.len() as int));
                    lemma_sorted_subrange(br, bm + 1, br.len() as int);
                    assert(self.b_rem() =~= br.subrange(bm + 1, br.len() as int));
                }
                let ghost ar2 = self.a_rem();
                let ghost br2 = self.b_rem();
                let c3 = self.merge0_shortcut(op, an - am - 1, bn - bm - 1);
                proof {
                    assert(ar2.take((an - am - 1) as int) =~= ar.subrange(am + 1, an as int));
                    assert(br2.take((bn - bm - 1) as int) =~= br.subrange(bm + 1, bn as int));
                }
                if !c3 {
                    proof {
                        lemma_lift_right(op, ar, br, an as int, bn as int, am as int, bm as int);
                    }
                    return false;
                }
                proof {
                    assert(self.a_rem() =~= ar.skip(an as int));
                    assert(self.b_rem() =~= br.skip(bn as int));
                    // only xor and difference reach this point, and neither
                    // keeps a collision
                    assert(!keeps(op, true, true));
                    assert forall|k: int| !keeps(
                        op,
                        #[trigger] has_key(wa, k),
                        #[trigger] has_key(wb, k),
                    ) by {
                        lemma_window_split(ar, an as int, am as int, k);
                        lemma_split_disjoint(ar, an as int, am as int, k);
                        lemma_window_split(br, bn as int, bm as int, k);
                        lemma_split_disjoint(br, bn as int, bm as int, k);
                        assert(!keeps(op, has_key(ar.take(am as int), k), has_key(
                            br.take(bm as int), k)));
                        assert(!keeps(op, has_key(ar.subrange(am + 1, an as int), k), has_key(
                            br.subrange(bm + 1, bn as int), k)));
                    }
                }
                true
            } else {
                let bi_rel = idx - self.bi;
                proof {
                    assert(forall|j: int|
                        0 <= j < bsplit ==> #[trigger] br[j].key() < pk);
                    assert(forall|j: int|
                        bsplit <= j < bn ==> #[trigger] br[j].key() > pk);
                    assert forall|k: int| !(#[trigger] has_key(wb, k) && k == pk) by {
                        if has_key(wb, k) && k == pk {
                            let j = choose|j: int|
                                0 <= j < wb.len() && #[trigger] wb[j].key() == k;
                            assert(br[j].key() == k);
                        }
                    }
                }
                let c1 = self.merge0_shortcut(op, am, bi_rel);
                if !c1 {
                    proof {
                        lemma_lift_left_err(op, ar, br, an as int, bn as int, am as int, bsplit,
                            pk);
                    }
                    return false;
                }
                match op {
                    SetOp::Union | SetOp::Xor | SetOp::Diff => {
                        let c = self.move_a(1);
                        proof {
                            assert(!has_key(wb, pk));
                            assert(keeps(op, has_key(wa, pk), has_key(wb, pk)));
                        }
                        return false;
                    }
                    SetOp::Intersection => {
                        self.skip_a(1);
                    }
                }
                proof {
                    assert(self.a_rem() =~= ar.skip(am + 1));
                    assert(self.b_rem() == br.skip(bsplit));
                    lemma_sorted_subrange(ar, am + 1, ar.len() as int);
                    assert(self.a_rem() =~= ar.subrange(am + 1, ar.len() as int));
                    lemma_sorted_subrange(br, bsplit, br.len() as int);
                    assert(self.b_rem() =~= br.subrange(bsplit, br.len() as int));
                }
                let ghost ar2 = self.a_rem();
                let ghost br2 = self.b_rem();
                let c3 = self.merge0_shortcut(op, an - am - 1, bn - bi_rel);
                proof {
                    assert(ar2.take((an - am - 1) as int) =~= ar.subrange(am + 1, an as int));
                    assert(br2.take((bn - bi_rel) as int) =~= br.subrange(bsplit, bn as int));
                }
                if !c3 {
                    proof {
                        lemma_lift_right_err(op, ar, br, an as int, bn as int, am as int, bsplit,
                            pk);
                    }
                    return false;
                }
                proof {
                    assert(self.a_rem() =~= ar.skip(an as int));
                    assert(self.b_rem() =~= br.skip(bn as int));
                    // only intersection reaches this point
                    assert forall|k: int| !keeps(
                        op,
                        #[trigger] has_key(wa, k),
                        #[trigger] has_key(wb, k),
                    ) by {
                        lemma_window_split(ar, an as int, am as int, k);
                        lemma_split_disjoint(ar, an as int, am as int, k);
                        lemma_window_split_at(br, bn as int, bsplit, k);
                        lemma_split_disjoint_at(br, bn as int, bsplit, k);
                        if has_key(br.take(bsplit), k) {
                            let j = choose|j: int|
                                0 <= j < bsplit && #[trigger] br[j].key() == k;
                            assert(br[j].key() < pk);
                        }
                        if has_key(br.subrange(bsplit, bn as int), k) {
                            let j = choose|j: int|
                                bsplit <= j < bn && #[trigger] br[j].key() == k;
                            assert(br[j].key() > pk);
                        }
                        assert(!keeps(op, has_key(ar.take(am as int), k), has_key(
                            br.take(bsplit), k)));
                        assert(!keeps(op, has_key(ar.subrange(am + 1, an as int), k), has_key(
                            br.subrange(bsplit, bn as int), k)));
                    }
                }
                true
            }
        }
    }

    /// Would `op` produce any element from the two sorted inputs?
    pub fn merge(a: &[T], b: &[T], op: SetOp) -> (r: bool)
        requires
            sorted(a@),
            sorted(b@),
        ensures
            r == any_kept(op, a@, b@),
    {
        let mut state = BoolOpMergeState::new(a, b);
        let an = a.len();
        let bn = b.len();
        proof {
            assert(state.a_rem().take(an as int) =~= a@);
            assert(state.b_rem().take(bn as int) =~= b@);
        }
        let cont = state.merge0_shortcut(op, an, bn);
        !cont
    }
}

/// Lifting a kept key of the sub-windows strictly below the pivot to the full
/// windows, when the pivot was found in both.
proof fn lemma_lift_left<T: Element>(op: SetOp, ar: Seq<T>, br: Seq<T>, an: int, bn: int, am: int, bm: int)
    requires
        sorted(ar),
        sorted(br),
        0 <= am < an <= ar.len(),
        0 <= bm < bn <= br.len(),
        ar[am].key() == br[bm].key(),
        any_kept(op, ar.take(am), br.take(bm)),
    ensures
        any_kept(op, ar.take(an), br.take(bn)),
{
    let k = choose|k: int| keeps(op, #[trigger] has_key(ar.take(am), k), #[trigger] has_key(br.take(bm), k));
    let pk = ar[am].key();
    if has_key(ar.take(am), k) {
        lemma_prefix_keys_below(ar, am, k);
    }
    if has_key(br.take(bm), k) {
        lemma_prefix_keys_below(br, bm, k);
    }
    assert(has_key(ar.take(am), k) || has_key(br.take(bm), k));
    assert(k < pk);
    lemma_window_split(ar, an, am, k);
    lemma_split_disjoint(ar, an, am, k);
    lemma_window_split(br, bn, bm, k);
    lemma_split_disjoint(br, bn, bm, k);
    assert(keeps(op, has_key(ar.take(an), k), has_key(br.take(bn), k)));
}

/// Lifting a kept key of the sub-windows strictly above the pivot to the full
/// windows, when the pivot was found in both.
proof fn lemma_lift_right<T: Element>(op: SetOp, ar: Seq<T>, br: Seq<T>, an: int, bn: int, am: int, bm: int)
    requires
        sorted(ar),
        sorted(br),
        0 <= am < an <= ar.len(),
        0 <= bm < bn <= br.len(),
        ar[am].key() == br[bm].key(),
        any_kept(op, ar.subrange(am + 1, an), br.subrange(bm + 1, bn)),
    ensures
        any_kept(op, ar.take(an), br.take(bn)),
{
    let wra = ar.subrange(am + 1, an);
    let wrb = br.subrange(bm + 1, bn);
    let k = choose|k: int| keeps(op, #[trigger] has_key(wra, k), #[trigger] has_key(wrb, k));
    let pk = ar[am].key();
    if has_key(wra, k) {
        lemma_window_keys_above(ar, am + 1, an, k);
        assert(k > ar[am].key());
    }
    if has_key(wrb, k) {
        lemma_window_keys_above(br, bm + 1, bn, k);
        assert(k > br[bm].key());
    }
    assert(has_key(wra, k) || has_key(wrb, k));
    assert(k > pk);
    lemma_window_split(ar, an, am, k);
    lemma_split_disjoint(ar, an, am, k);
    lemma_window_split(br, bn, bm, k);
    lemma_split_disjoint(br, bn, bm, k);
    assert(keeps(op, has_key(ar.take(an), k), has_key(br.take(bn), k)));
}

/// Lifting a kept key of the sub-windows strictly below the pivot to the full
/// windows, when the pivot is absent from the second input.
proof fn lemma_lift_left_err<T: Element>(op: SetOp, ar: Seq<T>, br: Seq<T>, an: int, bn: int, am: int, bs: int, pk: int)
    requires
        sorted(ar),
        sorted(br),
        0 <= am < an <= ar.len(),
        0 <= bs <= bn <= br.len(),
        ar[am].key() == pk,
        forall|j: int| 0 <= j < bs ==> #[trigger] br[j].key() < pk,
        forall|j: int| bs <= j < bn ==> #[trigger] br[j].key() > pk,
        any_kept(op, ar.take(am), br.take(bs)),
    ensures
        any_kept(op, ar.take(an), br.take(bn)),
{
    let k = choose|k: int| keeps(op, #[trigger] has_key(ar.take(am), k), #[trigger] has_key(br.take(bs), k));
    if has_key(ar.take(am), k) {
        lemma_prefix_keys_below(ar, am, k);
    }
    if has_key(br.take(bs), k) {
        let j = choose|j: int| 0 <= j < br.take(bs).len() && #[trigger] br.take(bs)[j].key() == k;
        assert(br[j].key() == k);
    }
    assert(has_key(ar.take(am), k) || has_key(br.take(bs), k));
    assert(k < pk);
    lemma_window_split(ar, an, am, k);
    lemma_split_disjoint(ar, an, am, k);
    lemma_window_split_at(br, bn, bs, k);
    if has_key(br.subrange(bs, bn), k) {
        let j = choose|j: int| 0 <= j < br.subrange(bs, bn).len() && #[trigger] br.subrange(bs, bn)[j].key() == k;
        assert(br[bs + j].key() == k);
        assert(false);
    }
    assert(keeps(op, has_key(ar.take(an), k), has_key(br.take(bn), k)));
}

/// Lifting a kept key of the sub-windows strictly above the pivot to the full
/// windows, when the pivot is absent from the second input.
proof fn lemma_lift_right_err<T: Element>(op: SetOp, ar: Seq<T>, br: Seq<T>, an: int, bn: int, am: int, bs: int, pk: int)
    requires
        sorted(ar),
        sorted(br),
        0 <= am < an <= ar.len(),
        0 <= bs <= bn <= br.len(),
        ar[am].key() == pk,
        forall|j: int| 0 <= j < bs ==> #[trigger] br[j].key() < pk,
        forall|j: int| bs <= j < bn ==> #[trigger] br[j].key() > pk,
        any_kept(op, ar.subrange(am + 1, an), br.subrange(bs, bn)),
    ensures
        any_kept(op, ar.take(an), br.take(bn)),
{
    let wra = ar.subrange(am + 1, an);
    let wrb = br.subrange(bs, bn);
    let k = choose|k: int| keeps(op, #[trigger] has_key(wra, k), #[trigger] has_key(wrb, k));
    if has_key(wra, k) {
        lemma_window_keys_above(ar, am + 1, an, k);
        assert(k > ar[am].key());
    }
    if has_key(wrb, k) {
        let j = choose|j: int| 0 <= j < wrb.len() && #[trigger] wrb[j].key() == k;
        assert(br[bs + j].key() == k);
    }
    assert(has_key(wra, k) || has_key(wrb, k));
    assert(k > pk);
    lemma_window_split(ar, an, am, k);
    lemma_split_disjoint(ar, an, am, k);
    lemma_window_split_at(br, bn, bs, k);
    if has_key(br.take(bs), k) {
        let j = choose|j: int| 0 <= j < br.take(bs).len() && #[trigger] br.take(bs)[j].key() == k;
        assert(br[j].key() == k);
        assert(false);
    }
    assert(keeps(op, has_key(ar.take(an), k), has_key(br.take(bn), k)));
}

} // verus!
