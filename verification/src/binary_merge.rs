//! The comparison-efficient merge kernel.
//!
//! `merge0` walks two sorted sequences by divide and conquer: it picks the
//! middle element of the first window, binary-searches it in the second, and
//! recurses on the halves.  Which elements reach the output is decided by a
//! `SetOp`; where they go is decided by the attached merge state.

use vstd::prelude::*;

use crate::order::{
    has_key, keys_below, lemma_has_key_concat, lemma_sorted_concat, sorted, Cmp, Element,
};

verus! {

/// The set operation a merge computes.
#[derive(Clone, Copy)]
pub enum SetOp {
    Union,
    Intersection,
    Xor,
    Diff,
}

/// Whether `op` keeps a key that is present in `a` and/or in `b`.
pub open spec fn keeps(op: SetOp, in_a: bool, in_b: bool) -> bool {
    match op {
        SetOp::Union => in_a || in_b,
        SetOp::Intersection => in_a && in_b,
        SetOp::Xor => in_a != in_b,
        SetOp::Diff => in_a && !in_b,
    }
}

/// Some key of the two windows is kept by `op`: the merge would produce at
/// least one element.
pub open spec fn any_kept<T: Element>(op: SetOp, wa: Seq<T>, wb: Seq<T>) -> bool {
    exists|k: int| keeps(op, #[trigger] has_key(wa, k), #[trigger] has_key(wb, k))
}

/// A merge state: exposes the unconsumed remainders of both inputs and
/// receives the move/skip effects.  The output is modelled as the sequence
/// of elements produced so far.
pub trait MergeStateMod<T: Element>: Sized {
    /// The remaining, not yet consumed part of the first input.
    spec fn a_rem(&self) -> Seq<T>;

    /// The remaining, not yet consumed part of the second input.
    spec fn b_rem(&self) -> Seq<T>;

    /// The elements produced so far.
    spec fn out(&self) -> Seq<T>;

    /// The backend's own well-formedness.
    spec fn inv(&self) -> bool;

    /// Read an element of the remaining first input.
    fn a_at(&self, i: usize) -> (r: T)
        requires
            self.inv(),
            i < self.a_rem().len(),
        ensures
            r == self.a_rem()[i as int],
    ;

    /// Read an element of the remaining second input.
    fn b_at(&self, i: usize) -> (r: T)
        requires
            self.inv(),
            i < self.b_rem().len(),
        ensures
            r == self.b_rem()[i as int],
    ;

    /// Produce the next `n` elements of the first input.
    fn move_a(&mut self, n: usize)
        requires
            old(self).inv(),
            n <= old(self).a_rem().len(),
        ensures
            final(self).inv(),
            final(self).a_rem() == old(self).a_rem().skip(n as int),
            final(self).b_rem() == old(self).b_rem(),
            final(self).out() == old(self).out() + old(self).a_rem().take(n as int),
    ;

    /// Drop the next `n` elements of the first input.
    fn skip_a(&mut self, n: usize)
        requires
            old(self).inv(),
            n <= old(self).a_rem().len(),
        ensures
            final(self).inv(),
            final(self).a_rem() == old(self).a_rem().skip(n as int),
            final(self).b_rem() == old(self).b_rem(),
            final(self).out() == old(self).out(),
    ;

    /// Produce the next `n` elements of the second input.
    fn move_b(&mut self, n: usize)
        requires
            old(self).inv(),
            n <= old(self).b_rem().len(),
        ensures
            final(self).inv(),
            final(self).a_rem() == old(self).a_rem(),
            final(self).b_rem() == old(self).b_rem().skip(n as int),
            final(self).out() == old(self).out() + old(self).b_rem().take(n as int),
    ;

    /// Drop the next `n` elements of the second input.
    fn skip_b(&mut self, n: usize)
        requires
            old(self).inv(),
            n <= old(self).b_rem().len(),
        ensures
            final(self).inv(),
            final(self).a_rem() == old(self).a_rem(),
            final(self).b_rem() == old(self).b_rem().skip(n as int),
            final(self).out() == old(self).out(),
    ;
}

/// A sorted window stays sorted.
pub proof fn lemma_sorted_subrange<T: Element>(s: Seq<T>, i: int, j: int)
    requires
        sorted(s),
        0 <= i <= j <= s.len(),
    ensures
        sorted(s.subrange(i, j)),
{
    let w = s.subrange(i, j);
    assert forall|p: int, q: int| 0 <= p < q < w.len() implies #[trigger] w[p].key()
        < #[trigger] w[q].key() by {
        assert(w[p] == s[i + p]);
        assert(w[q] == s[i + q]);
    }
}

/// A key found in a prefix of a sorted sequence lies strictly below every
/// later element.
pub proof fn lemma_prefix_keys_below<T: Element>(s: Seq<T>, m: int, k: int)
    requires
        sorted(s),
        0 <= m <= s.len(),
        has_key(s.take(m), k),
    ensures
        forall|j: int| m <= j < s.len() ==> k < #[trigger] s[j].key(),
{
    let i = choose|i: int| 0 <= i < s.take(m).len() && #[trigger] s.take(m)[i].key() == k;
    assert(s[i].key() == k);
}

/// A key found in a later window of a sorted sequence lies strictly above
/// every earlier element.
pub proof fn lemma_window_keys_above<T: Element>(s: Seq<T>, m: int, n: int, k: int)
    requires
        sorted(s),
        0 <= m <= n <= s.len(),
        has_key(s.subrange(m, n), k),
    ensures
        forall|j: int| 0 <= j < m ==> k > #[trigger] s[j].key(),
{
    let w = s.subrange(m, n);
    let i = choose|i: int| 0 <= i < w.len() && #[trigger] w[i].key() == k;
    assert(s[m + i].key() == k);
}

/// Binary search for the key of `pivot` in the first `bn` remaining elements
/// of the second input.
fn find_in_b<T: Element, M: MergeStateMod<T>>(m: &M, pivot: &T, bn: usize) -> (res: (bool, usize))
    requires
        m.inv(),
        bn <= m.b_rem().len(),
        sorted(m.b_rem()),
    ensures
        res.1 <= bn,
        res.0 ==> res.1 < bn && m.b_rem()[res.1 as int].key() == pivot.key(),
        !res.0 ==> forall|j: int|
            0 <= j < res.1 ==> #[trigger] m.b_rem()[j].key() < pivot.key(),
        !res.0 ==> forall|j: int|
            res.1 <= j < bn ==> #[trigger] m.b_rem()[j].key() > pivot.key(),
{
    let mut lo: usize = 0;
    let mut hi: usize = bn;
    while lo < hi
        invariant
            m.inv(),
            bn <= m.b_rem().len(),
            sorted(m.b_rem()),
            lo <= hi <= bn,
            forall|j: int| 0 <= j < lo ==> #[trigger] m.b_rem()[j].key() < pivot.key(),
            forall|j: int| hi <= j < bn ==> #[trigger] m.b_rem()[j].key() > pivot.key(),
        decreases hi - lo,
    {
        let mid = lo + (hi - lo) / 2;
        let e = m.b_at(mid);
        match e.cmp_el(pivot) {
            Cmp::Less => {
                lo = mid + 1;
            }
            Cmp::Equal => {
                return (true, mid);
            }
            Cmp::Greater => {
                hi = mid;
            }
        }
    }
    (false, lo)
}

/// Binary search for the key of `pivot` in the window `[lo, hi)` of a sorted
/// vector.
pub(crate) fn find_key<T: Element>(v: &Vec<T>, lo: usize, hi: usize, pivot: &T) -> (res: (
    bool,
    usize,
))
    requires
        lo <= hi <= v.len(),
        sorted(v@.subrange(lo as int, hi as int)),
    ensures
        lo <= res.1 <= hi,
        res.0 ==> res.1 < hi && v@[res.1 as int].key() == pivot.key(),
        !res.0 ==> forall|j: int| lo <= j < res.1 ==> #[trigger] v@[j].key() < pivot.key(),
        !res.0 ==> forall|j: int| res.1 <= j < hi ==> #[trigger] v@[j].key() > pivot.key(),
{
    let ghost w = v@.subrange(lo as int, hi as int);
    let mut l: usize = lo;
    let mut h: usize = hi;
    while l < h
        invariant
            lo <= l <= h <= hi,
            hi <= v.len(),
            w == v@.subrange(lo as int, hi as int),
            sorted(w),
            forall|j: int| lo <= j < l ==> #[trigger] v@[j].key() < pivot.key(),
            forall|j: int| h <= j < hi ==> #[trigger] v@[j].key() > pivot.key(),
        decreases h - l,
    {
        let mid = l + (h - l) / 2;
        let e = v[mid];
        match e.cmp_el(pivot) {
            Cmp::Less => {
                proof {
                    assert forall|j: int| lo <= j < mid + 1 implies #[trigger] v@[j].key()
                        < pivot.key() by {
                        if j >= l {
                            assert(w[j - lo] == v@[j]);
                            assert(w[mid - lo] == v@[mid as int]);
                            if j < mid {
                                assert(w[j - lo].key() < w[mid - lo].key());
                            }
                        }
                    }
                }
                l = mid + 1;
            }
            Cmp::Equal => {
                return (true, mid);
            }
            Cmp::Greater => {
                proof {
                    assert forall|j: int| mid <= j < hi implies #[trigger] v@[j].key()
                        > pivot.key() by {
                        if j < h {
                            assert(w[j - lo] == v@[j]);
                            assert(w[mid - lo] == v@[mid as int]);
                            if j > mid {
                                assert(w[mid - lo].key() < w[j - lo].key());
                            }
                        }
                    }
                }
                h = mid;
            }
        }
    }
    (false, l)
}

/// Emit (or drop, as `op` dictates) the next `n` elements of the first input.
fn from_a<T: Element, M: MergeStateMod<T>>(op: SetOp, m: &mut M, n: usize)
    requires
        old(m).inv(),
        n <= old(m).a_rem().len(),
        sorted(old(m).a_rem()),
        sorted(old(m).out()),
        keys_below(old(m).out(), old(m).a_rem().take(n as int)),
    ensures
        final(m).inv(),
        final(m).a_rem() == old(m).a_rem().skip(n as int),
        final(m).b_rem() == old(m).b_rem(),
        sorted(final(m).out()),
        forall|k: int|
            #[trigger] has_key(final(m).out(), k) == (has_key(old(m).out(), k) || keeps(
                op,
                has_key(old(m).a_rem().take(n as int), k),
                false,
            )),
{
    proof {
        lemma_sorted_subrange(m.a_rem(), 0, n as int);
        lemma_sorted_concat(m.out(), m.a_rem().take(n as int));
    }
    let ghost win = m.a_rem().take(n as int);
    let ghost out0 = m.out();
    match op {
        SetOp::Union | SetOp::Xor | SetOp::Diff => {
            m.move_a(n);
            assert forall|k: int| #[trigger] has_key(m.out(), k) == (has_key(out0, k) || keeps(
                op,
                has_key(win, k),
                false,
            )) by {
                lemma_has_key_concat(out0, win, k);
            }
        }
        SetOp::Intersection => {
            m.skip_a(n);
        }
    }
}

/// Emit (or drop, as `op` dictates) the next `n` elements of the second input.
fn from_b<T: Element, M: MergeStateMod<T>>(op: SetOp, m: &mut M, n: usize)
    requires
        old(m).inv(),
        n <= old(m).b_rem().len(),
        sorted(old(m).b_rem()),
        sorted(old(m).out()),
        keys_below(old(m).out(), old(m).b_rem().take(n as int)),
    ensures
        final(m).inv(),
        final(m).a_rem() == old(m).a_rem(),
        final(m).b_rem() == old(m).b_rem().skip(n as int),
        sorted(final(m).out()),
        forall|k: int|
            #[trigger] has_key(final(m).out(), k) == (has_key(old(m).out(), k) || keeps(
                op,
                false,
                has_key(old(m).b_rem().take(n as int), k),
            )),
{
    proof {
        lemma_sorted_subrange(m.b_rem(), 0, n as int);
        lemma_sorted_concat(m.out(), m.b_rem().take(n as int));
    }
    let ghost win = m.b_rem().take(n as int);
    let ghost out0 = m.out();
    match op {
        SetOp::Union | SetOp::Xor => {
            m.move_b(n);
            assert forall|k: int| #[trigger] has_key(m.out(), k) == (has_key(out0, k) || keeps(
                op,
                false,
                has_key(win, k),
            )) by {
                lemma_has_key_concat(out0, win, k);
            }
        }
        SetOp::Intersection | SetOp::Diff => {
            m.skip_b(n);
        }
    }
}

/// Handle one collision: the heads of both remainders carry the same key.
fn collision<T: Element, M: MergeStateMod<T>>(op: SetOp, m: &mut M)
    requires
        old(m).inv(),
        old(m).a_rem().len() >= 1,
        old(m).b_rem().len() >= 1,
        old(m).a_rem()[0].key() == old(m).b_rem()[0].key(),
        sorted(old(m).out()),
        keys_below(old(m).out(), old(m).a_rem().take(1)),
    ensures
        final(m).inv(),
        final(m).a_rem() == old(m).a_rem().skip(1),
        final(m).b_rem() == old(m).b_rem().skip(1),
        sorted(final(m).out()),
        forall|k: int|
            #[trigger] has_key(final(m).out(), k) == (has_key(old(m).out(), k) || (k == old(
                m,
            ).a_rem()[0].key() && keeps(op, true, true))),
{
    let ghost win = m.a_rem().take(1);
    let ghost out0 = m.out();
    proof {
        assert(win[0] == m.a_rem()[0]);
        assert forall|k: int| #[trigger] has_key(win, k) == (k == m.a_rem()[0].key()) by {
            if has_key(win, k) {
                let i = choose|i: int| 0 <= i < win.len() && #[trigger] win[i].key() == k;
                assert(i == 0);
            }
            if k == m.a_rem()[0].key() {
                assert(win[0].key() == k);
            }
        }
        lemma_sorted_concat(m.out(), win);
    }
    match op {
        SetOp::Union | SetOp::Intersection => {
            m.move_a(1);
            m.skip_b(1);
            assert forall|k: int| #[trigger] has_key(m.out(), k) == (has_key(out0, k) || (k
                == old(m).a_rem()[0].key() && keeps(op, true, true))) by {
                lemma_has_key_concat(out0, win, k);
            }
        }
        SetOp::Xor | SetOp::Diff => {
            m.skip_a(1);
            m.skip_b(1);
        }
    }
}

/// Merge the next `an` elements of the first input with the next `bn`
/// elements of the second, by divide and conquer.
pub fn merge0<T: Element, M: MergeStateMod<T>>(op: SetOp, m: &mut M, an: usize, bn: usize)
    requires
        old(m).inv(),
        an <= old(m).a_rem().len(),
        bn <= old(m).b_rem().len(),
        sorted(old(m).a_rem()),
        sorted(old(m).b_rem()),
        sorted(old(m).out()),
        keys_below(old(m).out(), old(m).a_rem().take(an as int)),
        keys_below(old(m).out(), old(m).b_rem().take(bn as int)),
    ensures
        final(m).inv(),
        final(m).a_rem() == old(m).a_rem().skip(an as int),
        final(m).b_rem() == old(m).b_rem().skip(bn as int),
        sorted(final(m).out()),
        forall|k: int|
            #[trigger] has_key(final(m).out(), k) == (has_key(old(m).out(), k) || keeps(
                op,
                has_key(old(m).a_rem().take(an as int), k),
                has_key(old(m).b_rem().take(bn as int), k),
            )),
    decreases an + bn,
{
    let ghost ar = m.a_rem();
    let ghost br = m.b_rem();
    let ghost out0 = m.out();
    if an == 0 {
        if bn > 0 {
            from_b(op, m, bn);
        } else {
            proof {
                assert(ar.skip(0) =~= ar);
                assert(br.skip(0) =~= br);
            }
        }
        proof {
            assert(ar.skip(an as int) =~= ar);
        }
    } else if bn == 0 {
        from_a(op, m, an);
        proof {
            assert(br.skip(bn as int) =~= br);
        }
    } else {
        let am: usize = an / 2;
        let pivot = m.a_at(am);
        let ghost pk = pivot.key();
        let (found, idx) = find_in_b(m, &pivot, bn);
        proof {
            // the pivot splits both windows into strictly-below, equal,
            // strictly-above parts
            assert(ar.take(an as int)[am as int] == ar[am as int]);
        }
        if found {
            let bm = idx;
            proof {
                narrow_keys_below(out0, ar, an as int, am as int);
                narrow_keys_below(out0, br, bn as int, bm as int);
            }
            merge0(op, m, am, bm);
            let ghost out1 = m.out();
            proof {
                assert(m.a_rem() == ar.skip(am as int));
                assert(m.a_rem()[0] == ar[am as int]);
                assert(m.b_rem()[0] == br[bm as int]);
                assert forall|i: int| 0 <= i < out1.len() implies #[trigger] out1[i].key()
                    < pk by {
                    lemma_out_key_below(op, out0, ar, br, an as int, bn as int, am as int,
                        bm as int, out1, out1[i].key());
                }
                assert(keys_below(out1, m.a_rem().take(1))) by {
                    assert(m.a_rem().take(1)[0] == ar[am as int]);
                }
                lemma_sorted_subrange(ar, am as int, ar.len() as int);
                assert(m.a_rem() == ar.subrange(am as int, ar.len() as int));
                lemma_sorted_subrange(br, bm as int, br.len() as int);
                assert(m.b_rem() == br.subrange(bm as int, br.len() as int));
            }
            collision(op, m);
            let ghost out2 = m.out();
            proof {
                assert(m.a_rem() =~= ar.skip(am + 1));
                assert(m.b_rem() =~= br.skip(bm + 1));
                lemma_sorted_subrange(ar, am + 1, ar.len() as int);
                assert(m.a_rem() =~= ar.subrange(am + 1, ar.len() as int));
                lemma_sorted_subrange(br, bm + 1, br.len() as int);
                assert(m.b_rem() =~= br.subrange(bm + 1, br.len() as int));
                // everything produced so far stays at or below the pivot key
                assert forall|i: int| 0 <= i < out2.len() implies #[trigger] out2[i].key()
                    <= pk by {
                    let k = out2[i].key();
                    assert(has_key(out2, k));
                    if has_key(out1, k) {
                        assert(out1[choose|j: int|
                            0 <= j < out1.len() && #[trigger] out1[j].key() == k].key() < pk);
                    }
                }
                assert(keys_below(out2, m.a_rem().take((an - am - 1) as int))) by {
                    assert forall|j: int| 0 <= j < an - am - 1 implies pk < #[trigger] m.a_rem()
                        .take((an - am - 1) as int)[j].key() by {
                        assert(m.a_rem().take((an - am - 1) as int)[j] == ar[am + 1 + j]);
                        assert(ar[am as int].key() < ar[am + 1 + j].key());
                    }
                }
                assert(keys_below(out2, m.b_rem().take((bn - bm - 1) as int))) by {
                    assert forall|j: int| 0 <= j < bn - bm - 1 implies pk < #[trigger] m.b_rem()
                        .take((bn - bm - 1) as int)[j].key() by {
                        assert(m.b_rem().take((bn - bm - 1) as int)[j] == br[bm + 1 + j]);
                        assert(br[bm as int].key() < br[bm + 1 + j].key());
                    }
                }
            }
            let ghost ar2 = m.a_rem();
            let ghost br2 = m.b_rem();
            merge0(op, m, an - am - 1, bn - bm - 1);
            proof {
                assert(m.a_rem() =~= ar.skip(an as int));
                assert(m.b_rem() =~= br.skip(bn as int));
                assert(ar2.take((an - am - 1) as int) =~= ar.subrange(am + 1, an as int));
                assert(br2.take((bn - bm - 1) as int) =~= br.subrange(bm + 1, bn as int));
                assert forall|k: int|
                    #[trigger] has_key(m.out(), k) == (has_key(out0, k) || keeps(
                        op,
                        has_key(ar.take(an as int), k),
                        has_key(br.take(bn as int), k),
                    )) by {
                    lemma_window_split(ar, an as int, am as int, k);
                    lemma_window_split(br, bn as int, bm as int, k);
                    lemma_split_disjoint(ar, an as int, am as int, k);
                    lemma_split_disjoint(br, bn as int, bm as int, k);
                    assert(ar[am as int].key() == pk);
                    assert(br[bm as int].key() == pk);
                }
            }
        } else {
            let bi = idx;
            proof {
                narrow_keys_below(out0, ar, an as int, am as int);
                narrow_keys_below(out0, br, bn as int, bi as int);
            }
            merge0(op, m, am, bi);
            let ghost out1 = m.out();
            proof {
                assert(m.a_rem() == ar.skip(am as int));
                assert(m.a_rem()[0] == ar[am as int]);
                assert forall|i: int| 0 <= i < out1.len() implies #[trigger] out1[i].key()
                    < pk by {
                    lemma_out_key_below(op, out0, ar, br, an as int, bn as int, am as int,
                        bi as int, out1, out1[i].key());
                }
                assert(keys_below(out1, m.a_rem().take(1))) by {
                    assert(m.a_rem().take(1)[0] == ar[am as int]);
                }
                lemma_sorted_subrange(ar, am as int, ar.len() as int);
                assert(m.a_rem() == ar.subrange(am as int, ar.len() as int));
            }
            from_a(op, m, 1);
            let ghost out2 = m.out();
            proof {
                assert(m.a_rem() =~= ar.skip(am + 1));
                assert(m.b_rem() == br.skip(bi as int));
                lemma_sorted_subrange(ar, am + 1, ar.len() as int);
                assert(m.a_rem() =~= ar.subrange(am + 1, ar.len() as int));
                lemma_sorted_subrange(br, bi as int, br.len() as int);
                assert(m.b_rem() == br.subrange(bi as int, br.len() as int));
                assert forall|i: int| 0 <= i < out2.len() implies #[trigger] out2[i].key()
                    <= pk by {
                    let k = out2[i].key();
                    assert(has_key(out2, k));
                    if has_key(out1, k) {
                        assert(out1[choose|j: int|
                            0 <= j < out1.len() && #[trigger] out1[j].key() == k].key() < pk);
                    } else {
                        let w = ar.skip(am as int).take(1);
                        let j = choose|j: int| 0 <= j < w.len() && #[trigger] w[j].key() == k;
                        assert(w[0] == ar[am as int]);
                    }
                }
                assert(keys_below(out2, m.a_rem().take((an - am - 1) as int))) by {
                    assert forall|j: int| 0 <= j < an - am - 1 implies pk < #[trigger] m.a_rem()
                        .take((an - am - 1) as int)[j].key() by {
                        assert(m.a_rem().take((an - am - 1) as int)[j] == ar[am + 1 + j]);
                        assert(ar[am as int].key() < ar[am + 1 + j].key());
                    }
                }
                assert(keys_below(out2, m.b_rem().take((bn - bi) as int))) by {
                    assert forall|j: int| 0 <= j < bn - bi implies pk < #[trigger] m.b_rem()
                        .take((bn - bi) as int)[j].key() by {
                        assert(m.b_rem().take((bn - bi) as int)[j] == br[bi + j]);
                    }
                }
            }
            let ghost ar2 = m.a_rem();
            let ghost br2 = m.b_rem();
            merge0(op, m, an - am - 1, bn - bi);
            proof {
                assert(m.a_rem() =~= ar.skip(an as int));
                assert(m.b_rem() =~= br.skip(bn as int));
                assert(ar2.take((an - am - 1) as int) =~= ar.subrange(am + 1, an as int));
                assert(br2.take((bn - bi) as int) =~= br.subrange(bi as int, bn as int));
                assert forall|k: int|
                    #[trigger] has_key(m.out(), k) == (has_key(out0, k) || keeps(
                        op,
                        has_key(ar.take(an as int), k),
                        has_key(br.take(bn as int), k),
                    )) by {
                    lemma_window_split(ar, an as int, am as int, k);
                    lemma_window_split_at(br, bn as int, bi as int, k);
                    lemma_split_disjoint(ar, an as int, am as int, k);
                    lemma_split_disjoint_at(br, bn as int, bi as int, k);
                    assert(ar[am as int].key() == pk);
                    if has_key(ar.skip(am as int).take(1), k) {
                        let w = ar.skip(am as int).take(1);
                        let j = choose|j: int| 0 <= j < w.len() && #[trigger] w[j].key() == k;
                        assert(w[0] == ar[am as int]);
                        assert(k == pk);
                    }
                    if k == pk {
                        assert(ar.skip(am as int).take(1)[0].key() == k);
                        assert(has_key(ar.skip(am as int).take(1), k));
                        // the pivot key is absent from the b window
                        if has_key(br.take(bn as int), k) {
                            let j = choose|j: int|
                                0 <= j < br.take(bn as int).len() && #[trigger] br.take(
                                    bn as int,
                                )[j].key() == k;
                            assert(br[j].key() == k);
                            assert(false);
                        }
                    }
                }
            }
        }
    }
}

/// A window of a sorted sequence splits at an interior pivot into the part
/// below, the pivot itself, and the part above.
pub(crate) proof fn lemma_window_split<T: Element>(s: Seq<T>, n: int, p: int, k: int)
    requires
        0 <= p < n <= s.len(),
    ensures
        has_key(s.take(n), k) == (has_key(s.take(p), k) || k == s[p].key() || has_key(
            s.subrange(p + 1, n),
            k,
        )),
{
    let w = s.take(n);
    let left = s.take(p);
    let right = s.subrange(p + 1, n);
    if has_key(w, k) {
        let i = choose|i: int| 0 <= i < w.len() && #[trigger] w[i].key() == k;
        if i < p {
            assert(left[i].key() == k);
        } else if i == p {
            assert(s[p].key() == k);
        } else {
            assert(right[i - p - 1].key() == k);
        }
    }
    if has_key(left, k) {
        let i = choose|i: int| 0 <= i < left.len() && #[trigger] left[i].key() == k;
        assert(w[i].key() == k);
    }
    if k == s[p].key() {
        assert(w[p].key() == k);
    }
    if has_key(right, k) {
        let i = choose|i: int| 0 <= i < right.len() && #[trigger] right[i].key() == k;
        assert(w[p + 1 + i].key() == k);
    }
}

/// A window of a sorted sequence splits at an insertion point into the part
/// below and the part at or above.
pub(crate) proof fn lemma_window_split_at<T: Element>(s: Seq<T>, n: int, p: int, k: int)
    requires
        0 <= p <= n <= s.len(),
    ensures
        has_key(s.take(n), k) == (has_key(s.take(p), k) || has_key(s.subrange(p, n), k)),
{
    let w = s.take(n);
    let left = s.take(p);
    let right = s.subrange(p, n);
    if has_key(w, k) {
        let i = choose|i: int| 0 <= i < w.len() && #[trigger] w[i].key() == k;
        if i < p {
            assert(left[i].key() == k);
        } else {
            assert(right[i - p].key() == k);
        }
    }
    if has_key(left, k) {
        let i = choose|i: int| 0 <= i < left.len() && #[trigger] left[i].key() == k;
        assert(w[i].key() == k);
    }
    if has_key(right, k) {
        let i = choose|i: int| 0 <= i < right.len() && #[trigger] right[i].key() == k;
        assert(w[p + i].key() == k);
    }
}

/// In a sorted window, the parts around an interior pivot hold keys strictly
/// below, equal to, and strictly above the pivot key.
pub(crate) proof fn lemma_split_disjoint<T: Element>(s: Seq<T>, n: int, p: int, k: int)
    requires
        sorted(s),
        0 <= p < n <= s.len(),
    ensures
        has_key(s.take(p), k) ==> k < s[p].key(),
        has_key(s.subrange(p + 1, n), k) ==> k > s[p].key(),
{
    if has_key(s.take(p), k) {
        let i = choose|i: int| 0 <= i < s.take(p).len() && #[trigger] s.take(p)[i].key() == k;
        assert(s[i].key() == k);
    }
    if has_key(s.subrange(p + 1, n), k) {
        let w = s.subrange(p + 1, n);
        let i = choose|i: int| 0 <= i < w.len() && #[trigger] w[i].key() == k;
        assert(s[p + 1 + i].key() == k);
    }
}

/// In a sorted window split at an insertion point `p` for a key that does not
/// occur, the left part holds keys strictly below and the right part keys
/// strictly above the probed key, provided the search said so element-wise.
pub(crate) proof fn lemma_split_disjoint_at<T: Element>(s: Seq<T>, n: int, p: int, k: int)
    requires
        sorted(s),
        0 <= p <= n <= s.len(),
    ensures
        has_key(s.take(p), k) ==> exists|i: int| 0 <= i < p && #[trigger] s[i].key() == k,
        has_key(s.subrange(p, n), k) ==> exists|i: int|
            p <= i < n && #[trigger] s[i].key() == k,
{
    if has_key(s.take(p), k) {
        let i = choose|i: int| 0 <= i < s.take(p).len() && #[trigger] s.take(p)[i].key() == k;
        assert(s[i].key() == k);
    }
    if has_key(s.subrange(p, n), k) {
        let w = s.subrange(p, n);
        let i = choose|i: int| 0 <= i < w.len() && #[trigger] w[i].key() == k;
        assert(s[p + i].key() == k);
    }
}

/// Narrowing a window keeps the produced-below-window bound.
proof fn narrow_keys_below<T: Element>(out: Seq<T>, s: Seq<T>, n: int, p: int)
    requires
        0 <= p <= n <= s.len(),
        keys_below(out, s.take(n)),
    ensures
        keys_below(out, s.take(p)),
{
    assert forall|i: int, j: int| 0 <= i < out.len() && 0 <= j < s.take(p).len()
        implies #[trigger] out[i].key() < #[trigger] s.take(p)[j].key() by {
        assert(s.take(p)[j] == s.take(n)[j]);
        assert(out[i].key() < s.take(n)[j].key());
    }
}

/// After merging the sub-windows below the pivot, every produced key is
/// strictly below the pivot key.
proof fn lemma_out_key_below<T: Element>(
    op: SetOp,
    out0: Seq<T>,
    ar: Seq<T>,
    br: Seq<T>,
    an: int,
    bn: int,
    am: int,
    bm: int,
    out1: Seq<T>,
    k: int,
)
    requires
        sorted(ar),
        sorted(br),
        0 <= am < an <= ar.len(),
        0 <= bm <= bn <= br.len(),
        keys_below(out0, ar.take(an)),
        has_key(out1, k) == (has_key(out0, k) || keeps(
            op,
            has_key(ar.take(am), k),
            has_key(br.take(bm), k),
        )),
        has_key(out1, k),
        forall|j: int| 0 <= j < bm ==> #[trigger] br[j].key() < ar[am].key(),
    ensures
        k < ar[am].key(),
{
    if has_key(out0, k) {
        let i = choose|i: int| 0 <= i < out0.len() && #[trigger] out0[i].key() == k;
        assert(ar.take(an)[am] == ar[am]);
        assert(out0[i].key() < ar.take(an)[am].key());
    } else {
        if has_key(ar.take(am), k) {
            lemma_prefix_keys_below(ar, am, k);
        } else {
            assert(has_key(br.take(bm), k));
            let i = choose|i: int| 0 <= i < br.take(bm).len() && #[trigger] br.take(
                bm,
            )[i].key() == k;
            assert(br[i].key() == k);
        }
    }
}

} // verus!
