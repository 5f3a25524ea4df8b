//! The algebraic laws of the set operations.
//!
//! Every operation's contract pins its result down completely: the result is
//! sorted and holds exactly the keys the operation keeps.  The laws here are
//! therefore stated over any sequences that satisfy those contracts.

use vstd::prelude::*;

use crate::binary_merge::{keeps, SetOp};
use crate::order::{has_key, lemma_sorted_same_keys_equal, sorted, Element};

verus! {

/// Any two sorted results of the same operation on the same operands are
/// equal.  In particular, the in-place form and the new-sequence form of
/// each operation produce identical contents.
pub proof fn lemma_merge_deterministic<T: Element>(
    op: SetOp,
    a: Seq<T>,
    b: Seq<T>,
    r1: Seq<T>,
    r2: Seq<T>,
)
    requires
        sorted(r1),
        sorted(r2),
        forall|k: int| #[trigger] has_key(r1, k) == keeps(op, has_key(a, k), has_key(b, k)),
        forall|k: int| #[trigger] has_key(r2, k) == keeps(op, has_key(a, k), has_key(b, k)),
    ensures
        r1 == r2,
{
    lemma_sorted_same_keys_equal(r1, r2);
}

/// Union, intersection and symmetric difference are commutative: exchanging
/// the operands gives an equal result.
pub proof fn lemma_commutative<T: Element>(
    op: SetOp,
    a: Seq<T>,
    b: Seq<T>,
    r1: Seq<T>,
    r2: Seq<T>,
)
    requires
        op is Union || op is Intersection || op is Xor,
        sorted(r1),
        sorted(r2),
        forall|k: int| #[trigger] has_key(r1, k) == keeps(op, has_key(a, k), has_key(b, k)),
        forall|k: int| #[trigger] has_key(r2, k) == keeps(op, has_key(b, k), has_key(a, k)),
    ensures
        r1 == r2,
{
    lemma_sorted_same_keys_equal(r1, r2);
}

/// Idempotence: the union and the intersection of a set with itself give the
/// set back.
pub proof fn lemma_self_identity<T: Element>(op: SetOp, a: Seq<T>, r: Seq<T>)
    requires
        op is Union || op is Intersection,
        sorted(a),
        sorted(r),
        forall|k: int| #[trigger] has_key(r, k) == keeps(op, has_key(a, k), has_key(a, k)),
    ensures
        r == a,
{
    lemma_sorted_same_keys_equal(r, a);
}

/// Cancellation: the difference and the symmetric difference of a set with
/// itself are empty.
pub proof fn lemma_self_empty<T: Element>(op: SetOp, a: Seq<T>, r: Seq<T>)
    requires
        op is Xor || op is Diff,
        sorted(r),
        forall|k: int| #[trigger] has_key(r, k) == keeps(op, has_key(a, k), has_key(a, k)),
    ensures
        r == Seq::<T>::empty(),
{
    lemma_sorted_same_keys_equal(r, Seq::<T>::empty());
}

/// The empty set is the identity of union.
pub proof fn lemma_union_empty<T: Element>(a: Seq<T>, b: Seq<T>, r: Seq<T>)
    requires
        sorted(a),
        sorted(r),
        b.len() == 0,
        forall|k: int|
            #[trigger] has_key(r, k) == (has_key(a, k) || has_key(b, k)),
    ensures
        r == a,
{
    lemma_sorted_same_keys_equal(r, a);
}

/// The empty set annihilates intersection.
pub proof fn lemma_intersection_empty<T: Element>(a: Seq<T>, b: Seq<T>, r: Seq<T>)
    requires
        sorted(r),
        b.len() == 0,
        forall|k: int|
            #[trigger] has_key(r, k) == (has_key(a, k) && has_key(b, k)),
    ensures
        r == Seq::<T>::empty(),
{
    lemma_sorted_same_keys_equal(r, Seq::<T>::empty());
}

/// Subset agrees with union: `a` is a subset of `b` exactly when the union
/// of the two is `b` itself.
pub proof fn lemma_subset_union_agree<T: Element>(a: Seq<T>, b: Seq<T>, r: Seq<T>)
    requires
        sorted(b),
        sorted(r),
        forall|k: int|
            #[trigger] has_key(r, k) == (has_key(a, k) || has_key(b, k)),
    ensures
        (forall|k: int| #[trigger] has_key(a, k) ==> has_key(b, k)) == (r == b),
{
    if forall|k: int| #[trigger] has_key(a, k) ==> has_key(b, k) {
        lemma_sorted_same_keys_equal(r, b);
    } else {
        let k = choose|k: int| #[trigger] has_key(a, k) && !has_key(b, k);
        assert(has_key(r, k));
        assert(r != b);
    }
}

/// Disjointness agrees with intersection: `a` and `b` are disjoint exactly
/// when their intersection is empty.
pub proof fn lemma_disjoint_intersection_agree<T: Element>(a: Seq<T>, b: Seq<T>, r: Seq<T>)
    requires
        sorted(r),
        forall|k: int|
            #[trigger] has_key(r, k) == (has_key(a, k) && has_key(b, k)),
    ensures
        (forall|k: int| #[trigger] has_key(a, k) ==> !has_key(b, k)) == (r.len() == 0),
{
    if r.len() > 0 {
        assert(has_key(r, r[0].key()));
    }
    if forall|k: int| #[trigger] has_key(a, k) ==> !has_key(b, k) {
        if r.len() > 0 {
            assert(has_key(r, r[0].key()));
            assert(false);
        }
    } else {
        let k = choose|k: int| #[trigger] has_key(a, k) && has_key(b, k);
        assert(has_key(r, k));
    }
}

} // verus!
