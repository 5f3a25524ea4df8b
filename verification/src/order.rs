//! The total order that the merge engine sorts by.
//!
//! Elements are compared through an injective embedding of each element into
//! the mathematical integers; all ordering facts reduce to integer facts.

use vstd::prelude::*;

verus! {

/// Result of a three-way comparison.
pub enum Cmp {
    Less,
    Equal,
    Greater,
}

/// An element that the merge engine can order: it carries an injective
/// integer key, and a three-way comparison that agrees with the keys.
pub trait Element: Copy + Sized {
    /// The integer key this element sorts by.
    spec fn key(self) -> int;

    /// Two elements with the same key are the same element.
    proof fn key_injective(a: Self, b: Self)
        requires
            a.key() == b.key(),
        ensures
            a == b,
    ;

    /// Three-way comparison, consistent with `key`.
    fn cmp_el(&self, other: &Self) -> (c: Cmp)
        ensures
            c is Less <==> self.key() < other.key(),
            c is Equal <==> self.key() == other.key(),
            c is Greater <==> self.key() > other.key(),
    ;
}

impl Element for u32 {
    open spec fn key(self) -> int {
        self as int
    }

    proof fn key_injective(a: Self, b: Self) {
    }

    fn cmp_el(&self, other: &Self) -> (c: Cmp) {
        if *self < *other {
            Cmp::Less
        } else if *self == *other {
            Cmp::Equal
        } else {
            Cmp::Greater
        }
    }
}

impl Element for u64 {
    open spec fn key(self) -> int {
        self as int
    }

    proof fn key_injective(a: Self, b: Self) {
    }

    fn cmp_el(&self, other: &Self) -> (c: Cmp) {
        if *self < *other {
            Cmp::Less
        } else if *self == *other {
            Cmp::Equal
        } else {
            Cmp::Greater
        }
    }
}

impl Element for i32 {
    open spec fn key(self) -> int {
        self as int
    }

    proof fn key_injective(a: Self, b: Self) {
    }

    fn cmp_el(&self, other: &Self) -> (c: Cmp) {
        if *self < *other {
            Cmp::Less
        } else if *self == *other {
            Cmp::Equal
        } else {
            Cmp::Greater
        }
    }
}

impl Element for i64 {
    open spec fn key(self) -> int {
        self as int
    }

    proof fn key_injective(a: Self, b: Self) {
    }

    fn cmp_el(&self, other: &Self) -> (c: Cmp) {
        if *self < *other {
            Cmp::Less
        } else if *self == *other {
            Cmp::Equal
        } else {
            Cmp::Greater
        }
    }
}

impl Element for usize {
    open spec fn key(self) -> int {
        self as int
    }

    proof fn key_injective(a: Self, b: Self) {
    }

    fn cmp_el(&self, other: &Self) -> (c: Cmp) {
        if *self < *other {
            Cmp::Less
        } else if *self == *other {
            Cmp::Equal
        } else {
            Cmp::Greater
        }
    }
}

/// A sequence is strictly increasing by key: sorted and duplicate-free.
pub open spec fn sorted<T: Element>(s: Seq<T>) -> bool {
    forall|i: int, j: int|
        0 <= i < j < s.len() ==> #[trigger] s[i].key() < #[trigger] s[j].key()
}

/// Some element of `s` has key `k`.
pub open spec fn has_key<T: Element>(s: Seq<T>, k: int) -> bool {
    exists|i: int| 0 <= i < s.len() && #[trigger] s[i].key() == k
}

/// Every key of `s` is strictly below every key of `t`.
pub open spec fn keys_below<T: Element>(s: Seq<T>, t: Seq<T>) -> bool {
    forall|i: int, j: int|
        0 <= i < s.len() && 0 <= j < t.len() ==> #[trigger] s[i].key() < #[trigger] t[j].key()
}

/// Membership in a concatenation splits into membership in the parts.
pub broadcast proof fn lemma_has_key_concat<T: Element>(s: Seq<T>, t: Seq<T>, k: int)
    ensures
        #[trigger] has_key(s + t, k) <==> has_key(s, k) || has_key(t, k),
{
    if has_key(s, k) {
        let i = choose|i: int| 0 <= i < s.len() && #[trigger] s[i].key() == k;
        assert((s + t)[i].key() == k);
    }
    if has_key(t, k) {
        let i = choose|i: int| 0 <= i < t.len() && #[trigger] t[i].key() == k;
        assert((s + t)[s.len() + i].key() == k);
    }
    if has_key(s + t, k) {
        let i = choose|i: int| 0 <= i < (s + t).len() && #[trigger] (s + t)[i].key() == k;
        if i < s.len() {
            assert(s[i].key() == k);
        } else {
            assert(t[i - s.len()].key() == k);
        }
    }
}

/// Appending a block whose keys all lie above keeps a sequence sorted.
pub proof fn lemma_sorted_concat<T: Element>(s: Seq<T>, t: Seq<T>)
    requires
        sorted(s),
        sorted(t),
        keys_below(s, t),
    ensures
        sorted(s + t),
{
    assert forall|i: int, j: int| 0 <= i < j < (s + t).len() implies #[trigger] (s + t)[i].key()
        < #[trigger] (s + t)[j].key() by {
        if j < s.len() {
            assert(s[i].key() < s[j].key());
        } else if i >= s.len() {
            assert(t[i - s.len()].key() < t[j - s.len()].key());
        } else {
            assert(s[i].key() < t[j - s.len()].key());
        }
    }
}

/// Two sorted, duplicate-free sequences with the same keys are equal.
pub proof fn lemma_sorted_same_keys_equal<T: Element>(a: Seq<T>, b: Seq<T>)
    requires
        sorted(a),
        sorted(b),
        forall|k: int| has_key(a, k) == has_key(b, k),
    ensures
        a == b,
    decreases a.len(),
{
    if a.len() == 0 {
        if b.len() > 0 {
            assert(has_key(b, b[0].key()));
            assert(false);
        }
        assert(a =~= b);
    } else {
        assert(has_key(a, a[0].key()));
        if b.len() == 0 {
            assert(false);
        }
        assert(has_key(b, b[0].key()));
        // the two head keys are each other's lower bounds, hence equal
        let i = choose|i: int| 0 <= i < b.len() && #[trigger] b[i].key() == a[0].key();
        assert(b[0].key() <= a[0].key());
        let j = choose|j: int| 0 <= j < a.len() && #[trigger] a[j].key() == b[0].key();
        assert(a[0].key() <= b[0].key());
        T::key_injective(a[0], b[0]);
        let at = a.skip(1);
        let bt = b.skip(1);
        assert forall|k: int| has_key(at, k) == has_key(bt, k) by {
            lemma_tail_has_key(a, k);
            lemma_tail_has_key(b, k);
        }
        lemma_sorted_same_keys_equal(at, bt);
        assert(a.len() == b.len());
        assert forall|i: int| 0 <= i < a.len() implies a[i] == b[i] by {
            if i >= 1 {
                assert(a[i] == at[i - 1]);
                assert(b[i] == bt[i - 1]);
            }
        }
        assert(a =~= b);
    }
}

/// Inserting an element at its insertion point keeps a sequence sorted and
/// adds exactly its key.
pub proof fn lemma_insert_sorted<T: Element>(s: Seq<T>, p: int, x: T)
    requires
        sorted(s),
        0 <= p <= s.len(),
        forall|j: int| 0 <= j < p ==> #[trigger] s[j].key() < x.key(),
        forall|j: int| p <= j < s.len() ==> #[trigger] s[j].key() > x.key(),
    ensures
        sorted(s.insert(p, x)),
        forall|k: int| #[trigger] has_key(s.insert(p, x), k) == (has_key(s, k) || k == x.key()),
{
    let t = s.insert(p, x);
    assert forall|i: int, j: int| 0 <= i < j < t.len() implies #[trigger] t[i].key()
        < #[trigger] t[j].key() by {
        if i < p && j < p {
        } else if i > p && j > p {
            assert(t[i] == s[i - 1]);
            assert(t[j] == s[j - 1]);
        } else if i < p && j > p {
            assert(t[i] == s[i]);
            assert(t[j] == s[j - 1]);
            assert(s[i].key() < x.key());
            assert(s[j - 1].key() > x.key());
        } else if i == p {
            assert(t[j] == s[j - 1]);
        } else if j == p {
            assert(t[i] == s[i]);
        }
    }
    assert forall|k: int| #[trigger] has_key(t, k) == (has_key(s, k) || k == x.key()) by {
        if has_key(t, k) {
            let i = choose|i: int| 0 <= i < t.len() && #[trigger] t[i].key() == k;
            if i < p {
                assert(s[i].key() == k);
            } else if i == p {
            } else {
                assert(s[i - 1].key() == k);
            }
        }
        if has_key(s, k) {
            let i = choose|i: int| 0 <= i < s.len() && #[trigger] s[i].key() == k;
            if i < p {
                assert(t[i].key() == k);
            } else {
                assert(t[i + 1].key() == k);
            }
        }
        if k == x.key() {
            assert(t[p].key() == k);
        }
    }
}

/// Removing the element at a position keeps a sequence sorted and removes
/// exactly its key.
pub proof fn lemma_remove_sorted<T: Element>(s: Seq<T>, p: int)
    requires
        sorted(s),
        0 <= p < s.len(),
    ensures
        sorted(s.remove(p)),
        forall|k: int| #[trigger] has_key(s.remove(p), k) == (has_key(s, k) && k != s[p].key()),
{
    let t = s.remove(p);
    assert forall|i: int, j: int| 0 <= i < j < t.len() implies #[trigger] t[i].key()
        < #[trigger] t[j].key() by {
        if i < p && j < p {
        } else if i >= p && j >= p {
            assert(t[i] == s[i + 1]);
            assert(t[j] == s[j + 1]);
        } else {
            assert(t[i] == s[i]);
            assert(t[j] == s[j + 1]);
        }
    }
    assert forall|k: int| #[trigger] has_key(t, k) == (has_key(s, k) && k != s[p].key()) by {
        if has_key(t, k) {
            let i = choose|i: int| 0 <= i < t.len() && #[trigger] t[i].key() == k;
            if i < p {
                assert(s[i].key() == k);
                assert(s[i].key() < s[p].key());
            } else {
                assert(s[i + 1].key() == k);
                assert(s[p].key() < s[i + 1].key());
            }
        }
        if has_key(s, k) && k != s[p].key() {
            let i = choose|i: int| 0 <= i < s.len() && #[trigger] s[i].key() == k;
            if i < p {
                assert(t[i].key() == k);
            } else {
                assert(i != p);
                assert(t[i - 1].key() == k);
            }
        }
    }
}

/// A one-element sequence has exactly the key of its element.
pub proof fn lemma_has_key_singleton<T: Element>(s: Seq<T>, k: int)
    requires
        s.len() == 1,
    ensures
        has_key(s, k) == (k == s[0].key()),
{
    if has_key(s, k) {
        let i = choose|i: int| 0 <= i < s.len() && #[trigger] s[i].key() == k;
        assert(i == 0);
    }
    if k == s[0].key() {
        assert(s[0].key() == k);
    }
}

/// In a sorted sequence, a key is in the tail exactly when it is in the whole
/// sequence and differs from the head key.
proof fn lemma_tail_has_key<T: Element>(s: Seq<T>, k: int)
    requires
        sorted(s),
        s.len() > 0,
    ensures
        has_key(s.skip(1), k) == (has_key(s, k) && k != s[0].key()),
{
    let t = s.skip(1);
    if has_key(t, k) {
        let i = choose|i: int| 0 <= i < t.len() && #[trigger] t[i].key() == k;
        assert(s[i + 1].key() == k);
        assert(s[0].key() < s[i + 1].key());
    }
    if has_key(s, k) && k != s[0].key() {
        let i = choose|i: int| 0 <= i < s.len() && #[trigger] s[i].key() == k;
        assert(t[i - 1].key() == k);
    }
}

} // verus!
