//! A finite union of intervals over an ordered domain, encoded as a sorted
//! boundary list with a two-bit kind per boundary.
//!
//! `below_all` says whether the set contains everything below the first
//! boundary; each boundary's kind says whether the boundary point itself and
//! the region immediately above it are inside.  The encoding is kept
//! canonical: no boundary restates what the state below it already implies.

use vstd::prelude::*;

use crate::binary_merge::{find_key, lemma_sorted_subrange};
use crate::order::{sorted, Cmp, Element};

verus! {

/// The two-bit tag of a boundary: is the boundary point inside, and is the
/// region immediately above it inside.
#[derive(Clone, Copy, PartialEq, Eq, Structural, Debug)]
pub enum Kind {
    K00,
    K01,
    K10,
    K11,
}

/// The kind whose bits both equal the state `s`: a boundary with this kind
/// would be redundant where the incoming state is `s`.
pub open spec fn state_kind(s: bool) -> Kind {
    if s {
        Kind::K11
    } else {
        Kind::K00
    }
}

/// The kind encoding the pair of bits `(at, above)`.
pub open spec fn kind_of(at: bool, above: bool) -> Kind {
    if at {
        if above {
            Kind::K11
        } else {
            Kind::K10
        }
    } else {
        if above {
            Kind::K01
        } else {
            Kind::K00
        }
    }
}

impl Kind {
    /// Whether the boundary point itself is inside.
    pub open spec fn at_spec(self) -> bool {
        self is K10 || self is K11
    }

    /// Whether the region immediately above the boundary is inside.
    pub open spec fn above_spec(self) -> bool {
        self is K01 || self is K11
    }

    /// The kind with the two low bits of `value`: bit 1 is the at-bit,
    /// bit 0 the above-bit.
    pub open spec fn from_u8_spec(value: u8) -> Kind {
        if value & 3 == 0 {
            Kind::K00
        } else if value & 3 == 1 {
            Kind::K01
        } else if value & 3 == 2 {
            Kind::K10
        } else {
            Kind::K11
        }
    }

    /// Decode a kind from the two low bits of `value`.
    pub fn from_u8(value: u8) -> (r: Kind)
        ensures
            r == Kind::from_u8_spec(value),
    {
        let v = value & 3;
        if v == 0 {
            Kind::K00
        } else if v == 1 {
            Kind::K01
        } else if v == 2 {
            Kind::K10
        } else {
            Kind::K11
        }
    }

    /// Whether the boundary point itself is inside.
    pub fn value_at(&self) -> (r: bool)
        ensures
            r == self.at_spec(),
    {
        match self {
            Kind::K10 | Kind::K11 => true,
            _ => false,
        }
    }

    /// Whether the region immediately above the boundary is inside.
    pub fn value_above(&self) -> (r: bool)
        ensures
            r == self.above_spec(),
    {
        match self {
            Kind::K01 | Kind::K11 => true,
            _ => false,
        }
    }

    /// Build a kind from its two bits.
    pub fn make(at: bool, above: bool) -> (r: Kind)
        ensures
            r == kind_of(at, above),
            r.at_spec() == at,
            r.above_spec() == above,
    {
        if at {
            if above {
                Kind::K11
            } else {
                Kind::K10
            }
        } else {
            if above {
                Kind::K01
            } else {
                Kind::K00
            }
        }
    }

    /// Bitwise conjunction of the two tags.
    pub fn and(self, that: Kind) -> (r: Kind)
        ensures
            r.at_spec() == (self.at_spec() && that.at_spec()),
            r.above_spec() == (self.above_spec() && that.above_spec()),
    {
        Kind::make(
            self.value_at() && that.value_at(),
            self.value_above() && that.value_above(),
        )
    }

    /// Bitwise disjunction of the two tags.
    pub fn or(self, that: Kind) -> (r: Kind)
        ensures
            r.at_spec() == (self.at_spec() || that.at_spec()),
            r.above_spec() == (self.above_spec() || that.above_spec()),
    {
        Kind::make(
            self.value_at() || that.value_at(),
            self.value_above() || that.value_above(),
        )
    }

    /// Bitwise complement of the two tags.
    pub fn complement(self) -> (r: Kind)
        ensures
            r.at_spec() == !self.at_spec(),
            r.above_spec() == !self.above_spec(),
    {
        Kind::make(!self.value_at(), !self.value_above())
    }
}

/// One end of an interval.
#[derive(Clone, Copy, PartialEq, Eq, Debug)]
pub enum Bound<T> {
    /// No bound on this side.
    Unbound,
    /// The endpoint is excluded.
    Open(T),
    /// The endpoint is included.
    Closed(T),
    /// The interval is empty.
    Empty,
}

/// A single interval, as a pair of bounds.
#[derive(Clone, Copy, PartialEq, Eq, Debug)]
pub struct Interval<T> {
    /// The lower bound.
    pub lower: Bound<T>,
    /// The upper bound.
    pub upper: Bound<T>,
}

impl<T: Element> Interval<T> {
    /// The lower bound.
    pub open spec fn lower_spec(&self) -> Bound<T> {
        self.lower
    }

    /// The upper bound.
    pub open spec fn upper_spec(&self) -> Bound<T> {
        self.upper
    }

    /// The interval from the two bounds.
    pub fn from_bounds(lower: Bound<T>, upper: Bound<T>) -> (r: Self)
        ensures
            r.lower_spec() == lower,
            r.upper_spec() == upper,
    {
        Interval { lower, upper }
    }

    /// The interval holding exactly one point.
    pub fn point(value: T) -> (r: Self)
        ensures
            r.lower_spec() == Bound::Closed(value),
            r.upper_spec() == Bound::Closed(value),
    {
        Interval { lower: Bound::Closed(value), upper: Bound::Closed(value) }
    }

    /// The lower bound.
    pub fn lower_bound(&self) -> (r: Bound<T>)
        ensures
            r == self.lower_spec(),
    {
        self.lower
    }

    /// The upper bound.
    pub fn upper_bound(&self) -> (r: Bound<T>)
        ensures
            r == self.upper_spec(),
    {
        self.upper
    }
}

/// Whether the bounds describe a non-degenerate interval: where both ends
/// are endpoints, the lower lies below the upper, or they are one closed
/// point; the empty marker only pairs with itself.
pub open spec fn iv_wf<T: Element>(iv: Interval<T>) -> bool {
    match (iv.lower_spec(), iv.upper_spec()) {
        (Bound::Empty, Bound::Empty) => true,
        (Bound::Empty, _) => false,
        (_, Bound::Empty) => false,
        (Bound::Unbound, _) => true,
        (_, Bound::Unbound) => true,
        (Bound::Closed(a), Bound::Closed(b)) => a.key() <= b.key(),
        (Bound::Closed(a), Bound::Open(b)) => a.key() < b.key(),
        (Bound::Open(a), Bound::Closed(b)) => a.key() < b.key(),
        (Bound::Open(a), Bound::Open(b)) => a.key() < b.key(),
    }
}

/// Whether the point with key `k` lies inside the interval.
pub open spec fn iv_contains<T: Element>(iv: Interval<T>, k: int) -> bool {
    let lo = match iv.lower_spec() {
        Bound::Unbound => true,
        Bound::Open(a) => k > a.key(),
        Bound::Closed(a) => k >= a.key(),
        Bound::Empty => false,
    };
    let hi = match iv.upper_spec() {
        Bound::Unbound => true,
        Bound::Open(b) => k < b.key(),
        Bound::Closed(b) => k <= b.key(),
        Bound::Empty => false,
    };
    lo && hi
}

/// Whether the region immediately above the point with key `k` lies inside
/// the interval.
pub open spec fn iv_above<T: Element>(iv: Interval<T>, k: int) -> bool {
    let lo = match iv.lower_spec() {
        Bound::Unbound => true,
        Bound::Open(a) => k >= a.key(),
        Bound::Closed(a) => k >= a.key(),
        Bound::Empty => false,
    };
    let hi = match iv.upper_spec() {
        Bound::Unbound => true,
        Bound::Open(b) => k < b.key(),
        Bound::Closed(b) => k < b.key(),
        Bound::Empty => false,
    };
    lo && hi
}

/// The membership pair `(at, above)` that a boundary list with incoming
/// state `s` gives the key `k`: whether the point with key `k` is inside,
/// and whether the region immediately above it is.
pub open spec fn win_q<T: Element>(s: bool, vals: Seq<T>, kinds: Seq<Kind>, k: int) -> (
    bool,
    bool,
)
    decreases vals.len(),
{
    if vals.len() == 0 {
        (s, s)
    } else if k < vals[0].key() {
        (s, s)
    } else if k == vals[0].key() {
        (kinds[0].at_spec(), kinds[0].above_spec())
    } else {
        win_q(kinds[0].above_spec(), vals.skip(1), kinds.skip(1), k)
    }
}

/// The state of the open region immediately below the key `k`.
pub open spec fn win_below<T: Element>(s: bool, vals: Seq<T>, kinds: Seq<Kind>, k: int) -> bool
    decreases vals.len(),
{
    if vals.len() == 0 {
        s
    } else if k <= vals[0].key() {
        s
    } else {
        win_below(kinds[0].above_spec(), vals.skip(1), kinds.skip(1), k)
    }
}

/// The state just below boundary `i`: the incoming state of that boundary.
pub open spec fn below_index_of(below: bool, kinds: Seq<Kind>, i: int) -> bool {
    if i == 0 {
        below
    } else {
        kinds[i - 1].above_spec()
    }
}

/// The state above every boundary of the list.
pub open spec fn exit_state(below: bool, kinds: Seq<Kind>) -> bool {
    if kinds.len() == 0 {
        below
    } else {
        kinds[kinds.len() - 1].above_spec()
    }
}

/// A finite union of intervals: `below_all` plus a sorted boundary list with
/// one kind per boundary, with no redundant boundary.
pub struct IntervalSeq<T> {
    below_all: bool,
    values: Vec<T>,
    kinds: Vec<Kind>,
}

impl<T: Element> IntervalSeq<T> {
    /// Whether everything below the first boundary is inside.
    pub closed spec fn below_all_spec(&self) -> bool {
        self.below_all
    }

    /// The boundary values.
    pub closed spec fn vals(&self) -> Seq<T> {
        self.values@
    }

    /// The boundary kinds.
    pub closed spec fn kinds_seq(&self) -> Seq<Kind> {
        self.kinds@
    }

    /// Well-formedness: one kind per boundary, strictly increasing boundary
    /// values, and no boundary whose kind restates the incoming state.
    pub open spec fn wf(&self) -> bool {
        &&& self.kinds_seq().len() == self.vals().len()
        &&& sorted(self.vals())
        &&& forall|i: int|
            0 <= i < self.vals().len() ==> #[trigger] self.kinds_seq()[i] != state_kind(
                below_index_of(self.below_all_spec(), self.kinds_seq(), i),
            )
    }

    /// Whether the point with key `k` is inside the set.
    pub open spec fn at_spec(&self, k: int) -> bool {
        win_q(self.below_all_spec(), self.vals(), self.kinds_seq(), k).0
    }

    /// Whether the region immediately above the point with key `k` is inside.
    pub open spec fn above_spec(&self, k: int) -> bool {
        win_q(self.below_all_spec(), self.vals(), self.kinds_seq(), k).1
    }

    /// Whether the region immediately below the point with key `k` is inside.
    pub open spec fn below_spec(&self, k: int) -> bool {
        win_below(self.below_all_spec(), self.vals(), self.kinds_seq(), k)
    }

    /// The state above every boundary.
    pub open spec fn above_all_spec(&self) -> bool {
        exit_state(self.below_all_spec(), self.kinds_seq())
    }

    /// A set with a single boundary.
    fn singleton(below_all: bool, value: T, kind: Kind) -> (r: IntervalSeq<T>)
        requires
            kind != state_kind(below_all),
        ensures
            r.wf(),
            r.below_all_spec() == below_all,
            r.vals() =~= seq![value],
            r.kinds_seq() =~= seq![kind],
            forall|k: int| k < value.key() ==> #[trigger] r.at_spec(k) == below_all,
            forall|k: int| k < value.key() ==> #[trigger] r.above_spec(k) == below_all,
            r.at_spec(value.key()) == kind.at_spec(),
            r.above_spec(value.key()) == kind.above_spec(),
            forall|k: int| k > value.key() ==> #[trigger] r.at_spec(k) == kind.above_spec(),
            forall|k: int| k > value.key() ==> #[trigger] r.above_spec(k) == kind.above_spec(),
    {
        let r = IntervalSeq { below_all, values: vec![value], kinds: vec![kind] };
        proof {
            assert(r.vals() =~= seq![value]);
            assert(r.kinds_seq() =~= seq![kind]);
            assert forall|k: int| k > value.key() implies #[trigger] r.at_spec(k)
                == kind.above_spec() && r.above_spec(k) == kind.above_spec() by {
                let v = r.vals();
                let q = r.kinds_seq();
                assert(v.len() == 1);
                assert(v[0] == value);
                assert(q[0] == kind);
                assert(win_q(below_all, v, q, k) == win_q(
                    q[0].above_spec(),
                    v.skip(1),
                    q.skip(1),
                    k,
                ));
                assert(v.skip(1).len() == 0);
                assert(win_q(q[0].above_spec(), v.skip(1), q.skip(1), k) == (
                    q[0].above_spec(),
                    q[0].above_spec(),
                ));
            }
            assert forall|k: int| k > value.key() implies #[trigger] r.above_spec(k)
                == kind.above_spec() by {
                assert(r.at_spec(k) == kind.above_spec());
            }
        }
        r
    }

    /// A set with two boundaries.
    fn from_to(from: T, fk: Kind, to: T, tk: Kind) -> (r: IntervalSeq<T>)
        requires
            from.key() < to.key(),
            fk != state_kind(false),
            tk != state_kind(fk.above_spec()),
        ensures
            r.wf(),
            r.below_all_spec() == false,
            forall|k: int| k < from.key() ==> #[trigger] r.at_spec(k) == false,
            forall|k: int| k < from.key() ==> #[trigger] r.above_spec(k) == false,
            r.at_spec(from.key()) == fk.at_spec(),
            r.above_spec(from.key()) == fk.above_spec(),
            forall|k: int|
                from.key() < k < to.key() ==> #[trigger] r.at_spec(k) == fk.above_spec(),
            forall|k: int|
                from.key() < k < to.key() ==> #[trigger] r.above_spec(k) == fk.above_spec(),
            r.at_spec(to.key()) == tk.at_spec(),
            r.above_spec(to.key()) == tk.above_spec(),
            forall|k: int| k > to.key() ==> #[trigger] r.at_spec(k) == tk.above_spec(),
            forall|k: int| k > to.key() ==> #[trigger] r.above_spec(k) == tk.above_spec(),
    {
        let r = IntervalSeq { below_all: false, values: vec![from, to], kinds: vec![fk, tk] };
        proof {
            assert(r.vals() =~= seq![from, to]);
            assert(r.kinds_seq() =~= seq![fk, tk]);
            let v1 = r.vals().skip(1);
            let q1 = r.kinds_seq().skip(1);
            assert(v1 =~= seq![to]);
            assert(q1 =~= seq![tk]);
            assert forall|k: int| from.key() < k < to.key() implies #[trigger] r.at_spec(k)
                == fk.above_spec() && r.above_spec(k) == fk.above_spec() by {
                assert(r.vals()[0] == from);
                assert(win_q(false, r.vals(), r.kinds_seq(), k) == win_q(
                    fk.above_spec(),
                    v1,
                    q1,
                    k,
                ));
                assert(v1[0] == to);
                reveal_with_fuel(win_q, 4);
                assert(win_q(fk.above_spec(), v1, q1, k) == (fk.above_spec(), fk.above_spec()));
            }
            assert forall|k: int| from.key() < k < to.key() implies #[trigger] r.above_spec(k)
                == fk.above_spec() by {
                assert(r.at_spec(k) == fk.above_spec());
            }
            assert forall|k: int| k > to.key() implies #[trigger] r.at_spec(k)
                == tk.above_spec() && r.above_spec(k) == tk.above_spec() by {
                assert(r.vals()[0] == from);
                assert(win_q(false, r.vals(), r.kinds_seq(), k) == win_q(
                    fk.above_spec(),
                    v1,
                    q1,
                    k,
                ));
                assert(v1[0] == to);
                assert(win_q(fk.above_spec(), v1, q1, k) == win_q(
                    tk.above_spec(),
                    v1.skip(1),
                    q1.skip(1),
                    k,
                ));
                reveal_with_fuel(win_q, 4);
                assert(v1.skip(1).len() == 0);
            }
            assert forall|k: int| k > to.key() implies #[trigger] r.above_spec(k)
                == tk.above_spec() by {
                assert(r.at_spec(k) == tk.above_spec());
            }
            assert(r.at_spec(to.key()) == tk.at_spec() && r.above_spec(to.key())
                == tk.above_spec()) by {
                assert(r.vals()[0] == from);
                reveal_with_fuel(win_q, 4);
                assert(win_q(false, r.vals(), r.kinds_seq(), to.key()) == win_q(
                    fk.above_spec(),
                    v1,
                    q1,
                    to.key(),
                ));
                assert(v1[0] == to);
            }
        }
        r
    }

    /// Everything, or nothing.
    pub fn from_bool(value: bool) -> (r: IntervalSeq<T>)
        ensures
            r.wf(),
            r.below_all_spec() == value,
            r.vals() =~= Seq::<T>::empty(),
            forall|k: int| #[trigger] r.at_spec(k) == value,
            forall|k: int| #[trigger] r.above_spec(k) == value,
    {
        if value {
            IntervalSeq::all()
        } else {
            IntervalSeq::empty()
        }
    }

    /// The empty set.
    pub fn empty() -> (r: IntervalSeq<T>)
        ensures
            r.wf(),
            r.below_all_spec() == false,
            r.vals() =~= Seq::<T>::empty(),
            forall|k: int| #[trigger] r.at_spec(k) == false,
            forall|k: int| #[trigger] r.above_spec(k) == false,
    {
        IntervalSeq { below_all: false, kinds: Vec::new(), values: Vec::new() }
    }

    /// The whole domain.
    pub fn all() -> (r: IntervalSeq<T>)
        ensures
            r.wf(),
            r.below_all_spec() == true,
            r.vals() =~= Seq::<T>::empty(),
            forall|k: int| #[trigger] r.at_spec(k) == true,
            forall|k: int| #[trigger] r.above_spec(k) == true,
    {
        IntervalSeq { below_all: true, kinds: Vec::new(), values: Vec::new() }
    }

    /// The set holding exactly one point.
    pub fn at(value: T) -> (r: IntervalSeq<T>)
        ensures
            r.wf(),
            forall|k: int| #[trigger] r.at_spec(k) == (k == value.key()),
            forall|k: int| #[trigger] r.above_spec(k) == false,
            r.below_all_spec() == false,
    {
        IntervalSeq::singleton(false, value, Kind::K10)
    }

    /// Everything except one point.
    pub fn except(value: T) -> (r: IntervalSeq<T>)
        ensures
            r.wf(),
            forall|k: int| #[trigger] r.at_spec(k) == (k != value.key()),
            forall|k: int| #[trigger] r.above_spec(k) == true,
            r.below_all_spec() == true,
    {
        IntervalSeq::singleton(true, value, Kind::K01)
    }

    /// Everything strictly below the value.
    pub fn below(value: T) -> (r: IntervalSeq<T>)
        ensures
            r.wf(),
            forall|k: int| #[trigger] r.at_spec(k) == (k < value.key()),
            forall|k: int| #[trigger] r.above_spec(k) == (k < value.key()),
            r.below_all_spec() == true,
    {
        IntervalSeq::singleton(true, value, Kind::K00)
    }

    /// Everything at or below the value.
    pub fn at_or_below(value: T) -> (r: IntervalSeq<T>)
        ensures
            r.wf(),
            forall|k: int| #[trigger] r.at_spec(k) == (k <= value.key()),
            forall|k: int| #[trigger] r.above_spec(k) == (k < value.key()),
            r.below_all_spec() == true,
    {
        IntervalSeq::singleton(true, value, Kind::K10)
    }

    /// Everything at or above the value.
    pub fn at_or_above(value: T) -> (r: IntervalSeq<T>)
        ensures
            r.wf(),
            forall|k: int| #[trigger] r.at_spec(k) == (k >= value.key()),
            forall|k: int| #[trigger] r.above_spec(k) == (k >= value.key()),
            r.below_all_spec() == false,
    {
        IntervalSeq::singleton(false, value, Kind::K11)
    }

    /// Everything strictly above the value.
    pub fn above(value: T) -> (r: IntervalSeq<T>)
        ensures
            r.wf(),
            forall|k: int| #[trigger] r.at_spec(k) == (k > value.key()),
            forall|k: int| #[trigger] r.above_spec(k) == (k >= value.key()),
            r.below_all_spec() == false,
    {
        IntervalSeq::singleton(false, value, Kind::K01)
    }

    /// The set described by a single interval.
    pub fn from_interval(value: Interval<T>) -> (r: IntervalSeq<T>)
        requires
            iv_wf(value),
        ensures
            r.wf(),
            forall|k: int| #[trigger] r.at_spec(k) == iv_contains(value, k),
            forall|k: int| #[trigger] r.above_spec(k) == iv_above(value, k),
    {
        match (value.lower_bound(), value.upper_bound()) {
            (Bound::Closed(a), Bound::Closed(b)) => {
                match a.cmp_el(&b) {
                    Cmp::Equal => {
                        proof {
                            T::key_injective(a, b);
                        }
                        IntervalSeq::at(a)
                    }
                    _ => IntervalSeq::from_to(a, Kind::K11, b, Kind::K10),
                }
            }
            (Bound::Unbound, Bound::Open(x)) => IntervalSeq::below(x),
            (Bound::Unbound, Bound::Closed(x)) => IntervalSeq::at_or_below(x),
            (Bound::Open(x), Bound::Unbound) => IntervalSeq::above(x),
            (Bound::Closed(x), Bound::Unbound) => IntervalSeq::at_or_above(x),
            (Bound::Closed(a), Bound::Open(b)) => IntervalSeq::from_to(a, Kind::K11, b, Kind::K00),
            (Bound::Open(a), Bound::Closed(b)) => IntervalSeq::from_to(a, Kind::K01, b, Kind::K10),
            (Bound::Open(a), Bound::Open(b)) => IntervalSeq::from_to(a, Kind::K01, b, Kind::K00),
            (Bound::Unbound, Bound::Unbound) => IntervalSeq::all(),
            _ => IntervalSeq::empty(),
        }
    }

    /// The state just below boundary `index`.
    pub fn below_index(&self, index: usize) -> (r: bool)
        requires
            self.wf(),
            index <= self.vals().len(),
        ensures
            r == below_index_of(self.below_all_spec(), self.kinds_seq(), index as int),
    {
        if index == 0 {
            self.below_all
        } else {
            self.kinds[index - 1].value_above()
        }
    }

    /// Whether the set has no members at all.
    pub fn is_empty(&self) -> (r: bool)
        requires
            self.wf(),
        ensures
            r == (!self.below_all_spec() && self.vals().len() == 0),
            r ==> forall|k: int| !#[trigger] self.at_spec(k),
    {
        !self.below_all && self.values.is_empty()
    }

    /// Whether everything below the first boundary is inside.
    pub fn below_all(&self) -> (r: bool)
        ensures
            r == self.below_all_spec(),
    {
        self.below_all
    }

    /// Whether everything above the last boundary is inside.
    pub fn above_all(&self) -> (r: bool)
        requires
            self.kinds_seq().len() == self.vals().len(),
        ensures
            r == self.above_all_spec(),
    {
        let n = self.kinds.len();
        if n == 0 {
            self.below_all
        } else {
            self.kinds[n - 1].value_above()
        }
    }

    /// The boundary values.
    pub fn edges(self) -> (r: Vec<T>)
        ensures
            r@ == self.vals(),
    {
        self.values
    }

    /// Whether the point `value` is inside the set.
    pub fn at_value(&self, value: T) -> (r: bool)
        requires
            self.wf(),
        ensures
            r == self.at_spec(value.key()),
    {
        let n = self.values.len();
        let (found, idx) = find_key(&self.values, 0, n, &value);
        if found {
            proof {
                lemma_win_q_found(
                    self.below_all_spec(),
                    self.vals(),
                    self.kinds_seq(),
                    idx as int,
                    value.key(),
                );
            }
            self.kinds[idx].value_at()
        } else {
            proof {
                lemma_win_q_region(
                    self.below_all_spec(),
                    self.vals(),
                    self.kinds_seq(),
                    idx as int,
                    value.key(),
                );
            }
            self.below_index(idx)
        }
    }

    /// Whether the region immediately above `value` is inside the set.
    pub fn above_value(&self, value: T) -> (r: bool)
        requires
            self.wf(),
        ensures
            r == self.above_spec(value.key()),
    {
        let n = self.values.len();
        let (found, idx) = find_key(&self.values, 0, n, &value);
        if found {
            proof {
                lemma_win_q_found(
                    self.below_all_spec(),
                    self.vals(),
                    self.kinds_seq(),
                    idx as int,
                    value.key(),
                );
            }
            self.kinds[idx].value_above()
        } else {
            proof {
                lemma_win_q_region(
                    self.below_all_spec(),
                    self.vals(),
                    self.kinds_seq(),
                    idx as int,
                    value.key(),
                );
            }
            self.below_index(idx)
        }
    }

    /// Whether the region immediately below `value` is inside the set.
    pub fn below_value(&self, value: T) -> (r: bool)
        requires
            self.wf(),
        ensures
            r == self.below_spec(value.key()),
    {
        let n = self.values.len();
        let (found, idx) = find_key(&self.values, 0, n, &value);
        proof {
            if found {
                lemma_win_below_at(
                    self.below_all_spec(),
                    self.vals(),
                    self.kinds_seq(),
                    idx as int,
                    value.key(),
                );
            } else {
                lemma_win_below_at(
                    self.below_all_spec(),
                    self.vals(),
                    self.kinds_seq(),
                    idx as int,
                    value.key(),
                );
            }
        }
        if found {
            if idx > 0 {
                self.kinds[idx - 1].value_above()
            } else {
                self.below_all
            }
        } else {
            self.below_index(idx)
        }
    }

    /// The intersection of the two sets.
    pub fn and(self, that: IntervalSeq<T>) -> (r: IntervalSeq<T>)
        requires
            self.wf(),
            that.wf(),
        ensures
            r.wf(),
            r.below_all_spec() == (self.below_all_spec() && that.below_all_spec()),
            forall|k: int| #[trigger] r.at_spec(k) == (self.at_spec(k) && that.at_spec(k)),
            forall|k: int| #[trigger] r.above_spec(k) == (self.above_spec(k) && that.above_spec(k)),
    {
        IntervalSeq::combine(IvOp::And, self, that)
    }

    /// The union of the two sets.
    pub fn or(self, that: IntervalSeq<T>) -> (r: IntervalSeq<T>)
        requires
            self.wf(),
            that.wf(),
        ensures
            r.wf(),
            r.below_all_spec() == (self.below_all_spec() || that.below_all_spec()),
            forall|k: int| #[trigger] r.at_spec(k) == (self.at_spec(k) || that.at_spec(k)),
            forall|k: int| #[trigger] r.above_spec(k) == (self.above_spec(k) || that.above_spec(k)),
    {
        IntervalSeq::combine(IvOp::Or, self, that)
    }

    /// The boolean combination of the two sets: the same divide-and-conquer
    /// traversal as the sorted-set merge, applied to the boundary lists.
    fn combine(op: IvOp, a: IntervalSeq<T>, b: IntervalSeq<T>) -> (r: IntervalSeq<T>)
        requires
            a.wf(),
            b.wf(),
        ensures
            r.wf(),
            r.below_all_spec() == iv_keep(op, a.below_all_spec(), b.below_all_spec()),
            forall|k: int|
                #[trigger] r.at_spec(k) == iv_keep(op, a.at_spec(k), b.at_spec(k)),
            forall|k: int|
                #[trigger] r.above_spec(k) == iv_keep(op, a.above_spec(k), b.above_spec(k)),
    {
        let below = match op {
            IvOp::And => a.below_all && b.below_all,
            IvOp::Or => a.below_all || b.below_all,
        };
        let mut r = IntervalSeq::from_bool(below);
        let a1 = a.values.len();
        let b1 = b.values.len();
        proof {
            assert(r.kinds_seq() =~= Seq::<Kind>::empty());
            assert(r.above_all_spec() == iv_keep(op, ivs_state(&a, 0), ivs_state(&b, 0)));
        }
        let ghost r0 = r;
        iv_merge0(op, &a, &b, &mut r, 0, a1, 0, b1);
        proof {
            assert(ivs_wv(&a, 0, a1 as int) =~= a.vals());
            assert(ivs_wq(&a, 0, a1 as int) =~= a.kinds_seq());
            assert(ivs_wv(&b, 0, b1 as int) =~= b.vals());
            assert(ivs_wq(&b, 0, b1 as int) =~= b.kinds_seq());
            assert(r.vals().skip(0) =~= r.vals());
            assert(r.kinds_seq().skip(0) =~= r.kinds_seq());
            assert forall|k: int|
                #[trigger] r.at_spec(k) == iv_keep(op, a.at_spec(k), b.at_spec(k)) && r.above_spec(
                k,
            ) == iv_keep(op, a.above_spec(k), b.above_spec(k)) by {
                assert(win_q(r0.above_all_spec(), r.vals().skip(0), r.kinds_seq().skip(0), k)
                    == iv_keep2(
                    op,
                    win_q(ivs_state(&a, 0), ivs_wv(&a, 0, a1 as int), ivs_wq(&a, 0, a1 as int), k),
                    win_q(ivs_state(&b, 0), ivs_wv(&b, 0, b1 as int), ivs_wq(&b, 0, b1 as int), k),
                ));
            }
            assert forall|k: int|
                #[trigger] r.above_spec(k) == iv_keep(op, a.above_spec(k), b.above_spec(k)) by {
                assert(r.at_spec(k) == iv_keep(op, a.at_spec(k), b.at_spec(k)));
            }
        }
        r
    }

    /// Scan the maximal intervals of the set, in increasing order.
    pub fn intervals(&self) -> (r: IntervalIterator<T>)
        requires
            self.wf(),
        ensures
            r.wf(),
            r.vals() == self.vals(),
            r.kinds_seq() == self.kinds_seq(),
            r.pos() == 0,
            r.lower_state() == if self.below_all_spec() {
                Some(Bound::<T>::Unbound)
            } else {
                Option::<Bound<T>>::None
            },
    {
        IntervalIterator {
            i: 0,
            kinds: vstd::slice::slice_to_vec(self.kinds.as_slice()),
            values: vstd::slice::slice_to_vec(self.values.as_slice()),
            lower: if self.below_all {
                Some(Bound::Unbound)
            } else {
                None
            },
            below0: Ghost(self.below_all),
        }
    }
}

/// One `next` call of the interval scan, as a function of the carried
/// lower bound, the boundary lists and the scan position: the yielded
/// maximal interval (or `None` once the scan is done), and the carried
/// lower bound and position afterwards.  Steps that only open a lower
/// bound are passed over, as `next` passes over them.
pub open spec fn iter_next_spec<T: Element>(
    lower: Option<Bound<T>>,
    vals: Seq<T>,
    kinds: Seq<Kind>,
    i: int,
) -> (Option<Interval<T>>, Option<Bound<T>>, int)
    decreases 2 * (vals.len() - i) + (if lower is Some {
        1int
    } else {
        0
    }),
{
    if 0 <= i < vals.len() {
        let v = vals[i];
        let kd = kinds[i];
        match lower {
            Option::None => {
                if kd == Kind::K10 {
                    (
                        Some((Interval { lower: Bound::Closed(v), upper: Bound::Closed(v) })),
                        Option::<Bound<T>>::None,
                        i + 1,
                    )
                } else if kd == Kind::K11 {
                    iter_next_spec(Some(Bound::Closed(v)), vals, kinds, i + 1)
                } else if kd == Kind::K01 {
                    iter_next_spec(Some(Bound::Open(v)), vals, kinds, i + 1)
                } else {
                    // a redundant boundary: unreachable on well-formed scans
                    (Option::<Interval<T>>::None, Option::<Bound<T>>::None, i + 1)
                }
            }
            Option::Some(l) => {
                if kd == Kind::K01 {
                    (
                        Some((Interval { lower: l, upper: Bound::Open(v) })),
                        Some(Bound::Open(v)),
                        i + 1,
                    )
                } else if kd == Kind::K00 {
                    (
                        Some((Interval { lower: l, upper: Bound::Open(v) })),
                        Option::<Bound<T>>::None,
                        i + 1,
                    )
                } else if kd == Kind::K10 {
                    (
                        Some((Interval { lower: l, upper: Bound::Closed(v) })),
                        Option::<Bound<T>>::None,
                        i + 1,
                    )
                } else {
                    // a redundant boundary: unreachable on well-formed scans
                    (Option::<Interval<T>>::None, Some(l), i + 1)
                }
            }
        }
    } else {
        match lower {
            Option::Some(l) => (
                Some((Interval { lower: l, upper: Bound::Unbound })),
                Option::<Bound<T>>::None,
                i,
            ),
            Option::None => (Option::<Interval<T>>::None, Option::<Bound<T>>::None, i),
        }
    }
}

/// A lazy, non-restartable forward iterator over the maximal intervals of a
/// set.  It scans the boundaries once, carrying an optional open lower bound
/// from one step to the next.
pub struct IntervalIterator<T> {
    values: Vec<T>,
    kinds: Vec<Kind>,
    lower: Option<Bound<T>>,
    i: usize,
    below0: Ghost<bool>,
}

impl<T: Element> IntervalIterator<T> {
    /// The boundary values being scanned.
    pub closed spec fn vals(&self) -> Seq<T> {
        self.values@
    }

    /// The boundary kinds being scanned.
    pub closed spec fn kinds_seq(&self) -> Seq<Kind> {
        self.kinds@
    }

    /// The scan position.
    pub closed spec fn pos(&self) -> int {
        self.i as int
    }

    /// The carried lower bound, if an interval is open.
    pub closed spec fn lower_state(&self) -> Option<Bound<T>> {
        self.lower
    }

    /// Well-formedness: the carried lower bound is present exactly when the
    /// membership state at the scan position is inside, and no boundary is
    /// redundant.  This is what makes the two-state handshake of
    /// `next_interval` total.
    pub closed spec fn wf(&self) -> bool {
        &&& self.kinds@.len() == self.values@.len()
        &&& self.i <= self.values.len()
        &&& sorted(self.values@)
        &&& forall|j: int|
            0 <= j < self.values@.len() ==> #[trigger] self.kinds@[j] != state_kind(
                below_index_of(self.below0@, self.kinds@, j),
            )
        &&& self.i < self.values@.len() ==> (self.lower is Some) == below_index_of(
            self.below0@,
            self.kinds@,
            self.i as int,
        )
    }

    /// One scan step: consume the boundary at the position, or close the
    /// final unbounded interval.  A step that only opens a lower bound
    /// yields `None`.
    pub fn next_interval(&mut self) -> (r: Option<Interval<T>>)
        requires
            old(self).wf(),
        ensures
            final(self).wf(),
            final(self).vals() == old(self).vals(),
            final(self).kinds_seq() == old(self).kinds_seq(),
            old(self).pos() < old(self).vals().len() ==> {
                let v = old(self).vals()[old(self).pos()];
                let kd = old(self).kinds_seq()[old(self).pos()];
                &&& final(self).pos() == old(self).pos() + 1
                &&& (old(self).lower_state() is None && kd == Kind::K10 ==> r == Some(
                    (Interval { lower: Bound::Closed(v), upper: Bound::Closed(v) }),
                ) && final(self).lower_state() is None)
                &&& (old(self).lower_state() is None && kd == Kind::K11 ==> r is None && final(self).lower_state() == Some(Bound::Closed(v)))
                &&& (old(self).lower_state() is None && kd == Kind::K01 ==> r is None && final(self).lower_state() == Some(Bound::Open(v)))
                &&& (old(self).lower_state() matches Some(l) ==> {
                    &&& (kd == Kind::K01 ==> r == Some(
                        (Interval { lower: l, upper: Bound::Open(v) }),
                    ) && final(self).lower_state() == Some(Bound::Open(v)))
                    &&& (kd == Kind::K00 ==> r == Some(
                        (Interval { lower: l, upper: Bound::Open(v) }),
                    ) && final(self).lower_state() is None)
                    &&& (kd == Kind::K10 ==> r == Some(
                        (Interval { lower: l, upper: Bound::Closed(v) }),
                    ) && final(self).lower_state() is None)
                })
            },
            old(self).pos() == old(self).vals().len() ==> {
                &&& final(self).pos() == old(self).pos()
                &&& (old(self).lower_state() matches Some(l) ==> r == Some(
                    (Interval { lower: l, upper: Bound::Unbound }),
                ) && final(self).lower_state() is None)
                &&& (old(self).lower_state() is None ==> r is None && final(self).lower_state()
                    is None)
            },
    {
        if self.i < self.values.len() {
            let value = self.values[self.i];
            let kind = self.kinds[self.i];
            proof {
                assert(old(self).kinds_seq()[old(self).pos()] != state_kind(
                    below_index_of(self.below0@, self.kinds@, self.i as int),
                ));
            }
            self.i = self.i + 1;
            match (self.lower, kind) {
                (Option::None, Kind::K10) => {
                    self.lower = None;
                    Some(Interval::point(value))
                }
                (Option::None, Kind::K11) => {
                    self.lower = Some(Bound::Closed(value));
                    None
                }
                (Option::None, Kind::K01) => {
                    self.lower = Some(Bound::Open(value));
                    None
                }
                (Option::None, Kind::K00) => {
                    proof {
                        assert(false);
                    }
                    vstd::pervasive::unreached()
                }
                (Option::Some(lower), Kind::K01) => {
                    let upper = Bound::Open(value);
                    self.lower = Some(upper);
                    Some(Interval::from_bounds(lower, upper))
                }
                (Option::Some(lower), Kind::K00) => {
                    self.lower = None;
                    Some(Interval::from_bounds(lower, Bound::Open(value)))
                }
                (Option::Some(lower), Kind::K10) => {
                    self.lower = None;
                    Some(Interval::from_bounds(lower, Bound::Closed(value)))
                }
                (Option::Some(_), Kind::K11) => {
                    proof {
                        assert(false);
                    }
                    vstd::pervasive::unreached()
                }
            }
        } else {
            match self.lower {
                Some(lower) => {
                    self.lower = None;
                    Some(Interval::from_bounds(lower, Bound::Unbound))
                }
                None => None,
            }
        }
    }

    /// The next maximal interval, or `None` once the scan is done: exactly
    /// the step that `iter_next_spec` computes from the scan state.
    pub fn next(&mut self) -> (r: Option<Interval<T>>)
        requires
            old(self).wf(),
        ensures
            final(self).wf(),
            final(self).vals() == old(self).vals(),
            final(self).kinds_seq() == old(self).kinds_seq(),
            ({
                let step = iter_next_spec(
                    old(self).lower_state(),
                    old(self).vals(),
                    old(self).kinds_seq(),
                    old(self).pos(),
                );
                r == step.0 && final(self).lower_state() == step.1 && final(self).pos()
                    == step.2
            }),
            (r is None) == (old(self).pos() == old(self).vals().len() && old(self).lower_state() is None),
    {
        let ghost entry_has = old(self).pos() < old(self).vals().len() || old(self).lower_state() is Some;
        let ghost entry_step = iter_next_spec(
            old(self).lower_state(),
            old(self).vals(),
            old(self).kinds_seq(),
            old(self).pos(),
        );
        loop
            invariant
                self.wf(),
                old(self).pos() <= old(self).vals().len(),
                self.vals() == old(self).vals(),
                self.kinds_seq() == old(self).kinds_seq(),
                (self.pos() < self.vals().len() || self.lower_state() is Some) == entry_has,
                entry_has == (old(self).pos() < old(self).vals().len() || old(self).lower_state()
                    is Some),
                entry_step == iter_next_spec(
                    old(self).lower_state(),
                    old(self).vals(),
                    old(self).kinds_seq(),
                    old(self).pos(),
                ),
                entry_step == iter_next_spec(
                    self.lower_state(),
                    self.vals(),
                    self.kinds_seq(),
                    self.pos(),
                ),
            decreases 2 * (self.values@.len() - self.i) + (if self.lower is Some {
                1int
            } else {
                0
            }),
        {
            let has_next = self.i < self.values.len() || self.lower.is_some();
            let ghost pre = *self;
            let r = self.next_interval();
            proof {
                if pre.pos() < pre.vals().len() {
                    assert(pre.kinds@[pre.pos()] != state_kind(
                        below_index_of(pre.below0@, pre.kinds@, pre.pos()),
                    ));
                }
            }
            match r {
                Some(x) => {
                    proof {
                        if pre.pos() == pre.vals().len() && pre.lower_state() is None {
                            assert(r is None);
                            assert(false);
                        }
                        // the step taken is the specified one
                        assert(iter_next_spec(
                            pre.lower_state(),
                            pre.vals(),
                            pre.kinds_seq(),
                            pre.pos(),
                        ) == (r, self.lower_state(), self.pos()));
                    }
                    return Some(x);
                }
                None => {
                    if !has_next {
                        proof {
                            assert(iter_next_spec(
                                pre.lower_state(),
                                pre.vals(),
                                pre.kinds_seq(),
                                pre.pos(),
                            ) == (r, self.lower_state(), self.pos()));
                        }
                        return None;
                    }
                    proof {
                        // a step that only opened a lower bound: the spec
                        // step passes over it the same way
                        assert(pre.pos() < pre.vals().len());
                        assert(iter_next_spec(
                            pre.lower_state(),
                            pre.vals(),
                            pre.kinds_seq(),
                            pre.pos(),
                        ) == iter_next_spec(
                            self.lower_state(),
                            self.vals(),
                            self.kinds_seq(),
                            self.pos(),
                        ));
                    }
                }
            }
        }
    }
}

/// A kind whose two bits both equal `x` is the redundant kind for `x`.
proof fn lemma_kind_bits(kd: Kind, x: bool)
    requires
        kd.at_spec() == x,
        kd.above_spec() == x,
    ensures
        kd == state_kind(x),
{
}

/// A boundary list with no redundant boundary is determined by the
/// membership pairs it gives the keys.
#[verifier::rlimit(100)]
proof fn lemma_win_q_unique<T: Element>(
    s: bool,
    v1: Seq<T>,
    q1: Seq<Kind>,
    v2: Seq<T>,
    q2: Seq<Kind>,
)
    requires
        q1.len() == v1.len(),
        q2.len() == v2.len(),
        sorted(v1),
        sorted(v2),
        forall|i: int|
            0 <= i < v1.len() ==> #[trigger] q1[i] != state_kind(below_index_of(s, q1, i)),
        forall|i: int|
            0 <= i < v2.len() ==> #[trigger] q2[i] != state_kind(below_index_of(s, q2, i)),
        forall|k: int|
            #[trigger] win_q(s, v1, q1, k) == win_q(s, v2, q2, k),
    ensures
        v1 == v2,
        q1 == q2,
    decreases v1.len(),
{
    if v1.len() == 0 && v2.len() == 0 {
        assert(v1 =~= v2);
        assert(q1 =~= q2);
    } else if v1.len() == 0 {
        let k = v2[0].key();
        assert(win_q(s, v1, q1, k) == (s, s));
        assert(win_q(s, v2, q2, k) == (q2[0].at_spec(), q2[0].above_spec()));
        lemma_kind_bits(q2[0], s);
        assert(false);
    } else if v2.len() == 0 {
        let k = v1[0].key();
        assert(win_q(s, v2, q2, k) == (s, s));
        assert(win_q(s, v1, q1, k) == (q1[0].at_spec(), q1[0].above_spec()));
        lemma_kind_bits(q1[0], s);
        assert(false);
    } else {
        let k1 = v1[0].key();
        let k2 = v2[0].key();
        if k1 < k2 {
            assert(win_q(s, v1, q1, k1) == (q1[0].at_spec(), q1[0].above_spec()));
            assert(win_q(s, v2, q2, k1) == (s, s));
            lemma_kind_bits(q1[0], s);
            assert(false);
        } else if k2 < k1 {
            assert(win_q(s, v2, q2, k2) == (q2[0].at_spec(), q2[0].above_spec()));
            assert(win_q(s, v1, q1, k2) == (s, s));
            lemma_kind_bits(q2[0], s);
            assert(false);
        } else {
            // the heads agree
            assert(win_q(s, v1, q1, k1) == (q1[0].at_spec(), q1[0].above_spec()));
            assert(win_q(s, v2, q2, k1) == (q2[0].at_spec(), q2[0].above_spec()));
            assert(q1[0] == q2[0]) by {
                if q1[0].at_spec() {
                    if q1[0].above_spec() {
                    } else {
                    }
                }
            }
            T::key_injective(v1[0], v2[0]);
            // and so do the tails, entered at the head's upper state
            let sp = q1[0].above_spec();
            let t1 = v1.skip(1);
            let p1 = q1.skip(1);
            let t2 = v2.skip(1);
            let p2 = q2.skip(1);
            assert forall|i: int|
                0 <= i < t1.len() implies #[trigger] p1[i] != state_kind(
                below_index_of(sp, p1, i),
            ) by {
                assert(p1[i] == q1[i + 1]);
                assert(q1[i + 1] != state_kind(below_index_of(s, q1, i + 1)));
                if i > 0 {
                    assert(p1[i - 1] == q1[i]);
                }
            }
            assert forall|i: int|
                0 <= i < t2.len() implies #[trigger] p2[i] != state_kind(
                below_index_of(sp, p2, i),
            ) by {
                assert(p2[i] == q2[i + 1]);
                assert(q2[i + 1] != state_kind(below_index_of(s, q2, i + 1)));
                if i > 0 {
                    assert(p2[i - 1] == q2[i]);
                }
            }
            assert forall|k: int|
                #[trigger] win_q(sp, t1, p1, k) == win_q(sp, t2, p2, k) by {
                if k > k1 {
                    assert(win_q(s, v1, q1, k) == win_q(sp, t1, p1, k));
                    assert(win_q(s, v2, q2, k) == win_q(sp, t2, p2, k));
                    assert(win_q(s, v1, q1, k) == win_q(s, v2, q2, k));
                } else {
                    if t1.len() > 0 {
                        assert(t1[0] == v1[1]);
                        assert(k < t1[0].key());
                    }
                    if t2.len() > 0 {
                        assert(t2[0] == v2[1]);
                        assert(k < t2[0].key());
                    }
                    lemma_win_q_low(sp, t1, p1, k);
                    lemma_win_q_low(sp, t2, p2, k);
                }
            }
            lemma_sorted_subrange(v1, 1, v1.len() as int);
            lemma_sorted_subrange(v2, 1, v2.len() as int);
            assert(t1 =~= v1.subrange(1, v1.len() as int));
            assert(t2 =~= v2.subrange(1, v2.len() as int));
            lemma_win_q_unique(sp, t1, p1, t2, p2);
            assert forall|i: int| 0 <= i < v1.len() implies v1[i] == v2[i] by {
                if i >= 1 {
                    assert(v1[i] == t1[i - 1]);
                    assert(v2[i] == t2[i - 1]);
                }
            }
            assert forall|i: int| 0 <= i < q1.len() implies q1[i] == q2[i] by {
                if i >= 1 {
                    assert(q1[i] == p1[i - 1]);
                    assert(q2[i] == p2[i - 1]);
                }
            }
            assert(v1 =~= v2);
            assert(q1 =~= q2);
        }
    }
}

/// A well-formed interval sequence is canonical: together with
/// `below_all`, the membership function determines the boundary values and
/// kinds exactly.  Any two well-formed sequences that agree at and
/// immediately above every key are identical.
pub proof fn lemma_interval_seq_canonical<T: Element>(a: IntervalSeq<T>, b: IntervalSeq<T>)
    requires
        a.wf(),
        b.wf(),
        a.below_all_spec() == b.below_all_spec(),
        forall|k: int| #[trigger] a.at_spec(k) == b.at_spec(k),
        forall|k: int| #[trigger] a.above_spec(k) == b.above_spec(k),
    ensures
        a.vals() == b.vals(),
        a.kinds_seq() == b.kinds_seq(),
{
    assert forall|k: int|
        #[trigger] win_q(a.below_all_spec(), a.vals(), a.kinds_seq(), k) == win_q(
        b.below_all_spec(),
        b.vals(),
        b.kinds_seq(),
        k,
    ) by {
        let p = win_q(a.below_all_spec(), a.vals(), a.kinds_seq(), k);
        let q = win_q(b.below_all_spec(), b.vals(), b.kinds_seq(), k);
        assert(a.at_spec(k) == b.at_spec(k));
        assert(a.above_spec(k) == b.above_spec(k));
        assert(p.0 == a.at_spec(k) && q.0 == b.at_spec(k));
        assert(p.1 == a.above_spec(k) && q.1 == b.above_spec(k));
        assert(p.0 == q.0);
        assert(p.1 == q.1);
        assert(p == (p.0, p.1));
        assert(q == (q.0, q.1));
    }
    lemma_win_q_unique(
        a.below_all_spec(),
        a.vals(),
        a.kinds_seq(),
        b.vals(),
        b.kinds_seq(),
    );
}

/// The boolean combination a merge computes.
#[derive(Clone, Copy)]
pub enum IvOp {
    And,
    Or,
}

/// How `op` combines the two operands' states.
pub open spec fn iv_keep(op: IvOp, a: bool, b: bool) -> bool {
    match op {
        IvOp::And => a && b,
        IvOp::Or => a || b,
    }
}

/// `iv_keep`, applied to both components of two membership pairs.
pub open spec fn iv_keep2(op: IvOp, a: (bool, bool), b: (bool, bool)) -> (bool, bool) {
    (iv_keep(op, a.0, b.0), iv_keep(op, a.1, b.1))
}

/// The complement of a kind, in both bits.
pub open spec fn kind_not(k: Kind) -> Kind {
    kind_of(!k.at_spec(), !k.above_spec())
}

impl<T: Element> IntervalSeq<T> {
    /// Append the boundaries `[i0, i1)` of `src` verbatim.
    fn copy_from(&mut self, src: &IntervalSeq<T>, i0: usize, i1: usize)
        requires
            old(self).kinds_seq().len() == old(self).vals().len(),
            src.kinds_seq().len() == src.vals().len(),
            i0 <= i1 <= src.vals().len(),
        ensures
            final(self).below_all_spec() == old(self).below_all_spec(),
            final(self).vals() == old(self).vals() + src.vals().subrange(i0 as int, i1 as int),
            final(self).kinds_seq() == old(self).kinds_seq() + src.kinds_seq().subrange(
                i0 as int,
                i1 as int,
            ),
    {
        let mut i = i0;
        while i < i1
            invariant
                old(self).kinds_seq().len() == old(self).vals().len(),
                src.kinds_seq().len() == src.vals().len(),
                i0 <= i <= i1 <= src.vals().len(),
                self.below_all == old(self).below_all,
                self.values@ == old(self).values@ + src.values@.subrange(i0 as int, i as int),
                self.kinds@ == old(self).kinds@ + src.kinds@.subrange(i0 as int, i as int),
            decreases i1 - i,
        {
            let v = src.values[i];
            let kd = src.kinds[i];
            self.values.push(v);
            self.kinds.push(kd);
            i = i + 1;
            proof {
                assert(self.values@ =~= old(self).values@ + src.values@.subrange(
                    i0 as int,
                    i as int,
                ));
                assert(self.kinds@ =~= old(self).kinds@ + src.kinds@.subrange(
                    i0 as int,
                    i as int,
                ));
            }
        }
    }

    /// Append the boundaries `[i0, i1)` of `src` with their kinds
    /// complemented.
    fn flip_from(&mut self, src: &IntervalSeq<T>, i0: usize, i1: usize)
        requires
            old(self).kinds_seq().len() == old(self).vals().len(),
            src.kinds_seq().len() == src.vals().len(),
            i0 <= i1 <= src.vals().len(),
        ensures
            final(self).below_all_spec() == old(self).below_all_spec(),
            final(self).vals() == old(self).vals() + src.vals().subrange(i0 as int, i1 as int),
            final(self).kinds_seq() == old(self).kinds_seq() + src.kinds_seq().subrange(
                i0 as int,
                i1 as int,
            ).map_values(|kd: Kind| kind_not(kd)),
    {
        let mut i = i0;
        while i < i1
            invariant
                old(self).kinds_seq().len() == old(self).vals().len(),
                src.kinds_seq().len() == src.vals().len(),
                i0 <= i <= i1 <= src.vals().len(),
                self.below_all == old(self).below_all,
                self.values@ == old(self).values@ + src.values@.subrange(i0 as int, i as int),
                self.kinds@ == old(self).kinds@ + src.kinds@.subrange(i0 as int, i as int)
                    .map_values(|kd: Kind| kind_not(kd)),
            decreases i1 - i,
        {
            let v = src.values[i];
            let kd = src.kinds[i];
            self.values.push(v);
            self.kinds.push(kd.complement());
            i = i + 1;
            proof {
                assert(self.values@ =~= old(self).values@ + src.values@.subrange(
                    i0 as int,
                    i as int,
                ));
                assert(self.kinds@ =~= old(self).kinds@ + src.kinds@.subrange(i0 as int, i as int)
                    .map_values(|kd: Kind| kind_not(kd)));
            }
        }
    }

    /// Append one boundary, unless its kind restates the current state.
    fn append(&mut self, value: T, kind: Kind)
        requires
            old(self).kinds_seq().len() == old(self).vals().len(),
        ensures
            final(self).below_all_spec() == old(self).below_all_spec(),
            kind == state_kind(old(self).above_all_spec()) ==> *final(self) == *old(self),
            kind != state_kind(old(self).above_all_spec()) ==> final(self).vals() == old(
                self,
            ).vals().push(value) && final(self).kinds_seq() == old(self).kinds_seq().push(kind),
    {
        let current = self.above_all();
        // do not append redundant boundaries
        if (current && !matches!(kind, Kind::K11)) || (!current && !matches!(kind, Kind::K00)) {
            self.values.push(value);
            self.kinds.push(kind);
        }
    }
}

/// Where some key of the first part lies at or above `k`, the first part
/// alone decides the membership pair at `k`.
proof fn lemma_win_q_concat_low<T: Element>(
    s: bool,
    v1: Seq<T>,
    q1: Seq<Kind>,
    v2: Seq<T>,
    q2: Seq<Kind>,
    k: int,
)
    requires
        q1.len() == v1.len(),
        q2.len() == v2.len(),
        exists|j: int| 0 <= j < v1.len() && k <= #[trigger] v1[j].key(),
    ensures
        win_q(s, v1 + v2, q1 + q2, k) == win_q(s, v1, q1, k),
    decreases v1.len(),
{
    assert((v1 + v2)[0] == v1[0]);
    assert((q1 + q2)[0] == q1[0]);
    if k < v1[0].key() || k == v1[0].key() {
    } else {
        let j = choose|j: int| 0 <= j < v1.len() && k <= #[trigger] v1[j].key();
        assert(v1.skip(1)[j - 1].key() == v1[j].key());
        assert((v1 + v2).skip(1) =~= v1.skip(1) + v2);
        assert((q1 + q2).skip(1) =~= q1.skip(1) + q2);
        lemma_win_q_concat_low(q1[0].above_spec(), v1.skip(1), q1.skip(1), v2, q2, k);
    }
}

/// Where every key of the first part lies strictly below `k`, the scan
/// falls through into the second part, entering with the first part's exit
/// state.
proof fn lemma_win_q_concat_high<T: Element>(
    s: bool,
    v1: Seq<T>,
    q1: Seq<Kind>,
    v2: Seq<T>,
    q2: Seq<Kind>,
    k: int,
)
    requires
        q1.len() == v1.len(),
        q2.len() == v2.len(),
        forall|j: int| 0 <= j < v1.len() ==> #[trigger] v1[j].key() < k,
    ensures
        win_q(s, v1 + v2, q1 + q2, k) == win_q(exit_state(s, q1), v2, q2, k),
    decreases v1.len(),
{
    if v1.len() == 0 {
        assert(v1 + v2 =~= v2);
        assert(q1 + q2 =~= q2);
    } else {
        assert((v1 + v2)[0] == v1[0]);
        assert((q1 + q2)[0] == q1[0]);
        assert((v1 + v2).skip(1) =~= v1.skip(1) + v2);
        assert((q1 + q2).skip(1) =~= q1.skip(1) + q2);
        lemma_win_q_concat_high(q1[0].above_spec(), v1.skip(1), q1.skip(1), v2, q2, k);
        if q1.len() == 1 {
        } else {
            assert(q1.skip(1)[q1.len() - 2] == q1[q1.len() - 1]);
        }
    }
}

/// Where every key lies strictly below `k`, the membership pair at `k` is
/// the exit state.
proof fn lemma_win_q_high_exit<T: Element>(s: bool, v: Seq<T>, q: Seq<Kind>, k: int)
    requires
        q.len() == v.len(),
        forall|j: int| 0 <= j < v.len() ==> #[trigger] v[j].key() < k,
    ensures
        win_q(s, v, q, k) == (exit_state(s, q), exit_state(s, q)),
    decreases v.len(),
{
    if v.len() == 0 {
    } else {
        lemma_win_q_high_exit(q[0].above_spec(), v.skip(1), q.skip(1), k);
        if q.len() == 1 {
        } else {
            assert(q.skip(1)[q.len() - 2] == q[q.len() - 1]);
        }
    }
}

/// A window of a well-formed boundary list is itself non-redundant,
/// entering with the state just below its first boundary.
proof fn lemma_wf_window<T: Element>(below: bool, v: Seq<T>, q: Seq<Kind>, i0: int, i1: int)
    requires
        q.len() == v.len(),
        0 <= i0 <= i1 <= v.len(),
        forall|i: int|
            0 <= i < v.len() ==> #[trigger] q[i] != state_kind(below_index_of(below, q, i)),
    ensures
        forall|i: int|
            0 <= i < i1 - i0 ==> #[trigger] q.subrange(i0, i1)[i] != state_kind(
                below_index_of(below_index_of(below, q, i0), q.subrange(i0, i1), i),
            ),
{
    let qs = q.subrange(i0, i1);
    assert forall|i: int| 0 <= i < i1 - i0 implies #[trigger] qs[i] != state_kind(
        below_index_of(below_index_of(below, q, i0), qs, i),
    ) by {
        assert(qs[i] == q[i0 + i]);
        assert(q[i0 + i] != state_kind(below_index_of(below, q, i0 + i)));
        if i == 0 {
        } else {
            assert(qs[i - 1] == q[i0 + i - 1]);
        }
    }
}

/// The exit state of a window is the state just below the boundary after
/// the window.
proof fn lemma_exit_window(below: bool, q: Seq<Kind>, i0: int, i1: int)
    requires
        0 <= i0 <= i1 <= q.len(),
    ensures
        exit_state(below_index_of(below, q, i0), q.subrange(i0, i1)) == below_index_of(
            below,
            q,
            i1,
        ),
{
    if i0 == i1 {
    } else {
        assert(q.subrange(i0, i1)[i1 - i0 - 1] == q[i1 - 1]);
    }
}

/// Concatenating a sorted, non-redundant block whose first boundary enters
/// at the first part's exit state keeps the list well formed.
proof fn lemma_wf_concat<T: Element>(
    below: bool,
    v1: Seq<T>,
    q1: Seq<Kind>,
    v2: Seq<T>,
    q2: Seq<Kind>,
    sb2: bool,
)
    requires
        q1.len() == v1.len(),
        q2.len() == v2.len(),
        sorted(v1),
        sorted(v2),
        crate::order::keys_below(v1, v2),
        forall|i: int|
            0 <= i < v1.len() ==> #[trigger] q1[i] != state_kind(below_index_of(below, q1, i)),
        forall|i: int|
            0 <= i < v2.len() ==> #[trigger] q2[i] != state_kind(below_index_of(sb2, q2, i)),
        exit_state(below, q1) == sb2,
    ensures
        sorted(v1 + v2),
        forall|i: int|
            0 <= i < v1.len() + v2.len() ==> #[trigger] (q1 + q2)[i] != state_kind(
                below_index_of(below, q1 + q2, i),
            ),
{
    crate::order::lemma_sorted_concat(v1, v2);
    assert forall|i: int| 0 <= i < v1.len() + v2.len() implies #[trigger] (q1 + q2)[i]
        != state_kind(below_index_of(below, q1 + q2, i)) by {
        if i < q1.len() {
            assert((q1 + q2)[i] == q1[i]);
            if i > 0 {
                assert((q1 + q2)[i - 1] == q1[i - 1]);
            }
        } else {
            assert((q1 + q2)[i] == q2[i - q1.len()]);
            assert(q2[i - q1.len()] != state_kind(below_index_of(sb2, q2, i - q1.len())));
            if i == q1.len() {
                if q1.len() > 0 {
                    assert((q1 + q2)[i - 1] == q1[q1.len() - 1]);
                }
            } else {
                assert((q1 + q2)[i - 1] == q2[i - q1.len() - 1]);
            }
        }
    }
}

/// The state of `s` just below its boundary `i`.
pub open spec fn ivs_state<T: Element>(s: &IntervalSeq<T>, i: int) -> bool {
    below_index_of(s.below_all_spec(), s.kinds_seq(), i)
}

/// The boundary values of the window `[i0, i1)` of `s`.
pub open spec fn ivs_wv<T: Element>(s: &IntervalSeq<T>, i0: int, i1: int) -> Seq<T> {
    s.vals().subrange(i0, i1)
}

/// The boundary kinds of the window `[i0, i1)` of `s`.
pub open spec fn ivs_wq<T: Element>(s: &IntervalSeq<T>, i0: int, i1: int) -> Seq<Kind> {
    s.kinds_seq().subrange(i0, i1)
}

/// The exit state of a concatenation is the exit state of the second part,
/// entered at the first part's exit state.
proof fn lemma_exit_concat(below: bool, q1: Seq<Kind>, q2: Seq<Kind>)
    ensures
        exit_state(below, q1 + q2) == exit_state(exit_state(below, q1), q2),
{
    if q2.len() == 0 {
        assert(q1 + q2 =~= q1);
    } else {
        assert((q1 + q2)[q1.len() + q2.len() - 1] == q2[q2.len() - 1]);
    }
}

/// Where every key of the window lies strictly above `k`, the membership
/// pair at `k` is the incoming state.
proof fn lemma_win_q_low<T: Element>(s: bool, v: Seq<T>, q: Seq<Kind>, k: int)
    requires
        q.len() == v.len(),
        v.len() == 0 || k < v[0].key(),
    ensures
        win_q(s, v, q, k) == (s, s),
{
}

/// How a three-part split around a pivot key reduces: below the pivot only
/// the first part matters, at the pivot the middle decides, and above it
/// the scan reaches the third part through the exit states.
proof fn lemma_win_q_tri<T: Element>(
    s: bool,
    v1: Seq<T>,
    q1: Seq<Kind>,
    v2: Seq<T>,
    q2: Seq<Kind>,
    v3: Seq<T>,
    q3: Seq<Kind>,
    pk: int,
    k: int,
)
    requires
        q1.len() == v1.len(),
        q2.len() == v2.len(),
        q3.len() == v3.len(),
        forall|j: int| 0 <= j < v1.len() ==> #[trigger] v1[j].key() < pk,
        forall|j: int| 0 <= j < v2.len() ==> #[trigger] v2[j].key() == pk,
        forall|j: int| 0 <= j < v3.len() ==> #[trigger] v3[j].key() > pk,
    ensures
        k < pk ==> win_q(s, v1 + v2 + v3, q1 + q2 + q3, k) == win_q(s, v1, q1, k),
        k == pk ==> win_q(s, v1 + v2 + v3, q1 + q2 + q3, k) == win_q(
            exit_state(s, q1),
            v2,
            q2,
            k,
        ),
        k > pk ==> win_q(s, v1 + v2 + v3, q1 + q2 + q3, k) == win_q(
            exit_state(exit_state(s, q1), q2),
            v3,
            q3,
            k,
        ),
{
    let v23 = v2 + v3;
    let q23 = q2 + q3;
    assert(v1 + v2 + v3 =~= v1 + v23);
    assert(q1 + q2 + q3 =~= q1 + q23);
    if k < pk {
        if exists|j: int| 0 <= j < v1.len() && k <= #[trigger] v1[j].key() {
            lemma_win_q_concat_low(s, v1, q1, v23, q23, k);
        } else {
            assert forall|j: int| 0 <= j < v1.len() implies #[trigger] v1[j].key() < k by {
                assert(!(k <= v1[j].key()));
            }
            lemma_win_q_concat_high(s, v1, q1, v23, q23, k);
            if v23.len() > 0 {
                assert(v23[0].key() >= pk);
            }
            lemma_win_q_low(exit_state(s, q1), v23, q23, k);
            lemma_win_q_high_exit(s, v1, q1, k);
        }
    } else if k == pk {
        lemma_win_q_concat_high(s, v1, q1, v23, q23, k);
        let s1 = exit_state(s, q1);
        if v2.len() > 0 {
            assert(k <= v2[0].key());
            lemma_win_q_concat_low(s1, v2, q2, v3, q3, k);
        } else {
            assert(v23 =~= v3);
            assert(q23 =~= q3);
            if v3.len() > 0 {
                assert(v3[0].key() > k);
            }
            lemma_win_q_low(s1, v3, q3, k);
        }
    } else {
        let v12 = v1 + v2;
        let q12 = q1 + q2;
        assert(v1 + v2 + v3 =~= v12 + v3);
        assert(q1 + q2 + q3 =~= q12 + q3);
        assert forall|j: int| 0 <= j < v12.len() implies #[trigger] v12[j].key() < k by {
            if j < v1.len() {
                assert(v12[j] == v1[j]);
            } else {
                assert(v12[j] == v2[j - v1.len()]);
            }
        }
        lemma_win_q_concat_high(s, v12, q12, v3, q3, k);
        lemma_exit_concat(s, q1, q2);
    }
}

/// The semantics of a merged three-part block: where each stage's appended
/// boundaries combine its aligned sub-windows, the whole appended block
/// combines the whole windows.
proof fn lemma_iv_merge_compose<T: Element>(
    op: IvOp,
    pk: int,
    sa0: bool,
    av1: Seq<T>,
    aq1: Seq<Kind>,
    av2: Seq<T>,
    aq2: Seq<Kind>,
    av3: Seq<T>,
    aq3: Seq<Kind>,
    sb0: bool,
    bv1: Seq<T>,
    bq1: Seq<Kind>,
    bv2: Seq<T>,
    bq2: Seq<Kind>,
    bv3: Seq<T>,
    bq3: Seq<Kind>,
    s0: bool,
    p1v: Seq<T>,
    p1q: Seq<Kind>,
    p2v: Seq<T>,
    p2q: Seq<Kind>,
    p3v: Seq<T>,
    p3q: Seq<Kind>,
)
    requires
        aq1.len() == av1.len(),
        aq2.len() == av2.len(),
        aq3.len() == av3.len(),
        bq1.len() == bv1.len(),
        bq2.len() == bv2.len(),
        bq3.len() == bv3.len(),
        p1q.len() == p1v.len(),
        p2q.len() == p2v.len(),
        p3q.len() == p3v.len(),
        forall|j: int| 0 <= j < av1.len() ==> #[trigger] av1[j].key() < pk,
        forall|j: int| 0 <= j < av2.len() ==> #[trigger] av2[j].key() == pk,
        forall|j: int| 0 <= j < av3.len() ==> #[trigger] av3[j].key() > pk,
        forall|j: int| 0 <= j < bv1.len() ==> #[trigger] bv1[j].key() < pk,
        forall|j: int| 0 <= j < bv2.len() ==> #[trigger] bv2[j].key() == pk,
        forall|j: int| 0 <= j < bv3.len() ==> #[trigger] bv3[j].key() > pk,
        forall|j: int| 0 <= j < p1v.len() ==> #[trigger] p1v[j].key() < pk,
        forall|j: int| 0 <= j < p2v.len() ==> #[trigger] p2v[j].key() == pk,
        forall|j: int| 0 <= j < p3v.len() ==> #[trigger] p3v[j].key() > pk,
        forall|k: int|
            #[trigger] win_q(s0, p1v, p1q, k) == iv_keep2(
                op,
                win_q(sa0, av1, aq1, k),
                win_q(sb0, bv1, bq1, k),
            ),
        forall|k: int|
            #[trigger] win_q(exit_state(s0, p1q), p2v, p2q, k) == iv_keep2(
                op,
                win_q(exit_state(sa0, aq1), av2, aq2, k),
                win_q(exit_state(sb0, bq1), bv2, bq2, k),
            ),
        forall|k: int|
            #[trigger] win_q(exit_state(exit_state(s0, p1q), p2q), p3v, p3q, k) == iv_keep2(
                op,
                win_q(exit_state(exit_state(sa0, aq1), aq2), av3, aq3, k),
                win_q(exit_state(exit_state(sb0, bq1), bq2), bv3, bq3, k),
            ),
    ensures
        forall|k: int|
            #[trigger] win_q(s0, p1v + p2v + p3v, p1q + p2q + p3q, k) == iv_keep2(
                op,
                win_q(sa0, av1 + av2 + av3, aq1 + aq2 + aq3, k),
                win_q(sb0, bv1 + bv2 + bv3, bq1 + bq2 + bq3, k),
            ),
{
    assert forall|k: int|
        #[trigger] win_q(s0, p1v + p2v + p3v, p1q + p2q + p3q, k) == iv_keep2(
        op,
        win_q(sa0, av1 + av2 + av3, aq1 + aq2 + aq3, k),
        win_q(sb0, bv1 + bv2 + bv3, bq1 + bq2 + bq3, k),
    ) by {
        lemma_win_q_tri(s0, p1v, p1q, p2v, p2q, p3v, p3q, pk, k);
        lemma_win_q_tri(sa0, av1, aq1, av2, aq2, av3, aq3, pk, k);
        lemma_win_q_tri(sb0, bv1, bq1, bv2, bq2, bv3, bq3, pk, k);
        if k < pk {
            assert(win_q(s0, p1v, p1q, k) == iv_keep2(
                op,
                win_q(sa0, av1, aq1, k),
                win_q(sb0, bv1, bq1, k),
            ));
        } else if k == pk {
            assert(win_q(exit_state(s0, p1q), p2v, p2q, k) == iv_keep2(
                op,
                win_q(exit_state(sa0, aq1), av2, aq2, k),
                win_q(exit_state(sb0, bq1), bv2, bq2, k),
            ));
        } else {
            assert(win_q(exit_state(exit_state(s0, p1q), p2q), p3v, p3q, k) == iv_keep2(
                op,
                win_q(exit_state(exit_state(sa0, aq1), aq2), av3, aq3, k),
                win_q(exit_state(exit_state(sb0, bq1), bq2), bv3, bq3, k),
            ));
        }
    }
}

/// The semantics of the block a collision appends: combining the two
/// boundaries' kinds, and dropping the result where it is redundant, gives
/// exactly the combination of the two one-boundary windows.
proof fn lemma_iv_collision_sem<T: Element>(
    op: IvOp,
    sa1: bool,
    av: T,
    ka: Kind,
    sb1: bool,
    bv: T,
    kb: Kind,
    s1: bool,
    kind: Kind,
    pv: Seq<T>,
    pq: Seq<Kind>,
)
    requires
        av.key() == bv.key(),
        s1 == iv_keep(op, sa1, sb1),
        kind.at_spec() == iv_keep(op, ka.at_spec(), kb.at_spec()),
        kind.above_spec() == iv_keep(op, ka.above_spec(), kb.above_spec()),
        kind == state_kind(s1) ==> pv =~= Seq::<T>::empty() && pq =~= Seq::<Kind>::empty(),
        kind != state_kind(s1) ==> pv =~= seq![av] && pq =~= seq![kind],
    ensures
        forall|k: int|
            #[trigger] win_q(s1, pv, pq, k) == iv_keep2(
                op,
                win_q(sa1, seq![av], seq![ka], k),
                win_q(sb1, seq![bv], seq![kb], k),
            ),
{
    let pk = av.key();
    assert forall|k: int|
        #[trigger] win_q(s1, pv, pq, k) == iv_keep2(
        op,
        win_q(sa1, seq![av], seq![ka], k),
        win_q(sb1, seq![bv], seq![kb], k),
    ) by {
        let wa = win_q(sa1, seq![av], seq![ka], k);
        let wb = win_q(sb1, seq![bv], seq![kb], k);
        if k < pk {
            assert(wa == (sa1, sa1));
            assert(wb == (sb1, sb1));
            lemma_win_q_low(s1, pv, pq, k);
        } else if k == pk {
            assert(wa == (ka.at_spec(), ka.above_spec()));
            assert(wb == (kb.at_spec(), kb.above_spec()));
            if kind == state_kind(s1) {
                assert(win_q(s1, pv, pq, k) == (s1, s1));
                assert(kind.at_spec() == s1);
                assert(kind.above_spec() == s1);
            } else {
                assert(win_q(s1, pv, pq, k) == (kind.at_spec(), kind.above_spec()));
            }
        } else {
            assert(seq![av].skip(1) =~= Seq::<T>::empty());
            assert(seq![ka].skip(1) =~= Seq::<Kind>::empty());
            assert(seq![bv].skip(1) =~= Seq::<T>::empty());
            assert(seq![kb].skip(1) =~= Seq::<Kind>::empty());
            assert(win_q(ka.above_spec(), seq![av].skip(1), seq![ka].skip(1), k) == (
                ka.above_spec(),
                ka.above_spec(),
            ));
            assert(wa == (ka.above_spec(), ka.above_spec()));
            assert(win_q(kb.above_spec(), seq![bv].skip(1), seq![kb].skip(1), k) == (
                kb.above_spec(),
                kb.above_spec(),
            ));
            assert(wb == (kb.above_spec(), kb.above_spec()));
            if kind == state_kind(s1) {
                assert(win_q(s1, pv, pq, k) == (s1, s1));
                assert(kind.above_spec() == s1);
            } else {
                assert(seq![av].skip(1) =~= Seq::<T>::empty());
                assert(pv[0] == av);
                assert(pq[0] == kind);
                assert(win_q(kind.above_spec(), pv.skip(1), pq.skip(1), k) == (
                    kind.above_spec(),
                    kind.above_spec(),
                ));
                assert(win_q(s1, pv, pq, k) == (kind.above_spec(), kind.above_spec()));
            }
        }
    }
}

proof fn lemma_keys_lt<T: Element>(pv: Seq<T>, wa: Seq<T>, wb: Seq<T>, pk: int)
    requires
        forall|i: int|
            0 <= i < pv.len() ==> crate::order::has_key(wa, #[trigger] pv[i].key())
                || crate::order::has_key(wb, pv[i].key()),
        forall|j: int| 0 <= j < wa.len() ==> #[trigger] wa[j].key() < pk,
        forall|j: int| 0 <= j < wb.len() ==> #[trigger] wb[j].key() < pk,
    ensures
        forall|i: int| 0 <= i < pv.len() ==> #[trigger] pv[i].key() < pk,
{
    assert forall|i: int| 0 <= i < pv.len() implies #[trigger] pv[i].key() < pk by {
        if crate::order::has_key(wa, pv[i].key()) {
            let j = choose|j: int| 0 <= j < wa.len() && #[trigger] wa[j].key() == pv[i].key();
        } else {
            let j = choose|j: int| 0 <= j < wb.len() && #[trigger] wb[j].key() == pv[i].key();
        }
    }
}

/// Every element whose key occurs in one of two windows bounded below by
/// the pivot key lies above the pivot key.
proof fn lemma_keys_gt<T: Element>(pv: Seq<T>, wa: Seq<T>, wb: Seq<T>, pk: int)
    requires
        forall|i: int|
            0 <= i < pv.len() ==> crate::order::has_key(wa, #[trigger] pv[i].key())
                || crate::order::has_key(wb, pv[i].key()),
        forall|j: int| 0 <= j < wa.len() ==> #[trigger] wa[j].key() > pk,
        forall|j: int| 0 <= j < wb.len() ==> #[trigger] wb[j].key() > pk,
    ensures
        forall|i: int| 0 <= i < pv.len() ==> #[trigger] pv[i].key() > pk,
{
    assert forall|i: int| 0 <= i < pv.len() implies #[trigger] pv[i].key() > pk by {
        if crate::order::has_key(wa, pv[i].key()) {
            let j = choose|j: int| 0 <= j < wa.len() && #[trigger] wa[j].key() == pv[i].key();
        } else {
            let j = choose|j: int| 0 <= j < wb.len() && #[trigger] wb[j].key() == pv[i].key();
        }
    }
}

/// A key that occurs in a window of a sequence occurs in any enclosing
/// window.
proof fn lemma_has_key_widen<T: Element>(w: Seq<T>, full: Seq<T>, off: int, k: int)
    requires
        0 <= off,
        off + w.len() <= full.len(),
        forall|j: int| 0 <= j < w.len() ==> #[trigger] w[j] == full[off + j],
        crate::order::has_key(w, k),
    ensures
        crate::order::has_key(full, k),
{
    let j = choose|j: int| 0 <= j < w.len() && #[trigger] w[j].key() == k;
    assert(full[off + j].key() == k);
}

/// At an exact boundary match, the membership pair is the boundary's kind.
proof fn lemma_win_q_found<T: Element>(s: bool, vals: Seq<T>, kinds: Seq<Kind>, i: int, k: int)
    requires
        kinds.len() == vals.len(),
        sorted(vals),
        0 <= i < vals.len(),
        vals[i].key() == k,
    ensures
        win_q(s, vals, kinds, k) == (kinds[i].at_spec(), kinds[i].above_spec()),
    decreases i,
{
    if i == 0 {
    } else {
        assert(vals[0].key() < vals[i].key());
        lemma_win_q_found(kinds[0].above_spec(), vals.skip(1), kinds.skip(1), i - 1, k);
    }
}

/// Between boundaries, the membership pair is the state of the region.
proof fn lemma_win_q_region<T: Element>(s: bool, vals: Seq<T>, kinds: Seq<Kind>, i: int, k: int)
    requires
        kinds.len() == vals.len(),
        sorted(vals),
        0 <= i <= vals.len(),
        forall|j: int| 0 <= j < i ==> #[trigger] vals[j].key() < k,
        forall|j: int| i <= j < vals.len() ==> #[trigger] vals[j].key() > k,
    ensures
        win_q(s, vals, kinds, k) == {
            let st = below_index_of(s, kinds, i);
            (st, st)
        },
    decreases i,
{
    if vals.len() == 0 {
    } else if i == 0 {
        assert(vals[0].key() > k);
    } else {
        assert(vals[0].key() < k);
        lemma_win_q_region(kinds[0].above_spec(), vals.skip(1), kinds.skip(1), i - 1, k);
        if i == 1 {
        } else {
            assert(kinds.skip(1)[i - 2] == kinds[i - 1]);
        }
    }
}

/// The region below a key is the incoming state of the first boundary at or
/// above it.
proof fn lemma_win_below_at<T: Element>(s: bool, vals: Seq<T>, kinds: Seq<Kind>, i: int, k: int)
    requires
        kinds.len() == vals.len(),
        sorted(vals),
        0 <= i <= vals.len(),
        forall|j: int| 0 <= j < i ==> #[trigger] vals[j].key() < k,
        forall|j: int| i <= j < vals.len() ==> #[trigger] vals[j].key() >= k,
    ensures
        win_below(s, vals, kinds, k) == below_index_of(s, kinds, i),
    decreases i,
{
    if vals.len() == 0 {
    } else if i == 0 {
        assert(vals[0].key() >= k);
    } else {
        assert(vals[0].key() < k);
        lemma_win_below_at(kinds[0].above_spec(), vals.skip(1), kinds.skip(1), i - 1, k);
        if i == 1 {
        } else {
            assert(kinds.skip(1)[i - 2] == kinds[i - 1]);
        }
    }
}

/// The context every merge call runs in: well-formed operands and output,
/// windows in bounds, output keys strictly below the windows, and the
/// output's trailing state combining the states below the windows.
pub open spec fn iv_call_pre<T: Element>(
    op: IvOp,
    a: &IntervalSeq<T>,
    b: &IntervalSeq<T>,
    r0: IntervalSeq<T>,
    a0: int,
    a1: int,
    b0: int,
    b1: int,
) -> bool {
    &&& a.wf()
    &&& b.wf()
    &&& r0.wf()
    &&& 0 <= a0 <= a1 <= a.vals().len()
    &&& 0 <= b0 <= b1 <= b.vals().len()
    &&& crate::order::keys_below(r0.vals(), ivs_wv(a, a0, a1))
    &&& crate::order::keys_below(r0.vals(), ivs_wv(b, b0, b1))
    &&& r0.above_all_spec() == iv_keep(op, ivs_state(a, a0), ivs_state(b, b0))
}

/// What one merge stage over the given windows guarantees: the output grew
/// by a block whose membership pair at every key is the combination of the
/// two windows' pairs, whose keys come from the windows, and whose trailing
/// state combines the states above the windows.
pub open spec fn iv_stage_post<T: Element>(
    op: IvOp,
    a: &IntervalSeq<T>,
    b: &IntervalSeq<T>,
    r0: IntervalSeq<T>,
    r1: IntervalSeq<T>,
    a0: int,
    a1: int,
    b0: int,
    b1: int,
) -> bool {
    &&& r1.wf()
    &&& r1.below_all_spec() == r0.below_all_spec()
    &&& r0.vals().len() <= r1.vals().len()
    &&& r1.vals().take(r0.vals().len() as int) == r0.vals()
    &&& r1.kinds_seq().take(r0.kinds_seq().len() as int) == r0.kinds_seq()
    &&& forall|i: int|
        r0.vals().len() <= i < r1.vals().len() ==> crate::order::has_key(
            ivs_wv(a, a0, a1),
            #[trigger] r1.vals()[i].key(),
        ) || crate::order::has_key(ivs_wv(b, b0, b1), r1.vals()[i].key())
    &&& r1.above_all_spec() == iv_keep(op, ivs_state(a, a1), ivs_state(b, b1))
    &&& forall|k: int|
        #[trigger] win_q(
            r0.above_all_spec(),
            r1.vals().skip(r0.vals().len() as int),
            r1.kinds_seq().skip(r0.kinds_seq().len() as int),
            k,
        ) == iv_keep2(
            op,
            win_q(ivs_state(a, a0), ivs_wv(a, a0, a1), ivs_wq(a, a0, a1), k),
            win_q(ivs_state(b, b0), ivs_wv(b, b0, b1), ivs_wq(b, b0, b1), k),
        )
}

/// Emit (for the combinations that keep it) or drop the window `[a0, a1)`
/// of the first operand, across a region where the second operand has no
/// boundary.
#[verifier::rlimit(100)]
fn iv_from_a<T: Element>(
    op: IvOp,
    a: &IntervalSeq<T>,
    b: &IntervalSeq<T>,
    r: &mut IntervalSeq<T>,
    a0: usize,
    a1: usize,
    bx: usize,
)
    requires
        iv_call_pre(op, a, b, *old(r), a0 as int, a1 as int, bx as int, bx as int),
    ensures
        iv_stage_post(op, a, b, *old(r), *final(r), a0 as int, a1 as int, bx as int, bx as int),
{
    let ghost r0 = *old(r);
    let ghost wv = ivs_wv(a, a0 as int, a1 as int);
    let ghost wq = ivs_wq(a, a0 as int, a1 as int);
    let ghost sa0 = ivs_state(a, a0 as int);
    let ghost sbx = ivs_state(b, bx as int);
    proof {
        assert(ivs_wv(b, bx as int, bx as int) =~= Seq::<T>::empty());
        assert(ivs_wq(b, bx as int, bx as int) =~= Seq::<Kind>::empty());
    }
    let sb = b.below_index(bx);
    let copy = match op {
        IvOp::And => sb,
        IvOp::Or => !sb,
    };
    if copy {
        proof {
            lemma_sorted_subrange(a.vals(), a0 as int, a1 as int);
            lemma_wf_window(a.below_all_spec(), a.vals(), a.kinds_seq(), a0 as int, a1 as int);
        }
        r.copy_from(a, a0, a1);
        proof {
            assert(r0.above_all_spec() == sa0);
            lemma_wf_concat(r0.below_all_spec(), r0.vals(), r0.kinds_seq(), wv, wq, sa0);
            assert(r.vals().take(r0.vals().len() as int) =~= r0.vals());
            assert(r.kinds_seq().take(r0.kinds_seq().len() as int) =~= r0.kinds_seq());
            let apv = r.vals().skip(r0.vals().len() as int);
            let apq = r.kinds_seq().skip(r0.kinds_seq().len() as int);
            assert(apv =~= wv);
            assert(apq =~= wq);
            assert forall|i: int| r0.vals().len() <= i < r.vals().len() implies crate::order::has_key(
                wv,
                #[trigger] r.vals()[i].key(),
            ) by {
                assert(wv[i - r0.vals().len()] == r.vals()[i]);
            }
            assert(r.above_all_spec() == iv_keep(op, ivs_state(a, a1 as int), sbx)) by {
                lemma_exit_concat(r0.below_all_spec(), r0.kinds_seq(), wq);
                lemma_exit_window(a.below_all_spec(), a.kinds_seq(), a0 as int, a1 as int);
            }
            assert forall|k: int|
                #[trigger] win_q(r0.above_all_spec(), apv, apq, k) == iv_keep2(
                op,
                win_q(sa0, wv, wq, k),
                win_q(sbx, ivs_wv(b, bx as int, bx as int), ivs_wq(b, bx as int, bx as int), k),
            ) by {
                let p = win_q(sa0, wv, wq, k);
                assert(win_q(r0.above_all_spec(), apv, apq, k) == p);
                assert(p == (p.0, p.1));
                lemma_win_q_low(
                    sbx,
                    ivs_wv(b, bx as int, bx as int),
                    ivs_wq(b, bx as int, bx as int),
                    k,
                );
                assert(iv_keep2(op, p, (sbx, sbx)) == (p.0, p.1));
            }
        }
    } else {
        proof {
            let apv = r.vals().skip(r0.vals().len() as int);
            let apq = r.kinds_seq().skip(r0.kinds_seq().len() as int);
            assert(r.vals().take(r0.vals().len() as int) =~= r0.vals());
            assert(r.kinds_seq().take(r0.kinds_seq().len() as int) =~= r0.kinds_seq());
            assert(apv =~= Seq::<T>::empty());
            assert(apq =~= Seq::<Kind>::empty());
            lemma_exit_window(a.below_all_spec(), a.kinds_seq(), a0 as int, a1 as int);
            assert forall|k: int|
                #[trigger] win_q(r0.above_all_spec(), apv, apq, k) == iv_keep2(
                op,
                win_q(sa0, wv, wq, k),
                win_q(sbx, ivs_wv(b, bx as int, bx as int), ivs_wq(b, bx as int, bx as int), k),
            ) by {
                assert(win_q(r0.above_all_spec(), apv, apq, k) == (
                    r0.above_all_spec(),
                    r0.above_all_spec(),
                ));
                let p = win_q(sa0, wv, wq, k);
                assert(p == (p.0, p.1));
                lemma_win_q_low(
                    sbx,
                    ivs_wv(b, bx as int, bx as int),
                    ivs_wq(b, bx as int, bx as int),
                    k,
                );
                assert(iv_keep2(op, p, (sbx, sbx)) == (
                    r0.above_all_spec(),
                    r0.above_all_spec(),
                ));
            }
        }
    }
}

/// Emit (for the combinations that keep it) or drop the window `[b0, b1)`
/// of the second operand, across a region where the first operand has no
/// boundary.
#[verifier::rlimit(100)]
fn iv_from_b<T: Element>(
    op: IvOp,
    a: &IntervalSeq<T>,
    b: &IntervalSeq<T>,
    r: &mut IntervalSeq<T>,
    ax: usize,
    b0: usize,
    b1: usize,
)
    requires
        iv_call_pre(op, a, b, *old(r), ax as int, ax as int, b0 as int, b1 as int),
    ensures
        iv_stage_post(op, a, b, *old(r), *final(r), ax as int, ax as int, b0 as int, b1 as int),
{
    let ghost r0 = *old(r);
    let ghost wv = ivs_wv(b, b0 as int, b1 as int);
    let ghost wq = ivs_wq(b, b0 as int, b1 as int);
    let ghost sb0 = ivs_state(b, b0 as int);
    let ghost sax = ivs_state(a, ax as int);
    proof {
        assert(ivs_wv(a, ax as int, ax as int) =~= Seq::<T>::empty());
        assert(ivs_wq(a, ax as int, ax as int) =~= Seq::<Kind>::empty());
    }
    let sa = a.below_index(ax);
    let copy = match op {
        IvOp::And => sa,
        IvOp::Or => !sa,
    };
    if copy {
        proof {
            lemma_sorted_subrange(b.vals(), b0 as int, b1 as int);
            lemma_wf_window(b.below_all_spec(), b.vals(), b.kinds_seq(), b0 as int, b1 as int);
        }
        r.copy_from(b, b0, b1);
        proof {
            assert(r0.above_all_spec() == sb0);
            lemma_wf_concat(r0.below_all_spec(), r0.vals(), r0.kinds_seq(), wv, wq, sb0);
            assert(r.vals().take(r0.vals().len() as int) =~= r0.vals());
            assert(r.kinds_seq().take(r0.kinds_seq().len() as int) =~= r0.kinds_seq());
            let apv = r.vals().skip(r0.vals().len() as int);
            let apq = r.kinds_seq().skip(r0.kinds_seq().len() as int);
            assert(apv =~= wv);
            assert(apq =~= wq);
            assert forall|i: int| r0.vals().len() <= i < r.vals().len() implies crate::order::has_key(
                wv,
                #[trigger] r.vals()[i].key(),
            ) by {
                assert(wv[i - r0.vals().len()] == r.vals()[i]);
            }
            assert(r.above_all_spec() == iv_keep(op, sax, ivs_state(b, b1 as int))) by {
                lemma_exit_concat(r0.below_all_spec(), r0.kinds_seq(), wq);
                lemma_exit_window(b.below_all_spec(), b.kinds_seq(), b0 as int, b1 as int);
            }
            assert forall|k: int|
                #[trigger] win_q(r0.above_all_spec(), apv, apq, k) == iv_keep2(
                op,
                win_q(sax, ivs_wv(a, ax as int, ax as int), ivs_wq(a, ax as int, ax as int), k),
                win_q(sb0, wv, wq, k),
            ) by {
                let p = win_q(sb0, wv, wq, k);
                assert(win_q(r0.above_all_spec(), apv, apq, k) == p);
                assert(p == (p.0, p.1));
                lemma_win_q_low(
                    sax,
                    ivs_wv(a, ax as int, ax as int),
                    ivs_wq(a, ax as int, ax as int),
                    k,
                );
                assert(iv_keep2(op, (sax, sax), p) == (p.0, p.1));
            }
        }
    } else {
        proof {
            let apv = r.vals().skip(r0.vals().len() as int);
            let apq = r.kinds_seq().skip(r0.kinds_seq().len() as int);
            assert(r.vals().take(r0.vals().len() as int) =~= r0.vals());
            assert(r.kinds_seq().take(r0.kinds_seq().len() as int) =~= r0.kinds_seq());
            assert(apv =~= Seq::<T>::empty());
            assert(apq =~= Seq::<Kind>::empty());
            lemma_exit_window(b.below_all_spec(), b.kinds_seq(), b0 as int, b1 as int);
            assert forall|k: int|
                #[trigger] win_q(r0.above_all_spec(), apv, apq, k) == iv_keep2(
                op,
                win_q(sax, ivs_wv(a, ax as int, ax as int), ivs_wq(a, ax as int, ax as int), k),
                win_q(sb0, wv, wq, k),
            ) by {
                assert(win_q(r0.above_all_spec(), apv, apq, k) == (
                    r0.above_all_spec(),
                    r0.above_all_spec(),
                ));
                let p = win_q(sb0, wv, wq, k);
                assert(p == (p.0, p.1));
                lemma_win_q_low(
                    sax,
                    ivs_wv(a, ax as int, ax as int),
                    ivs_wq(a, ax as int, ax as int),
                    k,
                );
                assert(iv_keep2(op, (sax, sax), p) == (
                    r0.above_all_spec(),
                    r0.above_all_spec(),
                ));
            }
        }
    }
}

/// Narrowing both windows preserves the calling context.
#[verifier::rlimit(100)]
proof fn lemma_pre_narrow<T: Element>(
    op: IvOp,
    a: &IntervalSeq<T>,
    b: &IntervalSeq<T>,
    r0: IntervalSeq<T>,
    a0: int,
    a1: int,
    b0: int,
    b1: int,
    am: int,
    bl: int,
)
    requires
        iv_call_pre(op, a, b, r0, a0, a1, b0, b1),
        a0 <= am <= a1,
        b0 <= bl <= b1,
    ensures
        iv_call_pre(op, a, b, r0, a0, am, b0, bl),
{
    assert forall|i: int, j: int|
        0 <= i < r0.vals().len() && 0 <= j < ivs_wv(a, a0, am).len() implies #[trigger] r0.vals()[
        i
    ].key() < #[trigger] ivs_wv(a, a0, am)[j].key() by {
        assert(ivs_wv(a, a0, am)[j] == ivs_wv(a, a0, a1)[j]);
        assert(r0.vals()[i].key() < ivs_wv(a, a0, a1)[j].key());
    }
    assert forall|i: int, j: int|
        0 <= i < r0.vals().len() && 0 <= j < ivs_wv(b, b0, bl).len() implies #[trigger] r0.vals()[
        i
    ].key() < #[trigger] ivs_wv(b, b0, bl)[j].key() by {
        assert(ivs_wv(b, b0, bl)[j] == ivs_wv(b, b0, b1)[j]);
        assert(r0.vals()[i].key() < ivs_wv(b, b0, b1)[j].key());
    }
}

/// After the first stage, everything produced lies strictly below the
/// pivot key, which sets up the middle step.
#[verifier::rlimit(100)]
proof fn lemma_pre_mid<T: Element>(
    op: IvOp,
    a: &IntervalSeq<T>,
    b: &IntervalSeq<T>,
    r0: IntervalSeq<T>,
    r1: IntervalSeq<T>,
    a0: int,
    am: int,
    a1: int,
    b0: int,
    bl: int,
    b1: int,
)
    requires
        iv_call_pre(op, a, b, r0, a0, a1, b0, b1),
        a0 <= am < a1,
        b0 <= bl <= b1,
        forall|j: int| b0 <= j < bl ==> #[trigger] b.vals()[j].key() < a.vals()[am].key(),
        iv_stage_post(op, a, b, r0, r1, a0, am, b0, bl),
    ensures
        iv_call_pre(op, a, b, r1, am, am + 1, bl, bl),
        forall|i: int| 0 <= i < r1.vals().len() ==> #[trigger] r1.vals()[i].key() < a.vals()[
            am
        ].key(),
{
    let pk = a.vals()[am].key();
    let p1v = r1.vals().skip(r0.vals().len() as int);
    assert forall|j: int| 0 <= j < ivs_wv(a, a0, am).len() implies #[trigger] ivs_wv(
        a,
        a0,
        am,
    )[j].key() < pk by {
        assert(ivs_wv(a, a0, am)[j] == a.vals()[a0 + j]);
    }
    assert forall|j: int| 0 <= j < ivs_wv(b, b0, bl).len() implies #[trigger] ivs_wv(
        b,
        b0,
        bl,
    )[j].key() < pk by {
        assert(ivs_wv(b, b0, bl)[j] == b.vals()[b0 + j]);
    }
    assert forall|i: int| 0 <= i < p1v.len() implies crate::order::has_key(
        ivs_wv(a, a0, am),
        #[trigger] p1v[i].key(),
    ) || crate::order::has_key(ivs_wv(b, b0, bl), p1v[i].key()) by {
        assert(p1v[i] == r1.vals()[r0.vals().len() + i]);
    }
    lemma_keys_lt(p1v, ivs_wv(a, a0, am), ivs_wv(b, b0, bl), pk);
    assert forall|i: int| 0 <= i < r1.vals().len() implies #[trigger] r1.vals()[i].key()
        < pk by {
        if i < r0.vals().len() {
            assert(r0.vals()[i].key() < ivs_wv(a, a0, a1)[am - a0].key());
            assert(ivs_wv(a, a0, a1)[am - a0] == a.vals()[am]);
        } else {
            assert(r1.vals()[i] == p1v[i - r0.vals().len()]);
        }
    }
    assert forall|i: int, j: int|
        0 <= i < r1.vals().len() && 0 <= j < ivs_wv(a, am, am + 1).len() implies #[trigger] r1.vals()[
        i
    ].key() < #[trigger] ivs_wv(a, am, am + 1)[j].key() by {
        assert(ivs_wv(a, am, am + 1)[j] == a.vals()[am]);
    }
    assert(ivs_wv(b, bl, bl) =~= Seq::<T>::empty());
}

/// After the first two stages, everything produced lies at or below the
/// pivot key, which sets up the final stage.
#[verifier::rlimit(100)]
proof fn lemma_pre_right<T: Element>(
    op: IvOp,
    a: &IntervalSeq<T>,
    b: &IntervalSeq<T>,
    r0: IntervalSeq<T>,
    r1: IntervalSeq<T>,
    r2: IntervalSeq<T>,
    a0: int,
    am: int,
    a1: int,
    b0: int,
    bl: int,
    bh: int,
    b1: int,
)
    requires
        iv_call_pre(op, a, b, r0, a0, a1, b0, b1),
        a0 <= am < a1,
        b0 <= bl <= bh <= b1,
        forall|j: int| b0 <= j < bl ==> #[trigger] b.vals()[j].key() < a.vals()[am].key(),
        forall|j: int| bl <= j < bh ==> #[trigger] b.vals()[j].key() == a.vals()[am].key(),
        forall|j: int| bh <= j < b1 ==> #[trigger] b.vals()[j].key() > a.vals()[am].key(),
        iv_stage_post(op, a, b, r0, r1, a0, am, b0, bl),
        iv_stage_post(op, a, b, r1, r2, am, am + 1, bl, bh),
    ensures
        iv_call_pre(op, a, b, r2, am + 1, a1, bh, b1),
{
    let pk = a.vals()[am].key();
    lemma_pre_mid(op, a, b, r0, r1, a0, am, a1, b0, bl, b1);
    let p2v = r2.vals().skip(r1.vals().len() as int);
    assert forall|j: int| 0 <= j < ivs_wv(a, am, am + 1).len() implies #[trigger] ivs_wv(
        a,
        am,
        am + 1,
    )[j].key() == pk by {
        assert(ivs_wv(a, am, am + 1)[j] == a.vals()[am]);
    }
    assert forall|j: int| 0 <= j < ivs_wv(b, bl, bh).len() implies #[trigger] ivs_wv(
        b,
        bl,
        bh,
    )[j].key() == pk by {
        assert(ivs_wv(b, bl, bh)[j] == b.vals()[bl + j]);
    }
    assert forall|i: int| 0 <= i < p2v.len() implies crate::order::has_key(
        ivs_wv(a, am, am + 1),
        #[trigger] p2v[i].key(),
    ) || crate::order::has_key(ivs_wv(b, bl, bh), p2v[i].key()) by {
        assert(p2v[i] == r2.vals()[r1.vals().len() + i]);
    }
    lemma_keys_lt(p2v, ivs_wv(a, am, am + 1), ivs_wv(b, bl, bh), pk + 1);
    lemma_keys_gt(p2v, ivs_wv(a, am, am + 1), ivs_wv(b, bl, bh), pk - 1);
    assert forall|i: int| 0 <= i < r2.vals().len() implies #[trigger] r2.vals()[i].key()
        <= pk by {
        if i < r1.vals().len() {
            assert(r2.vals()[i] == r1.vals()[i]);
        } else {
            assert(r2.vals()[i] == p2v[i - r1.vals().len()]);
        }
    }
    assert forall|i: int, j: int|
        0 <= i < r2.vals().len() && 0 <= j < ivs_wv(a, am + 1, a1).len() implies #[trigger] r2.vals()[
        i
    ].key() < #[trigger] ivs_wv(a, am + 1, a1)[j].key() by {
        assert(ivs_wv(a, am + 1, a1)[j] == a.vals()[am + 1 + j]);
        assert(a.vals()[am].key() < a.vals()[am + 1 + j].key());
    }
    assert forall|i: int, j: int|
        0 <= i < r2.vals().len() && 0 <= j < ivs_wv(b, bh, b1).len() implies #[trigger] r2.vals()[
        i
    ].key() < #[trigger] ivs_wv(b, bh, b1)[j].key() by {
        assert(ivs_wv(b, bh, b1)[j] == b.vals()[bh + j]);
    }
}

/// The middle step of a collision, as one stage: append the combined kind,
/// unless it is redundant.
#[verifier::rlimit(100)]
proof fn lemma_collision_stage<T: Element>(
    op: IvOp,
    a: &IntervalSeq<T>,
    b: &IntervalSeq<T>,
    r1: IntervalSeq<T>,
    r2: IntervalSeq<T>,
    am: int,
    bm: int,
    kind: Kind,
)
    requires
        a.wf(),
        b.wf(),
        r1.wf(),
        0 <= am < a.vals().len(),
        0 <= bm < b.vals().len(),
        b.vals()[bm].key() == a.vals()[am].key(),
        kind.at_spec() == iv_keep(op, a.kinds_seq()[am].at_spec(), b.kinds_seq()[bm].at_spec()),
        kind.above_spec() == iv_keep(
            op,
            a.kinds_seq()[am].above_spec(),
            b.kinds_seq()[bm].above_spec(),
        ),
        r1.above_all_spec() == iv_keep(op, ivs_state(a, am), ivs_state(b, bm)),
        forall|i: int| 0 <= i < r1.vals().len() ==> #[trigger] r1.vals()[i].key() < a.vals()[
            am
        ].key(),
        r2.below_all_spec() == r1.below_all_spec(),
        kind == state_kind(r1.above_all_spec()) ==> r2 == r1,
        kind != state_kind(r1.above_all_spec()) ==> r2.vals() == r1.vals().push(a.vals()[am])
            && r2.kinds_seq() == r1.kinds_seq().push(kind),
    ensures
        iv_stage_post(op, a, b, r1, r2, am, am + 1, bm, bm + 1),
{
    let pk = a.vals()[am].key();
    let av2 = ivs_wv(a, am, am + 1);
    let aq2 = ivs_wq(a, am, am + 1);
    let bv2 = ivs_wv(b, bm, bm + 1);
    let bq2 = ivs_wq(b, bm, bm + 1);
    assert(av2 =~= seq![a.vals()[am]]);
    assert(aq2 =~= seq![a.kinds_seq()[am]]);
    assert(bv2 =~= seq![b.vals()[bm]]);
    assert(bq2 =~= seq![b.kinds_seq()[bm]]);
    assert(ivs_state(a, am + 1) == a.kinds_seq()[am].above_spec());
    assert(ivs_state(b, bm + 1) == b.kinds_seq()[bm].above_spec());
    let p2v = r2.vals().skip(r1.vals().len() as int);
    let p2q = r2.kinds_seq().skip(r1.kinds_seq().len() as int);
    if kind == state_kind(r1.above_all_spec()) {
        assert(p2v =~= Seq::<T>::empty());
        assert(p2q =~= Seq::<Kind>::empty());
        assert(r2.vals().take(r1.vals().len() as int) =~= r1.vals());
        assert(r2.kinds_seq().take(r1.kinds_seq().len() as int) =~= r1.kinds_seq());
        assert(r2.above_all_spec() == kind.above_spec());
    } else {
        assert(p2v =~= seq![a.vals()[am]]);
        assert(p2q =~= seq![kind]);
        assert(r2.vals().take(r1.vals().len() as int) =~= r1.vals());
        assert(r2.kinds_seq().take(r1.kinds_seq().len() as int) =~= r1.kinds_seq());
        assert(r2.vals() =~= r1.vals() + seq![a.vals()[am]]);
        assert(r2.kinds_seq() =~= r1.kinds_seq() + seq![kind]);
        lemma_wf_concat(
            r1.below_all_spec(),
            r1.vals(),
            r1.kinds_seq(),
            seq![a.vals()[am]],
            seq![kind],
            r1.above_all_spec(),
        );
        assert(r2.above_all_spec() == kind.above_spec()) by {
            assert(r2.kinds_seq()[r2.kinds_seq().len() - 1] == kind);
        }
    }
    lemma_iv_collision_sem(
        op,
        ivs_state(a, am),
        a.vals()[am],
        a.kinds_seq()[am],
        ivs_state(b, bm),
        b.vals()[bm],
        b.kinds_seq()[bm],
        r1.above_all_spec(),
        kind,
        p2v,
        p2q,
    );
    assert forall|i: int|
        r1.vals().len() <= i < r2.vals().len() implies crate::order::has_key(
        av2,
        #[trigger] r2.vals()[i].key(),
    ) || crate::order::has_key(bv2, r2.vals()[i].key()) by {
        assert(r2.vals()[i] == a.vals()[am]);
        assert(av2[0].key() == r2.vals()[i].key());
    }
}


/// The pivot splits both operands' windows into keys strictly below, equal
/// to, and strictly above the pivot key.
proof fn lemma_window_ranges<T: Element>(
    a: &IntervalSeq<T>,
    b: &IntervalSeq<T>,
    a0: int,
    am: int,
    a1: int,
    b0: int,
    bl: int,
    bh: int,
    b1: int,
)
    requires
        a.wf(),
        b.wf(),
        0 <= a0 <= am < a1 <= a.vals().len(),
        0 <= b0 <= bl <= bh <= b1 <= b.vals().len(),
        forall|j: int| b0 <= j < bl ==> #[trigger] b.vals()[j].key() < a.vals()[am].key(),
        forall|j: int| bl <= j < bh ==> #[trigger] b.vals()[j].key() == a.vals()[am].key(),
        forall|j: int| bh <= j < b1 ==> #[trigger] b.vals()[j].key() > a.vals()[am].key(),
    ensures
        forall|j: int|
            0 <= j < ivs_wv(a, a0, am).len() ==> #[trigger] ivs_wv(a, a0, am)[j].key()
                < a.vals()[am].key(),
        forall|j: int|
            0 <= j < ivs_wv(a, am + 1, a1).len() ==> #[trigger] ivs_wv(a, am + 1, a1)[j].key()
                > a.vals()[am].key(),
        forall|j: int|
            0 <= j < ivs_wv(b, b0, bl).len() ==> #[trigger] ivs_wv(b, b0, bl)[j].key()
                < a.vals()[am].key(),
        forall|j: int|
            0 <= j < ivs_wv(b, bl, bh).len() ==> #[trigger] ivs_wv(b, bl, bh)[j].key()
                == a.vals()[am].key(),
        forall|j: int|
            0 <= j < ivs_wv(b, bh, b1).len() ==> #[trigger] ivs_wv(b, bh, b1)[j].key()
                > a.vals()[am].key(),
{
    let pk = a.vals()[am].key();
    assert forall|j: int| 0 <= j < ivs_wv(a, a0, am).len() implies #[trigger] ivs_wv(
        a,
        a0,
        am,
    )[j].key() < pk by {
        assert(ivs_wv(a, a0, am)[j] == a.vals()[a0 + j]);
    }
    assert forall|j: int| 0 <= j < ivs_wv(a, am + 1, a1).len() implies #[trigger] ivs_wv(
        a,
        am + 1,
        a1,
    )[j].key() > pk by {
        assert(ivs_wv(a, am + 1, a1)[j] == a.vals()[am + 1 + j]);
    }
    assert forall|j: int| 0 <= j < ivs_wv(b, b0, bl).len() implies #[trigger] ivs_wv(
        b,
        b0,
        bl,
    )[j].key() < pk by {
        assert(ivs_wv(b, b0, bl)[j] == b.vals()[b0 + j]);
    }
    assert forall|j: int| 0 <= j < ivs_wv(b, bl, bh).len() implies #[trigger] ivs_wv(
        b,
        bl,
        bh,
    )[j].key() == pk by {
        assert(ivs_wv(b, bl, bh)[j] == b.vals()[bl + j]);
    }
    assert forall|j: int| 0 <= j < ivs_wv(b, bh, b1).len() implies #[trigger] ivs_wv(
        b,
        bh,
        b1,
    )[j].key() > pk by {
        assert(ivs_wv(b, bh, b1)[j] == b.vals()[bh + j]);
    }
}

/// The structural half of composing three merge stages: the prefix is
/// preserved and every produced key comes from the whole windows.
#[verifier::rlimit(100)]
proof fn lemma_iv_compose_struct<T: Element>(
    op: IvOp,
    a: &IntervalSeq<T>,
    b: &IntervalSeq<T>,
    r0: IntervalSeq<T>,
    r1: IntervalSeq<T>,
    r2: IntervalSeq<T>,
    rf: IntervalSeq<T>,
    a0: int,
    am: int,
    a1: int,
    b0: int,
    bl: int,
    bh: int,
    b1: int,
)
    requires
        0 <= a0 <= am < a1 <= a.vals().len(),
        0 <= b0 <= bl <= bh <= b1 <= b.vals().len(),
        a.kinds_seq().len() == a.vals().len(),
        b.kinds_seq().len() == b.vals().len(),
        r0.vals().len() <= r1.vals().len() <= r2.vals().len() <= rf.vals().len(),
        r0.kinds_seq().len() == r0.vals().len(),
        r1.kinds_seq().len() == r1.vals().len(),
        r2.kinds_seq().len() == r2.vals().len(),
        rf.kinds_seq().len() == rf.vals().len(),
        r1.vals().take(r0.vals().len() as int) == r0.vals(),
        r2.vals().take(r1.vals().len() as int) == r1.vals(),
        rf.vals().take(r2.vals().len() as int) == r2.vals(),
        r1.kinds_seq().take(r0.kinds_seq().len() as int) == r0.kinds_seq(),
        r2.kinds_seq().take(r1.kinds_seq().len() as int) == r1.kinds_seq(),
        rf.kinds_seq().take(r2.kinds_seq().len() as int) == r2.kinds_seq(),
        forall|i: int|
            r0.vals().len() <= i < r1.vals().len() ==> crate::order::has_key(
                ivs_wv(a, a0, am),
                #[trigger] r1.vals()[i].key(),
            ) || crate::order::has_key(ivs_wv(b, b0, bl), r1.vals()[i].key()),
        forall|i: int|
            r1.vals().len() <= i < r2.vals().len() ==> crate::order::has_key(
                ivs_wv(a, am, am + 1),
                #[trigger] r2.vals()[i].key(),
            ) || crate::order::has_key(ivs_wv(b, bl, bh), r2.vals()[i].key()),
        forall|i: int|
            r2.vals().len() <= i < rf.vals().len() ==> crate::order::has_key(
                ivs_wv(a, am + 1, a1),
                #[trigger] rf.vals()[i].key(),
            ) || crate::order::has_key(ivs_wv(b, bh, b1), rf.vals()[i].key()),
    ensures
        rf.vals().take(r0.vals().len() as int) == r0.vals(),
        rf.kinds_seq().take(r0.kinds_seq().len() as int) == r0.kinds_seq(),
        forall|i: int|
            r0.vals().len() <= i < rf.vals().len() ==> crate::order::has_key(
                ivs_wv(a, a0, a1),
                #[trigger] rf.vals()[i].key(),
            ) || crate::order::has_key(ivs_wv(b, b0, b1), rf.vals()[i].key()),
{
    let av1 = ivs_wv(a, a0, am);
    let av2 = ivs_wv(a, am, am + 1);
    let av3 = ivs_wv(a, am + 1, a1);
    let bv1 = ivs_wv(b, b0, bl);
    let bv2 = ivs_wv(b, bl, bh);
    let bv3 = ivs_wv(b, bh, b1);
    let p1v = r1.vals().skip(r0.vals().len() as int);
    let p2v = r2.vals().skip(r1.vals().len() as int);
    let p3v = rf.vals().skip(r2.vals().len() as int);
    assert(rf.vals().take(r0.vals().len() as int) =~= r0.vals());
    assert(rf.kinds_seq().take(r0.kinds_seq().len() as int) =~= r0.kinds_seq());
    assert forall|i: int|
        r0.vals().len() <= i < rf.vals().len() implies crate::order::has_key(
        ivs_wv(a, a0, a1),
        #[trigger] rf.vals()[i].key(),
    ) || crate::order::has_key(ivs_wv(b, b0, b1), rf.vals()[i].key()) by {
        let x = rf.vals()[i];
        if i < r1.vals().len() {
            assert(x == r1.vals()[i]);
            assert(x == p1v[i - r0.vals().len()]);
            if crate::order::has_key(av1, x.key()) {
                lemma_has_key_widen(av1, ivs_wv(a, a0, a1), 0, x.key());
            } else {
                lemma_has_key_widen(bv1, ivs_wv(b, b0, b1), 0, x.key());
            }
        } else if i < r2.vals().len() {
            assert(x == r2.vals()[i]);
            assert(x == p2v[i - r1.vals().len()]);
            if crate::order::has_key(av2, x.key()) {
                lemma_has_key_widen(av2, ivs_wv(a, a0, a1), am - a0, x.key());
            } else {
                lemma_has_key_widen(bv2, ivs_wv(b, b0, b1), bl - b0, x.key());
            }
        } else {
            assert(x == p3v[i - r2.vals().len()]);
            if crate::order::has_key(av3, x.key()) {
                lemma_has_key_widen(av3, ivs_wv(a, a0, a1), am + 1 - a0, x.key());
            } else {
                lemma_has_key_widen(bv3, ivs_wv(b, b0, b1), bh - b0, x.key());
            }
        }
    }
}

/// The semantic half of composing three merge stages: the whole appended
/// block combines the whole windows, key by key.
#[verifier::rlimit(100)]
proof fn lemma_iv_compose_sem<T: Element>(
    op: IvOp,
    a: &IntervalSeq<T>,
    b: &IntervalSeq<T>,
    r0: IntervalSeq<T>,
    r1: IntervalSeq<T>,
    r2: IntervalSeq<T>,
    rf: IntervalSeq<T>,
    a0: int,
    am: int,
    a1: int,
    b0: int,
    bl: int,
    bh: int,
    b1: int,
)
    requires
        0 <= a0 <= am < a1 <= a.vals().len(),
        0 <= b0 <= bl <= bh <= b1 <= b.vals().len(),
        a.kinds_seq().len() == a.vals().len(),
        b.kinds_seq().len() == b.vals().len(),
        r0.vals().len() <= r1.vals().len() <= r2.vals().len() <= rf.vals().len(),
        r0.kinds_seq().len() == r0.vals().len(),
        r1.kinds_seq().len() == r1.vals().len(),
        r2.kinds_seq().len() == r2.vals().len(),
        rf.kinds_seq().len() == rf.vals().len(),
        r1.vals().take(r0.vals().len() as int) == r0.vals(),
        r2.vals().take(r1.vals().len() as int) == r1.vals(),
        rf.vals().take(r2.vals().len() as int) == r2.vals(),
        r1.kinds_seq().take(r0.kinds_seq().len() as int) == r0.kinds_seq(),
        r2.kinds_seq().take(r1.kinds_seq().len() as int) == r1.kinds_seq(),
        rf.kinds_seq().take(r2.kinds_seq().len() as int) == r2.kinds_seq(),
        forall|i: int|
            r0.vals().len() <= i < r1.vals().len() ==> crate::order::has_key(
                ivs_wv(a, a0, am),
                #[trigger] r1.vals()[i].key(),
            ) || crate::order::has_key(ivs_wv(b, b0, bl), r1.vals()[i].key()),
        forall|i: int|
            r1.vals().len() <= i < r2.vals().len() ==> crate::order::has_key(
                ivs_wv(a, am, am + 1),
                #[trigger] r2.vals()[i].key(),
            ) || crate::order::has_key(ivs_wv(b, bl, bh), r2.vals()[i].key()),
        forall|i: int|
            r2.vals().len() <= i < rf.vals().len() ==> crate::order::has_key(
                ivs_wv(a, am + 1, a1),
                #[trigger] rf.vals()[i].key(),
            ) || crate::order::has_key(ivs_wv(b, bh, b1), rf.vals()[i].key()),
        r1.below_all_spec() == r0.below_all_spec(),
        r2.below_all_spec() == r1.below_all_spec(),
        forall|j: int|
            0 <= j < ivs_wv(a, a0, am).len() ==> #[trigger] ivs_wv(a, a0, am)[j].key()
                < a.vals()[am].key(),
        forall|j: int|
            0 <= j < ivs_wv(a, am + 1, a1).len() ==> #[trigger] ivs_wv(a, am + 1, a1)[j].key()
                > a.vals()[am].key(),
        forall|j: int|
            0 <= j < ivs_wv(b, b0, bl).len() ==> #[trigger] ivs_wv(b, b0, bl)[j].key()
                < a.vals()[am].key(),
        forall|j: int|
            0 <= j < ivs_wv(b, bl, bh).len() ==> #[trigger] ivs_wv(b, bl, bh)[j].key()
                == a.vals()[am].key(),
        forall|j: int|
            0 <= j < ivs_wv(b, bh, b1).len() ==> #[trigger] ivs_wv(b, bh, b1)[j].key()
                > a.vals()[am].key(),
        r1.above_all_spec() == iv_keep(op, ivs_state(a, am), ivs_state(b, bl)),
        r2.above_all_spec() == iv_keep(op, ivs_state(a, am + 1), ivs_state(b, bh)),
        r0.above_all_spec() == iv_keep(op, ivs_state(a, a0), ivs_state(b, b0)),
        forall|k: int|
            #[trigger] win_q(
                r0.above_all_spec(),
                r1.vals().skip(r0.vals().len() as int),
                r1.kinds_seq().skip(r0.kinds_seq().len() as int),
                k,
            ) == iv_keep2(
                op,
                win_q(ivs_state(a, a0), ivs_wv(a, a0, am), ivs_wq(a, a0, am), k),
                win_q(ivs_state(b, b0), ivs_wv(b, b0, bl), ivs_wq(b, b0, bl), k),
            ),
        forall|k: int|
            #[trigger] win_q(
                r1.above_all_spec(),
                r2.vals().skip(r1.vals().len() as int),
                r2.kinds_seq().skip(r1.kinds_seq().len() as int),
                k,
            ) == iv_keep2(
                op,
                win_q(ivs_state(a, am), ivs_wv(a, am, am + 1), ivs_wq(a, am, am + 1), k),
                win_q(ivs_state(b, bl), ivs_wv(b, bl, bh), ivs_wq(b, bl, bh), k),
            ),
        forall|k: int|
            #[trigger] win_q(
                r2.above_all_spec(),
                rf.vals().skip(r2.vals().len() as int),
                rf.kinds_seq().skip(r2.kinds_seq().len() as int),
                k,
            ) == iv_keep2(
                op,
                win_q(ivs_state(a, am + 1), ivs_wv(a, am + 1, a1), ivs_wq(a, am + 1, a1), k),
                win_q(ivs_state(b, bh), ivs_wv(b, bh, b1), ivs_wq(b, bh, b1), k),
            ),
    ensures
        forall|k: int|
            #[trigger] win_q(
                r0.above_all_spec(),
                rf.vals().skip(r0.vals().len() as int),
                rf.kinds_seq().skip(r0.kinds_seq().len() as int),
                k,
            ) == iv_keep2(
                op,
                win_q(ivs_state(a, a0), ivs_wv(a, a0, a1), ivs_wq(a, a0, a1), k),
                win_q(ivs_state(b, b0), ivs_wv(b, b0, b1), ivs_wq(b, b0, b1), k),
            ),
{
    let pk = a.vals()[am].key();
    let sa0 = ivs_state(a, a0);
    let sb0 = ivs_state(b, b0);
    let s0 = r0.above_all_spec();
    let av1 = ivs_wv(a, a0, am);
    let aq1 = ivs_wq(a, a0, am);
    let av2 = ivs_wv(a, am, am + 1);
    let aq2 = ivs_wq(a, am, am + 1);
    let av3 = ivs_wv(a, am + 1, a1);
    let aq3 = ivs_wq(a, am + 1, a1);
    let bv1 = ivs_wv(b, b0, bl);
    let bq1 = ivs_wq(b, b0, bl);
    let bv2 = ivs_wv(b, bl, bh);
    let bq2 = ivs_wq(b, bl, bh);
    let bv3 = ivs_wv(b, bh, b1);
    let bq3 = ivs_wq(b, bh, b1);
    let p1v = r1.vals().skip(r0.vals().len() as int);
    let p1q = r1.kinds_seq().skip(r0.kinds_seq().len() as int);
    let p2v = r2.vals().skip(r1.vals().len() as int);
    let p2q = r2.kinds_seq().skip(r1.kinds_seq().len() as int);
    let p3v = rf.vals().skip(r2.vals().len() as int);
    let p3q = rf.kinds_seq().skip(r2.kinds_seq().len() as int);
    assert(ivs_wv(a, a0, a1) =~= av1 + av2 + av3);
    assert(ivs_wq(a, a0, a1) =~= aq1 + aq2 + aq3);
    assert(ivs_wv(b, b0, b1) =~= bv1 + bv2 + bv3);
    assert(ivs_wq(b, b0, b1) =~= bq1 + bq2 + bq3);
    assert(r1.vals() =~= r0.vals() + p1v);
    assert(r1.kinds_seq() =~= r0.kinds_seq() + p1q);
    assert(r2.vals() =~= r1.vals() + p2v);
    assert(r2.kinds_seq() =~= r1.kinds_seq() + p2q);
    assert(rf.vals() =~= r2.vals() + p3v);
    assert(rf.kinds_seq() =~= r2.kinds_seq() + p3q);
    assert forall|j: int| 0 <= j < av2.len() implies #[trigger] av2[j].key() == pk by {
        assert(av2[j] == a.vals()[am]);
    }
    assert forall|i: int| 0 <= i < p1v.len() implies crate::order::has_key(
        av1,
        #[trigger] p1v[i].key(),
    ) || crate::order::has_key(bv1, p1v[i].key()) by {
        assert(p1v[i] == r1.vals()[r0.vals().len() + i]);
    }
    lemma_keys_lt(p1v, av1, bv1, pk);
    assert forall|i: int| 0 <= i < p2v.len() implies crate::order::has_key(
        av2,
        #[trigger] p2v[i].key(),
    ) || crate::order::has_key(bv2, p2v[i].key()) by {
        assert(p2v[i] == r2.vals()[r1.vals().len() + i]);
    }
    lemma_keys_lt(p2v, av2, bv2, pk + 1);
    lemma_keys_gt(p2v, av2, bv2, pk - 1);
    assert forall|i: int| 0 <= i < p3v.len() implies crate::order::has_key(
        av3,
        #[trigger] p3v[i].key(),
    ) || crate::order::has_key(bv3, p3v[i].key()) by {
        assert(p3v[i] == rf.vals()[r2.vals().len() + i]);
    }
    lemma_keys_gt(p3v, av3, bv3, pk);
    assert(r1.above_all_spec() == exit_state(s0, p1q)) by {
        lemma_exit_concat(r0.below_all_spec(), r0.kinds_seq(), p1q);
    }
    assert(r2.above_all_spec() == exit_state(exit_state(s0, p1q), p2q)) by {
        lemma_exit_concat(r1.below_all_spec(), r1.kinds_seq(), p2q);
    }
    lemma_exit_window(a.below_all_spec(), a.kinds_seq(), a0, am);
    lemma_exit_window(b.below_all_spec(), b.kinds_seq(), b0, bl);
    assert(exit_state(exit_state(sa0, aq1), aq2) == ivs_state(a, am + 1)) by {
        assert(aq2[aq2.len() - 1] == a.kinds_seq()[am]);
    }
    assert(exit_state(exit_state(sb0, bq1), bq2) == ivs_state(b, bh)) by {
        if bh == bl {
            assert(bq2 =~= Seq::<Kind>::empty());
        } else {
            assert(bq2[bq2.len() - 1] == b.kinds_seq()[bh - 1]);
        }
    }
    lemma_iv_merge_compose(
        op, pk, sa0, av1, aq1, av2, aq2, av3, aq3, sb0, bv1, bq1, bv2, bq2, bv3, bq3, s0, p1v,
        p1q, p2v, p2q, p3v, p3q,
    );
    assert(rf.vals().skip(r0.vals().len() as int) =~= p1v + p2v + p3v);
    assert(rf.kinds_seq().skip(r0.kinds_seq().len() as int) =~= p1q + p2q + p3q);
}

/// Composing the three stages of one divide-and-conquer step into one
/// stage over the whole windows.
#[verifier::rlimit(100)]
proof fn lemma_iv_stage_compose<T: Element>(
    op: IvOp,
    a: &IntervalSeq<T>,
    b: &IntervalSeq<T>,
    r0: IntervalSeq<T>,
    r1: IntervalSeq<T>,
    r2: IntervalSeq<T>,
    rf: IntervalSeq<T>,
    a0: int,
    am: int,
    a1: int,
    b0: int,
    bl: int,
    bh: int,
    b1: int,
)
    requires
        0 <= a0 <= am < a1 <= a.vals().len(),
        0 <= b0 <= bl <= bh <= b1 <= b.vals().len(),
        a.kinds_seq().len() == a.vals().len(),
        b.kinds_seq().len() == b.vals().len(),
        r0.vals().len() <= r1.vals().len() <= r2.vals().len() <= rf.vals().len(),
        r0.kinds_seq().len() == r0.vals().len(),
        r1.kinds_seq().len() == r1.vals().len(),
        r2.kinds_seq().len() == r2.vals().len(),
        rf.kinds_seq().len() == rf.vals().len(),
        r1.vals().take(r0.vals().len() as int) == r0.vals(),
        r2.vals().take(r1.vals().len() as int) == r1.vals(),
        rf.vals().take(r2.vals().len() as int) == r2.vals(),
        r1.kinds_seq().take(r0.kinds_seq().len() as int) == r0.kinds_seq(),
        r2.kinds_seq().take(r1.kinds_seq().len() as int) == r1.kinds_seq(),
        rf.kinds_seq().take(r2.kinds_seq().len() as int) == r2.kinds_seq(),
        forall|i: int|
            r0.vals().len() <= i < r1.vals().len() ==> crate::order::has_key(
                ivs_wv(a, a0, am),
                #[trigger] r1.vals()[i].key(),
            ) || crate::order::has_key(ivs_wv(b, b0, bl), r1.vals()[i].key()),
        forall|i: int|
            r1.vals().len() <= i < r2.vals().len() ==> crate::order::has_key(
                ivs_wv(a, am, am + 1),
                #[trigger] r2.vals()[i].key(),
            ) || crate::order::has_key(ivs_wv(b, bl, bh), r2.vals()[i].key()),
        forall|i: int|
            r2.vals().len() <= i < rf.vals().len() ==> crate::order::has_key(
                ivs_wv(a, am + 1, a1),
                #[trigger] rf.vals()[i].key(),
            ) || crate::order::has_key(ivs_wv(b, bh, b1), rf.vals()[i].key()),
        r1.below_all_spec() == r0.below_all_spec(),
        r2.below_all_spec() == r1.below_all_spec(),
        forall|j: int|
            0 <= j < ivs_wv(a, a0, am).len() ==> #[trigger] ivs_wv(a, a0, am)[j].key()
                < a.vals()[am].key(),
        forall|j: int|
            0 <= j < ivs_wv(a, am + 1, a1).len() ==> #[trigger] ivs_wv(a, am + 1, a1)[j].key()
                > a.vals()[am].key(),
        forall|j: int|
            0 <= j < ivs_wv(b, b0, bl).len() ==> #[trigger] ivs_wv(b, b0, bl)[j].key()
                < a.vals()[am].key(),
        forall|j: int|
            0 <= j < ivs_wv(b, bl, bh).len() ==> #[trigger] ivs_wv(b, bl, bh)[j].key()
                == a.vals()[am].key(),
        forall|j: int|
            0 <= j < ivs_wv(b, bh, b1).len() ==> #[trigger] ivs_wv(b, bh, b1)[j].key()
                > a.vals()[am].key(),
        r1.above_all_spec() == iv_keep(op, ivs_state(a, am), ivs_state(b, bl)),
        r2.above_all_spec() == iv_keep(op, ivs_state(a, am + 1), ivs_state(b, bh)),
        r0.above_all_spec() == iv_keep(op, ivs_state(a, a0), ivs_state(b, b0)),
        forall|k: int|
            #[trigger] win_q(
                r0.above_all_spec(),
                r1.vals().skip(r0.vals().len() as int),
                r1.kinds_seq().skip(r0.kinds_seq().len() as int),
                k,
            ) == iv_keep2(
                op,
                win_q(ivs_state(a, a0), ivs_wv(a, a0, am), ivs_wq(a, a0, am), k),
                win_q(ivs_state(b, b0), ivs_wv(b, b0, bl), ivs_wq(b, b0, bl), k),
            ),
        forall|k: int|
            #[trigger] win_q(
                r1.above_all_spec(),
                r2.vals().skip(r1.vals().len() as int),
                r2.kinds_seq().skip(r1.kinds_seq().len() as int),
                k,
            ) == iv_keep2(
                op,
                win_q(ivs_state(a, am), ivs_wv(a, am, am + 1), ivs_wq(a, am, am + 1), k),
                win_q(ivs_state(b, bl), ivs_wv(b, bl, bh), ivs_wq(b, bl, bh), k),
            ),
        forall|k: int|
            #[trigger] win_q(
                r2.above_all_spec(),
                rf.vals().skip(r2.vals().len() as int),
                rf.kinds_seq().skip(r2.kinds_seq().len() as int),
                k,
            ) == iv_keep2(
                op,
                win_q(ivs_state(a, am + 1), ivs_wv(a, am + 1, a1), ivs_wq(a, am + 1, a1), k),
                win_q(ivs_state(b, bh), ivs_wv(b, bh, b1), ivs_wq(b, bh, b1), k),
            ),
        rf.wf(),
        rf.below_all_spec() == r2.below_all_spec(),
        rf.above_all_spec() == iv_keep(op, ivs_state(a, a1), ivs_state(b, b1)),
    ensures
        iv_stage_post(op, a, b, r0, rf, a0, a1, b0, b1),
{
    lemma_iv_compose_struct(op, a, b, r0, r1, r2, rf, a0, am, a1, b0, bl, bh, b1);
    lemma_iv_compose_sem(op, a, b, r0, r1, r2, rf, a0, am, a1, b0, bl, bh, b1);
}

/// Merge the window `[a0, a1)` of the first operand with `[b0, b1)` of the
/// second, by divide and conquer: pick the middle boundary of the first
/// window, binary-search its key in the second, and recurse on the halves.
/// The combined boundaries are appended to `r`.
#[verifier::rlimit(100)]
fn iv_merge0<T: Element>(
    op: IvOp,
    a: &IntervalSeq<T>,
    b: &IntervalSeq<T>,
    r: &mut IntervalSeq<T>,
    a0: usize,
    a1: usize,
    b0: usize,
    b1: usize,
)
    requires
        iv_call_pre(op, a, b, *old(r), a0 as int, a1 as int, b0 as int, b1 as int),
    ensures
        iv_stage_post(op, a, b, *old(r), *final(r), a0 as int, a1 as int, b0 as int, b1 as int),
    decreases (a1 - a0) + (b1 - b0), 1int,
{
    if a0 == a1 {
        iv_from_b(op, a, b, r, a0, b0, b1);
    } else if b0 == b1 {
        iv_from_a(op, a, b, r, a0, a1, b0);
    } else {
        let am = a0 + (a1 - a0) / 2;
        let pivot = a.values[am];
        proof {
            lemma_sorted_subrange(b.vals(), b0 as int, b1 as int);
        }
        let (found, idx) = find_key(&b.values, b0, b1, &pivot);
        if found {
            iv_merge0_found(op, a, b, r, a0, am, a1, b0, idx, b1);
        } else {
            iv_merge0_ins(op, a, b, r, a0, am, a1, b0, idx, b1);
        }
    }
}

/// The collision step of the interval merge: the pivot's key occurs in
/// both windows.
#[verifier::rlimit(100)]
fn iv_merge0_found<T: Element>(
    op: IvOp,
    a: &IntervalSeq<T>,
    b: &IntervalSeq<T>,
    r: &mut IntervalSeq<T>,
    a0: usize,
    am: usize,
    a1: usize,
    b0: usize,
    bm: usize,
    b1: usize,
)
    requires
        iv_call_pre(op, a, b, *old(r), a0 as int, a1 as int, b0 as int, b1 as int),
        a0 <= am < a1,
        b0 <= bm < b1,
        b.vals()[bm as int].key() == a.vals()[am as int].key(),
    ensures
        iv_stage_post(op, a, b, *old(r), *final(r), a0 as int, a1 as int, b0 as int, b1 as int),
    decreases (a1 - a0) + (b1 - b0), 0int,
{
    let ghost r0 = *old(r);
    let ghost pk = a.vals()[am as int].key();
    proof {
        assert forall|j: int| b0 <= j < bm implies #[trigger] b.vals()[j].key() < pk by {
            assert(b.vals()[j].key() < b.vals()[bm as int].key());
        }
        assert forall|j: int| bm + 1 <= j < b1 implies #[trigger] b.vals()[j].key() > pk by {
            assert(b.vals()[bm as int].key() < b.vals()[j].key());
        }
        assert(forall|j: int|
            bm <= j < bm + 1 ==> #[trigger] b.vals()[j].key() == pk);
        lemma_pre_narrow(
            op, a, b, r0, a0 as int, a1 as int, b0 as int, b1 as int, am as int, bm as int,
        );
    }
    iv_merge0(op, a, b, r, a0, am, b0, bm);
    let ghost r1 = *r;
    let ka = a.kinds[am];
    let kb = b.kinds[bm];
    let kind = match op {
        IvOp::And => ka.and(kb),
        IvOp::Or => ka.or(kb),
    };
    let pivot = a.values[am];
    proof {
        lemma_pre_mid(
            op, a, b, r0, r1, a0 as int, am as int, a1 as int, b0 as int, bm as int, b1 as int,
        );
    }
    r.append(pivot, kind);
    let ghost r2 = *r;
    proof {
        lemma_collision_stage(op, a, b, r1, r2, am as int, bm as int, kind);
        lemma_pre_right(
            op, a, b, r0, r1, r2, a0 as int, am as int, a1 as int, b0 as int, bm as int,
            bm + 1, b1 as int,
        );
    }
    iv_merge0(op, a, b, r, am + 1, a1, bm + 1, b1);
    proof {
        lemma_window_ranges(
            a, b, a0 as int, am as int, a1 as int, b0 as int, bm as int, bm + 1, b1 as int,
        );
        lemma_iv_stage_compose(
            op, a, b, r0, r1, r2, *r, a0 as int, am as int, a1 as int, b0 as int, bm as int,
            bm + 1, b1 as int,
        );
    }
}

/// The insertion-point step of the interval merge: the pivot's key is
/// absent from the second window.
#[verifier::rlimit(100)]
fn iv_merge0_ins<T: Element>(
    op: IvOp,
    a: &IntervalSeq<T>,
    b: &IntervalSeq<T>,
    r: &mut IntervalSeq<T>,
    a0: usize,
    am: usize,
    a1: usize,
    b0: usize,
    bi: usize,
    b1: usize,
)
    requires
        iv_call_pre(op, a, b, *old(r), a0 as int, a1 as int, b0 as int, b1 as int),
        a0 <= am < a1,
        b0 <= bi <= b1,
        forall|j: int|
            b0 <= j < bi ==> #[trigger] b.vals()[j].key() < a.vals()[am as int].key(),
        forall|j: int|
            bi <= j < b1 ==> #[trigger] b.vals()[j].key() > a.vals()[am as int].key(),
    ensures
        iv_stage_post(op, a, b, *old(r), *final(r), a0 as int, a1 as int, b0 as int, b1 as int),
    decreases (a1 - a0) + (b1 - b0), 0int,
{
    let ghost r0 = *old(r);
    let ghost pk = a.vals()[am as int].key();
    proof {
        lemma_pre_narrow(
            op, a, b, r0, a0 as int, a1 as int, b0 as int, b1 as int, am as int, bi as int,
        );
    }
    iv_merge0(op, a, b, r, a0, am, b0, bi);
    let ghost r1 = *r;
    proof {
        lemma_pre_mid(
            op, a, b, r0, r1, a0 as int, am as int, a1 as int, b0 as int, bi as int, b1 as int,
        );
    }
    iv_from_a(op, a, b, r, am, am + 1, bi);
    let ghost r2 = *r;
    proof {
        lemma_pre_right(
            op, a, b, r0, r1, r2, a0 as int, am as int, a1 as int, b0 as int, bi as int,
            bi as int, b1 as int,
        );
    }
    iv_merge0(op, a, b, r, am + 1, a1, bi, b1);
    proof {
        lemma_window_ranges(
            a, b, a0 as int, am as int, a1 as int, b0 as int, bi as int, bi as int, b1 as int,
        );
        lemma_iv_stage_compose(
            op, a, b, r0, r1, r2, *r, a0 as int, am as int, a1 as int, b0 as int, bi as int,
            bi as int, b1 as int,
        );
    }
}

} // verus!
