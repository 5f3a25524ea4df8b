use vec_set::interval_seq::{Bound, Interval, IntervalSeq, Kind};

#[test]
fn scenario_below_and_at_or_above() {
    // x < 5 AND x >= 2 is exactly [2, 5)
    let s = IntervalSeq::below(5i64).and(IntervalSeq::at_or_above(2));
    let mut it = s.intervals();
    assert_eq!(
        it.next(),
        Some(Interval::from_bounds(Bound::Closed(2), Bound::Open(5)))
    );
    assert_eq!(it.next(), None);
}

#[test]
fn scenario_at_or_above_five() {
    // x == 5 OR x > 5 is exactly [5, infinity)
    let s = IntervalSeq::at(5i64).or(IntervalSeq::above(5));
    let mut it = s.intervals();
    assert_eq!(
        it.next(),
        Some(Interval::from_bounds(Bound::Closed(5), Bound::Unbound))
    );
    assert_eq!(it.next(), None);
}

#[test]
fn kind_bits() {
    assert_eq!(Kind::from_u8(0), Kind::K00);
    assert_eq!(Kind::from_u8(1), Kind::K01);
    assert_eq!(Kind::from_u8(2), Kind::K10);
    assert_eq!(Kind::from_u8(7), Kind::K11);
    assert!(Kind::K10.value_at());
    assert!(!Kind::K10.value_above());
    assert!(!Kind::K01.value_at());
    assert!(Kind::K01.value_above());
    assert_eq!(Kind::K10.and(Kind::K11), Kind::K10);
    assert_eq!(Kind::K10.or(Kind::K01), Kind::K11);
    assert_eq!(Kind::K10.complement(), Kind::K01);
}

#[test]
fn primitive_membership() {
    let at = IntervalSeq::at(5i64);
    assert!(at.at_value(5) && !at.at_value(4) && !at.at_value(6));
    assert!(!at.above_value(5));

    let except = IntervalSeq::except(5i64);
    assert!(!except.at_value(5) && except.at_value(4) && except.at_value(6));

    let below = IntervalSeq::below(5i64);
    assert!(below.at_value(4) && !below.at_value(5) && !below.at_value(6));
    assert!(below.below_value(5) && !below.above_value(5));

    let at_or_below = IntervalSeq::at_or_below(5i64);
    assert!(at_or_below.at_value(5) && !at_or_below.at_value(6));

    let at_or_above = IntervalSeq::at_or_above(5i64);
    assert!(at_or_above.at_value(5) && at_or_above.at_value(9) && !at_or_above.at_value(4));

    let above = IntervalSeq::above(5i64);
    assert!(!above.at_value(5) && above.at_value(6));
    assert!(above.above_value(5));

    assert!(IntervalSeq::<i64>::all().at_value(0));
    assert!(!IntervalSeq::<i64>::empty().at_value(0));
    assert!(IntervalSeq::<i64>::from_bool(true).at_value(42));
    assert!(!IntervalSeq::<i64>::from_bool(false).at_value(42));
}

#[test]
fn from_interval_membership() {
    let closed = IntervalSeq::from_interval(Interval::from_bounds(
        Bound::Closed(2i64),
        Bound::Closed(5),
    ));
    assert!(closed.at_value(2) && closed.at_value(3) && closed.at_value(5));
    assert!(!closed.at_value(1) && !closed.at_value(6));

    let half_open = IntervalSeq::from_interval(Interval::from_bounds(
        Bound::Closed(2i64),
        Bound::Open(5),
    ));
    assert!(half_open.at_value(2) && half_open.at_value(4) && !half_open.at_value(5));

    let open = IntervalSeq::from_interval(Interval::from_bounds(
        Bound::Open(2i64),
        Bound::Open(5),
    ));
    assert!(!open.at_value(2) && open.at_value(3) && !open.at_value(5));

    let point = IntervalSeq::from_interval(Interval::point(7i64));
    assert!(point.at_value(7) && !point.at_value(6) && !point.at_value(8));

    let all = IntervalSeq::from_interval(Interval::from_bounds(
        Bound::<i64>::Unbound,
        Bound::Unbound,
    ));
    assert!(all.at_value(123));

    let none = IntervalSeq::from_interval(Interval::from_bounds(
        Bound::<i64>::Empty,
        Bound::Empty,
    ));
    assert!(!none.at_value(123));
}

#[test]
fn structural_accessors() {
    let s = IntervalSeq::at_or_above(3i64);
    assert!(!s.below_all());
    assert!(s.above_all());
    assert!(!s.is_empty());
    assert!(!s.below_index(0));
    assert!(s.below_index(1));
    assert_eq!(s.edges(), vec![3]);
    assert!(IntervalSeq::<i64>::empty().is_empty());
    assert!(!IntervalSeq::<i64>::all().is_empty());
}

fn formula(x: i64) -> bool {
    // (x < 10 and x >= 2) or x == 15
    (x < 10 && x >= 2) || x == 15
}

#[test]
fn interval_algebra_round_trip() {
    let s = IntervalSeq::below(10i64)
        .and(IntervalSeq::at_or_above(2))
        .or(IntervalSeq::at(15));
    // membership matches the formula directly
    for x in [-5i64, 1, 2, 3, 9, 10, 11, 14, 15, 16, 100] {
        assert_eq!(s.at_value(x), formula(x));
    }
    // iterating the maximal intervals and requerying near the boundaries
    // matches the formula as well
    let mut it = s.intervals();
    let mut count = 0;
    while let Some(iv) = it.next() {
        count += 1;
        match (iv.lower_bound(), iv.upper_bound()) {
            (Bound::Closed(lo), Bound::Open(hi)) => {
                assert!(formula(lo) && !formula(lo - 1));
                assert!(!formula(hi) && formula(hi - 1));
            }
            (Bound::Closed(lo), Bound::Closed(hi)) => {
                assert!(formula(lo) && !formula(lo - 1));
                assert!(formula(hi) && !formula(hi + 1));
            }
            _ => panic!("unexpected interval shape"),
        }
    }
    assert_eq!(count, 2);
}

#[test]
fn and_or_agree_with_pointwise_logic() {
    let a = IntervalSeq::at_or_above(0i64).and(IntervalSeq::below(20));
    let b = IntervalSeq::above(10i64);
    let both = a.and(b);
    let a2 = IntervalSeq::at_or_above(0i64).and(IntervalSeq::below(20));
    let b2 = IntervalSeq::above(10i64);
    let either = a2.or(b2);
    for x in [-1i64, 0, 5, 10, 11, 19, 20, 25] {
        let ia = 0 <= x && x < 20;
        let ib = x > 10;
        assert_eq!(both.at_value(x), ia && ib);
        assert_eq!(either.at_value(x), ia || ib);
    }
}

#[test]
fn or_with_everything_and_nothing() {
    let a = IntervalSeq::at(4i64);
    let all = IntervalSeq::<i64>::all();
    let r = a.or(all);
    assert!(r.at_value(0) && r.at_value(4));
    let b = IntervalSeq::at(4i64);
    let none = IntervalSeq::<i64>::empty();
    let r2 = b.and(none);
    assert!(!r2.at_value(4));
    assert!(r2.is_empty());
}
