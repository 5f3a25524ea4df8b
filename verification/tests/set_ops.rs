use vec_set::array_set::ArraySet;
use vec_set::binary_merge::SetOp;
use vec_set::inplace_set::ArraySet as InplaceSet;
use vec_set::merge_state::{BoolOpMergeState, InPlaceMergeState, UnsafeInPlaceMergeState, VecMergeState};

#[test]
fn intersection_1() {
    let mut a: InplaceSet<usize> = InplaceSet::from_vec(vec![0]);
    let b: InplaceSet<usize> = InplaceSet::from_vec(vec![]);
    a.intersection_with(&b);
    println!("a {:?}", a.as_slice());
    assert_eq!(a.into_vec(), vec![]);
}

fn set(v: Vec<i64>) -> ArraySet<i64> {
    ArraySet::from_vec(v)
}

fn iset(v: Vec<i64>) -> InplaceSet<i64> {
    InplaceSet::from_vec(v)
}

#[test]
fn scenario_binary_ops() {
    let a = set(vec![1, 3, 5, 7]);
    let b = set(vec![3, 4, 5]);
    assert_eq!(a.union(&b).into_vec(), vec![1, 3, 4, 5, 7]);
    assert_eq!(a.intersection(&b).into_vec(), vec![3, 5]);
    assert_eq!(a.xor(&b).into_vec(), vec![1, 4, 7]);
    assert_eq!(a.difference(&b).into_vec(), vec![1, 7]);
}

#[test]
fn scenario_binary_ops_inplace_module() {
    let a = iset(vec![1, 3, 5, 7]);
    let b = iset(vec![3, 4, 5]);
    assert_eq!(a.union(&b).into_vec(), vec![1, 3, 4, 5, 7]);
    assert_eq!(a.intersection(&b).into_vec(), vec![3, 5]);
    assert_eq!(a.xor(&b).into_vec(), vec![1, 4, 7]);
    assert_eq!(a.difference(&b).into_vec(), vec![1, 7]);
}

#[test]
fn scenario_empty_sets() {
    let a = set(vec![]);
    let b = set(vec![]);
    assert!(a.is_subset(&b));
    assert!(a.is_disjoint(&b));
    assert_eq!(a.union(&b).into_vec(), vec![]);
}

#[test]
fn scenario_insert_remove() {
    let mut a = set(vec![1, 2, 3, 5]);
    a.insert(4);
    assert_eq!(a.as_slice(), &[1, 2, 3, 4, 5]);
    a.remove(&3);
    assert_eq!(a.as_slice(), &[1, 2, 4, 5]);
}

#[test]
fn scenario_insert_remove_inplace_module() {
    let mut a = iset(vec![1, 2, 3, 5]);
    a.insert(4);
    assert_eq!(a.as_slice(), &[1, 2, 3, 4, 5]);
    a.remove(&3);
    assert_eq!(a.as_slice(), &[1, 2, 4, 5]);
}

fn oracle(a: &ArraySet<i64>, b: &ArraySet<i64>, r: &ArraySet<i64>, op: impl Fn(bool, bool) -> bool) {
    let mut samples: Vec<i64> = Vec::new();
    samples.extend_from_slice(a.as_slice());
    samples.extend_from_slice(b.as_slice());
    samples.push(i64::MIN);
    for e in samples {
        assert_eq!(op(a.contains(&e), b.contains(&e)), r.contains(&e));
    }
}

#[test]
fn merge_oracle() {
    let a = set(vec![-4, 0, 9, 33, 34, 78]);
    let b = set(vec![-9, 0, 9, 34, 35, 90, 120]);
    oracle(&a, &b, &a.union(&b), |x, y| x | y);
    oracle(&a, &b, &a.intersection(&b), |x, y| x & y);
    oracle(&a, &b, &a.xor(&b), |x, y| x ^ y);
    oracle(&a, &b, &a.difference(&b), |x, y| x & !y);
}

#[test]
fn subset_union_agreement() {
    let a = set(vec![2, 4]);
    let b = set(vec![1, 2, 3, 4]);
    assert_eq!(a.is_subset(&b), a.union(&b).into_vec() == b.as_slice().to_vec());
    let c = set(vec![2, 9]);
    assert_eq!(c.is_subset(&b), c.union(&b).into_vec() == b.as_slice().to_vec());
    assert!(!c.is_subset(&b));
    assert!(b.is_superset(&a));
}

#[test]
fn disjoint_intersection_agreement() {
    let a = set(vec![1, 3]);
    let b = set(vec![2, 4]);
    assert_eq!(a.is_disjoint(&b), a.intersection(&b).is_empty());
    assert!(a.is_disjoint(&b));
    let c = set(vec![3, 4]);
    assert_eq!(a.is_disjoint(&c), a.intersection(&c).is_empty());
    assert!(!a.is_disjoint(&c));
}

#[test]
fn idempotence_and_identity() {
    let a = set(vec![5, 7, 11]);
    let empty = set(vec![]);
    assert_eq!(a.union(&a).as_slice(), a.as_slice());
    assert_eq!(a.intersection(&a).as_slice(), a.as_slice());
    assert_eq!(a.difference(&a).into_vec(), vec![]);
    assert_eq!(a.xor(&a).into_vec(), vec![]);
    assert_eq!(a.union(&empty).as_slice(), a.as_slice());
    assert_eq!(a.intersection(&empty).into_vec(), vec![]);
}

#[test]
fn commutativity() {
    let a = set(vec![1, 2, 5]);
    let b = set(vec![2, 3]);
    assert_eq!(a.union(&b).into_vec(), b.union(&a).into_vec());
    assert_eq!(a.intersection(&b).into_vec(), b.intersection(&a).into_vec());
    assert_eq!(a.xor(&b).into_vec(), b.xor(&a).into_vec());
    // difference is not commutative
    assert_ne!(a.difference(&b).into_vec(), b.difference(&a).into_vec());
}

#[test]
fn inplace_equals_new_sequence() {
    let a = set(vec![1, 3, 5, 7]);
    let b = set(vec![3, 4, 5]);
    let mut u = set(vec![1, 3, 5, 7]);
    u.union_with(set(vec![3, 4, 5]));
    assert_eq!(u.into_vec(), a.union(&b).into_vec());
    let mut i = set(vec![1, 3, 5, 7]);
    i.intersection_with(set(vec![3, 4, 5]));
    assert_eq!(i.into_vec(), a.intersection(&b).into_vec());
    let mut x = set(vec![1, 3, 5, 7]);
    x.xor_with(set(vec![3, 4, 5]));
    assert_eq!(x.into_vec(), a.xor(&b).into_vec());
    let mut d = set(vec![1, 3, 5, 7]);
    d.difference_with(set(vec![3, 4, 5]));
    assert_eq!(d.into_vec(), a.difference(&b).into_vec());
}

#[test]
fn inplace_equals_new_sequence_borrowing_forms() {
    let a = iset(vec![2, 4, 6]);
    let b = iset(vec![1, 4, 9]);
    let mut u = iset(vec![2, 4, 6]);
    u.union_with(&b);
    assert_eq!(u.into_vec(), a.union(&b).into_vec());
    let mut i = iset(vec![2, 4, 6]);
    i.intersection_with(&b);
    assert_eq!(i.into_vec(), a.intersection(&b).into_vec());
    let mut x = iset(vec![2, 4, 6]);
    x.xor_with(&b);
    assert_eq!(x.into_vec(), a.xor(&b).into_vec());
    let mut d = iset(vec![2, 4, 6]);
    d.difference_with(&b);
    assert_eq!(d.into_vec(), a.difference(&b).into_vec());
}

#[test]
fn results_strictly_increasing() {
    let a = set(vec![9, -4, 9, 2, 2]);
    let b = set(vec![3, 2, 100]);
    for r in [a.union(&b), a.intersection(&b), a.xor(&b), a.difference(&b)] {
        let v = r.into_vec();
        for w in v.windows(2) {
            assert!(w[0] < w[1]);
        }
    }
}

#[test]
fn from_vec_sorts_and_dedups() {
    let a = set(vec![5, 1, 5, 3, 1]);
    assert_eq!(a.into_vec(), vec![1, 3, 5]);
}

#[test]
fn contains_and_len() {
    let a = set(vec![10, 20, 30]);
    assert_eq!(a.len(), 3);
    assert!(a.contains(&20));
    assert!(!a.contains(&25));
    assert!(!a.is_empty());
    assert!(ArraySet::<i64>::empty().is_empty());
    assert_eq!(ArraySet::single(7i64).into_vec(), vec![7]);
}

#[test]
fn iter_yields_in_order() {
    let a = set(vec![4, 1, 9]);
    let mut it = a.iter();
    assert_eq!(it.next(), Some(1));
    assert_eq!(it.next(), Some(4));
    assert_eq!(it.next(), Some(9));
    assert_eq!(it.next(), None);
}

#[test]
fn retain_keeps_only_accepted() {
    let mut a = set(vec![1, 2, 3, 4, 5, 6]);
    a.retain(|x: &i64| x % 2 == 0);
    assert_eq!(a.into_vec(), vec![2, 4, 6]);
}

#[test]
fn shrink_keeps_contents() {
    let mut a = set(vec![8, 2]);
    a.shrink_to_fit();
    assert_eq!(a.into_vec(), vec![2, 8]);
    let mut b = iset(vec![8, 2]);
    b.shrink_to_fit();
    assert_eq!(b.into_vec(), vec![2, 8]);
}

#[test]
fn union_u32_in_place() {
    let mut a: Vec<u32> = vec![1, 3, 5];
    vec_set::array_set::union_u32(&mut a, &[2, 3, 9]);
    assert_eq!(a, vec![1, 2, 3, 5, 9]);
    let mut b: Vec<u32> = vec![1, 3, 5];
    vec_set::inplace_set::union_u32(&mut b, &[2, 3, 9]);
    assert_eq!(b, vec![1, 2, 3, 5, 9]);
}

#[test]
fn merge_states_directly() {
    let r = VecMergeState::merge(&[1u32, 4, 6], &[2, 4], SetOp::Union);
    assert_eq!(r, vec![1, 2, 4, 6]);
    let produced = BoolOpMergeState::merge(&[1u32, 4], &[2, 3], SetOp::Intersection);
    assert!(!produced);
    let produced2 = BoolOpMergeState::merge(&[1u32, 4], &[4, 5], SetOp::Intersection);
    assert!(produced2);
    let mut a: Vec<u32> = vec![1, 4, 6];
    InPlaceMergeState::merge(&mut a, &[2, 4], SetOp::Xor);
    assert_eq!(a, vec![1, 2, 6]);
    let mut b: Vec<u32> = vec![1, 4, 6];
    UnsafeInPlaceMergeState::merge(&mut b, vec![2, 4], SetOp::Diff);
    assert_eq!(b, vec![1, 6]);
    let mut c: Vec<u32> = vec![1, 4, 6];
    UnsafeInPlaceMergeState::merge_shortcut(&mut c, vec![2, 4], SetOp::Union);
    assert_eq!(c, vec![1, 2, 4, 6]);
}

#[test]
fn as_mut_slice_exposes_elements() {
    let mut a = iset(vec![1, 2, 3]);
    let s = a.as_mut_slice();
    assert_eq!(s.len(), 3);
    assert_eq!(s[1], 2);
}
