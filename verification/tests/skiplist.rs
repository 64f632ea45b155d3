use convenient_skiplist::iter::{IterAll, IterRangeWith, SkipListIndexRange, SkipListRange};
use convenient_skiplist::node::NodeValue;
use convenient_skiplist::IndexBound::{Excluded, Included, Unbounded};
use convenient_skiplist::{IndexBound, RangeHint, SkipList};
use rand::Rng;
use std::collections::HashSet;
use std::ops::RangeBounds;

fn all<T: PartialOrd + Clone>(mut it: IterAll<T>) -> Vec<T> {
    let mut out = Vec::new();
    while let Some(x) = it.next() {
        out.push(x.clone());
    }
    out
}

fn ranged<T: PartialOrd + Clone>(mut it: SkipListRange<T>) -> Vec<T> {
    let mut out = Vec::new();
    while let Some(x) = it.next() {
        out.push(x.clone());
    }
    out
}

fn windowed<T: PartialOrd + Clone, F: Fn(&T) -> RangeHint>(mut it: IterRangeWith<T, F>) -> Vec<T> {
    let mut out = Vec::new();
    while let Some(x) = it.next() {
        out.push(x.clone());
    }
    out
}

fn indexed<T: PartialOrd + Clone>(mut it: SkipListIndexRange<T>) -> Vec<T> {
    let mut out = Vec::new();
    while let Some(x) = it.next() {
        out.push(x.clone());
    }
    out
}

fn sk_range(start: IndexBound, end: IndexBound) -> Vec<usize> {
    let sk = SkipList::from((0..20).collect::<Vec<usize>>());
    indexed(sk.index_range(start, end))
}

fn vec_range<R: RangeBounds<usize>>(range: R) -> Vec<usize> {
    let mut vec: Vec<_> = (0..20).collect();
    vec.drain(range).collect()
}

fn test_against<R: RangeBounds<usize> + Clone + std::fmt::Debug>(
    start: IndexBound,
    end: IndexBound,
    range: R,
) {
    assert_eq!(
        sk_range(start, end),
        vec_range(range.clone()),
        "\nRange that caused the failure: {:?}",
        range
    );
}

#[test]
fn test_iterall() {
    let mut sk = SkipList::new();
    let expected: Vec<usize> = (0..10).collect();
    for e in &expected {
        sk.insert(*e);
    }
    let foo: Vec<_> = all(sk.iter_all());
    for i in 0..expected.len() {
        assert_eq!(expected[i], foo[i]);
    }
    let mut second = foo.clone();
    second.sort();
    assert_eq!(foo, second)
}

#[test]
fn test_empty() {
    let sk = SkipList::<usize>::new();
    let foo: Vec<_> = all(sk.iter_all());
    assert!(foo.is_empty());
}

#[test]
fn test_range() {
    let mut sk = SkipList::new();
    for i in 0..500 {
        sk.insert(i);
    }
    let expected: Vec<usize> = (50..=100).collect();
    let got: Vec<usize> = ranged(sk.range(&50, &100));
    assert_eq!(expected, got);
}

#[test]
fn test_range_empty() {
    let sk = SkipList::new();
    let expected: Vec<usize> = Vec::new();
    let got: Vec<usize> = ranged(sk.range(&50, &100));
    assert_eq!(expected, got);
}

#[test]
fn test_range_outside() {
    let mut sk = SkipList::new();
    for i in 20..30 {
        sk.insert(i);
    }
    let expected: Vec<usize> = Vec::new();
    let less: Vec<usize> = ranged(sk.range(&0, &19));
    let more: Vec<usize> = ranged(sk.range(&30, &32));
    assert_eq!(expected, less);
    assert_eq!(expected, more);
}

#[test]
fn test_inclusion_fn_range_with() {
    let mut sk = SkipList::new();
    sk.insert(3);
    let srw = sk.range_with(|&i| {
        if i < 2 {
            RangeHint::SmallerThanRange
        } else if i > 4 {
            RangeHint::LargerThanRange
        } else {
            RangeHint::InRange
        }
    });
    assert!(srw.item_smaller_than_range(&NodeValue::Value(1)) == true);
    assert!(srw.item_smaller_than_range(&NodeValue::Value(2)) == false);
    assert!(srw.item_smaller_than_range(&NodeValue::Value(4)) == false);
    assert!(srw.item_smaller_than_range(&NodeValue::Value(5)) == false);
    assert!(srw.item_smaller_than_range(&NodeValue::NegInf) == true);
    assert!(srw.item_smaller_than_range(&NodeValue::PosInf) == false);

    assert!(srw.item_in_range(&NodeValue::Value(1)) == false);
    assert!(srw.item_in_range(&NodeValue::Value(2)) == true);
    assert!(srw.item_in_range(&NodeValue::Value(3)) == true);
    assert!(srw.item_in_range(&NodeValue::Value(4)) == true);
    assert!(srw.item_in_range(&NodeValue::Value(5)) == false);
    assert!(srw.item_in_range(&NodeValue::PosInf) == false);
    assert!(srw.item_in_range(&NodeValue::NegInf) == false);
}

#[test]
fn test_index_range() {
    test_against(Unbounded, Unbounded, ..);
    test_against(Included(4), Excluded(10), 4..10);
    test_against(Included(0), Excluded(20), 0..20);
    test_against(Included(20), Excluded(20), 20..20);
    test_against(Unbounded, Excluded(20), ..20);
    test_against(Included(10), Unbounded, 10..);
    test_against(Included(20), Unbounded, 20..);
    test_against(Included(1), Excluded(1), 1..1);
    test_against(Included(1), Included(1), 1..=1);
    test_against(Included(3), Included(8), 3..=8);
    test_against(Unbounded, Included(8), ..=8);
}

#[test]
fn test_range_with() {
    let mut sk = SkipList::<usize>::new();
    let expected = &[0, 1, 2, 3, 4, 5];
    for e in expected {
        sk.insert(*e);
    }
    let f: Vec<_> = windowed(sk.range_with(|&i| {
        if i < 2 {
            RangeHint::SmallerThanRange
        } else if i > 4 {
            RangeHint::LargerThanRange
        } else {
            RangeHint::InRange
        }
    }));
    assert_eq!(f, vec![2, 3, 4]);
}

#[test]
fn test_range_with_empty() {
    let sk = SkipList::<usize>::new();
    let f: Vec<_> = windowed(sk.range_with(|&i| {
        if i < 2 {
            RangeHint::SmallerThanRange
        } else if i > 4 {
            RangeHint::LargerThanRange
        } else {
            RangeHint::InRange
        }
    }));
    let expected: Vec<usize> = vec![];
    assert_eq!(f, expected);
}

#[test]
fn test_range_with_all() {
    let mut sk = SkipList::<usize>::new();
    let expected = &[0, 1, 2, 3, 4, 5];
    for e in expected {
        sk.insert(*e);
    }
    let f: Vec<_> = windowed(sk.range_with(|&_i| RangeHint::InRange));
    assert_eq!(f, expected.to_vec());
}

#[test]
fn test_range_with_none() {
    let mut sk = SkipList::<usize>::new();
    let expected = &[0, 1, 2, 3, 4, 5];
    for e in expected {
        sk.insert(*e);
    }
    let f: Vec<_> = windowed(sk.range_with(|&_i| RangeHint::SmallerThanRange));
    let expected: Vec<usize> = Vec::new();
    assert_eq!(f, expected);
    let f: Vec<_> = windowed(sk.range_with(|&_i| RangeHint::LargerThanRange));
    assert_eq!(f, expected);
}

#[test]
fn test_range_pathological_no_panic() {
    let mut sk = SkipList::<usize>::new();
    let expected = &[0, 1, 2, 3, 4, 5];
    for e in expected {
        sk.insert(*e);
    }
    let _f: Vec<_> = windowed(sk.range_with(|&_i| {
        let mut thrng = rand::thread_rng();
        let r: f32 = thrng.gen();
        if 0.0 < r && r < 0.33 {
            RangeHint::SmallerThanRange
        } else if r < 0.66 {
            RangeHint::InRange
        } else {
            RangeHint::LargerThanRange
        }
    }));
}

#[test]
fn insert_no_panic() {
    let mut sl = SkipList::new();
    for i in &[10, 30, 50, 5, 0, 3] {
        sl.insert(*i);
        assert!(sl.contains(&i));
    }
    assert!(sl.ensure_invariants());
}

#[test]
fn test_remove() {
    let mut sl = SkipList::new();
    sl.insert(0usize);
    assert!(sl.remove(&0));
    assert!(!sl.remove(&0));
    assert!(!sl.contains(&0));
    sl.insert(0);
    sl.insert(1);
    sl.insert(2);
    assert!(sl.remove(&1));
    assert!(!sl.contains(&1));
    sl.remove(&2);
    assert!(!sl.contains(&2));
}

#[test]
fn test_inclusive_range() {
    let mut sl = SkipList::new();
    let values: &[i32] = &[10, 30, 50, 5, 0, 3];
    for i in &[10, 30, 50, 5, 0, 3] {
        sl.insert(*i);
        assert!(sl.contains(&i));
    }
    let lower = 3;
    let upper = 30;
    let v: HashSet<i32> = ranged(sl.range(&lower, &upper)).into_iter().collect();
    for expected_value in values.iter().filter(|&&i| lower <= i && i <= upper) {
        assert!(v.contains(expected_value));
    }
    let right_empty: HashSet<i32> = ranged(sl.range(&100, &1000)).into_iter().collect();
    assert!(right_empty.is_empty());

    let left_empty: HashSet<i32> = ranged(sl.range(&-2, &-1)).into_iter().collect();
    assert!(left_empty.is_empty());

    // Excessive range
    let lower = -10;
    let upper = 1000;
    let v: HashSet<i32> = ranged(sl.range(&lower, &upper)).into_iter().collect();
    for expected_value in values.iter().filter(|&&i| lower <= i && i <= upper) {
        assert!(v.contains(expected_value));
    }
}

#[test]
fn test_len() {
    let mut sl = SkipList::new();
    assert_eq!(sl.len(), 0);
    assert!(sl.is_empty());
    sl.insert(0);
    assert_eq!(sl.len(), 1);
    assert!(!sl.is_empty());
    sl.insert(0);
    assert_eq!(sl.len(), 1);
    sl.insert(1);
    assert_eq!(sl.len(), 2);
    sl.remove(&1);
    assert_eq!(sl.len(), 1);
    sl.remove(&1);
    assert_eq!(sl.len(), 1);
    sl.remove(&0);
    assert_eq!(sl.len(), 0);
    sl.remove(&0);
    assert_eq!(sl.len(), 0);
}

#[test]
fn test_eq() {
    let mut s0 = SkipList::new();
    let mut s1 = SkipList::new();
    assert!(s0.eq(&s1));
    s0.insert(0);
    assert!(!s0.eq(&s1));
    s1.insert(1);
    assert!(!s0.eq(&s1));
    s0.insert(1);
    s1.insert(0);
    assert!(s0.eq(&s1));
    s0.insert(2);
    s0.insert(3);
    assert!(!s0.eq(&s1));
}

#[test]
fn test_from() {
    let values = vec![1usize, 2, 3];
    let sk = SkipList::from(values.clone());
    assert_eq!(all(sk.iter_all()), values);
    let values: Vec<usize> = (0..10).collect();
    let sk = SkipList::from((0..10).collect::<Vec<usize>>());
    assert_eq!(all(sk.iter_all()), values);
}

#[test]
fn test_index_of() {
    let mut sk = SkipList::new();
    sk.insert(1);
    sk.insert(2);
    sk.insert(3);

    assert_eq!(sk.index_of(&1), Some(0));
    assert_eq!(sk.index_of(&2), Some(1));
    assert_eq!(sk.index_of(&3), Some(2));
    assert_eq!(sk.index_of(&999), None);
    let sk = SkipList::new();
    assert_eq!(sk.index_of(&0), None);
    assert_eq!(sk.index_of(&999), None);
}

#[test]
fn test_at_index() {
    let sk = SkipList::from((0..10).collect::<Vec<usize>>());
    for i in 0..10 {
        assert_eq!(Some(&i), sk.at_index(i));
    }
    assert_eq!(None, sk.at_index(11));

    let mut sk = SkipList::new();
    sk.insert('a');
    sk.insert('b');
    sk.insert('c');
    assert_eq!(Some(&'a'), sk.at_index(0));
    assert_eq!(Some(&'b'), sk.at_index(1));
    assert_eq!(Some(&'c'), sk.at_index(2));
    assert_eq!(None, sk.at_index(3));
}

#[test]
fn test_pop_max() {
    let mut sk = SkipList::from((0..10).collect::<Vec<u32>>());
    assert_eq!(Some(&7), sk.at_index(7));
    assert_eq!(vec![7, 8, 9], sk.pop_max(3));
    assert_eq!(vec![6], sk.pop_max(1));
    assert_eq!(vec![4, 5], sk.pop_max(2));
    assert_eq!(vec![0, 1, 2, 3], sk.pop_max(5));
    let v: Vec<u32> = Vec::new();
    assert_eq!(v, sk.pop_max(1));
}

#[test]
fn test_allocations() {
    let mut sk = SkipList::new();
    let _: Vec<u32> = all(sk.iter_all());
    let _: Vec<u32> = ranged(sk.range(&10, &20));
    let _: Vec<u32> = ranged(sk.range(&10, &20));
    let _: Vec<u32> = windowed(sk.range_with(|&i| {
        if i < 2 {
            RangeHint::SmallerThanRange
        } else if i > 10 {
            RangeHint::LargerThanRange
        } else {
            RangeHint::InRange
        }
    }));

    for i in 0..50u32 {
        sk.insert(i);
    }
    sk.contains(&13);
    let _: Vec<u32> = all(sk.iter_all());
    let _: Vec<u32> = ranged(sk.range(&10, &20));
    let _: Vec<u32> = windowed(sk.range_with(|&i| {
        if i < 2 {
            RangeHint::SmallerThanRange
        } else if i > 10 {
            RangeHint::LargerThanRange
        } else {
            RangeHint::InRange
        }
    }));
    let _ = sk.at_index(1);
    let _ = sk.index_of(&1);
}
