use convenient_skiplist::checks::CellView;
use convenient_skiplist::iter::{NodeRightIter, VerticalIter};
use convenient_skiplist::node::{Node, NodeValue};
use convenient_skiplist::update::{climb, get_level};
use convenient_skiplist::IndexBound::{Excluded, Included, Unbounded};
use convenient_skiplist::{IndexBound, RangeHint, SkipList};
use std::collections::BTreeSet;

fn elements<T: PartialOrd + Clone>(sk: &SkipList<T>) -> Vec<T> {
    let mut out = Vec::new();
    let mut it = sk.iter_all();
    while let Some(x) = it.next() {
        out.push(x.clone());
    }
    out
}

fn in_range(sk: &SkipList<i64>, a: i64, b: i64) -> Vec<i64> {
    let mut out = Vec::new();
    let mut it = sk.range(&a, &b);
    while let Some(x) = it.next() {
        out.push(*x);
    }
    out
}

fn in_window(sk: &SkipList<i64>, a: i64, b: i64) -> Vec<i64> {
    let mut out = Vec::new();
    let mut it = sk.range_with(|x: &i64| {
        if *x < a {
            RangeHint::SmallerThanRange
        } else if *x > b {
            RangeHint::LargerThanRange
        } else {
            RangeHint::InRange
        }
    });
    while let Some(x) = it.next() {
        out.push(*x);
    }
    out
}

fn at_indices(sk: &SkipList<i64>, start: IndexBound, end: IndexBound) -> Vec<i64> {
    let mut out = Vec::new();
    let mut it = sk.index_range(start, end);
    while let Some(x) = it.next() {
        out.push(*x);
    }
    out
}

fn shape(sk: &SkipList<i64>) -> Vec<Vec<(Option<i64>, usize)>> {
    sk.layout()
        .into_iter()
        .map(|row| {
            row.into_iter()
                .map(|cell: CellView<i64>| match cell.value {
                    NodeValue::Value(v) => (Some(v), cell.skipped),
                    _ => (None, cell.skipped),
                })
                .collect()
        })
        .collect()
}

/// A small generator of numbers that looks random and is the same on every
/// run.
fn scramble(state: &mut u64) -> u64 {
    *state = state.wrapping_mul(6364136223846793005).wrapping_add(1442695040888963407);
    *state >> 33
}

#[test]
fn traversal_is_strictly_ascending() {
    let mut sk = SkipList::new();
    for x in [7i64, -3, 12, 7, 0, 5, 12, -8, 100, 1] {
        sk.insert(x);
    }
    let got = elements(&sk);
    assert_eq!(got, vec![-8, -3, 0, 1, 5, 7, 12, 100]);
    for pair in got.windows(2) {
        assert!(pair[0] < pair[1]);
    }
}

#[test]
fn length_counts_the_changes_that_took_place() {
    let mut sk = SkipList::new();
    let mut net: i64 = 0;
    let mut state = 17u64;
    for _ in 0..400 {
        let x = (scramble(&mut state) % 40) as i64;
        if scramble(&mut state) % 3 == 0 {
            if sk.remove(&x) {
                net -= 1;
            }
        } else if sk.insert(x) {
            net += 1;
        }
        assert_eq!(sk.len() as i64, net);
    }
}

#[test]
fn membership_follows_the_last_change() {
    let mut sk = SkipList::new();
    assert!(!sk.contains(&4));
    assert!(sk.insert(4));
    assert!(sk.contains(&4));
    assert!(sk.remove(&4));
    assert!(!sk.contains(&4));
    assert!(sk.insert(4));
    assert!(sk.insert(9));
    assert!(sk.remove(&9));
    assert!(sk.contains(&4));
    assert!(!sk.contains(&9));
    assert!(!sk.contains(&5));
}

#[test]
fn index_of_undoes_at_index() {
    let mut sk = SkipList::new();
    for x in [50i64, 10, 40, 20, 30, 60, 5] {
        sk.insert(x);
    }
    for i in 0..sk.len() {
        let x = *sk.at_index(i).unwrap();
        assert_eq!(sk.index_of(&x), Some(i));
    }
    assert_eq!(sk.at_index(sk.len()), None);
    assert_eq!(sk.at_index(usize::MAX), None);
    assert_eq!(sk.index_of(&15), None);
    assert_eq!(sk.index_of(&5), Some(0));
    assert_eq!(sk.index_of(&60), Some(6));
}

#[test]
fn range_is_the_filter_of_the_elements() {
    let mut sk = SkipList::new();
    let mut reference = BTreeSet::new();
    let mut state = 5u64;
    for _ in 0..120 {
        let x = (scramble(&mut state) % 200) as i64 - 100;
        sk.insert(x);
        reference.insert(x);
    }
    for (a, b) in [(-100, 100), (-20, 35), (0, 0), (7, 7), (50, 49), (99, 1000), (-1000, -99), (30, -30)] {
        let expected: Vec<i64> = reference.iter().copied().filter(|x| a <= *x && *x <= b).collect();
        assert_eq!(in_range(&sk, a, b), expected, "from {} to {}", a, b);
    }
}

#[test]
fn range_with_agrees_with_range() {
    let mut sk = SkipList::new();
    let mut state = 99u64;
    for _ in 0..150 {
        sk.insert((scramble(&mut state) % 300) as i64);
    }
    for (a, b) in [(0, 299), (17, 130), (5, 5), (200, 100), (-5, 3), (290, 400)] {
        assert_eq!(in_window(&sk, a, b), in_range(&sk, a, b));
    }
}

#[test]
fn pop_max_takes_the_largest() {
    let mut sk = SkipList::from((0..10).collect::<Vec<i64>>());
    assert_eq!(sk.pop_max(3), vec![7, 8, 9]);
    assert_eq!(sk.len(), 7);
    assert_eq!(elements(&sk), vec![0, 1, 2, 3, 4, 5, 6]);
    assert!(sk.ensure_invariants());
    assert_eq!(sk.pop_max(0), Vec::<i64>::new());
    assert_eq!(sk.len(), 7);
    assert_eq!(sk.pop_max(7), vec![0, 1, 2, 3, 4, 5, 6]);
    assert_eq!(sk.len(), 0);
    assert!(sk.is_empty());
    assert_eq!(sk.pop_max(4), Vec::<i64>::new());
    assert!(sk.insert(3));
    assert_eq!(sk.pop_max(usize::MAX), vec![3]);
    assert!(sk.ensure_invariants());
}

#[test]
fn pop_max_leaves_a_working_list() {
    let mut sk = SkipList::new();
    let mut state = 3u64;
    for round in 0..30usize {
        for _ in 0..20 {
            sk.insert((scramble(&mut state) % 500) as i64);
        }
        let before = elements(&sk);
        let count = round % 13;
        let keep = before.len().saturating_sub(count);
        let top = sk.pop_max(count);
        assert_eq!(top, before[keep..].to_vec());
        assert_eq!(elements(&sk), before[..keep].to_vec());
        assert!(sk.ensure_invariants());
        for (i, x) in before[..keep].iter().enumerate() {
            assert_eq!(sk.index_of(x), Some(i));
            assert_eq!(sk.at_index(i), Some(x));
        }
    }
}

#[test]
fn contains_after_inserts() {
    let mut sk = SkipList::new();
    for x in [10, 30, 50, 5, 0, 3] {
        sk.insert(x);
    }
    assert!(sk.contains(&5));
    assert!(!sk.contains(&99));
}

#[test]
fn range_three_to_seven() {
    let sk = SkipList::from((0..10).collect::<Vec<i64>>());
    assert_eq!(in_range(&sk, 3, 7), vec![3, 4, 5, 6, 7]);
}

#[test]
fn empty_list_yields_nothing() {
    let sk = SkipList::<i64>::new();
    assert!(elements(&sk).is_empty());
    assert!(in_range(&sk, 1, 2).is_empty());
    assert!(in_window(&sk, 1, 2).is_empty());
    assert!(at_indices(&sk, Unbounded, Unbounded).is_empty());
    assert_eq!(sk.to_vec(), Vec::<i64>::new());
}

#[test]
fn pop_three_of_ten() {
    let mut sk = SkipList::from((0..10).collect::<Vec<i64>>());
    assert_eq!(sk.pop_max(3), vec![7, 8, 9]);
    assert_eq!(sk.len(), 7);
}

#[test]
fn rank_of_two() {
    let mut sk = SkipList::new();
    sk.insert(1);
    sk.insert(2);
    sk.insert(3);
    assert_eq!(sk.index_of(&2), Some(1));
    assert_eq!(sk.at_index(1), Some(&2));
}

#[test]
fn insert_twice() {
    let mut sk = SkipList::new();
    assert!(sk.insert(42));
    assert!(!sk.insert(42));
    assert_eq!(sk.len(), 1);
}

#[test]
fn new_list_has_three_empty_rows() {
    let sk = SkipList::<i64>::new();
    assert_eq!(sk.len(), 0);
    assert!(sk.is_empty());
    assert_eq!(shape(&sk), vec![vec![(None, 0), (None, 0)]; 3]);
    assert!(sk.ensure_invariants());
}

#[test]
fn insert_with_height_builds_the_rows_it_is_told() {
    let mut sk = SkipList::new();
    assert!(sk.insert_with_height(20, 1));
    assert!(sk.insert_with_height(10, 2));
    assert!(sk.insert_with_height(30, 1));
    assert!(!sk.insert_with_height(30, 2));
    assert_eq!(
        shape(&sk),
        vec![
            vec![(None, 3), (None, 0)],
            vec![(None, 0), (Some(10), 2), (None, 0)],
            vec![(None, 0), (Some(10), 0), (Some(20), 0), (Some(30), 0), (None, 0)],
        ]
    );
    // a column as tall as the grid makes the grid grow by one row over it
    assert!(sk.insert_with_height(25, 4));
    assert_eq!(
        shape(&sk),
        vec![
            vec![(None, 4), (None, 0)],
            vec![(None, 2), (Some(25), 1), (None, 0)],
            vec![(None, 2), (Some(25), 1), (None, 0)],
            vec![(None, 0), (Some(10), 1), (Some(25), 1), (None, 0)],
            vec![(None, 0), (Some(10), 0), (Some(20), 0), (Some(25), 0), (Some(30), 0), (None, 0)],
        ]
    );
    assert!(sk.ensure_invariants());
    assert!(sk.remove(&25));
    assert_eq!(
        shape(&sk),
        vec![
            vec![(None, 3), (None, 0)],
            vec![(None, 3), (None, 0)],
            vec![(None, 3), (None, 0)],
            vec![(None, 0), (Some(10), 2), (None, 0)],
            vec![(None, 0), (Some(10), 0), (Some(20), 0), (Some(30), 0), (None, 0)],
        ]
    );
    assert_eq!(sk.pop_max(2), vec![20, 30]);
    assert_eq!(
        shape(&sk),
        vec![
            vec![(None, 1), (None, 0)],
            vec![(None, 1), (None, 0)],
            vec![(None, 1), (None, 0)],
            vec![(None, 0), (Some(10), 0), (None, 0)],
            vec![(None, 0), (Some(10), 0), (None, 0)],
        ]
    );
    assert!(sk.ensure_invariants());
}

#[test]
fn what_the_list_holds_does_not_depend_on_heights() {
    let items = [9i64, 2, 7, 4, 4, 11, 0, 6];
    let mut flat = SkipList::new();
    let mut tall = SkipList::new();
    let mut drawn = SkipList::new();
    for (i, x) in items.iter().enumerate() {
        flat.insert_with_height(*x, 1);
        tall.insert_with_height(*x, 1 + (i * 5) % 17);
        drawn.insert(*x);
    }
    assert_eq!(elements(&flat), vec![0, 2, 4, 6, 7, 9, 11]);
    assert!(flat.eq(&tall));
    assert!(flat.eq(&drawn));
    assert!(tall.ensure_invariants());
    for (i, x) in elements(&tall).iter().enumerate() {
        assert_eq!(tall.index_of(x), Some(i));
        assert_eq!(tall.at_index(i), Some(x));
    }
}

#[test]
fn heads_raise_the_height_and_tails_end_the_drawing() {
    assert_eq!(climb(1, true), Some(2));
    assert_eq!(climb(7, true), Some(8));
    assert_eq!(climb(1, false), None);
    assert_eq!(climb(7, false), None);
    assert_eq!(climb(usize::MAX - 2, true), Some(usize::MAX - 1));
    assert_eq!(climb(usize::MAX - 1, true), None);
    assert_eq!(climb(usize::MAX, true), None);
}

#[test]
fn drawn_heights_are_at_least_one() {
    let mut above_one = 0;
    for _ in 0..2000 {
        let h = get_level();
        assert!(h >= 1);
        if h > 1 {
            above_one += 1;
        }
    }
    // about half of the draws flip heads at least once
    assert!(above_one > 500 && above_one < 1500);
}

#[test]
fn changes_agree_with_a_reference_set() {
    let mut sk = SkipList::new();
    let mut reference = BTreeSet::new();
    let mut state = 2024u64;
    for step in 0..3000 {
        let x = (scramble(&mut state) % 150) as i64;
        match scramble(&mut state) % 4 {
            0 => assert_eq!(sk.remove(&x), reference.remove(&x)),
            1 => assert_eq!(sk.contains(&x), reference.contains(&x)),
            _ => assert_eq!(sk.insert(x), reference.insert(x)),
        }
        assert_eq!(sk.len(), reference.len());
        if step % 250 == 0 {
            assert_eq!(elements(&sk), reference.iter().copied().collect::<Vec<_>>());
            assert!(sk.ensure_invariants());
        }
    }
    let all: Vec<i64> = reference.iter().copied().collect();
    assert_eq!(elements(&sk), all);
    assert_eq!(sk.to_vec(), all);
    for (i, x) in all.iter().enumerate() {
        assert_eq!(sk.index_of(x), Some(i));
        assert_eq!(sk.at_index(i), Some(x));
    }
}

#[test]
fn index_range_honours_both_kinds_of_bound() {
    let sk = SkipList::from((0..20).collect::<Vec<i64>>());
    assert_eq!(at_indices(&sk, Excluded(2), Excluded(5)), vec![3, 4]);
    assert_eq!(at_indices(&sk, Excluded(2), Included(5)), vec![3, 4, 5]);
    assert_eq!(at_indices(&sk, Excluded(18), Unbounded), vec![19]);
    assert_eq!(at_indices(&sk, Excluded(19), Unbounded), Vec::<i64>::new());
    assert_eq!(at_indices(&sk, Included(0), Included(0)), vec![0]);
    assert_eq!(at_indices(&sk, Included(19), Included(19)), vec![19]);
    assert_eq!(at_indices(&sk, Unbounded, Excluded(0)), Vec::<i64>::new());
}

#[test]
fn index_range_degrades_to_what_is_there() {
    let sk = SkipList::from((0..20).collect::<Vec<i64>>());
    assert_eq!(at_indices(&sk, Included(5), Excluded(3)), Vec::<i64>::new());
    assert_eq!(at_indices(&sk, Included(25), Unbounded), Vec::<i64>::new());
    assert_eq!(at_indices(&sk, Included(17), Excluded(1000)), vec![17, 18, 19]);
    assert_eq!(at_indices(&sk, Included(17), Included(usize::MAX)), vec![17, 18, 19]);
    assert_eq!(at_indices(&sk, Excluded(usize::MAX), Unbounded), Vec::<i64>::new());
    assert_eq!(at_indices(&sk, Included(usize::MAX), Included(usize::MAX)), Vec::<i64>::new());
    assert_eq!(at_indices(&sk, Unbounded, Included(usize::MAX)).len(), 20);
}

#[test]
fn a_traversal_stays_exhausted() {
    let sk = SkipList::from(vec![1i64, 2]);
    let mut it = sk.iter_all();
    assert_eq!(it.size_hint(), (2, Some(2)));
    assert_eq!(it.next(), Some(&1));
    assert_eq!(it.next(), Some(&2));
    assert_eq!(it.next(), None);
    assert_eq!(it.next(), None);
    assert_eq!(it.size_hint(), (2, Some(2)));
    let mut range = sk.range(&2, &9);
    assert_eq!(range.next(), Some(&2));
    assert_eq!(range.next(), None);
    assert_eq!(range.next(), None);
    let mut window = sk.range_with(|x: &i64| if *x < 2 { RangeHint::InRange } else { RangeHint::LargerThanRange });
    assert_eq!(window.next(), Some(&1));
    assert_eq!(window.next(), None);
    assert_eq!(window.next(), None);
}

#[test]
fn a_classifier_that_does_not_cut_yields_only_what_it_places_inside() {
    let sk = SkipList::from((0..30).collect::<Vec<i64>>());
    let odd_inside = |x: &i64| match *x % 3 {
        0 => RangeHint::SmallerThanRange,
        1 => RangeHint::InRange,
        _ => RangeHint::LargerThanRange,
    };
    let mut it = sk.range_with(odd_inside);
    let mut last = None;
    while let Some(x) = it.next() {
        assert_eq!(*x % 3, 1);
        assert!(sk.contains(x));
        assert!(last < Some(*x));
        last = Some(*x);
    }
}

#[test]
fn a_classifier_that_changes_its_mind_still_gets_an_ascending_walk() {
    let sk = SkipList::from((0..40).collect::<Vec<i64>>());
    for seed in 0..50u64 {
        let state = std::cell::Cell::new(seed * 7919 + 1);
        let fickle = |_x: &i64| {
            let mut s = state.get();
            let pick = scramble(&mut s) % 3;
            state.set(s);
            match pick {
                0 => RangeHint::SmallerThanRange,
                1 => RangeHint::InRange,
                _ => RangeHint::LargerThanRange,
            }
        };
        let mut it = sk.range_with(fickle);
        let mut last: Option<i64> = None;
        let mut count = 0;
        while let Some(x) = it.next() {
            assert!(sk.contains(x));
            assert!(last < Some(*x));
            last = Some(*x);
            count += 1;
            assert!(count <= sk.len());
        }
    }
}

#[test]
fn a_classifier_is_asked_about_elements_of_the_list_only() {
    let sk = SkipList::from(vec![10i64, 20, 30, 40]);
    let asked = std::cell::RefCell::new(Vec::new());
    let mut it = sk.range_with(|x: &i64| {
        asked.borrow_mut().push(*x);
        if *x < 20 {
            RangeHint::SmallerThanRange
        } else if *x > 30 {
            RangeHint::LargerThanRange
        } else {
            RangeHint::InRange
        }
    });
    let mut got = Vec::new();
    while let Some(x) = it.next() {
        got.push(*x);
    }
    assert_eq!(got, vec![20, 30]);
    assert!(!asked.borrow().is_empty());
    for x in asked.borrow().iter() {
        assert!(sk.contains(x));
    }
}

#[test]
fn a_walk_along_an_upper_row_yields_the_elements_of_that_row() {
    let mut sk = SkipList::new();
    for x in 0..8i64 {
        sk.insert_with_height(x, if x % 2 == 0 { 2 } else { 1 });
    }
    // in the row above the bottom row the descent towards 3 rests on 2
    let path = sk.insert_path(&3);
    assert_eq!(path.len(), 3);
    let mut upper = NodeRightIter::new(&sk, path[1].curr_node);
    let mut seen = Vec::new();
    while let Some(x) = upper.next() {
        seen.push(x);
    }
    assert_eq!(seen, vec![2, 4, 6]);
}

#[test]
fn walks_may_start_on_an_upper_bound() {
    // an empty list keeps the bounds of its bottom row in its first slots
    let sk = SkipList::<i64>::new();
    let mut row = NodeRightIter::new(&sk, 1);
    assert_eq!(row.next(), None);
    let mut column = VerticalIter::new(&sk, 1);
    assert_eq!(column.next(), Some(1));
    assert_eq!(column.next(), None);
}

#[test]
fn into_iter_hands_out_every_element() {
    let sk = SkipList::from(vec![3i64, 1, 2, 3]);
    let mut it = sk.into_iter();
    assert_eq!(it.size_hint(), (3, Some(3)));
    assert_eq!(it.next(), Some(1));
    assert_eq!(it.next(), Some(2));
    assert_eq!(it.next(), Some(3));
    assert_eq!(it.next(), None);
    assert_eq!(it.next(), None);
    let empty = SkipList::<i64>::new();
    assert_eq!(empty.into_iter().next(), None);
}

#[test]
fn from_places_the_elements_one_after_the_other() {
    let sk = SkipList::from(vec![5i64, 3, 5, 9, 1, 3]);
    assert_eq!(elements(&sk), vec![1, 3, 5, 9]);
    assert_eq!(sk.len(), 4);
    let none = SkipList::from(Vec::<i64>::new());
    assert!(none.is_empty());
}

#[test]
fn descents_rest_left_of_the_item() {
    let sk = SkipList::from((0..10).map(|x| x * 10).collect::<Vec<i64>>());
    for (item, rank) in [(-5i64, 0usize), (0, 0), (5, 1), (50, 5), (55, 6), (90, 9), (95, 10)] {
        let path = sk.insert_path(&item);
        assert!(path.len() >= 3);
        assert_eq!(path.last().unwrap().curr_width, rank);
        for pair in path.windows(2) {
            assert!(pair[0].curr_width <= pair[1].curr_width);
        }
        let mut widths = sk.path_to(&item);
        let mut plain = sk.iter_left(&item);
        for expected in &path {
            let nw = widths.next().unwrap();
            assert_eq!(nw.curr_node, expected.curr_node);
            assert_eq!(nw.curr_width, expected.curr_width);
            assert_eq!(plain.next(), Some(expected.curr_node));
        }
        assert!(widths.next().is_none());
        assert!(plain.next().is_none());
    }
}

#[test]
fn walks_along_a_column_and_along_the_bottom_row() {
    let mut sk = SkipList::new();
    for x in 0..6i64 {
        sk.insert_with_height(x, 2);
    }
    let path = sk.insert_path(&3);
    let top = path[0].curr_node;
    let mut column = VerticalIter::new(&sk, top);
    let mut cells = 0;
    while let Some(_) = column.next() {
        cells += 1;
    }
    assert_eq!(cells, path.len());
    let bottom = path.last().unwrap().curr_node;
    // the cell that the descent rests on holds 2, the last element below 3
    let mut tail = NodeRightIter::new(&sk, bottom);
    let mut seen = Vec::new();
    while let Some(x) = tail.next() {
        seen.push(x);
    }
    assert_eq!(seen, vec![2, 3, 4, 5]);
}

#[test]
fn cell_values_compare_as_bounds_and_elements() {
    let low: NodeValue<i64> = NodeValue::NegInf;
    let high: NodeValue<i64> = NodeValue::PosInf;
    let five = NodeValue::Value(5i64);
    assert!(low.below(&i64::MIN));
    assert!(!high.below(&i64::MAX));
    assert!(five.below(&6));
    assert!(!five.below(&5));
    assert!(five.at_most(&5));
    assert!(!five.at_most(&4));
    assert!(low.at_most(&0));
    assert!(!high.at_most(&0));
    assert!(five.holds(&5));
    assert!(!five.holds(&6));
    assert!(!low.holds(&5));
    assert!(low.precedes(&five));
    assert!(five.precedes(&high));
    assert!(low.precedes(&high));
    assert!(!high.precedes(&low));
    assert!(!five.precedes(&low));
    assert!(!low.precedes(&low));
    assert!(five.precedes(&NodeValue::Value(6)));
    assert!(!five.precedes(&NodeValue::Value(5)));
    assert!(five.same_as(&NodeValue::Value(5)));
    assert!(!five.same_as(&high));
    assert!(high.same_as(&NodeValue::PosInf));
    assert!(five.duplicate().same_as(&five));
    assert_eq!(*five.get_value(), 5);
    assert!(high.is_pos_inf() && !five.is_pos_inf());
    assert!(low.is_neg_inf() && !five.is_neg_inf());
    let node = Node { right: Some(1), down: None, value: NodeValue::Value(5i64), width: 4 };
    assert_eq!(node.nodes_skipped_over(), 3);
}

#[test]
fn slots_of_removed_elements_are_used_again() {
    let mut sk = SkipList::new();
    for round in 0..50i64 {
        for x in 0..40 {
            assert!(sk.insert_with_height(x + round, 1 + (x as usize % 4)));
        }
        for x in 0..40 {
            assert!(sk.remove(&(x + round)));
        }
        assert!(sk.is_empty());
    }
    assert!(sk.ensure_invariants());
    assert!(sk.ensure_rows_ordered());
    assert!(sk.ensure_columns_same_value());
    assert!(sk.ensure_rows_sum_len());
}

#[test]
fn test_serde() {
    let mut s = SkipList::new();
    for i in 0..10u32 {
        s.insert(i);
    }
    let ser = serde_json::to_string(&s.to_vec()).expect("Failed to serialize!");
    let eles: Vec<u32> = serde_json::from_str(&ser).expect("Failed to deserialize!");
    let back = SkipList::from(eles);
    assert!(s.eq(&back));
}
