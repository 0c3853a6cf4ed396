use sorts::heap;
use sorts::merge;
use sorts::quick;
use sorts::slices::{copy_from, copy_of, exchange};
use sorts::{bogo, bubble, insertion, is_sorted, selection};
use std::cmp::Ordering;

/// A value with a tag that the order does not see.
#[derive(Clone, Debug)]
struct Tagged {
    val: i32,
    idx: usize,
}

impl PartialEq for Tagged {
    fn eq(&self, other: &Tagged) -> bool {
        self.val == other.val
    }
}

impl Eq for Tagged {}

impl PartialOrd for Tagged {
    fn partial_cmp(&self, other: &Tagged) -> Option<Ordering> {
        Some(self.cmp(other))
    }
}

impl Ord for Tagged {
    fn cmp(&self, other: &Tagged) -> Ordering {
        self.val.cmp(&other.val)
    }
}

fn tag(vals: &[i32]) -> Vec<Tagged> {
    vals.iter().enumerate().map(|(idx, &val)| Tagged { val, idx }).collect()
}

fn untag(xs: &[Tagged]) -> Vec<(i32, usize)> {
    xs.iter().map(|x| (x.val, x.idx)).collect()
}

/// Among neighbours of equal value the tags grow.
fn keeps_tag_order(xs: &[Tagged]) -> bool {
    xs.windows(2).all(|w| w[0].val != w[1].val || w[0].idx < w[1].idx)
}

fn values_in_order(xs: &[Tagged]) -> bool {
    xs.windows(2).all(|w| w[0].val <= w[1].val)
}

fn is_max_heap(xs: &[i32]) -> bool {
    (1..xs.len()).all(|c| xs[c] <= xs[(c - 1) / 2])
}

fn middle_pivot(xs: &[i32]) -> usize {
    xs.len() / 2
}

fn heapify_by_std(xs: &mut [i32]) {
    xs.sort();
    xs.reverse();
}

#[test]
fn partition_around_the_first_element() {
    let mut xs = vec![2, 9, 1, 7, 2, 5];
    let q = quick::partition(&mut xs, 0);
    assert_eq!(q, 2);
    assert_eq!(xs, vec![1, 2, 2, 7, 9, 5]);
}

#[test]
fn partition_keeps_the_order_of_what_goes_before_the_pivot() {
    let mut xs = vec![5, 3, 8, 3, 1];
    let q = quick::partition(&mut xs, 0);
    assert_eq!(q, 3);
    assert_eq!(xs, vec![1, 3, 3, 5, 8]);
    let mut ys = tag(&[4, 9, 2, 4, 8, 1, 4]);
    let p = quick::partition(&mut ys, 3);
    assert_eq!(p, 4);
    assert_eq!(untag(&ys[..5]), vec![(4, 0), (2, 2), (4, 6), (1, 5), (4, 3)]);
}

#[test]
fn partition_of_equal_elements_moves_the_pivot_to_the_end() {
    let mut xs = tag(&[6, 6, 6, 6, 6]);
    let q = quick::partition(&mut xs, 1);
    assert_eq!(q, 4);
    assert_eq!(untag(&xs), vec![(6, 0), (6, 4), (6, 2), (6, 3), (6, 1)]);
}

#[test]
fn partition_around_the_greatest_element() {
    let mut xs = vec![3, 1, 2];
    let q = quick::partition(&mut xs, 0);
    assert_eq!(q, 2);
    assert_eq!(xs, vec![2, 1, 3]);
}

#[test]
fn partition_around_the_least_element() {
    let mut xs = vec![4, 6, 0, 5];
    let q = quick::partition(&mut xs, 2);
    assert_eq!(q, 0);
    assert_eq!(xs[0], 0);
    let mut rest = xs[1..].to_vec();
    rest.sort();
    assert_eq!(rest, vec![4, 5, 6]);
}

#[test]
fn partition_parts_every_slice_at_every_pivot() {
    let input = vec![5, -3, 8, 0, 5, 5, 2, -3, 9, 1, 5];
    for p in 0..input.len() {
        let mut xs = input.clone();
        let q = quick::partition(&mut xs, p);
        assert_eq!(xs[q], input[p]);
        assert!(xs[..q].iter().all(|x| *x <= xs[q]));
        assert!(xs[q + 1..].iter().all(|x| *x > xs[q]));
        let mut a = xs.clone();
        let mut b = input.clone();
        a.sort();
        b.sort();
        assert_eq!(a, b);
    }
}

#[test]
fn partition_leaves_short_slices_alone() {
    let mut one = vec![42];
    assert_eq!(quick::partition(&mut one, 0), 0);
    assert_eq!(one, vec![42]);
    let mut none: Vec<i32> = vec![];
    assert_eq!(quick::partition(&mut none, 7), 7);
    assert_eq!(none, Vec::<i32>::new());
}

#[test]
fn smart_pivot_prefers_the_middle() {
    assert_eq!(quick::smart_pivot(&[1, 2, 3]), 1);
    assert_eq!(quick::smart_pivot(&[7, 7, 7]), 1);
    assert_eq!(quick::smart_pivot(&[1, 1, 2]), 1);
    assert_eq!(quick::smart_pivot(&[0, 1, 2, 3, 4, 5, 6]), 3);
    assert_eq!(quick::smart_pivot(&[0, 1, 2, 3, 4, 5]), 2);
}

#[test]
fn smart_pivot_is_the_median_in_every_order() {
    assert_eq!(quick::smart_pivot(&[1, 2, 3]), 1);
    assert_eq!(quick::smart_pivot(&[3, 2, 1]), 1);
    assert_eq!(quick::smart_pivot(&[2, 1, 3]), 0);
    assert_eq!(quick::smart_pivot(&[2, 3, 1]), 0);
    assert_eq!(quick::smart_pivot(&[3, 1, 2]), 2);
    assert_eq!(quick::smart_pivot(&[1, 3, 2]), 2);
    assert_eq!(quick::smart_pivot(&[1, 5, 9, 3, 7]), 4);
    assert_eq!(quick::smart_pivot(&[9, 5, 1, 3, 7]), 4);
    assert_eq!(quick::smart_pivot(&[7, 5, 1, 3, 9]), 0);
}

#[test]
fn smart_pivot_on_ties() {
    assert_eq!(quick::smart_pivot(&[2, 2, 1]), 1);
    assert_eq!(quick::smart_pivot(&[1, 2, 2]), 1);
    assert_eq!(quick::smart_pivot(&[2, 1, 2]), 0);
    assert_eq!(quick::smart_pivot(&[1, 2, 1]), 0);
}

#[test]
fn smart_pivot_of_short_slices() {
    assert_eq!(quick::smart_pivot(&[5]), 0);
    assert_eq!(quick::smart_pivot(&[1, 2]), 0);
    assert_eq!(quick::smart_pivot(&[2, 2]), 0);
    assert_eq!(quick::smart_pivot(&[2, 1]), 0);
}

#[test]
fn first_pivot_is_the_first() {
    assert_eq!(quick::first_pivot(&[9, 8, 7]), 0);
}

#[test]
fn qsort_with_a_pivot_of_ones_own() {
    let mut xs = vec![5, 3, 8, 3, 1, 9, -2, 0];
    quick::qsort(&mut xs, &middle_pivot);
    assert_eq!(xs, vec![-2, 0, 1, 3, 3, 5, 8, 9]);
    let mut ys = vec![5, 3, 8, 3, 1, 9, -2, 0];
    quick::qsort(&mut ys, &|s: &[i32]| s.len() - 1);
    assert_eq!(ys, vec![-2, 0, 1, 3, 3, 5, 8, 9]);
}

#[test]
fn simple_quicksort_returns_a_sorted_vector() {
    assert_eq!(quick::simple(vec![3, 1, 2, 3, 0]), vec![0, 1, 2, 3, 3]);
    let out = quick::simple(tag(&[1, 1, 1]));
    assert_eq!(untag(&out), vec![(1, 2), (1, 1), (1, 0)]);
}

#[test]
fn sift_down_sinks_the_root() {
    let mut xs = vec![1, 5, 3, 4, 2];
    heap::sift_down(&mut xs, 0, 4);
    assert_eq!(xs, vec![5, 4, 3, 1, 2]);
    assert!(is_max_heap(&xs));
}

#[test]
fn sift_down_stays_within_the_heap() {
    let mut xs = vec![1, 5, 3, 4, 2];
    heap::sift_down(&mut xs, 0, 2);
    assert_eq!(xs, vec![5, 1, 3, 4, 2]);
    let mut ys = vec![1, 5, 3, 4, 2];
    heap::sift_down(&mut ys, 0, 0);
    assert_eq!(ys, vec![1, 5, 3, 4, 2]);
    let mut zs = vec![1, 5, 3, 4, 2];
    heap::sift_down(&mut zs, 3, 2);
    assert_eq!(zs, vec![1, 5, 3, 4, 2]);
}

#[test]
fn sift_down_mends_a_subtree_and_nothing_else() {
    let mut xs = vec![1, 2, 9, 8, 7, 0, 0];
    heap::sift_down(&mut xs, 1, 6);
    assert_eq!(xs, vec![1, 8, 9, 2, 7, 0, 0]);
    let mut ys = vec![0, 1, 0, 5, 6, 9, 9, 2, 3, 4, 1];
    heap::sift_down(&mut ys, 1, 10);
    assert_eq!(ys, vec![0, 6, 0, 5, 4, 9, 9, 2, 3, 1, 1]);
}

#[test]
fn drain_takes_a_heap_apart() {
    let mut xs = vec![5, 4, 3, 1, 2];
    heap::drain(&mut xs);
    assert_eq!(xs, vec![1, 2, 3, 4, 5]);
    let mut ys = tag(&[3, 3, 3, 3]);
    heap::drain(&mut ys);
    assert_eq!(untag(&ys), vec![(3, 1), (3, 2), (3, 3), (3, 0)]);
    let mut none: Vec<i32> = vec![];
    heap::drain(&mut none);
    assert_eq!(none, Vec::<i32>::new());
}

#[test]
fn sift_down_leaves_a_root_at_rest() {
    let mut xs = vec![5, 4, 5, 9, 9];
    heap::sift_down(&mut xs, 0, 2);
    assert_eq!(xs, vec![5, 4, 5, 9, 9]);
    let mut ys = vec![1, 7, 7, 9];
    heap::sift_down(&mut ys, 1, 2);
    assert_eq!(ys, vec![1, 7, 7, 9]);
}

#[test]
fn sift_down_prefers_the_left_of_equal_children() {
    let mut xs = tag(&[1, 4, 4]);
    heap::sift_down(&mut xs, 0, 2);
    assert_eq!(untag(&xs), vec![(4, 1), (1, 0), (4, 2)]);
    let mut ys = tag(&[4, 4, 4]);
    heap::sift_down(&mut ys, 0, 2);
    assert_eq!(untag(&ys), vec![(4, 0), (4, 1), (4, 2)]);
}

#[test]
fn sift_up_raises_the_last() {
    let mut xs = vec![5, 4, 3, 1, 9];
    heap::sift_up(&mut xs, 0, 4);
    assert_eq!(xs, vec![9, 5, 3, 1, 4]);
    assert!(is_max_heap(&xs));
}

#[test]
fn sift_up_stops_at_start() {
    let mut xs = vec![5, 4, 3, 1, 9];
    heap::sift_up(&mut xs, 1, 4);
    assert_eq!(xs, vec![5, 9, 3, 1, 4]);
    let mut ys = vec![5, 4, 3, 1, 9];
    heap::sift_up(&mut ys, 4, 4);
    assert_eq!(ys, vec![5, 4, 3, 1, 9]);
}

#[test]
fn sift_up_leaves_an_equal_parent_in_place() {
    let mut xs = tag(&[4, 2, 4]);
    heap::sift_up(&mut xs, 0, 2);
    assert_eq!(untag(&xs), vec![(4, 0), (2, 1), (4, 2)]);
}

#[test]
fn heapify_down_builds_a_heap() {
    let mut xs = vec![1, 2, 3, 4, 5];
    heap::heapify_down(&mut xs);
    assert_eq!(xs, vec![5, 4, 3, 1, 2]);
    let mut ys = vec![3, -1, 4, 1, -5, 9, 2, 6, 5, 3, 5];
    heap::heapify_down(&mut ys);
    assert!(is_max_heap(&ys));
    let mut sorted_ys = ys.clone();
    sorted_ys.sort();
    assert_eq!(sorted_ys, vec![-5, -1, 1, 2, 3, 3, 4, 5, 5, 6, 9]);
}

#[test]
fn heapify_up_builds_a_heap() {
    let mut xs = vec![1, 2, 3, 4, 5];
    heap::heapify_up(&mut xs);
    assert_eq!(xs, vec![5, 4, 2, 1, 3]);
    let mut ys = vec![3, -1, 4, 1, -5, 9, 2, 6, 5, 3, 5];
    heap::heapify_up(&mut ys);
    assert!(is_max_heap(&ys));
    let mut sorted_ys = ys.clone();
    sorted_ys.sort();
    assert_eq!(sorted_ys, vec![-5, -1, 1, 2, 3, 3, 4, 5, 5, 6, 9]);
}

#[test]
fn heapify_of_short_slices() {
    let mut none: Vec<i32> = vec![];
    heap::heapify_down(&mut none);
    heap::heapify_up(&mut none);
    assert_eq!(none, Vec::<i32>::new());
    let mut one = vec![42];
    heap::heapify_down(&mut one);
    heap::heapify_up(&mut one);
    assert_eq!(one, vec![42]);
    let mut two = vec![1, 2];
    heap::heapify_down(&mut two);
    assert_eq!(two, vec![2, 1]);
    let mut other_two = vec![1, 2];
    heap::heapify_up(&mut other_two);
    assert_eq!(other_two, vec![2, 1]);
}

#[test]
fn heapsort_on_a_heap_of_ones_own() {
    let mut xs = vec![5, 3, 8, 3, 1];
    heap::sort(&mut xs, &heapify_by_std);
    assert_eq!(xs, vec![1, 3, 3, 5, 8]);
    let mut ys = vec![5, 3, 8, 3, 1];
    heap::sort(&mut ys, &heap::heapify_up::<i32>);
    assert_eq!(ys, vec![1, 3, 3, 5, 8]);
}

#[test]
fn merge_two_runs() {
    let xs = vec![1, 4, 7, 2, 3, 9];
    let mut buf = vec![0; 6];
    merge::merge(&xs, &mut buf, 0, 3, 6);
    assert_eq!(buf, vec![1, 2, 3, 4, 7, 9]);
}

#[test]
fn merge_writes_between_the_bounds_only() {
    let xs = vec![9, 1, 3, 2, 4, 0];
    let mut buf = vec![8; 7];
    merge::merge(&xs, &mut buf, 1, 3, 5);
    assert_eq!(buf, vec![8, 1, 2, 3, 4, 8, 8]);
}

#[test]
fn merge_with_an_empty_run() {
    let xs = vec![1, 2, 3];
    let mut buf = vec![0; 3];
    merge::merge(&xs, &mut buf, 0, 3, 3);
    assert_eq!(buf, vec![1, 2, 3]);
    let mut other = vec![0; 3];
    merge::merge(&xs, &mut other, 0, 0, 3);
    assert_eq!(other, vec![1, 2, 3]);
    let mut untouched = vec![0; 3];
    merge::merge(&xs, &mut untouched, 2, 2, 2);
    assert_eq!(untouched, vec![0, 0, 0]);
}

#[test]
fn merge_takes_from_the_left_on_ties() {
    let xs = tag(&[1, 2, 1, 2]);
    let mut buf = tag(&[0, 0, 0, 0]);
    merge::merge(&xs, &mut buf, 0, 2, 4);
    assert_eq!(untag(&buf), vec![(1, 0), (1, 2), (2, 1), (2, 3)]);
}

#[test]
fn is_sorted_tells_sorted_from_unsorted() {
    assert!(is_sorted::<i32>(&[]));
    assert!(is_sorted(&[1]));
    assert!(is_sorted(&[1, 1, 2, 3, 3]));
    assert!(!is_sorted(&[1, 2, 1]));
    assert!(!is_sorted(&[2, 1]));
    assert!(!is_sorted(&[1, 2, 3, 4, 3]));
}

#[test]
fn bogo_without_rounds_only_looks() {
    let mut xs = vec![2, 1];
    assert!(!bogo(&mut xs, 0));
    assert_eq!(xs, vec![2, 1]);
    let mut ys = vec![1, 2, 3];
    assert!(bogo(&mut ys, 0));
    assert_eq!(ys, vec![1, 2, 3]);
}

#[test]
fn bogo_sorts_a_short_slice_in_the_end() {
    let mut xs = vec![3, 1, 2, 0];
    let mut calls = 0;
    while !bogo(&mut xs, 10_000) {
        calls += 1;
        assert!(calls < 1_000);
    }
    assert_eq!(xs, vec![0, 1, 2, 3]);
}

#[test]
fn bogo_keeps_the_elements_when_it_gives_up() {
    let mut xs: Vec<i32> = (0..60).rev().collect();
    let done = bogo(&mut xs, 3);
    assert_eq!(done, is_sorted(&xs));
    let mut seen = xs.clone();
    seen.sort();
    assert_eq!(seen, (0..60).collect::<Vec<i32>>());
}

#[test]
fn seventeen_equal_elements_through_mergesort() {
    let mut xs = tag(&[7; 17]);
    merge::sort(&mut xs);
    assert_eq!(untag(&xs), (0..17).map(|i| (7, i)).collect::<Vec<_>>());
    let mut ys = tag(&[7; 17]);
    merge::insertion(&mut ys);
    assert_eq!(untag(&ys), (0..17).map(|i| (7, i)).collect::<Vec<_>>());
}

#[test]
fn stable_sorts_keep_equal_elements_in_order() {
    let vals = [
        2, 1, 2, 0, 1, 2, 0, 0, 1, 3, 2, 1, 0, 3, 3, 1, 2, 0, 1, 2, 3, 0, 1, 1, 2, 0, 3, 2, 1, 0, 2,
        2, 1, 0, 3, 1, 2,
    ];
    let expected = {
        let mut e = untag(&tag(&vals));
        e.sort();
        e
    };
    let sorters: Vec<(&str, fn(&mut [Tagged]))> = vec![
        ("insertion", insertion::<Tagged>),
        ("bubble", bubble::<Tagged>),
        ("merge::sort", merge::sort::<Tagged>),
        ("merge::insertion", merge::insertion::<Tagged>),
    ];
    for (name, sort) in sorters {
        let mut xs = tag(&vals);
        sort(&mut xs);
        assert!(keeps_tag_order(&xs), "{}", name);
        assert_eq!(untag(&xs), expected, "{}", name);
    }
}

#[test]
fn selection_lets_equal_elements_cross() {
    let mut xs = tag(&[2, 2, 1]);
    selection(&mut xs);
    assert_eq!(untag(&xs), vec![(1, 2), (2, 1), (2, 0)]);
    assert!(!keeps_tag_order(&xs));
    let mut ys = tag(&[9, 9, 9, 1, 1, 1]);
    selection(&mut ys);
    assert!(values_in_order(&ys));
    assert_eq!(untag(&ys), vec![(1, 3), (1, 4), (1, 5), (9, 0), (9, 1), (9, 2)]);
    let mut zs = tag(&[9, 9, 1, 9, 1]);
    selection(&mut zs);
    assert!(values_in_order(&zs));
    assert!(!keeps_tag_order(&zs));
}

#[test]
fn heapsort_lets_equal_elements_cross() {
    let mut xs = tag(&[1, 1, 1]);
    heap::up(&mut xs);
    assert_eq!(untag(&xs), vec![(1, 1), (1, 2), (1, 0)]);
    let mut ys = tag(&[1, 1, 1]);
    heap::down(&mut ys);
    assert_eq!(untag(&ys), vec![(1, 1), (1, 2), (1, 0)]);
    let mut zs = tag(&[3, 1, 3, 2, 1, 3, 2]);
    heap::up(&mut zs);
    assert!(values_in_order(&zs));
    let mut ws = tag(&[3, 1, 3, 2, 1, 3, 2]);
    heap::down(&mut ws);
    assert!(values_in_order(&ws));
}

#[test]
fn quicksort_lets_equal_elements_cross() {
    let mut xs = tag(&[1, 1, 1]);
    quick::dumb(&mut xs);
    assert_eq!(untag(&xs), vec![(1, 1), (1, 2), (1, 0)]);
    let mut ys = tag(&[1, 1, 1]);
    quick::smart(&mut ys);
    assert_eq!(untag(&ys), vec![(1, 2), (1, 0), (1, 1)]);
    let mut zs = tag(&[1, 1, 1]);
    quick::insertion(&mut zs);
    assert_eq!(untag(&zs), vec![(1, 0), (1, 2), (1, 1)]);
}

#[test]
fn equal_elements_through_the_unstable_sorts() {
    let first_last: Vec<(&str, fn(&mut [Tagged]))> = vec![
        ("quick::dumb", quick::dumb::<Tagged>),
        ("heap::up", heap::up::<Tagged>),
        ("heap::down", heap::down::<Tagged>),
    ];
    for (name, sort) in first_last {
        let mut xs = tag(&[1, 1, 1, 1, 1]);
        sort(&mut xs);
        assert_eq!(untag(&xs), vec![(1, 1), (1, 2), (1, 3), (1, 4), (1, 0)], "{}", name);
    }
    let two: Vec<(&str, fn(&mut [Tagged]))> = vec![
        ("quick::dumb", quick::dumb::<Tagged>),
        ("quick::smart", quick::smart::<Tagged>),
        ("quick::insertion", quick::insertion::<Tagged>),
        ("heap::up", heap::up::<Tagged>),
        ("heap::down", heap::down::<Tagged>),
    ];
    for (name, sort) in two {
        let mut xs = tag(&[1, 1]);
        sort(&mut xs);
        assert_eq!(untag(&xs), vec![(1, 1), (1, 0)], "{}", name);
    }
    assert_eq!(untag(&quick::simple(tag(&[1, 1]))), vec![(1, 1), (1, 0)]);
    assert_eq!(
        untag(&quick::simple(tag(&[1, 1, 1, 1]))),
        vec![(1, 3), (1, 2), (1, 1), (1, 0)]
    );
}

#[test]
fn seventeen_equal_elements_through_the_hybrid_quicksort() {
    let mut xs = tag(&[7; 17]);
    quick::insertion(&mut xs);
    let idx: Vec<usize> = xs.iter().map(|x| x.idx).collect();
    assert_eq!(idx, vec![0, 1, 2, 3, 4, 5, 6, 7, 16, 9, 10, 11, 12, 13, 14, 15, 8]);
    assert!(!keeps_tag_order(&xs));
}

#[test]
fn exchange_and_copies() {
    let mut xs = vec![1, 2, 3];
    exchange(&mut xs, 0, 2);
    assert_eq!(xs, vec![3, 2, 1]);
    exchange(&mut xs, 2, 1);
    assert_eq!(xs, vec![3, 1, 2]);
    exchange(&mut xs, 1, 1);
    assert_eq!(xs, vec![3, 1, 2]);
    let words = vec!["b".to_string(), "a".to_string()];
    assert_eq!(copy_of(&words), words);
    let mut buf = vec![String::new(), String::new()];
    copy_from(&mut buf, &words);
    assert_eq!(buf, words);
}

#[test]
fn sorted_input_without_equal_elements_through_an_unstable_sort() {
    let input = tag(&[-4, -1, 0, 2, 3, 5, 8, 9, 12, 15, 16, 20, 21, 22, 30, 31, 40, 41, 50]);
    let sorters: Vec<(&str, fn(&mut [Tagged]))> = vec![
        ("selection", selection::<Tagged>),
        ("quick::dumb", quick::dumb::<Tagged>),
        ("quick::smart", quick::smart::<Tagged>),
        ("quick::insertion", quick::insertion::<Tagged>),
        ("heap::up", heap::up::<Tagged>),
        ("heap::down", heap::down::<Tagged>),
    ];
    for (name, sort) in sorters {
        let mut xs = input.clone();
        sort(&mut xs);
        assert_eq!(untag(&xs), untag(&input), "{}", name);
    }
    assert_eq!(untag(&quick::simple(input.clone())), untag(&input));
}

#[test]
fn two_equal_elements_through_heapsort() {
    let mut xs = tag(&[1, 1]);
    heap::up(&mut xs);
    assert_eq!(untag(&xs), vec![(1, 1), (1, 0)]);
}

#[test]
fn sorted_input_with_equal_elements_through_an_unstable_sort() {
    let mut xs = tag(&[1, 1, 2, 2, 2, 3]);
    heap::down(&mut xs);
    assert_eq!(xs.iter().map(|x| x.val).collect::<Vec<_>>(), vec![1, 1, 2, 2, 2, 3]);
    let mut ys = tag(&[1, 1, 2, 2, 2, 3]);
    selection(&mut ys);
    assert_eq!(untag(&ys), vec![(1, 0), (1, 1), (2, 2), (2, 3), (2, 4), (3, 5)]);
}
