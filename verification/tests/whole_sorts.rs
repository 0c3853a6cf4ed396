use sorts::heap;
use sorts::merge;
use sorts::quick;
use sorts::{bogo, bubble, insertion, selection};

fn run_bogo(xs: &mut [i64]) {
    while !bogo(xs, 1_000) {}
}

fn sorters() -> Vec<(&'static str, fn(&mut [i64]))> {
    vec![
        ("bogo", run_bogo as fn(&mut [i64])),
        ("insertion", insertion::<i64>),
        ("bubble", bubble::<i64>),
        ("selection", selection::<i64>),
        ("quick::dumb", quick::dumb::<i64>),
        ("quick::smart", quick::smart::<i64>),
        ("quick::insertion", quick::insertion::<i64>),
        ("heap::up", heap::up::<i64>),
        ("heap::down", heap::down::<i64>),
        ("merge::sort", merge::sort::<i64>),
        ("merge::insertion", merge::insertion::<i64>),
    ]
}

fn long_input() -> Vec<i64> {
    let mut xs = Vec::new();
    let mut x: i64 = 12345;
    for _ in 0..500 {
        x = (x * 1103515245 + 12345) % 2147483648;
        xs.push(x % 97 - 48);
    }
    xs
}

#[test]
fn five_elements_by_every_algorithm() {
    for (name, sort) in sorters() {
        let mut xs = vec![5, 3, 8, 3, 1];
        sort(&mut xs);
        assert_eq!(xs, vec![1, 3, 3, 5, 8], "{}", name);
    }
    assert_eq!(quick::simple(vec![5, 3, 8, 3, 1]), vec![1, 3, 3, 5, 8]);
}

#[test]
fn dumb_quicksort_on_sorted_input() {
    let mut xs = vec![1, 2, 3, 4, 5];
    quick::dumb(&mut xs);
    assert_eq!(xs, vec![1, 2, 3, 4, 5]);
}

#[test]
fn dumb_quicksort_on_long_sorted_input() {
    let mut xs: Vec<i64> = (0..2000).collect();
    quick::dumb(&mut xs);
    assert_eq!(xs, (0..2000).collect::<Vec<i64>>());
}

#[test]
fn empty_by_every_algorithm() {
    for (name, sort) in sorters() {
        let mut xs: Vec<i64> = vec![];
        sort(&mut xs);
        assert_eq!(xs, Vec::<i64>::new(), "{}", name);
    }
    assert_eq!(quick::simple(Vec::<i64>::new()), Vec::<i64>::new());
}

#[test]
fn single_element_by_every_algorithm() {
    for (name, sort) in sorters() {
        let mut xs = vec![42];
        sort(&mut xs);
        assert_eq!(xs, vec![42], "{}", name);
    }
    assert_eq!(quick::simple(vec![42]), vec![42]);
}

#[test]
fn selection_on_two_groups_of_duplicates() {
    let mut xs = vec![9, 9, 9, 1, 1, 1];
    selection(&mut xs);
    assert_eq!(xs, vec![1, 1, 1, 9, 9, 9]);
}

#[test]
fn sorted_input_stays_as_it_is() {
    let sorted_input =
        vec![-7, -7, 0, 1, 1, 2, 3, 5, 8, 13, 21, 21, 34, 55, 89, 144, 233, 377, 610];
    for (name, sort) in sorters() {
        let mut xs = sorted_input.clone();
        sort(&mut xs);
        assert_eq!(xs, sorted_input, "{}", name);
    }
    assert_eq!(quick::simple(sorted_input.clone()), sorted_input);
}

#[test]
fn sorting_twice_is_sorting_once() {
    for (name, sort) in sorters() {
        if name == "bogo" {
            continue;
        }
        let mut once = long_input();
        sort(&mut once);
        let mut twice = once.clone();
        sort(&mut twice);
        assert_eq!(once, twice, "{}", name);
    }
}

#[test]
fn long_input_agrees_with_std() {
    let mut expected = long_input();
    expected.sort();
    for (name, sort) in sorters() {
        if name == "bogo" {
            continue;
        }
        let mut xs = long_input();
        sort(&mut xs);
        assert_eq!(xs, expected, "{}", name);
    }
    assert_eq!(quick::simple(long_input()), expected);
}

#[test]
fn reversed_input_by_every_algorithm() {
    for (name, sort) in sorters() {
        if name == "bogo" {
            continue;
        }
        let mut xs: Vec<i64> = (0..100).rev().collect();
        sort(&mut xs);
        assert_eq!(xs, (0..100).collect::<Vec<i64>>(), "{}", name);
    }
}

#[test]
fn all_equal_input_by_every_algorithm() {
    for (name, sort) in sorters() {
        let mut xs = vec![7; 40];
        sort(&mut xs);
        assert_eq!(xs, vec![7; 40], "{}", name);
    }
}

#[test]
fn lengths_around_the_insertion_threshold() {
    assert_eq!(sorts::INSERTION_THRESHOLD, 16);
    for n in [15usize, 16, 17, 18, 31, 32, 33, 34, 35, 64, 65] {
        let input: Vec<i64> = long_input().into_iter().take(n).collect();
        let mut expected = input.clone();
        expected.sort();
        let mut a = input.clone();
        quick::insertion(&mut a);
        assert_eq!(a, expected, "quick::insertion, {} elements", n);
        let mut b = input.clone();
        merge::insertion(&mut b);
        assert_eq!(b, expected, "merge::insertion, {} elements", n);
        let mut c = input.clone();
        merge::sort(&mut c);
        assert_eq!(c, expected, "merge::sort, {} elements", n);
    }
}

#[test]
fn strings_are_sorted_too() {
    let words = ["pear", "apple", "fig", "apple", "quince", "banana"];
    let expected = vec!["apple", "apple", "banana", "fig", "pear", "quince"];
    let mut a: Vec<String> = words.iter().map(|w| w.to_string()).collect();
    merge::sort(&mut a);
    assert_eq!(a, expected);
    let mut b: Vec<&str> = words.to_vec();
    heap::down(&mut b);
    assert_eq!(b, expected);
    let mut c: Vec<&str> = words.to_vec();
    quick::smart(&mut c);
    assert_eq!(c, expected);
    let mut d: Vec<String> = words.iter().map(|w| w.to_string()).collect();
    insertion(&mut d);
    assert_eq!(d, expected);
}
