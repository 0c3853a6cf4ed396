use quickcheck::{Gen, QuickCheck, Testable};
use sorts::heap;
use sorts::merge;
use sorts::quick;
use sorts::{bubble, insertion, selection};
use std::cmp::Ordering;

/// A value with a mark that the order does not see.
#[derive(Clone, Debug)]
struct Pair {
    val: isize,
    vestigial: usize,
}

impl PartialEq for Pair {
    fn eq(&self, other: &Pair) -> bool {
        self.val == other.val
    }
}

impl Eq for Pair {}

impl PartialOrd for Pair {
    fn partial_cmp(&self, other: &Pair) -> Option<Ordering> {
        Some(self.cmp(other))
    }
}

impl Ord for Pair {
    fn cmp(&self, other: &Pair) -> Ordering {
        self.val.cmp(&other.val)
    }
}

fn is_sorted<T: Ord>(xs: &[T]) -> bool {
    for win in xs.windows(2) {
        if win[0] > win[1] {
            return false;
        }
    }
    true
}

fn stable_annotate(xs: &[isize]) -> Vec<Pair> {
    let mut pairs = vec![];
    for (i, &x) in xs.iter().enumerate() {
        pairs.push(Pair { val: x, vestigial: i })
    }
    pairs
}

fn vestigial_groups(xs: &[Pair]) -> Vec<Vec<usize>> {
    let mut groups: Vec<Vec<usize>> = vec![];
    let mut current: Vec<usize> = vec![];
    for (i, x) in xs.iter().enumerate() {
        if i == 0 {
            current.push(x.vestigial);
            continue;
        }
        if xs[i - 1].val == x.val {
            current.push(x.vestigial)
        } else {
            groups.push(current);
            current = vec![x.vestigial];
        }
    }
    if current.len() > 0 {
        groups.push(current)
    }
    groups
}

fn is_stable(xs: &[Pair]) -> bool {
    vestigial_groups(xs).into_iter().all(|g| is_sorted(&g))
}

fn samelen_with(sorter: fn(&mut [isize]), mut xs: Vec<isize>) -> bool {
    let len = xs.len();
    sorter(&mut xs);
    len == xs.len()
}

fn sorted_with(sorter: fn(&mut [isize]), mut xs: Vec<isize>) -> bool {
    sorter(&mut xs);
    is_sorted(&xs)
}

fn permuted_with(sorter: fn(&mut [isize]), mut xs: Vec<isize>) -> bool {
    let mut expected = xs.clone();
    expected.sort();
    sorter(&mut xs);
    xs == expected
}

fn stable_with(sorter: fn(&mut [Pair]), xs: Vec<isize>) -> bool {
    let mut sxs = stable_annotate(&xs);
    sorter(&mut sxs);
    is_stable(&sxs) && is_sorted(&sxs)
}

/// Few different values, so that most inputs hold duplicates.
fn stable_on_few_values_with(sorter: fn(&mut [Pair]), xs: Vec<u8>) -> bool {
    let keys: Vec<isize> = xs.iter().map(|&x| (x % 4) as isize).collect();
    stable_with(sorter, keys)
}

/// Random inputs that are the same from run to run.
fn seeded() -> QuickCheck {
    QuickCheck::new().rng(Gen::from_size_and_seed(100, 0x5eed))
}

fn quickcheck<A: Testable>(f: A) {
    seeded().quickcheck(f)
}

fn some_input_breaks_stability(check: fn(Vec<u8>) -> bool) -> bool {
    seeded().tests(500).quicktest(check).is_err()
}

fn check_samelen_insertion(xs: Vec<isize>) -> bool {
    samelen_with(insertion::<isize>, xs)
}

fn check_samelen_bubble(xs: Vec<isize>) -> bool {
    samelen_with(bubble::<isize>, xs)
}

fn check_samelen_selection(xs: Vec<isize>) -> bool {
    samelen_with(selection::<isize>, xs)
}

fn check_samelen_merge(xs: Vec<isize>) -> bool {
    samelen_with(merge::sort::<isize>, xs)
}

fn check_samelen_merge_insertion(xs: Vec<isize>) -> bool {
    samelen_with(merge::insertion::<isize>, xs)
}

fn check_samelen_heapsort_up(xs: Vec<isize>) -> bool {
    samelen_with(heap::up::<isize>, xs)
}

fn check_samelen_heapsort_down(xs: Vec<isize>) -> bool {
    samelen_with(heap::down::<isize>, xs)
}

fn check_samelen_quicksort_dumb(xs: Vec<isize>) -> bool {
    samelen_with(quick::dumb::<isize>, xs)
}

fn check_samelen_quicksort_smart(xs: Vec<isize>) -> bool {
    samelen_with(quick::smart::<isize>, xs)
}

fn check_samelen_quicksort_insertion(xs: Vec<isize>) -> bool {
    samelen_with(quick::insertion::<isize>, xs)
}

fn check_samelen_quicksort_simple(xs: Vec<isize>) -> bool {
    let len = xs.len();
    quick::simple(xs).len() == len
}

#[test]
fn samelen_insertion() {
    quickcheck(check_samelen_insertion as fn(Vec<isize>) -> bool);
}

#[test]
fn samelen_bubble() {
    quickcheck(check_samelen_bubble as fn(Vec<isize>) -> bool);
}

#[test]
fn samelen_selection() {
    quickcheck(check_samelen_selection as fn(Vec<isize>) -> bool);
}

#[test]
fn samelen_merge() {
    quickcheck(check_samelen_merge as fn(Vec<isize>) -> bool);
}

#[test]
fn samelen_merge_insertion() {
    quickcheck(check_samelen_merge_insertion as fn(Vec<isize>) -> bool);
}

#[test]
fn samelen_heapsort_up() {
    quickcheck(check_samelen_heapsort_up as fn(Vec<isize>) -> bool);
}

#[test]
fn samelen_heapsort_down() {
    quickcheck(check_samelen_heapsort_down as fn(Vec<isize>) -> bool);
}

#[test]
fn samelen_quicksort_dumb() {
    quickcheck(check_samelen_quicksort_dumb as fn(Vec<isize>) -> bool);
}

#[test]
fn samelen_quicksort_smart() {
    quickcheck(check_samelen_quicksort_smart as fn(Vec<isize>) -> bool);
}

#[test]
fn samelen_quicksort_insertion() {
    quickcheck(check_samelen_quicksort_insertion as fn(Vec<isize>) -> bool);
}

#[test]
fn samelen_quicksort_simple() {
    quickcheck(check_samelen_quicksort_simple as fn(Vec<isize>) -> bool);
}

fn check_sorted_insertion(xs: Vec<isize>) -> bool {
    sorted_with(insertion::<isize>, xs)
}

fn check_sorted_bubble(xs: Vec<isize>) -> bool {
    sorted_with(bubble::<isize>, xs)
}

fn check_sorted_selection(xs: Vec<isize>) -> bool {
    sorted_with(selection::<isize>, xs)
}

fn check_sorted_merge(xs: Vec<isize>) -> bool {
    sorted_with(merge::sort::<isize>, xs)
}

fn check_sorted_merge_insertion(xs: Vec<isize>) -> bool {
    sorted_with(merge::insertion::<isize>, xs)
}

fn check_sorted_heapsort_up(xs: Vec<isize>) -> bool {
    sorted_with(heap::up::<isize>, xs)
}

fn check_sorted_heapsort_down(xs: Vec<isize>) -> bool {
    sorted_with(heap::down::<isize>, xs)
}

fn check_sorted_quicksort_dumb(xs: Vec<isize>) -> bool {
    sorted_with(quick::dumb::<isize>, xs)
}

fn check_sorted_quicksort_smart(xs: Vec<isize>) -> bool {
    sorted_with(quick::smart::<isize>, xs)
}

fn check_sorted_quicksort_insertion(xs: Vec<isize>) -> bool {
    sorted_with(quick::insertion::<isize>, xs)
}

fn check_sorted_quicksort_simple(xs: Vec<isize>) -> bool {
    is_sorted(&quick::simple(xs))
}

#[test]
fn sorted_insertion() {
    quickcheck(check_sorted_insertion as fn(Vec<isize>) -> bool);
}

#[test]
fn sorted_bubble() {
    quickcheck(check_sorted_bubble as fn(Vec<isize>) -> bool);
}

#[test]
fn sorted_selection() {
    quickcheck(check_sorted_selection as fn(Vec<isize>) -> bool);
}

#[test]
fn sorted_merge() {
    quickcheck(check_sorted_merge as fn(Vec<isize>) -> bool);
}

#[test]
fn sorted_merge_insertion() {
    quickcheck(check_sorted_merge_insertion as fn(Vec<isize>) -> bool);
}

#[test]
fn sorted_heapsort_up() {
    quickcheck(check_sorted_heapsort_up as fn(Vec<isize>) -> bool);
}

#[test]
fn sorted_heapsort_down() {
    quickcheck(check_sorted_heapsort_down as fn(Vec<isize>) -> bool);
}

#[test]
fn sorted_quicksort_dumb() {
    quickcheck(check_sorted_quicksort_dumb as fn(Vec<isize>) -> bool);
}

#[test]
fn sorted_quicksort_smart() {
    quickcheck(check_sorted_quicksort_smart as fn(Vec<isize>) -> bool);
}

#[test]
fn sorted_quicksort_insertion() {
    quickcheck(check_sorted_quicksort_insertion as fn(Vec<isize>) -> bool);
}

#[test]
fn sorted_quicksort_simple() {
    quickcheck(check_sorted_quicksort_simple as fn(Vec<isize>) -> bool);
}

fn check_permuted_insertion(xs: Vec<isize>) -> bool {
    permuted_with(insertion::<isize>, xs)
}

fn check_permuted_bubble(xs: Vec<isize>) -> bool {
    permuted_with(bubble::<isize>, xs)
}

fn check_permuted_selection(xs: Vec<isize>) -> bool {
    permuted_with(selection::<isize>, xs)
}

fn check_permuted_merge(xs: Vec<isize>) -> bool {
    permuted_with(merge::sort::<isize>, xs)
}

fn check_permuted_merge_insertion(xs: Vec<isize>) -> bool {
    permuted_with(merge::insertion::<isize>, xs)
}

fn check_permuted_heapsort_up(xs: Vec<isize>) -> bool {
    permuted_with(heap::up::<isize>, xs)
}

fn check_permuted_heapsort_down(xs: Vec<isize>) -> bool {
    permuted_with(heap::down::<isize>, xs)
}

fn check_permuted_quicksort_dumb(xs: Vec<isize>) -> bool {
    permuted_with(quick::dumb::<isize>, xs)
}

fn check_permuted_quicksort_smart(xs: Vec<isize>) -> bool {
    permuted_with(quick::smart::<isize>, xs)
}

fn check_permuted_quicksort_insertion(xs: Vec<isize>) -> bool {
    permuted_with(quick::insertion::<isize>, xs)
}

fn check_permuted_quicksort_simple(xs: Vec<isize>) -> bool {
    let mut expected = xs.clone();
    expected.sort();
    quick::simple(xs) == expected
}

#[test]
fn permuted_insertion() {
    quickcheck(check_permuted_insertion as fn(Vec<isize>) -> bool);
}

#[test]
fn permuted_bubble() {
    quickcheck(check_permuted_bubble as fn(Vec<isize>) -> bool);
}

#[test]
fn permuted_selection() {
    quickcheck(check_permuted_selection as fn(Vec<isize>) -> bool);
}

#[test]
fn permuted_merge() {
    quickcheck(check_permuted_merge as fn(Vec<isize>) -> bool);
}

#[test]
fn permuted_merge_insertion() {
    quickcheck(check_permuted_merge_insertion as fn(Vec<isize>) -> bool);
}

#[test]
fn permuted_heapsort_up() {
    quickcheck(check_permuted_heapsort_up as fn(Vec<isize>) -> bool);
}

#[test]
fn permuted_heapsort_down() {
    quickcheck(check_permuted_heapsort_down as fn(Vec<isize>) -> bool);
}

#[test]
fn permuted_quicksort_dumb() {
    quickcheck(check_permuted_quicksort_dumb as fn(Vec<isize>) -> bool);
}

#[test]
fn permuted_quicksort_smart() {
    quickcheck(check_permuted_quicksort_smart as fn(Vec<isize>) -> bool);
}

#[test]
fn permuted_quicksort_insertion() {
    quickcheck(check_permuted_quicksort_insertion as fn(Vec<isize>) -> bool);
}

#[test]
fn permuted_quicksort_simple() {
    quickcheck(check_permuted_quicksort_simple as fn(Vec<isize>) -> bool);
}

fn check_stable_insertion(xs: Vec<isize>) -> bool {
    stable_with(insertion::<Pair>, xs)
}

fn check_stable_bubble(xs: Vec<isize>) -> bool {
    stable_with(bubble::<Pair>, xs)
}

fn check_stable_merge(xs: Vec<isize>) -> bool {
    stable_with(merge::sort::<Pair>, xs)
}

fn check_stable_merge_insertion(xs: Vec<isize>) -> bool {
    stable_with(merge::insertion::<Pair>, xs)
}

fn check_stable_insertion_few_values(xs: Vec<u8>) -> bool {
    stable_on_few_values_with(insertion::<Pair>, xs)
}

fn check_stable_bubble_few_values(xs: Vec<u8>) -> bool {
    stable_on_few_values_with(bubble::<Pair>, xs)
}

fn check_stable_merge_few_values(xs: Vec<u8>) -> bool {
    stable_on_few_values_with(merge::sort::<Pair>, xs)
}

fn check_stable_merge_insertion_few_values(xs: Vec<u8>) -> bool {
    stable_on_few_values_with(merge::insertion::<Pair>, xs)
}

#[test]
fn stable_insertion() {
    quickcheck(check_stable_insertion as fn(Vec<isize>) -> bool);
    quickcheck(check_stable_insertion_few_values as fn(Vec<u8>) -> bool);
}

#[test]
fn stable_bubble() {
    quickcheck(check_stable_bubble as fn(Vec<isize>) -> bool);
    quickcheck(check_stable_bubble_few_values as fn(Vec<u8>) -> bool);
}

#[test]
fn stable_merge() {
    quickcheck(check_stable_merge as fn(Vec<isize>) -> bool);
    quickcheck(check_stable_merge_few_values as fn(Vec<u8>) -> bool);
}

#[test]
fn stable_merge_insertion() {
    quickcheck(check_stable_merge_insertion as fn(Vec<isize>) -> bool);
    quickcheck(check_stable_merge_insertion_few_values as fn(Vec<u8>) -> bool);
}

fn check_stable_selection(xs: Vec<u8>) -> bool {
    stable_on_few_values_with(selection::<Pair>, xs)
}

fn check_stable_heapsort_up(xs: Vec<u8>) -> bool {
    stable_on_few_values_with(heap::up::<Pair>, xs)
}

fn check_stable_heapsort_down(xs: Vec<u8>) -> bool {
    stable_on_few_values_with(heap::down::<Pair>, xs)
}

fn check_stable_quicksort_dumb(xs: Vec<u8>) -> bool {
    stable_on_few_values_with(quick::dumb::<Pair>, xs)
}

fn check_stable_quicksort_smart(xs: Vec<u8>) -> bool {
    stable_on_few_values_with(quick::smart::<Pair>, xs)
}

fn check_stable_quicksort_insertion(xs: Vec<u8>) -> bool {
    stable_on_few_values_with(quick::insertion::<Pair>, xs)
}

fn check_stable_quicksort_simple(xs: Vec<u8>) -> bool {
    let keys: Vec<isize> = xs.iter().map(|&x| (x % 4) as isize).collect();
    let out = quick::simple(stable_annotate(&keys));
    is_stable(&out) && is_sorted(&out)
}

#[test]
fn unstable_selection() {
    assert!(some_input_breaks_stability(check_stable_selection));
}

#[test]
fn unstable_heapsort_up() {
    assert!(some_input_breaks_stability(check_stable_heapsort_up));
}

#[test]
fn unstable_heapsort_down() {
    assert!(some_input_breaks_stability(check_stable_heapsort_down));
}

#[test]
fn unstable_quicksort_dumb() {
    assert!(some_input_breaks_stability(check_stable_quicksort_dumb));
}

#[test]
fn unstable_quicksort_smart() {
    assert!(some_input_breaks_stability(check_stable_quicksort_smart));
}

#[test]
fn unstable_quicksort_insertion() {
    assert!(some_input_breaks_stability(check_stable_quicksort_insertion));
}

#[test]
fn unstable_quicksort_simple() {
    assert!(some_input_breaks_stability(check_stable_quicksort_simple));
}
