//! Sorting algorithms on slices, for any totally ordered element type, each
//! with a proof of what it returns.
//!
//! The elementary sorts stand here: [`insertion`], [`bubble`], [`selection`]
//! and [`bogo`]. The others have a module each: [`quick`] for the quicksorts
//! and their partitioning, [`heap`] for heapsort and the sift operations,
//! [`merge`] for the bottom-up mergesorts.
//!
//! What the sorts promise is said in the words of four small modules:
//! [`order`] (the element type's order and its laws), [`sortedness`],
//! [`rearrange`] (one sequence holding the elements of another) and
//! [`stability`]. Every sort leaves the slice sorted, as long as it was, and
//! holding the same elements, each as often as before. The stable ones,
//! insertion sort, bubble sort and the mergesorts, promise in addition that
//! elements which compare equal keep their order; together with sortedness
//! this fixes the result, [`stability::stably_sorted`]. A slice of at most
//! one element is never changed, and a sorted slice is left as it is up to
//! the order of elements that compare equal.
//!
//! The other sorts are not stable, and which way they take decides where
//! elements that compare equal come out. For each of them, and for each of
//! the steps it is made of, a function says what comes out: [`selected`],
//! [`quick::parted`], [`quick::quick_sorted`], [`quick::hybrid_sorted`],
//! [`quick::simple_sorted`], [`heap::sunk`], [`heap::risen`],
//! [`heap::heap_sorted`], [`merge::merged`]. The contracts also give an
//! input on which each of them lets elements that compare equal change
//! places.
//!
//! One module holds what is believed and not proved: [`random`], about the
//! random source that [`bogo`] shuffles with. [`slices`] holds the exchange
//! and the copying of elements that the sorts are made of.
//!
//! All the sorts ask that the element type be totally ordered,
//! [`order::total_order`]. For the primitive integers, and for tuples,
//! options and references of totally ordered types, verified callers get
//! that from `vstd::laws_cmp::group_laws_cmp`.
//!
//! The quicksorts recurse, as deep as their pivots are bad; see [`quick`].

use vstd::prelude::*;

pub mod heap;
pub mod merge;
pub mod order;
pub mod quick;
pub mod random;
pub mod rearrange;
pub mod slices;
pub mod sortedness;
pub mod stability;

verus! {

use crate::order::{
    equiv,
    greater,
    le,
    lemma_le_trans,
    lemma_order_laws,
    less,
    lt,
    total_order,
};
use crate::rearrange::{lemma_short_permutation, lemma_swap_permutes, swapped};
use crate::random::shuffle;
use crate::slices::exchange;
use crate::sortedness::{lemma_sorted_by_neighbours, sorted};
use crate::stability::{
    lemma_stable_sorting,
    lemma_stable_trans,
    lemma_swap_neighbours_stable,
    stable,
    stably_sorted,
};

/// Sub-ranges of at most this many elements are sorted by insertion in the
/// hybrid quicksort and mergesort.
pub const INSERTION_THRESHOLD: usize = 16;

/// Insertion sort, in place: each element in turn is moved left past every
/// element ordered strictly after it. Quadratic in the worst case. Stable.
pub fn insertion<T: Ord>(xs: &mut [T])
    requires
        total_order::<T>(),
    ensures
        sorted(final(xs)@),
        stable(old(xs)@, final(xs)@),
        final(xs)@ == stably_sorted(old(xs)@),
        final(xs)@.to_multiset() == old(xs)@.to_multiset(),
        final(xs)@.len() == old(xs)@.len(),
        sorted(old(xs)@) ==> final(xs)@ == old(xs)@,
        old(xs)@.len() <= 1 ==> final(xs)@ == old(xs)@,
{
    let ghost orig = xs@;
    let len = xs.len();
    let mut i: usize = 1;
    proof {
        lemma_order_laws::<T>();
    }
    while i < len
        invariant
            total_order::<T>(),
            xs@.len() == len,
            1 <= i,
            forall|a: int, b: int|
                0 <= a < b < i && b < len ==> le(#[trigger] xs@[a], #[trigger] xs@[b]),
            stable(orig, xs@),
        decreases len - i,
    {
        let mut j = i;
        while j > 0 && greater(&xs[j - 1], &xs[j])
            invariant
                total_order::<T>(),
                xs@.len() == len,
                j <= i < len,
                forall|a: int, b: int|
                    0 <= a < b <= i && a != j && b != j ==> le(
                        #[trigger] xs@[a],
                        #[trigger] xs@[b],
                    ),
                forall|b: int| j < b <= i ==> lt(xs@[j as int], #[trigger] xs@[b]),
                stable(orig, xs@),
            decreases j,
        {
            let ghost before = xs@;
            exchange(xs, j - 1, j);
            proof {
                lemma_order_laws::<T>();
                lemma_swap_neighbours_stable(before, j - 1);
                lemma_stable_trans(orig, before, xs@);
            }
            j = j - 1;
        }
        proof {
            lemma_order_laws::<T>();
            assert forall|a: int, b: int| 0 <= a < b <= i implies le(
                #[trigger] xs@[a],
                #[trigger] xs@[b],
            ) by {
                if b == j && a < j - 1 {
                    lemma_le_trans(xs@[a], xs@[j - 1], xs@[j as int]);
                } else if a == j {
                    assert(lt(xs@[j as int], xs@[b]));
                }
            }
        }
        i = i + 1;
    }
    proof {
        lemma_stable_sorting(orig, xs@);
    }
}

/// Bubble sort, in place: passes that exchange neighbours out of order, each
/// pass ending where the one before made its last exchange. Quadratic in the
/// worst case. Stable.
pub fn bubble<T: Ord>(xs: &mut [T])
    requires
        total_order::<T>(),
    ensures
        sorted(final(xs)@),
        stable(old(xs)@, final(xs)@),
        final(xs)@ == stably_sorted(old(xs)@),
        final(xs)@.to_multiset() == old(xs)@.to_multiset(),
        final(xs)@.len() == old(xs)@.len(),
        sorted(old(xs)@) ==> final(xs)@ == old(xs)@,
        old(xs)@.len() <= 1 ==> final(xs)@ == old(xs)@,
{
    let ghost orig = xs@;
    let len = xs.len();
    let mut n = len;
    while n > 0
        invariant
            total_order::<T>(),
            xs@.len() == len,
            n <= len,
            forall|a: int, b: int| n <= a < b < len ==> le(#[trigger] xs@[a], #[trigger] xs@[b]),
            forall|a: int, b: int|
                0 <= a < n <= b < len ==> le(#[trigger] xs@[a], #[trigger] xs@[b]),
            stable(orig, xs@),
        decreases n,
    {
        let mut newn: usize = 0;
        let mut i: usize = 1;
        proof {
            lemma_order_laws::<T>();
        }
        while i < n
            invariant
                total_order::<T>(),
                xs@.len() == len,
                0 < n <= len,
                1 <= i <= n,
                newn < i,
                forall|a: int, b: int|
                    n <= a < b < len ==> le(#[trigger] xs@[a], #[trigger] xs@[b]),
                forall|a: int, b: int|
                    0 <= a < n <= b < len ==> le(#[trigger] xs@[a], #[trigger] xs@[b]),
                forall|a: int| 0 <= a < i ==> le(#[trigger] xs@[a], xs@[i - 1]),
                forall|a: int, b: int|
                    newn <= a < b < i ==> le(#[trigger] xs@[a], #[trigger] xs@[b]),
                forall|a: int| 0 <= a < newn ==> le(#[trigger] xs@[a], xs@[newn as int]),
                stable(orig, xs@),
            decreases n - i,
        {
            let ghost before = xs@;
            proof {
                lemma_order_laws::<T>();
            }
            if greater(&xs[i - 1], &xs[i]) {
                exchange(xs, i - 1, i);
                newn = i;
                proof {
                    assert(xs@ =~= swapped(before, i - 1, i as int));
                    lemma_swap_neighbours_stable(before, i - 1);
                    lemma_stable_trans(orig, before, xs@);
                }
            } else {
                proof {
                    assert forall|a: int|
                        0 <= a < i + 1 implies le(#[trigger] xs@[a], xs@[i as int]) by {
                        if a < i {
                            lemma_le_trans(xs@[a], xs@[i - 1], xs@[i as int]);
                        }
                    }
                }
            }
            i = i + 1;
        }
        proof {
            lemma_order_laws::<T>();
            assert forall|a: int, b: int| 0 <= a < newn <= b < len implies le(
                #[trigger] xs@[a],
                #[trigger] xs@[b],
            ) by {
                if b < n {
                    lemma_le_trans(xs@[a], xs@[newn as int], xs@[b]);
                }
            }
        }
        n = newn;
    }
    proof {
        lemma_stable_sorting(orig, xs@);
    }
}

/// Where the least of the elements of `s` from `lo` up to `hi` stands: the
/// first of them where several compare equal.
pub open spec fn least_index<T: Ord>(s: Seq<T>, lo: int, hi: int) -> int
    decreases hi - lo,
{
    if hi - lo <= 1 {
        lo
    } else {
        let k = least_index(s, lo, hi - 1);
        if lt(s[hi - 1], s[k]) {
            hi - 1
        } else {
            k
        }
    }
}

/// The least of the elements from `lo` up to `hi` stands among them.
pub proof fn lemma_least_index_in_range<T: Ord>(s: Seq<T>, lo: int, hi: int)
    requires
        lo < hi,
    ensures
        lo <= least_index(s, lo, hi) < hi,
    decreases hi - lo,
{
    if hi - lo > 1 {
        lemma_least_index_in_range(s, lo, hi - 1);
    }
}

/// What selection sort makes of `s` once the positions before `i` are
/// done: the element at `i` changes places with the least of those from `i`
/// on, the first of them if several compare equal, and so on from `i + 1`.
pub open spec fn selected<T: Ord>(s: Seq<T>, i: int) -> Seq<T>
    decreases s.len() - i,
    via selected_decreases::<T>
{
    if i < 0 || i >= s.len() {
        s
    } else {
        selected(swapped(s, i, least_index(s, i, s.len() as int)), i + 1)
    }
}

#[via_fn]
proof fn selected_decreases<T: Ord>(s: Seq<T>, i: int) {
    if 0 <= i < s.len() {
        lemma_least_index_in_range(s, i, s.len() as int);
    }
}

/// Selection sort is not stable: of three elements, the first two of which
/// compare equal while the third is ordered before them, it makes the
/// reverse, so that the first two change places.
pub proof fn lemma_selection_lets_equal_elements_cross<T: Ord>(s: Seq<T>)
    requires
        total_order::<T>(),
        s.len() == 3,
        equiv(s[0], s[1]),
        lt(s[2], s[0]),
    ensures
        selected(s, 0) == seq![s[2], s[1], s[0]],
{
    lemma_order_laws::<T>();
    reveal_with_fuel(least_index, 4);
    reveal_with_fuel(selected, 5);
    let t = swapped(s, 0, 2);
    assert(least_index(s, 0, 3) == 2);
    assert(least_index(t, 1, 3) == 1) by {
        lemma_le_trans(s[2], s[0], s[1]);
    }
    assert(least_index(t, 2, 3) == 2);
    assert(swapped(t, 1, 1) =~= t);
    assert(swapped(t, 2, 2) =~= t);
    assert(t =~= seq![s[2], s[1], s[0]]);
}

/// Selection sort, in place: the least element of what is left, the first
/// such where several compare equal, is exchanged with the first of what is
/// left. Quadratic. Not stable: the exchange can carry an element over
/// others that compare equal to it.
pub fn selection<T: Ord>(xs: &mut [T])
    requires
        total_order::<T>(),
    ensures
        final(xs)@ == selected(old(xs)@, 0),
        sorted(final(xs)@),
        final(xs)@.to_multiset() == old(xs)@.to_multiset(),
        final(xs)@.len() == old(xs)@.len(),
        sorted(old(xs)@) ==> final(xs)@ == old(xs)@,
        old(xs)@.len() <= 1 ==> final(xs)@ == old(xs)@,
        old(xs)@.len() == 3 && equiv(old(xs)@[0], old(xs)@[1]) && lt(old(xs)@[2], old(xs)@[0])
            ==> final(xs)@ == seq![old(xs)@[2], old(xs)@[1], old(xs)@[0]],
{
    let ghost orig = xs@;
    let len = xs.len();
    let mut i: usize = 0;
    while i < len
        invariant
            total_order::<T>(),
            xs@.len() == len,
            i <= len,
            forall|a: int, b: int| 0 <= a < b < i ==> le(#[trigger] xs@[a], #[trigger] xs@[b]),
            forall|a: int, b: int|
                0 <= a < i <= b < len ==> le(#[trigger] xs@[a], #[trigger] xs@[b]),
            xs@.to_multiset() == orig.to_multiset(),
            sorted(orig) ==> xs@ == orig,
            selected(xs@, i as int) == selected(orig, 0),
        decreases len - i,
    {
        let mut j = i + 1;
        let mut cur_min = i;
        proof {
            lemma_order_laws::<T>();
        }
        while j < len
            invariant
                total_order::<T>(),
                xs@.len() == len,
                i <= cur_min < j <= len,
                forall|k: int| i <= k < j ==> le(xs@[cur_min as int], #[trigger] xs@[k]),
                sorted(xs@) ==> cur_min == i,
                cur_min == least_index(xs@, i as int, j as int),
            decreases len - j,
        {
            proof {
                lemma_order_laws::<T>();
            }
            if less(&xs[j], &xs[cur_min]) {
                cur_min = j;
            }
            j = j + 1;
        }
        let ghost before = xs@;
        exchange(xs, i, cur_min);
        proof {
            lemma_order_laws::<T>();
            assert(xs@ == swapped(before, i as int, cur_min as int));
            lemma_swap_permutes(before, i as int, cur_min as int);
            if sorted(orig) {
                assert(xs@ =~= before);
            }
        }
        i = i + 1;
    }
    proof {
        if len <= 1 {
            lemma_short_permutation(orig, xs@);
        }
        if len == 3 && equiv(orig[0], orig[1]) && lt(orig[2], orig[0]) {
            lemma_selection_lets_equal_elements_cross(orig);
        }
    }
}

/// Whether the slice is sorted.
pub fn is_sorted<T: Ord>(xs: &[T]) -> (r: bool)
    requires
        total_order::<T>(),
    ensures
        r == sorted(xs@),
{
    let mut i: usize = 1;
    while i < xs.len()
        invariant
            total_order::<T>(),
            1 <= i,
            forall|k: int|
                0 <= k < i - 1 && k + 1 < xs@.len() ==> le(#[trigger] xs@[k], xs@[k + 1]),
        decreases xs@.len() - i,
    {
        proof {
            lemma_order_laws::<T>();
        }
        if greater(&xs[i - 1], &xs[i]) {
            return false;
        }
        i = i + 1;
    }
    proof {
        lemma_sorted_by_neighbours(xs@);
    }
    true
}

/// Bogosort with a limit: as long as the slice is not sorted it is
/// shuffled, at most `rounds` times. Returns whether the slice is sorted in
/// the end.
///
/// A sorted slice is never shuffled, and with no rounds none is. For any
/// other, how many rounds it takes is a matter of chance, without a bound;
/// so no number of rounds makes success certain, and the caller who wants to
/// go on until the slice is sorted calls again.
pub fn bogo<T: Ord>(xs: &mut [T], rounds: u64) -> (done: bool)
    requires
        total_order::<T>(),
    ensures
        done == sorted(final(xs)@),
        final(xs)@.to_multiset() == old(xs)@.to_multiset(),
        final(xs)@.len() == old(xs)@.len(),
        sorted(old(xs)@) || rounds == 0 ==> final(xs)@ == old(xs)@,
        old(xs)@.len() <= 1 ==> done && final(xs)@ == old(xs)@,
{
    let ghost orig = xs@;
    let mut rng = rand::thread_rng();
    let mut left = rounds;
    while !is_sorted(xs)
        invariant
            total_order::<T>(),
            orig == old(xs)@,
            xs@.to_multiset() == orig.to_multiset(),
            xs@.len() == orig.len(),
            sorted(orig) || left == rounds ==> xs@ == orig,
            left <= rounds,
        decreases left,
    {
        if left == 0 {
            return false;
        }
        shuffle(xs, &mut rng);
        left = left - 1;
    }
    proof {
        if orig.len() <= 1 {
            lemma_short_permutation(orig, xs@);
        }
    }
    true
}

} // verus!
