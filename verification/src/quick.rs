//! Quicksort: one partitioning routine, and the sorts built on it, which
//! differ in how they choose the pivot and in when they stop recursing.
//!
//! The in-place sorts recurse on both sides of the pivot. With the first
//! element as pivot the recursion is as deep as the slice is long on input
//! that is already sorted or all equal; choosing the pivot among three
//! elements avoids that for sorted input, not for every input.

use vstd::prelude::*;
use vstd::seq_lib::lemma_multiset_commutative;
use vstd::seq_lib::to_multiset_build;
use crate::order::{
    at_most,
    equiv,
    le,
    lemma_le_trans,
    lemma_order_laws,
    lt,
    total_order,
};
use crate::rearrange::{
    lemma_concat_permutes,
    lemma_permutation_member,
    lemma_split,
    lemma_swap_permutes,
    swapped,
};
use crate::slices::exchange;
use crate::sortedness::{
    constant,
    equivalent,
    lemma_sorted_concat,
    lemma_sorting_sorted_input,
    rotated,
    sorted,
    told_apart,
};
use crate::stability::stably_sorted;
use crate::INSERTION_THRESHOLD;

verus! {

/// The element at `q` parts `s`: nothing before it is ordered after it, and
/// everything after it is ordered strictly after it.
pub open spec fn partitioned<T: Ord>(s: Seq<T>, q: int) -> bool {
    &&& 0 <= q < s.len()
    &&& forall|k: int| 0 <= k < q ==> le(#[trigger] s[k], s[q])
    &&& forall|k: int| q < k < s.len() ==> lt(s[q], #[trigger] s[k])
}

/// `x` lies between `a` and `b`, whichever of the two is the lesser: it is
/// a median of the three.
pub open spec fn between<T: Ord>(a: T, x: T, b: T) -> bool {
    ||| le(a, x) && le(x, b)
    ||| le(b, x) && le(x, a)
}

/// The index that [`smart_pivot`] chooses in a non-empty `s`: that of the
/// median of the first, the middle and the last element. Where more than
/// one of them is a median, the middle one goes before the first, and the
/// first before the last.
pub open spec fn smart_pivot_index<T: Ord>(s: Seq<T>) -> int {
    let l: int = 0;
    let r: int = s.len() - 1;
    let m: int = l + (r - l) / 2;
    if between(s[l], s[m], s[r]) {
        m
    } else if between(s[m], s[l], s[r]) {
        l
    } else {
        r
    }
}

/// The values that are not ordered after `pivot`.
pub open spec fn not_after<T: Ord>(pivot: T) -> spec_fn(T) -> bool {
    |x: T| le(x, pivot)
}

/// What stands before the pivot once `s` is parted around its element at
/// `p`: the pivot changes places with the last element, and of what then
/// stands before the last position, everything that is not ordered after
/// the pivot is kept, in that order.
pub open spec fn before_pivot<T: Ord>(s: Seq<T>, p: int) -> Seq<T> {
    swapped(s, s.len() - 1, p).subrange(0, s.len() - 1).filter(not_after(s[p]))
}

/// The scan of the first `i` elements of `s` for what is not ordered after
/// `pivot`: each such element changes places with the first element that
/// the scan has passed over. The result is what the scan has made of `s`,
/// and how many elements it has found.
pub open spec fn scanned<T: Ord>(s: Seq<T>, pivot: T, i: int) -> (Seq<T>, int)
    decreases i,
{
    if i <= 0 {
        (s, 0int)
    } else {
        let before = scanned(s, pivot, i - 1);
        if le(before.0[i - 1], pivot) {
            (swapped(before.0, i - 1, before.1), before.1 + 1)
        } else {
            before
        }
    }
}

/// What [`partition`] makes of `s` around its element at `p`, and where the
/// pivot rests: the pivot changes places with the last element, all before
/// the last is scanned, and the pivot changes places with the first element
/// that the scan has passed over.
pub open spec fn parted<T: Ord>(s: Seq<T>, p: int) -> (Seq<T>, int) {
    if s.len() <= 1 {
        (s, p)
    } else {
        let last = s.len() - 1;
        let done = scanned(swapped(s, last, p), s[p], last);
        (swapped(done.0, done.1, last), done.1)
    }
}

/// Rearranges `xs` around the element at `p`, the pivot, and returns where
/// the pivot comes to rest: what is not ordered after the pivot stands
/// before it, in the order in which a scan from the left meets it once the
/// pivot has changed places with the last element; what is ordered strictly
/// after the pivot stands behind it. A slice of at most one element is left
/// as it is, and `p` is returned.
pub fn partition<T: Ord>(xs: &mut [T], p: usize) -> (q: usize)
    requires
        total_order::<T>(),
        old(xs)@.len() > 1 ==> p < old(xs)@.len(),
    ensures
        (final(xs)@, q as int) == parted(old(xs)@, p as int),
        final(xs)@.len() == old(xs)@.len(),
        final(xs)@.to_multiset() == old(xs)@.to_multiset(),
        old(xs)@.len() <= 1 ==> q == p && final(xs)@ == old(xs)@,
        old(xs)@.len() > 1 ==> partitioned(final(xs)@, q as int) && final(xs)@[q as int] == old(
            xs,
        )@[p as int],
        old(xs)@.len() > 1 ==> final(xs)@.subrange(0, q as int) == before_pivot(
            old(xs)@,
            p as int,
        ),
{
    if xs.len() <= 1 {
        return p;
    }
    let ghost orig = xs@;
    let lasti = xs.len() - 1;
    let mut i: usize = 0;
    let mut nextp: usize = 0;
    exchange(xs, lasti, p);
    let ghost begun = xs@;
    let ghost small = not_after(orig[p as int]);
    proof {
        assert(xs@ == swapped(orig, lasti as int, p as int));
        lemma_swap_permutes(orig, lasti as int, p as int);
        begun.subrange(0, 0).lemma_filter_len(small);
        assert(xs@.subrange(0, 0) =~= begun.subrange(0, 0).filter(small));
    }
    while i < lasti
        invariant
            total_order::<T>(),
            xs@.len() == lasti + 1,
            begun.len() == lasti + 1,
            nextp <= i <= lasti,
            xs@[lasti as int] == orig[p as int],
            small == not_after(orig[p as int]),
            forall|k: int| i <= k <= lasti ==> xs@[k] == begun[k],
            (xs@, nextp as int) == scanned(begun, orig[p as int], i as int),
            xs@.subrange(0, nextp as int) == begun.subrange(0, i as int).filter(small),
            forall|k: int| 0 <= k < nextp ==> le(#[trigger] xs@[k], xs@[lasti as int]),
            forall|k: int| nextp <= k < i ==> lt(xs@[lasti as int], #[trigger] xs@[k]),
            xs@.to_multiset() == orig.to_multiset(),
        decreases lasti - i,
    {
        proof {
            lemma_order_laws::<T>();
        }
        let ghost before = xs@;
        proof {
            assert(begun.subrange(0, i + 1) =~= begun.subrange(0, i as int).push(begun[i as int]));
            begun.subrange(0, i as int).lemma_filter_push(begun[i as int], small);
        }
        if at_most(&xs[i], &xs[lasti]) {
            exchange(xs, i, nextp);
            proof {
                assert(xs@ == swapped(before, i as int, nextp as int));
                lemma_swap_permutes(before, i as int, nextp as int);
                assert(xs@.subrange(0, nextp + 1) =~= before.subrange(0, nextp as int).push(
                    before[i as int],
                ));
            }
            nextp = nextp + 1;
        } else {
            proof {
                assert(xs@.subrange(0, nextp as int) =~= before.subrange(0, nextp as int));
            }
        }
        i = i + 1;
    }
    let ghost before = xs@;
    exchange(xs, nextp, lasti);
    proof {
        assert(xs@ == swapped(before, nextp as int, lasti as int));
        lemma_swap_permutes(before, nextp as int, lasti as int);
        assert(xs@.subrange(0, nextp as int) =~= before.subrange(0, nextp as int));
    }
    nextp
}

/// Chooses the pivot among the first, the middle and the last element: the
/// one that is the median of the three, which is the one that lies between
/// the other two. Where that holds of more than one, the middle one is
/// chosen before the first, and the first before the last.
pub fn smart_pivot<T: Ord>(xs: &[T]) -> (p: usize)
    requires
        total_order::<T>(),
        xs@.len() > 0,
    ensures
        p == smart_pivot_index(xs@),
        p == 0 || p == (xs@.len() - 1) / 2 || p == xs@.len() - 1,
        p == (xs@.len() - 1) / 2 ==> between(xs@[0], xs@[p as int], xs@[xs@.len() - 1]),
        p == 0 ==> between(xs@[(xs@.len() - 1) / 2], xs@[p as int], xs@[xs@.len() - 1]),
        p == xs@.len() - 1 ==> between(xs@[0], xs@[p as int], xs@[(xs@.len() - 1) / 2]),
{
    let l: usize = 0;
    let r: usize = xs.len() - 1;
    let m: usize = l + ((r - l) / 2);
    proof {
        lemma_order_laws::<T>();
    }
    if (at_most(&xs[l], &xs[m]) && at_most(&xs[m], &xs[r])) || (at_most(&xs[r], &xs[m])
        && at_most(&xs[m], &xs[l])) {
        m
    } else if (at_most(&xs[m], &xs[l]) && at_most(&xs[l], &xs[r])) || (at_most(&xs[r], &xs[l])
        && at_most(&xs[l], &xs[m])) {
        l
    } else {
        r
    }
}

/// The pivot of the plain quicksort: the first element.
pub fn first_pivot<T: Ord>(_xs: &[T]) -> (p: usize)
    ensures
        p == 0,
{
    0
}

/// A filter that everything passes keeps everything.
proof fn lemma_filter_all<T>(s: Seq<T>, p: spec_fn(T) -> bool)
    requires
        forall|k: int| 0 <= k < s.len() ==> p(#[trigger] s[k]),
    ensures
        s.filter(p) == s,
    decreases s.len(),
{
    if s.len() == 0 {
        s.lemma_filter_len(p);
        assert(s.filter(p) =~= s);
    } else {
        let r = s.drop_last();
        assert(s =~= r.push(s.last()));
        r.lemma_filter_push(s.last(), p);
        assert forall|k: int| 0 <= k < r.len() implies p(#[trigger] r[k]) by {
            assert(r[k] == s[k]);
        }
        lemma_filter_all(r, p);
    }
}

/// Parting a slice whose elements all compare equal does no more than let
/// the pivot change places with the last element, where it then rests.
pub proof fn lemma_partition_of_constant<T: Ord>(s: Seq<T>, p: int, parted: Seq<T>, q: int)
    requires
        total_order::<T>(),
        constant(s),
        s.len() > 1,
        0 <= p < s.len(),
        parted.len() == s.len(),
        partitioned(parted, q),
        parted[q] == s[p],
        parted.subrange(0, q) == before_pivot(s, p),
    ensures
        q == s.len() - 1,
        parted == swapped(s, s.len() - 1, p),
        constant(parted),
{
    lemma_order_laws::<T>();
    let last = s.len() - 1;
    let begun = swapped(s, last, p);
    let scanned = begun.subrange(0, last);
    assert forall|k: int| 0 <= k < scanned.len() implies not_after(s[p])(#[trigger] scanned[k]) by {
        assert(equiv(begun[k], s[p]));
    }
    lemma_filter_all(scanned, not_after(s[p]));
    assert(parted.subrange(0, q).len() == scanned.len());
    assert forall|k: int| 0 <= k < parted.len() implies parted[k] == begun[k] by {
        if k < q {
            assert(parted.subrange(0, q)[k] == scanned[k]);
        }
    }
    assert(parted =~= begun);
}

/// Two sorted sequences with a value between them, which nothing in the
/// first is ordered after and nothing in the second is ordered before, are
/// sorted when put one after the other with the value in the middle.
proof fn lemma_sorted_around<T: Ord>(left: Seq<T>, pivot: T, right: Seq<T>)
    requires
        total_order::<T>(),
        sorted(left),
        sorted(right),
        forall|k: int| 0 <= k < left.len() ==> le(#[trigger] left[k], pivot),
        forall|k: int| 0 <= k < right.len() ==> le(pivot, #[trigger] right[k]),
    ensures
        sorted(left + (seq![pivot] + right)),
{
    let mid = seq![pivot];
    assert forall|i: int, j: int| 0 <= i < mid.len() && 0 <= j < right.len() implies le(
        #[trigger] mid[i],
        #[trigger] right[j],
    ) by {}
    lemma_sorted_concat(mid, right);
    assert forall|i: int, j: int| 0 <= i < left.len() && 0 <= j < (mid + right).len() implies le(
        #[trigger] left[i],
        #[trigger] (mid + right)[j],
    ) by {
        if j > 0 {
            lemma_le_trans(left[i], pivot, right[j - 1]);
        }
    }
    lemma_sorted_concat(left, mid + right);
}

/// A slice parted at `q`, whose two sides were then sorted each for itself,
/// is sorted as a whole and holds what it held before it was parted; and if
/// it was sorted before, it is the same up to elements that compare equal.
proof fn lemma_sorted_sides<T: Ord>(
    orig: Seq<T>,
    parted: Seq<T>,
    q: int,
    left: Seq<T>,
    mid: Seq<T>,
    right: Seq<T>,
)
    requires
        total_order::<T>(),
        orig.to_multiset() == parted.to_multiset(),
        partitioned(parted, q),
        sorted(left),
        sorted(right),
        left.to_multiset() == parted.subrange(0, q).to_multiset(),
        mid == parted.subrange(q, parted.len() as int).subrange(0, 1),
        right.to_multiset() == parted.subrange(q, parted.len() as int).subrange(
            1,
            parted.len() - q,
        ).to_multiset(),
    ensures
        sorted(left + (mid + right)),
        (left + (mid + right)).to_multiset() == orig.to_multiset(),
        (left + (mid + right)).len() == orig.len(),
        sorted(orig) ==> equivalent(orig, left + (mid + right)),
        sorted(orig) && told_apart(orig) ==> left + (mid + right) == orig,
{
    let n = parted.len() as int;
    let tail = parted.subrange(q, n);
    lemma_order_laws::<T>();
    assert(tail.subrange(0, 1) =~= parted.subrange(q, q + 1));
    assert(tail.subrange(1, n - q) =~= parted.subrange(q + 1, n));
    assert forall|k: int| 0 <= k < left.len() implies le(#[trigger] left[k], parted[q]) by {
        let m = lemma_permutation_member(parted.subrange(0, q), left, k);
        assert(le(parted[m], parted[q]));
    }
    assert forall|k: int| 0 <= k < right.len() implies le(parted[q], #[trigger] right[k]) by {
        let m = lemma_permutation_member(parted.subrange(q + 1, n), right, k);
        assert(lt(parted[q], parted[q + 1 + m]));
    }
    lemma_sorted_around(left, parted[q], right);
    assert(mid =~= seq![parted[q]]);
    lemma_split(parted, q);
    lemma_split(tail, 1);
    lemma_concat_permutes(mid, parted.subrange(q + 1, n), mid, right);
    lemma_concat_permutes(parted.subrange(0, q), tail, left, mid + right);
    crate::rearrange::lemma_permutation_len(orig, left + (mid + right));
    lemma_sorting_sorted_input(orig, left + (mid + right));
}

/// `pick` says which position `pivot` answers with for each range of two
/// elements or more.
pub open spec fn answers<T, F: Fn(&[T]) -> usize>(pivot: F, pick: spec_fn(Seq<T>) -> int) -> bool {
    forall|s: &[T], p: usize|
        s@.len() > 1 && #[trigger] call_ensures(pivot, (s,), p) ==> p == pick(s@)
}

/// The choice of [`first_pivot`].
pub open spec fn first_choice<T>() -> spec_fn(Seq<T>) -> int {
    |s: Seq<T>| 0int
}

/// The choice of [`smart_pivot`].
pub open spec fn smart_choice<T: Ord>() -> spec_fn(Seq<T>) -> int {
    |s: Seq<T>| smart_pivot_index(s)
}

/// What quicksort makes of `s` when the pivot of each range is where
/// `pick` says: the range parted around the pivot as by [`partition`],
/// with what stands before the pivot and what stands behind it sorted in
/// the same way.
pub open spec fn quick_sorted<T: Ord>(s: Seq<T>, pick: spec_fn(Seq<T>) -> int) -> Seq<T>
    decreases s.len(),
{
    if s.len() <= 1 {
        s
    } else {
        let (t, q) = parted(s, pick(s));
        if t.len() == s.len() && 0 <= q < t.len() {
            quick_sorted(t.subrange(0, q), pick) + (t.subrange(q, q + 1) + quick_sorted(
                t.subrange(q + 1, t.len() as int),
                pick,
            ))
        } else {
            s
        }
    }
}

/// What the hybrid quicksort [`insertion`] makes of `s`: the slice parted
/// around the pivot of [`smart_pivot`] as by [`partition`], and each side
/// sorted stably if it holds at most [`INSERTION_THRESHOLD`] elements, and
/// in the same way as the whole if it holds more.
pub open spec fn hybrid_sorted<T: Ord>(s: Seq<T>) -> Seq<T>
    decreases s.len(),
{
    if s.len() <= 1 {
        s
    } else {
        let (t, q) = parted(s, smart_pivot_index(s));
        if t.len() == s.len() && 0 <= q < t.len() {
            let left = t.subrange(0, q);
            let right = t.subrange(q + 1, t.len() as int);
            (if left.len() <= INSERTION_THRESHOLD {
                stably_sorted(left)
            } else {
                hybrid_sorted(left)
            }) + (t.subrange(q, q + 1) + (if right.len() <= INSERTION_THRESHOLD {
                stably_sorted(right)
            } else {
                hybrid_sorted(right)
            }))
        } else {
            s
        }
    }
}

/// `pivot` answers with the first position whatever range it is shown.
pub open spec fn picks_first<T, F: Fn(&[T]) -> usize>(pivot: F) -> bool {
    forall|s: &[T], p: usize| #[trigger] call_ensures(pivot, (s,), p) ==> p == 0
}

/// `pivot` answers with the first position when it is shown the range `r`.
pub open spec fn picks_first_of<T, F: Fn(&[T]) -> usize>(pivot: F, r: Seq<T>) -> bool {
    forall|s: &[T], p: usize| s@ == r && #[trigger] call_ensures(pivot, (s,), p) ==> p == 0
}

/// Quicksort, in place, with the pivot of each range chosen by `pivot`:
/// the range is parted around the pivot, and both sides are sorted in the
/// same way. `pivot` is asked only about ranges of two elements or more,
/// and must answer with an index into the range it is shown. Not stable:
/// two elements that compare equal change places when the first of them is
/// the pivot, and with the first as pivot throughout, elements that all
/// compare equal come out with the first of them last.
///
/// The recursion is as deep as the choice of pivots makes it: up to the
/// length of the slice.
pub fn qsort<T: Ord, F: Fn(&[T]) -> usize>(xs: &mut [T], pivot: &F)
    requires
        total_order::<T>(),
        forall|s: &[T]| s@.len() > 1 ==> call_requires(*pivot, (s,)),
        forall|s: &[T], p: usize| s@.len() > 1 && call_ensures(*pivot, (s,), p) ==> p < s@.len(),
    ensures
        forall|pick: spec_fn(Seq<T>) -> int|
            answers(*pivot, pick) ==> final(xs)@ == #[trigger] quick_sorted(old(xs)@, pick),
        sorted(final(xs)@),
        final(xs)@.to_multiset() == old(xs)@.to_multiset(),
        final(xs)@.len() == old(xs)@.len(),
        old(xs)@.len() <= 1 ==> final(xs)@ == old(xs)@,
        sorted(old(xs)@) ==> equivalent(old(xs)@, final(xs)@),
        sorted(old(xs)@) && told_apart(old(xs)@) ==> final(xs)@ == old(xs)@,
        old(xs)@.len() == 2 && equiv(old(xs)@[0], old(xs)@[1]) && picks_first_of(
            *pivot,
            old(xs)@,
        ) ==> final(xs)@ == seq![old(xs)@[1], old(xs)@[0]],
        constant(old(xs)@) && picks_first(*pivot) ==> final(xs)@ == rotated(old(xs)@),
    decreases old(xs)@.len(),
{
    let ghost orig = xs@;
    if xs.len() <= 1 {
        proof {
            lemma_sorting_sorted_input(orig, orig);
            assert(rotated(orig) =~= orig);
        }
        return ;
    }
    let p = pivot(xs);
    let q = partition(xs, p);
    let ghost parted = xs@;
    let (left, rest) = xs.split_at_mut(q);
    let (mid, right) = rest.split_at_mut(1);
    let ghost left_before = left@;
    let ghost right_before = right@;
    qsort(left, pivot);
    qsort(right, pivot);
    proof {
        let n = parted.len() as int;
        let k = q as int;
        lemma_sorted_sides(orig, parted, k, left@, mid@, right@);
        lemma_order_laws::<T>();
        let whole = left@ + (mid@ + right@);
        assert forall|pick: spec_fn(Seq<T>) -> int| answers(*pivot, pick) implies whole
            == #[trigger] quick_sorted(orig, pick) by {
            assert(p == pick(orig));
            assert(left@ == quick_sorted(left_before, pick));
            assert(right@ == quick_sorted(right_before, pick));
            assert(parted.subrange(k, n).subrange(0, 1) =~= parted.subrange(k, k + 1));
            assert(parted.subrange(k, n).subrange(1, n - k) =~= parted.subrange(k + 1, n));
        }
        if constant(orig) && p == 0 {
            lemma_partition_of_constant(orig, 0, parted, k);
            assert(constant(left_before));
            if picks_first(*pivot) {
                assert(left@ + (mid@ + right@) =~= rotated(orig));
            }
            if n == 2 {
                assert(left@ + (mid@ + right@) =~= seq![orig[1], orig[0]]);
            }
        }
    }
}

/// Quicksort, in place, with the first element of each range as pivot. Not
/// stable.
///
/// On input that is sorted already, or all equal, each range is parted into
/// nothing and all the rest: the work is quadratic and the recursion as deep
/// as the slice is long, which a large slice may not survive.
///
/// Elements that all compare equal come out with the first of them last and
/// the others as they were: two of them change places.
pub fn dumb<T: Ord>(xs: &mut [T])
    requires
        total_order::<T>(),
    ensures
        sorted(final(xs)@),
        final(xs)@.to_multiset() == old(xs)@.to_multiset(),
        final(xs)@.len() == old(xs)@.len(),
        old(xs)@.len() <= 1 ==> final(xs)@ == old(xs)@,
        sorted(old(xs)@) ==> equivalent(old(xs)@, final(xs)@),
        sorted(old(xs)@) && told_apart(old(xs)@) ==> final(xs)@ == old(xs)@,
        old(xs)@.len() == 2 && equiv(old(xs)@[0], old(xs)@[1]) ==> final(xs)@ == seq![
            old(xs)@[1],
            old(xs)@[0],
        ],
        constant(old(xs)@) ==> final(xs)@ == rotated(old(xs)@),
        final(xs)@ == quick_sorted(old(xs)@, first_choice()),
{
    qsort(xs, &first_pivot::<T>)
}

/// Quicksort, in place, with the pivot of each range chosen by
/// [`smart_pivot`] among its first, middle and last element. Not stable.
///
/// Sorted input is parted in the middle. Input made to defeat the choice
/// still costs quadratic work and deep recursion.
///
/// Two elements that compare equal change places: the first is the pivot.
pub fn smart<T: Ord>(xs: &mut [T])
    requires
        total_order::<T>(),
    ensures
        sorted(final(xs)@),
        final(xs)@.to_multiset() == old(xs)@.to_multiset(),
        final(xs)@.len() == old(xs)@.len(),
        old(xs)@.len() <= 1 ==> final(xs)@ == old(xs)@,
        sorted(old(xs)@) ==> equivalent(old(xs)@, final(xs)@),
        sorted(old(xs)@) && told_apart(old(xs)@) ==> final(xs)@ == old(xs)@,
        old(xs)@.len() == 2 && equiv(old(xs)@[0], old(xs)@[1]) ==> final(xs)@ == seq![
            old(xs)@[1],
            old(xs)@[0],
        ],
        final(xs)@ == quick_sorted(old(xs)@, smart_choice()),
{
    proof {
        lemma_order_laws::<T>();
    }
    qsort(xs, &smart_pivot::<T>)
}

/// Quicksort with the pivot of [`smart`], in which a side of at most
/// [`INSERTION_THRESHOLD`] elements is sorted by insertion and not parted
/// further. The slice itself is parted once, however short it is. Not
/// stable: of up to seventeen elements that all compare equal, the middle
/// one, which is the pivot, changes places with the last.
pub fn insertion<T: Ord>(xs: &mut [T])
    requires
        total_order::<T>(),
    ensures
        final(xs)@ == hybrid_sorted(old(xs)@),
        sorted(final(xs)@),
        final(xs)@.to_multiset() == old(xs)@.to_multiset(),
        final(xs)@.len() == old(xs)@.len(),
        old(xs)@.len() <= 1 ==> final(xs)@ == old(xs)@,
        sorted(old(xs)@) ==> equivalent(old(xs)@, final(xs)@),
        sorted(old(xs)@) && told_apart(old(xs)@) ==> final(xs)@ == old(xs)@,
        old(xs)@.len() == 2 && equiv(old(xs)@[0], old(xs)@[1]) ==> final(xs)@ == seq![
            old(xs)@[1],
            old(xs)@[0],
        ],
        constant(old(xs)@) && 2 <= old(xs)@.len() <= INSERTION_THRESHOLD + 1 ==> final(xs)@
            == swapped(old(xs)@, old(xs)@.len() - 1, (old(xs)@.len() - 1) / 2),
    decreases old(xs)@.len(),
{
    let ghost orig = xs@;
    if xs.len() <= 1 {
        proof {
            lemma_sorting_sorted_input(orig, orig);
        }
        return ;
    }
    let p = smart_pivot(xs);
    let q = partition(xs, p);
    let ghost parted = xs@;
    let (left, rest) = xs.split_at_mut(q);
    let (mid, right) = rest.split_at_mut(1);
    let ghost left_before = left@;
    if left.len() <= INSERTION_THRESHOLD {
        crate::insertion(left);
    } else {
        insertion(left);
    }
    if right.len() <= INSERTION_THRESHOLD {
        crate::insertion(right);
    } else {
        insertion(right);
    }
    proof {
        let n = parted.len() as int;
        let k = q as int;
        lemma_sorted_sides(orig, parted, k, left@, mid@, right@);
        lemma_order_laws::<T>();
        if n == 2 && equiv(orig[0], orig[1]) {
            assert(constant(orig));
        }
        assert(left@ + (mid@ + right@) == hybrid_sorted(orig)) by {
            assert(parted.subrange(k, n).subrange(0, 1) =~= parted.subrange(k, k + 1));
            assert(parted.subrange(k, n).subrange(1, n - k) =~= parted.subrange(k + 1, n));
        }
        if constant(orig) && n <= INSERTION_THRESHOLD + 1 {
            assert(p == (n - 1) / 2);
            lemma_partition_of_constant(orig, p as int, parted, k);
            assert(sorted(left_before));
            assert(left@ + (mid@ + right@) =~= parted);
            if n == 2 {
                assert(parted =~= seq![orig[1], orig[0]]);
            }
        }
    }
}

/// The values that are ordered strictly after `pivot`.
pub open spec fn after<T: Ord>(pivot: T) -> spec_fn(T) -> bool {
    |x: T| lt(pivot, x)
}

/// What the quicksort [`simple`] makes of `s`: the first element is the
/// pivot; before it stands what it makes of the other elements that are not
/// ordered after the pivot, behind it what it makes of those that are.
pub open spec fn simple_sorted<T: Ord>(s: Seq<T>) -> Seq<T>
    decreases s.len(),
    via simple_sorted_decreases::<T>
{
    if s.len() <= 1 {
        s
    } else {
        let rest = s.subrange(1, s.len() as int);
        simple_sorted(rest.filter(not_after(s[0]))) + (seq![s[0]] + simple_sorted(
            rest.filter(after(s[0])),
        ))
    }
}

#[via_fn]
proof fn simple_sorted_decreases<T: Ord>(s: Seq<T>) {
    if s.len() > 1 {
        let rest = s.subrange(1, s.len() as int);
        rest.lemma_filter_len(not_after(s[0]));
        rest.lemma_filter_len(after(s[0]));
    }
}

/// Dealing the elements of a sequence to those that are not ordered after
/// a pivot and those that are loses none and adds none.
proof fn lemma_dealt<T: Ord>(s: Seq<T>, pivot: T)
    requires
        total_order::<T>(),
    ensures
        (s.filter(not_after(pivot)) + s.filter(after(pivot))).to_multiset() == s.to_multiset(),
    decreases s.len(),
{
    let small = s.filter(not_after(pivot));
    let large = s.filter(after(pivot));
    if s.len() == 0 {
        s.lemma_filter_len(not_after(pivot));
        s.lemma_filter_len(after(pivot));
        assert(small + large =~= s);
    } else {
        let r = s.drop_last();
        let e = s.last();
        let a = r.filter(not_after(pivot));
        let b = r.filter(after(pivot));
        assert(s =~= r.push(e));
        lemma_dealt(r, pivot);
        r.lemma_filter_push(e, not_after(pivot));
        r.lemma_filter_push(e, after(pivot));
        crate::order::lemma_trichotomy(e, pivot);
        to_multiset_build(r, e);
        to_multiset_build(a + b, e);
        if le(e, pivot) {
            lemma_multiset_commutative(a, b);
            lemma_multiset_commutative(a.push(e), b);
            to_multiset_build(a, e);
            assert((a.push(e) + b).to_multiset() =~= (a + b).to_multiset().insert(e)) by {
                broadcast use vstd::multiset::group_multiset_axioms;

            }
        } else {
            assert(a + b.push(e) =~= (a + b).push(e));
        }
    }
}

/// The two sides of [`simple`], each sorted for itself, with the pivot
/// between them: what that is, and what holds of it.
proof fn lemma_simple_sides<T: Ord>(orig: Seq<T>, out: Seq<T>, tail: Seq<T>)
    requires
        total_order::<T>(),
        orig.len() > 1,
        sorted(out),
        sorted(tail),
        out == simple_sorted(orig.subrange(1, orig.len() as int).filter(not_after(orig[0]))),
        tail == simple_sorted(orig.subrange(1, orig.len() as int).filter(after(orig[0]))),
        out.to_multiset() == orig.subrange(1, orig.len() as int).filter(
            not_after(orig[0]),
        ).to_multiset(),
        tail.to_multiset() == orig.subrange(1, orig.len() as int).filter(
            after(orig[0]),
        ).to_multiset(),
        constant(orig.subrange(1, orig.len() as int).filter(not_after(orig[0]))) ==> out
            == orig.subrange(1, orig.len() as int).filter(not_after(orig[0])).reverse(),
    ensures
        out + (seq![orig[0]] + tail) == simple_sorted(orig),
        sorted(out + (seq![orig[0]] + tail)),
        (out + (seq![orig[0]] + tail)).to_multiset() == orig.to_multiset(),
        (out + (seq![orig[0]] + tail)).len() == orig.len(),
        sorted(orig) ==> equivalent(orig, out + (seq![orig[0]] + tail)),
        sorted(orig) && told_apart(orig) ==> out + (seq![orig[0]] + tail) == orig,
        constant(orig) ==> out + (seq![orig[0]] + tail) == orig.reverse(),
{
    let pivot = orig[0];
    let rest = orig.subrange(1, orig.len() as int);
    let small = rest.filter(not_after(pivot));
    let large = rest.filter(after(pivot));
    let whole = out + (seq![pivot] + tail);
    lemma_order_laws::<T>();
    assert(sorted(whole)) by {
        assert forall|k: int| 0 <= k < out.len() implies le(#[trigger] out[k], pivot) by {
            let m = lemma_permutation_member(small, out, k);
            rest.lemma_filter_pred(not_after(pivot), m);
        }
        assert forall|k: int| 0 <= k < tail.len() implies le(pivot, #[trigger] tail[k]) by {
            let m = lemma_permutation_member(large, tail, k);
            rest.lemma_filter_pred(after(pivot), m);
        }
        lemma_sorted_around(out, pivot, tail);
    }
    assert(whole.to_multiset() == orig.to_multiset()) by {
        lemma_dealt(rest, pivot);
        lemma_concat_permutes(small, large, out, tail);
        assert(orig =~= seq![pivot] + rest);
        lemma_multiset_commutative(seq![pivot], rest);
        lemma_multiset_commutative(seq![pivot], out + tail);
        lemma_multiset_commutative(out, seq![pivot] + tail);
        lemma_multiset_commutative(seq![pivot], tail);
        lemma_multiset_commutative(out, tail);
        assert(whole.to_multiset() =~= (seq![pivot] + (out + tail)).to_multiset()) by {
            broadcast use vstd::multiset::group_multiset_axioms;

        }
    }
    crate::rearrange::lemma_permutation_len(orig, whole);
    lemma_sorting_sorted_input(orig, whole);
    if constant(orig) {
        assert forall|k: int| 0 <= k < rest.len() implies not_after(pivot)(#[trigger] rest[k]) by {
            assert(equiv(orig[k + 1], orig[0]));
        }
        lemma_filter_all(rest, not_after(pivot));
        assert(tail.len() == 0) by {
            crate::rearrange::lemma_permutation_len(small + large, rest);
            crate::rearrange::lemma_permutation_len(tail, large);
        }
        assert(constant(rest)) by {
            assert forall|i: int, j: int|
                0 <= i < rest.len() && 0 <= j < rest.len() implies equiv(
                #[trigger] rest[i],
                #[trigger] rest[j],
            ) by {
                assert(equiv(orig[i + 1], orig[j + 1]));
            }
        }
        assert(whole =~= orig.reverse());
    }
}

/// Quicksort that does not work in place: the first element is the pivot,
/// the others are dealt in one pass to a new vector of those not ordered
/// after the pivot and a new vector of those ordered strictly after it,
/// both are sorted in the same way, and the result is the first, the pivot
/// and the second, one after the other. Not stable: an element that
/// compares equal to the pivot and stood behind it comes to stand before
/// it, so that elements that all compare equal come out in reverse.
pub fn simple<T: Ord>(xs: Vec<T>) -> (out: Vec<T>)
    requires
        total_order::<T>(),
    ensures
        out@ == simple_sorted(xs@),
        sorted(out@),
        out@.to_multiset() == xs@.to_multiset(),
        out@.len() == xs@.len(),
        xs@.len() <= 1 ==> out@ == xs@,
        sorted(xs@) ==> equivalent(xs@, out@),
        sorted(xs@) && told_apart(xs@) ==> out@ == xs@,
        xs@.len() == 2 && equiv(xs@[0], xs@[1]) ==> out@ == seq![xs@[1], xs@[0]],
        constant(xs@) ==> out@ == xs@.reverse(),
    decreases xs@.len(),
{
    let ghost orig = xs@;
    if xs.len() <= 1 {
        proof {
            lemma_sorting_sorted_input(orig, orig);
            assert(orig.reverse() =~= orig);
        }
        return xs;
    }
    let mut xs = xs;
    let pivot = xs.remove(0);
    let ghost rest = xs@;
    let mut small: Vec<T> = Vec::new();
    let mut large: Vec<T> = Vec::new();
    proof {
        rest.subrange(0, 0).lemma_filter_len(not_after(pivot));
        rest.subrange(0, 0).lemma_filter_len(after(pivot));
        assert(small@ =~= rest.subrange(0, 0).filter(not_after(pivot)));
        assert(large@ =~= rest.subrange(0, 0).filter(after(pivot)));
    }
    for x in iter: xs
        invariant
            total_order::<T>(),
            iter.seq() == rest,
            small@ == rest.subrange(0, iter.index() as int).filter(not_after(pivot)),
            large@ == rest.subrange(0, iter.index() as int).filter(after(pivot)),
    {
        proof {
            let seen = rest.subrange(0, iter.index() as int);
            lemma_order_laws::<T>();
            assert(rest.subrange(0, iter.index() + 1) =~= seen.push(x));
            seen.lemma_filter_push(x, not_after(pivot));
            seen.lemma_filter_push(x, after(pivot));
        }
        if at_most(&x, &pivot) {
            small.push(x);
        } else {
            large.push(x);
        }
    }
    proof {
        assert(rest.subrange(0, rest.len() as int) =~= rest);
        assert(rest =~= orig.subrange(1, orig.len() as int));
        rest.lemma_filter_len(not_after(pivot));
        rest.lemma_filter_len(after(pivot));
    }
    let mut out = simple(small);
    let mut tail = simple(large);
    proof {
        lemma_simple_sides(orig, out@, tail@);
        assert(out@.push(pivot) + tail@ =~= out@ + (seq![pivot] + tail@));
        lemma_order_laws::<T>();
        if orig.len() == 2 && equiv(orig[0], orig[1]) {
            assert(constant(orig));
            assert(orig.reverse() =~= seq![orig[1], orig[0]]);
        }
    }
    out.push(pivot);
    out.append(&mut tail);
    out
}

} // verus!
