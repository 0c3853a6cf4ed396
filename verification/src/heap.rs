//! Heapsort: the slice is first made a binary max-heap, laid out in the
//! slice itself with the children of position `i` at `2i + 1` and `2i + 2`;
//! then the root, the greatest element, is exchanged with the last element
//! of the heap again and again, the heap shrinking by one each time.
//!
//! The heap can be built from the leaves upward by sifting down, in linear
//! time, or element by element by sifting up.

use vstd::prelude::*;
use crate::order::{
    at_least,
    le,
    lemma_le_refl,
    lemma_le_trans,
    lemma_order_laws,
    less,
    lt,
    total_order,
};
use crate::rearrange::{lemma_permutation_member, lemma_swap_permutes, swapped};
use crate::order::equiv;
use crate::slices::exchange;
use crate::sortedness::{
    constant,
    equivalent,
    lemma_sorting_sorted_input,
    rotated,
    sorted,
    told_apart,
};

verus! {

/// The position of the parent of the heap position `c > 0`.
pub open spec fn parent_of(c: int) -> int {
    (c - 1) / 2
}

/// Heap order in a part of `s`: every position up to `hi` whose parent's
/// position is `lo` or more holds nothing ordered after what its parent
/// holds.
pub open spec fn heap_between<T: Ord>(s: Seq<T>, lo: int, hi: int) -> bool {
    forall|c: int|
        0 < c <= hi && c < s.len() && lo <= parent_of(c) ==> le(#[trigger] s[c], s[parent_of(c)])
}

/// The positions `0..=hi` of `s` are a max-heap.
pub open spec fn max_heap<T: Ord>(s: Seq<T>, hi: int) -> bool {
    heap_between(s, 0, hi)
}

/// The root of a max-heap holds nothing ordered before any other of its
/// elements.
pub proof fn lemma_root_is_greatest<T: Ord>(s: Seq<T>, hi: int, k: int)
    requires
        total_order::<T>(),
        max_heap(s, hi),
        0 <= k <= hi < s.len(),
    ensures
        le(s[k], s[0]),
    decreases k,
{
    if k == 0 {
        lemma_le_refl(s[0]);
    } else {
        lemma_root_is_greatest(s, hi, parent_of(k));
        assert(le(s[k], s[parent_of(k)]));
        lemma_le_trans(s[k], s[parent_of(k)], s[0]);
    }
}

/// Two sequences that hold the same elements and agree from `m` on hold the
/// same elements before `m`.
proof fn lemma_prefix_permutes<T>(a: Seq<T>, b: Seq<T>, m: int)
    requires
        a.to_multiset() == b.to_multiset(),
        a.len() == b.len(),
        0 <= m <= a.len(),
        forall|k: int| m <= k < a.len() ==> a[k] == b[k],
    ensures
        a.subrange(0, m).to_multiset() == b.subrange(0, m).to_multiset(),
{
    broadcast use vstd::multiset::group_multiset_axioms;

    let n = a.len() as int;
    assert(a.subrange(m, n) =~= b.subrange(m, n));
    crate::rearrange::lemma_split(a, m);
    crate::rearrange::lemma_split(b, m);
    vstd::seq_lib::lemma_multiset_commutative(a.subrange(0, m), a.subrange(m, n));
    vstd::seq_lib::lemma_multiset_commutative(b.subrange(0, m), b.subrange(m, n));
    let tail = a.subrange(m, n).to_multiset();
    let x = a.subrange(0, m).to_multiset();
    let y = b.subrange(0, m).to_multiset();
    assert forall|v: T| x.count(v) == y.count(v) by {
        assert(x.add(tail).count(v) == y.add(tail).count(v));
    }
    assert(x =~= y);
}

/// In the tree, the position `c` is `top` or stands somewhere below it.
pub open spec fn under(c: int, top: int) -> bool
    decreases c,
{
    if c <= top || c <= 0 {
        c == top
    } else {
        under(parent_of(c), top)
    }
}

/// Heap order in the subtree of `top`, as far as it reaches up to `hi`:
/// every position whose parent is `top` or stands below it holds nothing
/// ordered after what its parent holds.
pub open spec fn heap_under<T: Ord>(s: Seq<T>, top: int, hi: int) -> bool {
    forall|c: int|
        0 < c <= hi && c < s.len() && under(parent_of(c), top) ==> le(
            #[trigger] s[c],
            s[parent_of(c)],
        )
}

/// Heap order in the subtrees of the children of `top`, as far as they
/// reach up to `hi`: as [`heap_under`], but for the children of `top`
/// themselves, of which nothing is said.
pub open spec fn heap_under_children<T: Ord>(s: Seq<T>, top: int, hi: int) -> bool {
    forall|c: int|
        0 < c <= hi && c < s.len() && under(parent_of(c), top) && parent_of(c) != top ==> le(
            #[trigger] s[c],
            s[parent_of(c)],
        )
}

/// The element at `at` rests where it is in the heap that occupies the
/// positions up to and including `hi`: none of its children in the heap is
/// ordered strictly after it.
pub open spec fn rests<T: Ord>(s: Seq<T>, at: int, hi: int) -> bool {
    forall|c: int|
        0 < c <= hi && c < s.len() && parent_of(c) == at ==> le(#[trigger] s[c], s[at])
}

/// What [`sift_down`] makes of `s` when the element to sink stands at
/// `root` and the heap occupies the positions up to and including `end`: as
/// long as a child of the element in the heap is ordered strictly after it,
/// it changes places with the greater of its children, with the left one if
/// they compare equal.
pub open spec fn sunk<T: Ord>(s: Seq<T>, root: int, end: int) -> Seq<T>
    decreases end - root,
{
    let child = 2 * root + 1;
    if root < 0 || child > end || end >= s.len() {
        s
    } else {
        let first = if lt(s[root], s[child]) {
            child
        } else {
            root
        };
        let greatest = if child + 1 <= end && lt(s[first], s[child + 1]) {
            child + 1
        } else {
            first
        };
        if greatest == root {
            s
        } else {
            sunk(swapped(s, root, greatest), greatest, end)
        }
    }
}

/// What [`sift_up`] makes of `s` when the element to rise stands at
/// `child`: as long as it stands above `start` and is ordered strictly
/// after its parent, it changes places with its parent.
pub open spec fn risen<T: Ord>(s: Seq<T>, start: int, child: int) -> Seq<T>
    decreases child,
{
    if child <= start || child <= 0 || child >= s.len() {
        s
    } else if le(s[child], s[parent_of(child)]) {
        s
    } else {
        risen(swapped(s, parent_of(child), child), start, parent_of(child))
    }
}

/// What [`heapify_down`] makes of `s` once the positions from `start` on
/// have been sifted down in the heap that ends at `last`: the positions
/// before `start` are sifted down one after the other, the last first.
pub open spec fn heaped_down<T: Ord>(s: Seq<T>, start: int, last: int) -> Seq<T>
    decreases start,
{
    if start <= 0 {
        s
    } else {
        heaped_down(sunk(s, start - 1, last), start - 1, last)
    }
}

/// What [`heapify_down`] makes of `s`.
pub open spec fn built_down<T: Ord>(s: Seq<T>) -> Seq<T> {
    if s.len() <= 1 {
        s
    } else {
        heaped_down(s, 1 + (s.len() - 2) / 2, s.len() - 1)
    }
}

/// What [`heapify_up`] makes of the first `n` elements of `s`: one after
/// the other they rise in the heap that the elements before them form.
pub open spec fn heaped_up<T: Ord>(s: Seq<T>, n: int) -> Seq<T>
    decreases n,
{
    if n <= 1 {
        s
    } else {
        risen(heaped_up(s, n - 1), 0, n - 1)
    }
}

/// What [`heapify_up`] makes of `s`.
pub open spec fn built_up<T: Ord>(s: Seq<T>) -> Seq<T> {
    heaped_up(s, s.len() as int)
}

/// What [`drain`] makes of `s` when the heap still occupies the positions
/// up to and including `end`: the root changes places with the element at
/// `end` and the new root is sifted down in the heap that is left, until
/// the heap is one element.
pub open spec fn taken_apart<T: Ord>(s: Seq<T>, end: int) -> Seq<T>
    decreases end,
{
    if end <= 0 {
        s
    } else {
        taken_apart(sunk(swapped(s, end, 0), 0, end - 1), end - 1)
    }
}

/// What heapsort makes of `s` when `make` says what heap is built of it.
pub open spec fn heap_sorted<T: Ord>(s: Seq<T>, make: spec_fn(Seq<T>) -> Seq<T>) -> Seq<T> {
    if s.len() <= 1 {
        s
    } else {
        taken_apart(make(s), s.len() - 1)
    }
}

/// The heap that [`heapify_up`] builds, for every sequence.
pub open spec fn by_sifting_up<T: Ord>() -> spec_fn(Seq<T>) -> Seq<T> {
    |s: Seq<T>| built_up(s)
}

/// The heap that [`heapify_down`] builds, for every sequence.
pub open spec fn by_sifting_down<T: Ord>() -> spec_fn(Seq<T>) -> Seq<T> {
    |s: Seq<T>| built_down(s)
}

/// Lets the element at `start` sink in the heap that occupies the positions
/// up to and including `end`: as long as one of its children in the heap is
/// ordered strictly after it, it changes places with the greater of them
/// (with the left one if they compare equal).
///
/// What comes out is [`sunk`]. Only positions of the heap that stand in the
/// subtree of `start` change what they hold, and none does where the
/// element at `start` rests already. Where the subtrees of the children of
/// `start` were in heap order, the subtree of `start` is afterwards; and
/// where the whole heap was in order below `start`, it is in order from
/// `start` on.
pub fn sift_down<T: Ord>(xs: &mut [T], start: usize, end: usize)
    requires
        total_order::<T>(),
        end < old(xs)@.len(),
    ensures
        final(xs)@ == sunk(old(xs)@, start as int, end as int),
        heap_under_children(old(xs)@, start as int, end as int) ==> heap_under(
            final(xs)@,
            start as int,
            end as int,
        ),
        heap_between(old(xs)@, start + 1, end as int) ==> heap_between(
            final(xs)@,
            start as int,
            end as int,
        ),
        rests(old(xs)@, start as int, end as int) ==> final(xs)@ == old(xs)@,
        final(xs)@.len() == old(xs)@.len(),
        final(xs)@.to_multiset() == old(xs)@.to_multiset(),
        forall|k: int|
            0 <= k < old(xs)@.len() && (end < k || !under(k, start as int))
                ==> #[trigger] final(xs)@[k] == old(xs)@[k],
{
    let ghost orig = xs@;
    let ghost heap_below = heap_between(orig, start + 1, end as int);
    let ghost heap_sides = heap_under_children(orig, start as int, end as int);
    let mut root = start;
    while root < end && root <= (end - 1) / 2
        invariant
            total_order::<T>(),
            xs@.len() == orig.len(),
            end < xs@.len(),
            start <= root,
            xs@.to_multiset() == orig.to_multiset(),
            forall|k: int|
                0 <= k < orig.len() && (end < k || !under(k, start as int)) ==> #[trigger] xs@[k]
                    == orig[k],
            under(root as int, start as int),
            sunk(xs@, root as int, end as int) == sunk(orig, start as int, end as int),
            heap_sides ==> forall|c: int|
                0 < c <= end && under(parent_of(c), start as int) && parent_of(c) != root ==> le(
                    #[trigger] xs@[c],
                    xs@[parent_of(c)],
                ),
            heap_sides ==> forall|c: int|
                0 < c <= end && parent_of(c) == root && root != start ==> le(
                    #[trigger] xs@[c],
                    xs@[parent_of(root as int)],
                ),
            root == start ==> xs@ == orig,
            root != start ==> !rests(orig, start as int, end as int),
            heap_below ==> forall|c: int|
                0 < c <= end && start <= parent_of(c) && parent_of(c) != root ==> le(
                    #[trigger] xs@[c],
                    xs@[parent_of(c)],
                ),
            heap_below ==> forall|c: int|
                0 < c <= end && parent_of(c) == root && root > 0 && start <= parent_of(
                    root as int,
                ) ==> le(#[trigger] xs@[c], xs@[parent_of(root as int)]),
        ensures
            xs@ == sunk(orig, start as int, end as int),
            heap_sides ==> heap_under(xs@, start as int, end as int),
            heap_below ==> heap_between(xs@, start as int, end as int),
            rests(orig, start as int, end as int) ==> xs@ == orig,
            xs@.len() == orig.len(),
            xs@.to_multiset() == orig.to_multiset(),
            forall|k: int|
                0 <= k < orig.len() && (end < k || !under(k, start as int)) ==> #[trigger] xs@[k]
                    == orig[k],
        decreases end - root,
    {
        let child = root * 2 + 1;
        let mut swap = root;
        proof {
            lemma_order_laws::<T>();
        }
        if less(&xs[swap], &xs[child]) {
            swap = child;
        }
        let ghost first = swap;
        if child + 1 <= end && less(&xs[swap], &xs[child + 1]) {
            swap = child + 1;
        }
        proof {
            // `swap` is where the greatest of the root and its children is
            if swap == child + 1 {
                if first == child {
                    lemma_le_trans(xs@[root as int], xs@[child as int], xs@[child + 1]);
                } else {
                    lemma_le_trans(xs@[child as int], xs@[root as int], xs@[child + 1]);
                }
            }
            assert(le(xs@[root as int], xs@[swap as int]));
            assert(le(xs@[child as int], xs@[swap as int]));
            assert(child + 1 <= end ==> le(xs@[child + 1], xs@[swap as int]));
            assert(swap != root ==> lt(xs@[root as int], xs@[swap as int]));
        }
        if swap == root {
            proof {
                if heap_sides {
                    assert forall|c: int|
                        0 < c <= end && c < xs@.len() && under(
                            parent_of(c),
                            start as int,
                        ) implies le(#[trigger] xs@[c], xs@[parent_of(c)]) by {
                        if parent_of(c) == root {
                            assert(c == child || c == child + 1);
                        }
                    }
                }
                if heap_below {
                    assert forall|c: int|
                        0 < c <= end && c < xs@.len() && start <= parent_of(c) implies le(
                        #[trigger] xs@[c],
                        xs@[parent_of(c)],
                    ) by {
                        if parent_of(c) == root {
                            assert(c == child || c == child + 1);
                        }
                    }
                }
            }
            break ;
        }
        let ghost before = xs@;
        exchange(xs, root, swap);
        proof {
            assert(xs@ == swapped(before, root as int, swap as int));
            lemma_swap_permutes(before, root as int, swap as int);
            assert(parent_of(swap as int) == root);
            assert(under(swap as int, start as int));
            if heap_sides {
                assert forall|c: int|
                    0 < c <= end && under(parent_of(c), start as int) && parent_of(c)
                        != swap implies le(#[trigger] xs@[c], xs@[parent_of(c)]) by {
                    if parent_of(c) == root {
                        assert(c == child || c == child + 1);
                    } else if c == root {
                        assert(root != start);
                        assert(le(before[swap as int], before[parent_of(root as int)]));
                    } else {
                        assert(le(before[c], before[parent_of(c)]));
                    }
                }
                assert forall|c: int| 0 < c <= end && parent_of(c) == swap implies le(
                    #[trigger] xs@[c],
                    xs@[parent_of(swap as int)],
                ) by {
                    assert(le(before[c], before[parent_of(c)]));
                }
            }
            if heap_below {
                assert forall|c: int|
                    0 < c <= end && start <= parent_of(c) && parent_of(c) != swap implies le(
                    #[trigger] xs@[c],
                    xs@[parent_of(c)],
                ) by {
                    if parent_of(c) == root {
                        assert(c == child || c == child + 1);
                    } else if c == root {
                        assert(le(before[swap as int], before[parent_of(root as int)]));
                    } else {
                        assert(le(before[c], before[parent_of(c)]));
                    }
                }
                assert forall|c: int|
                    0 < c <= end && parent_of(c) == swap && swap > 0 && start <= parent_of(
                        swap as int,
                    ) implies le(#[trigger] xs@[c], xs@[parent_of(swap as int)]) by {
                    assert(le(before[c], before[parent_of(c)]));
                }
            }
        }
        root = swap;
    }
}

/// Lets the element at `end` rise in the heap: as long as it stands above
/// `start` and is ordered strictly after its parent, it changes places with
/// its parent.
///
/// What comes out is [`risen`]. Only positions up to `end` change what they
/// hold, and none does where the element does not rise at all. Where the
/// positions before `end` were a max-heap, afterwards every position up to
/// `end` is in order with its parent, but possibly the one where the risen
/// element stopped at `start` or before it. With `start` zero the positions
/// up to `end` are a max-heap.
pub fn sift_up<T: Ord>(xs: &mut [T], start: usize, end: usize)
    requires
        total_order::<T>(),
        end < old(xs)@.len(),
    ensures
        final(xs)@ == risen(old(xs)@, start as int, end as int),
        max_heap(old(xs)@, end - 1) ==> forall|c: int|
            0 < c <= end && (start < c || final(xs)@[c] != old(xs)@[end as int]) ==> le(
                #[trigger] final(xs)@[c],
                final(xs)@[parent_of(c)],
            ),
        max_heap(old(xs)@, end - 1) && start == 0 ==> max_heap(final(xs)@, end as int),
        end <= start || le(old(xs)@[end as int], old(xs)@[parent_of(end as int)]) ==> final(xs)@
            == old(xs)@,
        final(xs)@.len() == old(xs)@.len(),
        final(xs)@.to_multiset() == old(xs)@.to_multiset(),
        forall|k: int| end < k < old(xs)@.len() ==> final(xs)@[k] == old(xs)@[k],
{
    let ghost orig = xs@;
    let ghost heap_before = max_heap(orig, end - 1);
    let mut child = end;
    while child > start
        invariant
            total_order::<T>(),
            xs@.len() == orig.len(),
            child <= end < xs@.len(),
            xs@[child as int] == orig[end as int],
            xs@.to_multiset() == orig.to_multiset(),
            forall|k: int| end < k < orig.len() ==> xs@[k] == orig[k],
            risen(xs@, start as int, child as int) == risen(orig, start as int, end as int),
            child == end ==> xs@ == orig,
            child != end ==> start < end && !le(orig[end as int], orig[parent_of(end as int)]),
            heap_before ==> forall|c: int|
                0 < c <= end && c != child ==> le(#[trigger] xs@[c], xs@[parent_of(c)]),
            heap_before ==> forall|c: int|
                0 < c <= end && parent_of(c) == child && child > 0 ==> le(
                    #[trigger] xs@[c],
                    xs@[parent_of(child as int)],
                ),
        ensures
            xs@ == risen(orig, start as int, end as int),
            heap_before ==> forall|c: int|
                0 < c <= end && (start < c || xs@[c] != orig[end as int]) ==> le(
                    #[trigger] xs@[c],
                    xs@[parent_of(c)],
                ),
            end <= start || le(orig[end as int], orig[parent_of(end as int)]) ==> xs@ == orig,
            xs@.len() == orig.len(),
            xs@.to_multiset() == orig.to_multiset(),
            forall|k: int| end < k < orig.len() ==> xs@[k] == orig[k],
        decreases child,
    {
        let parent = (child - 1) / 2;
        proof {
            lemma_order_laws::<T>();
        }
        if at_least(&xs[parent], &xs[child]) {
            break ;
        }
        let ghost before = xs@;
        exchange(xs, parent, child);
        proof {
            assert(xs@ == swapped(before, parent as int, child as int));
            lemma_swap_permutes(before, parent as int, child as int);
            if heap_before {
                assert forall|c: int| 0 < c <= end && c != parent implies le(
                    #[trigger] xs@[c],
                    xs@[parent_of(c)],
                ) by {
                    if c == child {
                    } else if parent_of(c) == parent {
                        lemma_le_trans(before[c], before[parent as int], before[child as int]);
                    } else if parent_of(c) == child {
                        assert(le(before[c], before[parent_of(child as int)]));
                    } else {
                        assert(le(before[c], before[parent_of(c)]));
                    }
                }
                assert forall|c: int|
                    0 < c <= end && parent_of(c) == parent && parent > 0 implies le(
                    #[trigger] xs@[c],
                    xs@[parent_of(parent as int)],
                ) by {
                    assert(le(before[parent as int], before[parent_of(parent as int)]));
                    if c != child {
                        assert(le(before[c], before[parent_of(c)]));
                        lemma_le_trans(
                            before[c],
                            before[parent as int],
                            before[parent_of(parent as int)],
                        );
                    }
                }
            }
        }
        child = parent;
    }
}

/// Makes the slice a max-heap by sifting down each position that has a
/// child, from the last such position back to the root. Linear time. A
/// slice that is a max-heap stays as it is.
pub fn heapify_down<T: Ord>(xs: &mut [T])
    requires
        total_order::<T>(),
    ensures
        final(xs)@ == built_down(old(xs)@),
        max_heap(final(xs)@, final(xs)@.len() - 1),
        final(xs)@.len() == old(xs)@.len(),
        final(xs)@.to_multiset() == old(xs)@.to_multiset(),
        max_heap(old(xs)@, old(xs)@.len() - 1) ==> final(xs)@ == old(xs)@,
{
    if xs.len() <= 1 {
        return ;
    }
    let ghost orig = xs@;
    let last = xs.len() - 1;
    let mut start = 1 + ((last - 1) / 2);
    while start > 0
        invariant
            total_order::<T>(),
            xs@.len() == last + 1,
            start <= last,
            heap_between(xs@, start as int, last as int),
            xs@.to_multiset() == orig.to_multiset(),
            max_heap(orig, last as int) ==> xs@ == orig,
            heaped_down(xs@, start as int, last as int) == built_down(orig),
        decreases start,
    {
        start = start - 1;
        sift_down(xs, start, last);
    }
}

/// Makes the slice a max-heap by letting its elements rise one after the
/// other into the heap that the elements before them form. A slice that is
/// a max-heap stays as it is.
pub fn heapify_up<T: Ord>(xs: &mut [T])
    requires
        total_order::<T>(),
    ensures
        final(xs)@ == built_up(old(xs)@),
        max_heap(final(xs)@, final(xs)@.len() - 1),
        final(xs)@.len() == old(xs)@.len(),
        final(xs)@.to_multiset() == old(xs)@.to_multiset(),
        max_heap(old(xs)@, old(xs)@.len() - 1) ==> final(xs)@ == old(xs)@,
{
    let ghost orig = xs@;
    let mut end: usize = 1;
    while end < xs.len()
        invariant
            total_order::<T>(),
            xs@.len() == orig.len(),
            1 <= end,
            end <= xs@.len() || xs@.len() == 0,
            max_heap(xs@, end - 1),
            xs@.to_multiset() == orig.to_multiset(),
            max_heap(orig, orig.len() - 1) ==> xs@ == orig,
            xs@ == heaped_up(orig, end as int),
        decreases xs@.len() - end,
    {
        sift_up(xs, 0, end);
        end = end + 1;
    }
}

/// What heapsort has made of a heap `s` of elements that all compare equal
/// when the elements behind `end` have left the heap: each root in turn
/// changed places with the last element of the heap and stayed where it was.
pub open spec fn drained<T>(s: Seq<T>, end: int) -> Seq<T> {
    Seq::new(
        s.len(),
        |k: int|
            if end >= s.len() - 1 {
                s[k]
            } else if k == 0 {
                s[end + 1]
            } else if k <= end {
                s[k]
            } else if k < s.len() - 1 {
                s[k + 1]
            } else {
                s[0]
            },
    )
}

/// Takes a max-heap apart into a sorted slice: the root changes places with
/// the last element of the heap, which leaves the heap, and the new root
/// sinks to its place, until the heap is one element. A heap of elements
/// that all compare equal comes out with the first of them last and the
/// others as they were.
pub fn drain<T: Ord>(xs: &mut [T])
    requires
        total_order::<T>(),
        max_heap(old(xs)@, old(xs)@.len() - 1),
    ensures
        final(xs)@ == taken_apart(old(xs)@, old(xs)@.len() - 1),
        sorted(final(xs)@),
        final(xs)@.to_multiset() == old(xs)@.to_multiset(),
        final(xs)@.len() == old(xs)@.len(),
        constant(old(xs)@) ==> final(xs)@ == rotated(old(xs)@),
{
    let ghost orig = xs@;
    let ghost flat = constant(orig);
    let len = xs.len();
    if len <= 1 {
        proof {
            assert(rotated(orig) =~= orig);
        }
        return ;
    }
    let mut end = len - 1;
    proof {
        assert(xs@ =~= drained(orig, end as int));
    }
    while end > 0
        invariant
            total_order::<T>(),
            xs@.len() == len,
            orig.len() == len,
            flat == constant(orig),
            flat ==> xs@ == drained(orig, end as int),
            taken_apart(xs@, end as int) == taken_apart(orig, len - 1),
            end < len,
            max_heap(xs@, end as int),
            forall|a: int, b: int| end < a < b < len ==> le(#[trigger] xs@[a], #[trigger] xs@[b]),
            forall|a: int, b: int|
                0 <= a <= end < b < len ==> le(#[trigger] xs@[a], #[trigger] xs@[b]),
            xs@.to_multiset() == orig.to_multiset(),
        decreases end,
    {
        let ghost heap = xs@;
        proof {
            assert forall|k: int| 0 <= k <= end implies le(#[trigger] heap[k], heap[0]) by {
                lemma_root_is_greatest(heap, end as int, k);
            }
        }
        exchange(xs, end, 0);
        proof {
            assert(xs@ == swapped(heap, end as int, 0));
            lemma_swap_permutes(heap, end as int, 0);
        }
        end = end - 1;
        let ghost shrunk = xs@;
        proof {
            lemma_order_laws::<T>();
            if flat {
                assert(shrunk =~= drained(orig, end as int));
                assert forall|c: int|
                    0 < c <= end && c < shrunk.len() && parent_of(c) == 0 implies le(
                    #[trigger] shrunk[c],
                    shrunk[0],
                ) by {
                    assert(equiv(orig[c], orig[end + 1]));
                }
            }
        }
        sift_down(xs, 0, end);
        proof {
            lemma_prefix_permutes(shrunk, xs@, end + 1);
            assert forall|a: int, b: int| 0 <= a <= end < b < len implies le(
                #[trigger] xs@[a],
                #[trigger] xs@[b],
            ) by {
                let k = lemma_permutation_member(
                    shrunk.subrange(0, end + 1),
                    xs@.subrange(0, end + 1),
                    a,
                );
                assert(le(shrunk[k], shrunk[b]));
            }
        }
    }
    proof {
        if flat {
            assert(xs@ =~= rotated(orig));
        }
    }
}

/// Heapsort, in place, on the heap that `heapify` builds: the heap is
/// taken apart by [`drain`]. Not
/// stable: elements that all compare equal come out with the first of them
/// last and the others as they were, if `heapify` left them as they were.
///
/// `heapify` is asked to make a slice of two elements or more a max-heap
/// of the elements it holds.
pub fn sort<T: Ord, F: Fn(&mut [T])>(xs: &mut [T], heapify: &F)
    requires
        total_order::<T>(),
        forall|s: &mut [T]| s@.len() > 1 ==> call_requires(*heapify, (s,)),
        forall|s: &mut [T]|
            s@.len() > 1 && call_ensures(*heapify, (s,), ()) ==> {
                &&& max_heap(final(s)@, final(s)@.len() - 1)
                &&& final(s)@.to_multiset() == s@.to_multiset()
            },
    ensures
        sorted(final(xs)@),
        final(xs)@.to_multiset() == old(xs)@.to_multiset(),
        final(xs)@.len() == old(xs)@.len(),
        old(xs)@.len() <= 1 ==> final(xs)@ == old(xs)@,
        sorted(old(xs)@) ==> equivalent(old(xs)@, final(xs)@),
        sorted(old(xs)@) && told_apart(old(xs)@) ==> final(xs)@ == old(xs)@,
        constant(old(xs)@) && (forall|s: &mut [T]|
            #[trigger] call_ensures(*heapify, (s,), ()) && max_heap(s@, s@.len() - 1)
                ==> final(s)@ == s@) ==> final(xs)@ == rotated(old(xs)@),
        forall|make: spec_fn(Seq<T>) -> Seq<T>|
            (forall|s: &mut [T]|
                s@.len() > 1 && #[trigger] call_ensures(*heapify, (s,), ()) ==> final(s)@ == make(
                    s@,
                )) ==> final(xs)@ == #[trigger] heap_sorted(old(xs)@, make),
{
    let ghost orig = xs@;
    if xs.len() <= 1 {
        proof {
            lemma_sorting_sorted_input(orig, orig);
            assert(rotated(orig) =~= orig);
        }
        return ;
    }
    proof {
        lemma_order_laws::<T>();
    }
    heapify(xs);
    proof {
        crate::rearrange::lemma_permutation_len(orig, xs@);
    }
    drain(xs);
    proof {
        lemma_sorting_sorted_input(orig, xs@);
    }
}

/// Two elements that compare equal are all the elements of their sequence,
/// and all compare equal.
proof fn lemma_two_equal<T: Ord>(s: Seq<T>)
    requires
        total_order::<T>(),
    ensures
        s.len() == 2 && equiv(s[0], s[1]) ==> constant(s) && rotated(s) == seq![s[1], s[0]],
{
    lemma_order_laws::<T>();
    if s.len() == 2 && equiv(s[0], s[1]) {
        assert(rotated(s) =~= seq![s[1], s[0]]);
    }
}

/// Heapsort on a heap built by sifting up. Not stable: elements that all
/// compare equal come out with the first of them last and the others as
/// they were, so that two of them change places.
pub fn up<T: Ord>(xs: &mut [T])
    requires
        total_order::<T>(),
    ensures
        sorted(final(xs)@),
        final(xs)@.to_multiset() == old(xs)@.to_multiset(),
        final(xs)@.len() == old(xs)@.len(),
        old(xs)@.len() <= 1 ==> final(xs)@ == old(xs)@,
        sorted(old(xs)@) ==> equivalent(old(xs)@, final(xs)@),
        sorted(old(xs)@) && told_apart(old(xs)@) ==> final(xs)@ == old(xs)@,
        old(xs)@.len() == 2 && equiv(old(xs)@[0], old(xs)@[1]) ==> final(xs)@ == seq![
            old(xs)@[1],
            old(xs)@[0],
        ],
        constant(old(xs)@) ==> final(xs)@ == rotated(old(xs)@),
        final(xs)@ == heap_sorted(old(xs)@, by_sifting_up()),
{
    let ghost orig = xs@;
    proof {
        lemma_two_equal(orig);
    }
    sort(xs, &heapify_up::<T>);
}

/// Heapsort on a heap built by sifting down. Not stable: elements that all
/// compare equal come out with the first of them last and the others as
/// they were, so that two of them change places.
pub fn down<T: Ord>(xs: &mut [T])
    requires
        total_order::<T>(),
    ensures
        sorted(final(xs)@),
        final(xs)@.to_multiset() == old(xs)@.to_multiset(),
        final(xs)@.len() == old(xs)@.len(),
        old(xs)@.len() <= 1 ==> final(xs)@ == old(xs)@,
        sorted(old(xs)@) ==> equivalent(old(xs)@, final(xs)@),
        sorted(old(xs)@) && told_apart(old(xs)@) ==> final(xs)@ == old(xs)@,
        old(xs)@.len() == 2 && equiv(old(xs)@[0], old(xs)@[1]) ==> final(xs)@ == seq![
            old(xs)@[1],
            old(xs)@[0],
        ],
        constant(old(xs)@) ==> final(xs)@ == rotated(old(xs)@),
        final(xs)@ == heap_sorted(old(xs)@, by_sifting_down()),
{
    let ghost orig = xs@;
    proof {
        lemma_two_equal(orig);
    }
    sort(xs, &heapify_down::<T>);
}

} // verus!
