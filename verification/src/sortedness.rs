//! Sortedness of a sequence under the element type's order.

use vstd::prelude::*;
use vstd::seq_lib::to_multiset_build;
use crate::order::{
    antisymmetric,
    equiv,
    le,
    lemma_equiv_trans,
    lemma_le_refl,
    lemma_le_trans,
    lemma_trichotomy,
    total_order,
};
use crate::rearrange::{
    lemma_permutation_len,
    lemma_permutation_member,
    lemma_swap_permutes,
    swapped,
};

verus! {

/// `a` and `b` are equally long, and at each position the element of the one
/// compares equal to the element of the other.
pub open spec fn equivalent<T: Ord>(a: Seq<T>, b: Seq<T>) -> bool {
    &&& a.len() == b.len()
    &&& forall|i: int| 0 <= i < a.len() ==> equiv(#[trigger] a[i], b[i])
}

/// The order tells the elements of `s` apart: two of them compare equal
/// only where they are one and the same value.
pub open spec fn told_apart<T: Ord>(s: Seq<T>) -> bool {
    forall|i: int, j: int|
        0 <= i < s.len() && 0 <= j < s.len() && equiv(#[trigger] s[i], #[trigger] s[j]) ==> s[i]
            == s[j]
}

/// All elements of `s` compare equal.
pub open spec fn constant<T: Ord>(s: Seq<T>) -> bool {
    forall|i: int, j: int|
        0 <= i < s.len() && 0 <= j < s.len() ==> equiv(#[trigger] s[i], #[trigger] s[j])
}

/// `s` with its first element moved behind all the others.
pub open spec fn rotated<T>(s: Seq<T>) -> Seq<T> {
    if s.len() == 0 {
        s
    } else {
        s.subrange(1, s.len() as int).push(s[0])
    }
}

/// No element of `s` is ordered strictly after a later one.
pub open spec fn sorted<T: Ord>(s: Seq<T>) -> bool {
    forall|i: int, j: int| 0 <= i < j < s.len() ==> le(#[trigger] s[i], #[trigger] s[j])
}

/// Every element of `s` is ordered before or equal to its right neighbour.
pub open spec fn neighbours_ordered<T: Ord>(s: Seq<T>) -> bool {
    forall|i: int| 0 <= i < s.len() - 1 ==> le(#[trigger] s[i], s[i + 1])
}

/// Every element of `a` is ordered before or equal to every element of `b`.
pub open spec fn all_le<T: Ord>(a: Seq<T>, b: Seq<T>) -> bool {
    forall|i: int, j: int|
        0 <= i < a.len() && 0 <= j < b.len() ==> le(#[trigger] a[i], #[trigger] b[j])
}

/// In a sequence whose neighbours are in order, the element at `i` is
/// ordered before or equal to the one at `j`.
proof fn lemma_neighbours_reach<T: Ord>(s: Seq<T>, i: int, j: int)
    requires
        total_order::<T>(),
        neighbours_ordered(s),
        0 <= i <= j < s.len(),
    ensures
        le(s[i], s[j]),
    decreases j - i,
{
    if i == j {
        lemma_le_refl(s[i]);
    } else {
        lemma_neighbours_reach(s, i, j - 1);
        assert(le(s[j - 1], s[j - 1 + 1]));
        lemma_le_trans(s[i], s[j - 1], s[j]);
    }
}

/// Comparing neighbours is enough: a sequence is sorted exactly when each
/// element is ordered before or equal to the next.
pub proof fn lemma_sorted_by_neighbours<T: Ord>(s: Seq<T>)
    requires
        total_order::<T>(),
    ensures
        sorted(s) <==> neighbours_ordered(s),
{
    if neighbours_ordered(s) {
        assert forall|i: int, j: int| 0 <= i < j < s.len() implies le(
            #[trigger] s[i],
            #[trigger] s[j],
        ) by {
            lemma_neighbours_reach(s, i, j);
        }
    }
}

/// Two sorted sequences, the first of which holds nothing ordered after
/// anything in the second, are sorted when put one after the other.
pub proof fn lemma_sorted_concat<T: Ord>(a: Seq<T>, b: Seq<T>)
    requires
        sorted(a),
        sorted(b),
        all_le(a, b),
    ensures
        sorted(a + b),
{
    let s = a + b;
    assert forall|i: int, j: int| 0 <= i < j < s.len() implies le(
        #[trigger] s[i],
        #[trigger] s[j],
    ) by {
        if j < a.len() {
            assert(le(a[i], a[j]));
        } else if i >= a.len() {
            assert(le(b[i - a.len()], b[j - a.len()]));
        } else {
            assert(le(a[i], b[j - a.len()]));
        }
    }
}

/// Every sub-range of a sorted sequence is sorted.
pub proof fn lemma_sorted_subrange<T: Ord>(s: Seq<T>, lo: int, hi: int)
    requires
        sorted(s),
        0 <= lo <= hi <= s.len(),
    ensures
        sorted(s.subrange(lo, hi)),
{
    let r = s.subrange(lo, hi);
    assert forall|i: int, j: int| 0 <= i < j < r.len() implies le(
        #[trigger] r[i],
        #[trigger] r[j],
    ) by {
        assert(le(s[lo + i], s[lo + j]));
    }
}

/// Two sorted sequences that hold the same elements agree at every position
/// up to what the order can tell apart.
pub proof fn lemma_sorted_rearrangement_equivalent<T: Ord>(a: Seq<T>, b: Seq<T>)
    requires
        total_order::<T>(),
        sorted(a),
        sorted(b),
        a.to_multiset() == b.to_multiset(),
    ensures
        equivalent(a, b),
    decreases a.len(),
{
    lemma_permutation_len(a, b);
    if a.len() > 0 {
        let n = a.len() - 1;
        let u = a[n];
        let v = b[n];
        let k = lemma_permutation_member(a, b, n);
        let k2 = lemma_permutation_member(b, a, n);
        lemma_le_refl(u);
        lemma_le_refl(v);
        assert(le(v, u)) by {
            if k < n {
                assert(le(a[k], a[n]));
            }
        }
        assert(le(u, v)) by {
            if k2 < n {
                assert(le(b[k2], b[n]));
            }
        }
        lemma_trichotomy(u, v);
        lemma_trichotomy(v, u);
        // bring the occurrence of `v` in `a` to the end: only elements that
        // compare equal change places
        let a2 = swapped(a, k, n);
        lemma_swap_permutes(a, k, n);
        assert forall|i: int, j: int| 0 <= i < j < a2.len() implies le(
            #[trigger] a2[i],
            #[trigger] a2[j],
        ) by {
            assert(le(a[i], a[j]));
            if i == k && j < n {
                assert(le(a[k], a[j]));
                lemma_le_trans(u, v, a[j]);
            } else if i != k && j == n {
                assert(le(a[i], a[n]));
                lemma_le_trans(a[i], u, v);
            } else if j == k {
                assert(le(a[i], a[n]));
            }
        }
        let ra = a2.drop_last();
        let rb = b.drop_last();
        assert(a2 =~= ra.push(v));
        assert(b =~= rb.push(v));
        to_multiset_build(ra, v);
        to_multiset_build(rb, v);
        assert(ra.to_multiset() =~= rb.to_multiset()) by {
            broadcast use vstd::multiset::group_multiset_axioms;

            assert forall|x: T| ra.to_multiset().count(x) == rb.to_multiset().count(x) by {
                assert(ra.to_multiset().insert(v).count(x) == rb.to_multiset().insert(v).count(x));
            }
        }
        lemma_sorted_subrange(a2, 0, n);
        lemma_sorted_subrange(b, 0, n);
        lemma_sorted_rearrangement_equivalent(ra, rb);
        assert forall|i: int| 0 <= i < a.len() implies equiv(#[trigger] a[i], b[i]) by {
            if i < n {
                assert(equiv(ra[i], rb[i]));
                if i == k {
                    lemma_equiv_trans(v, u, b[i]);
                }
            }
        }
    }
}

/// A sequence whose elements the order tells apart has one sorted
/// rearrangement.
pub proof fn lemma_sorted_rearrangement_unique<T: Ord>(a: Seq<T>, b: Seq<T>)
    requires
        total_order::<T>(),
        told_apart(a),
        sorted(a),
        sorted(b),
        a.to_multiset() == b.to_multiset(),
    ensures
        a == b,
{
    lemma_sorted_rearrangement_equivalent(a, b);
    assert forall|i: int| 0 <= i < a.len() implies a[i] == b[i] by {
        let k = lemma_permutation_member(a, b, i);
        assert(equiv(a[i], b[i]));
        assert(equiv(a[i], a[k]));
    }
    assert(a =~= b);
}

/// Where no two different values of a type compare equal, the order tells
/// the elements of every sequence apart.
pub proof fn lemma_antisymmetric_told_apart<T: Ord>(s: Seq<T>)
    requires
        antisymmetric::<T>(),
    ensures
        told_apart(s),
{
}

/// What sorting does to input that is sorted already. Let `b` be a sorted
/// rearrangement of `a`. If `a` was sorted, `b` agrees with it at every
/// position up to what the order can tell apart; and `b` is `a` itself if
/// the order tells the elements of `a` apart. (If it does not, elements
/// that compare equal may have changed places.)
pub proof fn lemma_sorting_sorted_input<T: Ord>(a: Seq<T>, b: Seq<T>)
    requires
        total_order::<T>(),
        sorted(b),
        a.to_multiset() == b.to_multiset(),
    ensures
        sorted(a) ==> equivalent(a, b),
        sorted(a) && told_apart(a) ==> b == a,
{
    if sorted(a) {
        lemma_sorted_rearrangement_equivalent(a, b);
        if told_apart(a) {
            lemma_sorted_rearrangement_unique(a, b);
        }
    }
}

} // verus!
