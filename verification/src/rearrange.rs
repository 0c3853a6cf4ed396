//! Rearrangements: what it means for one sequence to hold the elements of
//! another in a different order, and the facts about exchanges,
//! concatenation and sub-ranges that the algorithms rest on.

use vstd::prelude::*;
use vstd::seq_lib::lemma_multiset_commutative;
use vstd::seq_lib::to_multiset_contains;
use vstd::seq_lib::to_multiset_len;
use vstd::seq_lib::to_multiset_update;

verus! {

/// `s` with the elements at `i` and `j` exchanged.
pub open spec fn swapped<T>(s: Seq<T>, i: int, j: int) -> Seq<T>
    recommends
        0 <= i < s.len(),
        0 <= j < s.len(),
{
    s.update(i, s[j]).update(j, s[i])
}

/// An exchange of two elements keeps the multiset of elements.
pub proof fn lemma_swap_permutes<T>(s: Seq<T>, i: int, j: int)
    requires
        0 <= i < s.len(),
        0 <= j < s.len(),
    ensures
        swapped(s, i, j).to_multiset() == s.to_multiset(),
        swapped(s, i, j).len() == s.len(),
{
    broadcast use vstd::multiset::group_multiset_axioms;

    let m = s.to_multiset();
    let s1 = s.update(i, s[j]);
    to_multiset_update(s, i, s[j]);
    to_multiset_update(s1, j, s[i]);
    to_multiset_contains(s, s[i]);
    to_multiset_contains(s, s[j]);
    assert(s.contains(s[i]));
    assert(s.contains(s[j]));
    assert(s1[j] == s[j]);
    assert(m.insert(s[j]).remove(s[i]).insert(s[i]).remove(s[j]) =~= m);
}

/// Sequences with the same multiset of elements have the same length.
pub proof fn lemma_permutation_len<T>(a: Seq<T>, b: Seq<T>)
    requires
        a.to_multiset() == b.to_multiset(),
    ensures
        a.len() == b.len(),
{
    to_multiset_len(a);
    to_multiset_len(b);
}

/// Every element of a rearrangement occurs in the sequence it rearranges.
pub proof fn lemma_permutation_member<T>(a: Seq<T>, b: Seq<T>, i: int) -> (j: int)
    requires
        a.to_multiset() == b.to_multiset(),
        0 <= i < b.len(),
    ensures
        0 <= j < a.len(),
        a[j] == b[i],
{
    to_multiset_contains(a, b[i]);
    to_multiset_contains(b, b[i]);
    assert(b.contains(b[i]));
    choose|j: int| 0 <= j < a.len() && a[j] == b[i]
}

/// Rearranging two parts separately rearranges their concatenation.
pub proof fn lemma_concat_permutes<T>(a1: Seq<T>, a2: Seq<T>, b1: Seq<T>, b2: Seq<T>)
    requires
        a1.to_multiset() == b1.to_multiset(),
        a2.to_multiset() == b2.to_multiset(),
    ensures
        (a1 + a2).to_multiset() == (b1 + b2).to_multiset(),
{
    lemma_multiset_commutative(a1, a2);
    lemma_multiset_commutative(b1, b2);
}

/// A sequence is its two halves at any cut, one after the other.
pub proof fn lemma_split<T>(s: Seq<T>, k: int)
    requires
        0 <= k <= s.len(),
    ensures
        s == s.subrange(0, k) + s.subrange(k, s.len() as int),
{
    assert(s =~= s.subrange(0, k) + s.subrange(k, s.len() as int));
}

/// A sequence of at most one element has no other rearrangement.
pub proof fn lemma_short_permutation<T>(a: Seq<T>, b: Seq<T>)
    requires
        a.to_multiset() == b.to_multiset(),
        a.len() <= 1,
    ensures
        a == b,
{
    lemma_permutation_len(a, b);
    if a.len() == 1 {
        let j = lemma_permutation_member(a, b, 0);
    }
    assert(a =~= b);
}

} // verus!
