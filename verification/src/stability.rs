//! Stability: a rearrangement that never lets two elements that compare
//! equal overtake one another.

use vstd::prelude::*;
use vstd::seq_lib::to_multiset_build;
use crate::order::{equiv, le, lemma_equiv_trans, lemma_le_refl, lemma_trichotomy, total_order};
use crate::rearrange::swapped;
use crate::sortedness::sorted;

verus! {

/// The values that compare equal to `x`.
pub open spec fn class_of<T: Ord>(x: T) -> spec_fn(T) -> bool {
    |y: T| equiv(x, y)
}

/// `b` is a stable rearrangement of `a`: whatever value one picks, the
/// elements that compare equal to it are the same in `a` and in `b`, and
/// stand in the same order.
pub open spec fn stable<T: Ord>(a: Seq<T>, b: Seq<T>) -> bool {
    forall|x: T| #[trigger] b.filter(class_of(x)) == a.filter(class_of(x))
}

/// Exchanging two neighbours that do not compare equal is a stable
/// rearrangement.
pub proof fn lemma_swap_neighbours_stable<T: Ord>(s: Seq<T>, i: int)
    requires
        total_order::<T>(),
        0 <= i,
        i + 1 < s.len(),
        !equiv(s[i], s[i + 1]),
    ensures
        stable(s, swapped(s, i, i + 1)),
{
    let t = swapped(s, i, i + 1);
    let pre = s.subrange(0, i);
    let post = s.subrange(i + 2, s.len() as int);
    let e = Seq::<T>::empty();
    assert(s =~= pre + e.push(s[i]).push(s[i + 1]) + post);
    assert(t =~= pre + e.push(s[i + 1]).push(s[i]) + post);
    assert forall|x: T| #[trigger] t.filter(class_of(x)) == s.filter(class_of(x)) by {
        let p = class_of(x);
        if p(s[i]) && p(s[i + 1]) {
            lemma_trichotomy(x, s[i]);
            lemma_equiv_trans(s[i], x, s[i + 1]);
        }
        e.lemma_filter_push(s[i], p);
        e.push(s[i]).lemma_filter_push(s[i + 1], p);
        e.lemma_filter_push(s[i + 1], p);
        e.push(s[i + 1]).lemma_filter_push(s[i], p);
        let uv = e.push(s[i]).push(s[i + 1]);
        let vu = e.push(s[i + 1]).push(s[i]);
        assert(uv.filter(p) == vu.filter(p));
        Seq::filter_distributes_over_add(pre, uv, p);
        Seq::filter_distributes_over_add(pre + uv, post, p);
        Seq::filter_distributes_over_add(pre, vu, p);
        Seq::filter_distributes_over_add(pre + vu, post, p);
    }
}

/// Stable rearrangements of two parts give a stable rearrangement of their
/// concatenation.
pub proof fn lemma_stable_concat<T: Ord>(a1: Seq<T>, a2: Seq<T>, b1: Seq<T>, b2: Seq<T>)
    requires
        stable(a1, b1),
        stable(a2, b2),
    ensures
        stable(a1 + a2, b1 + b2),
{
    assert forall|x: T|
        #[trigger] (b1 + b2).filter(class_of(x)) == (a1 + a2).filter(class_of(x)) by {
        let p = class_of(x);
        Seq::filter_distributes_over_add(a1, a2, p);
        Seq::filter_distributes_over_add(b1, b2, p);
        assert(b1.filter(p) == a1.filter(p));
        assert(b2.filter(p) == a2.filter(p));
    }
}

/// A stable rearrangement of a stable rearrangement is one.
pub proof fn lemma_stable_trans<T: Ord>(a: Seq<T>, b: Seq<T>, c: Seq<T>)
    requires
        stable(a, b),
        stable(b, c),
    ensures
        stable(a, c),
{
    assert forall|x: T| #[trigger] c.filter(class_of(x)) == a.filter(class_of(x)) by {
        assert(c.filter(class_of(x)) == b.filter(class_of(x)));
        assert(b.filter(class_of(x)) == a.filter(class_of(x)));
    }
}

/// Filtering by a predicate that `v` satisfies keeps every occurrence of `v`.
proof fn lemma_filter_keeps_count<T>(s: Seq<T>, p: spec_fn(T) -> bool, v: T)
    requires
        p(v),
    ensures
        s.filter(p).to_multiset().count(v) == s.to_multiset().count(v),
    decreases s.len(),
{
    broadcast use vstd::multiset::group_multiset_axioms;

    if s.len() == 0 {
        assert(s.filter(p).len() == 0) by {
            s.lemma_filter_len(p);
        }
        assert(s.filter(p) =~= s);
    } else {
        let r = s.drop_last();
        let e = s.last();
        assert(s =~= r.push(e));
        lemma_filter_keeps_count(r, p, v);
        r.lemma_filter_push(e, p);
        to_multiset_build(r, e);
        if p(e) {
            to_multiset_build(r.filter(p), e);
        }
    }
}

/// A stable rearrangement is a rearrangement: it holds the same elements,
/// each as often.
pub proof fn lemma_stable_permutes<T: Ord>(a: Seq<T>, b: Seq<T>)
    requires
        total_order::<T>(),
        stable(a, b),
    ensures
        a.to_multiset() == b.to_multiset(),
        a.len() == b.len(),
{
    assert forall|v: T| a.to_multiset().count(v) == b.to_multiset().count(v) by {
        lemma_le_refl(v);
        let p = class_of(v);
        assert(p(v));
        lemma_filter_keeps_count(a, p, v);
        lemma_filter_keeps_count(b, p, v);
        assert(b.filter(p) == a.filter(p));
    }
    assert(a.to_multiset() =~= b.to_multiset());
    crate::rearrange::lemma_permutation_len(a, b);
}

/// A sorted sequence has one sorted stable rearrangement: itself.
pub proof fn lemma_stable_sorted_unique<T: Ord>(a: Seq<T>, b: Seq<T>)
    requires
        total_order::<T>(),
        sorted(a),
        sorted(b),
        stable(a, b),
    ensures
        a == b,
    decreases a.len() + b.len(),
{
    if a.len() == 0 || b.len() == 0 {
        lemma_stable_permutes(a, b);
        assert(a =~= b);
    } else {
        let u = a.last();
        let v = b.last();
        let ra = a.drop_last();
        let rb = b.drop_last();
        assert(a =~= ra.push(u));
        assert(b =~= rb.push(v));
        lemma_le_refl(u);
        lemma_le_refl(v);
        // each of the two last elements occurs in the other sequence, which
        // holds nothing ordered after its own last element
        assert(le(v, u)) by {
            let p = class_of(v);
            b.lemma_filter_contains(p, b.len() - 1);
            assert(a.filter(p) == b.filter(p));
            a.lemma_filter_contains_rev(p, v);
            let k = choose|k: int| 0 <= k < a.len() && a[k] == v;
            if k < a.len() - 1 {
                assert(le(a[k], a[a.len() - 1]));
            }
        }
        assert(le(u, v)) by {
            let p = class_of(u);
            a.lemma_filter_contains(p, a.len() - 1);
            assert(b.filter(p) == a.filter(p));
            b.lemma_filter_contains_rev(p, u);
            let k = choose|k: int| 0 <= k < b.len() && b[k] == u;
            if k < b.len() - 1 {
                assert(le(b[k], b[b.len() - 1]));
            }
        }
        lemma_trichotomy(u, v);
        assert forall|x: T| #[trigger] rb.filter(class_of(x)) == ra.filter(class_of(x)) by {
            let p = class_of(x);
            ra.lemma_filter_push(u, p);
            rb.lemma_filter_push(v, p);
            assert(b.filter(p) == a.filter(p));
            if p(u) {
                lemma_equiv_trans(x, u, v);
                assert(rb.filter(p) =~= b.filter(p).drop_last());
                assert(ra.filter(p) =~= a.filter(p).drop_last());
            } else if p(v) {
                lemma_equiv_trans(x, v, u);
            }
        }
        assert(u == v) by {
            let p = class_of(u);
            ra.lemma_filter_push(u, p);
            rb.lemma_filter_push(v, p);
            assert(b.filter(p) == a.filter(p));
            assert(a.filter(p).last() == u);
            assert(b.filter(p).last() == v);
        }
        assert(sorted(ra)) by {
            crate::sortedness::lemma_sorted_subrange(a, 0, a.len() - 1);
        }
        assert(sorted(rb)) by {
            crate::sortedness::lemma_sorted_subrange(b, 0, b.len() - 1);
        }
        lemma_stable_sorted_unique(ra, rb);
    }
}

/// The sorted stable rearrangement of `s`: what every stable sort makes of
/// it.
pub open spec fn stably_sorted<T: Ord>(s: Seq<T>) -> Seq<T> {
    choose|r: Seq<T>| sorted(r) && stable(s, r)
}

/// There is one sorted stable rearrangement of a sequence.
pub proof fn lemma_stably_sorted<T: Ord>(s: Seq<T>, r: Seq<T>)
    requires
        total_order::<T>(),
        sorted(r),
        stable(s, r),
    ensures
        r == stably_sorted(s),
{
    let c = stably_sorted(s);
    assert(sorted(c) && stable(s, c));
    assert forall|x: T| #[trigger] c.filter(class_of(x)) == r.filter(class_of(x)) by {
        assert(c.filter(class_of(x)) == s.filter(class_of(x)));
        assert(r.filter(class_of(x)) == s.filter(class_of(x)));
    }
    lemma_stable_sorted_unique(r, c);
}

/// What a stable sort does, beyond sorting stably. Let `b` be a sorted
/// stable rearrangement of `a`. It is the only one; it holds the elements
/// of `a`, each as often; and it is `a` itself if `a` was sorted, or no
/// longer than one element.
pub proof fn lemma_stable_sorting<T: Ord>(a: Seq<T>, b: Seq<T>)
    requires
        total_order::<T>(),
        stable(a, b),
        sorted(b),
    ensures
        b == stably_sorted(a),
        a.to_multiset() == b.to_multiset(),
        a.len() == b.len(),
        sorted(a) ==> b == a,
        a.len() <= 1 ==> b == a,
{
    lemma_stably_sorted(a, b);
    lemma_stable_permutes(a, b);
    if sorted(a) {
        lemma_stable_sorted_unique(a, b);
    }
}

/// Filtering keeps the order of what it keeps: two elements that pass stand
/// in the filtered sequence as they stood, the earlier one first.
proof fn lemma_filter_keeps_order<T>(s: Seq<T>, p: spec_fn(T) -> bool, i: int, j: int) -> (r: (
    int,
    int,
))
    requires
        0 <= i < j < s.len(),
        p(s[i]),
        p(s[j]),
    ensures
        0 <= r.0 < r.1 < s.filter(p).len(),
        s.filter(p)[r.0] == s[i],
        s.filter(p)[r.1] == s[j],
    decreases s.len(),
{
    let rest = s.drop_last();
    let e = s.last();
    assert(s =~= rest.push(e));
    rest.lemma_filter_push(e, p);
    if j == s.len() - 1 {
        rest.lemma_filter_contains(p, i);
        let k = choose|k: int| 0 <= k < rest.filter(p).len() && rest.filter(p)[k] == rest[i];
        (k, rest.filter(p).len() as int)
    } else {
        lemma_filter_keeps_order(rest, p, i, j)
    }
}

/// Filtering a sequence along which `origin` grows strictly gives one along
/// which it still does.
proof fn lemma_filter_keeps_growth<T>(s: Seq<T>, p: spec_fn(T) -> bool, origin: spec_fn(T) -> int)
    requires
        forall|i: int, j: int|
            0 <= i < j < s.len() ==> origin(#[trigger] s[i]) < origin(#[trigger] s[j]),
    ensures
        forall|i: int, j: int|
            0 <= i < j < s.filter(p).len() ==> origin(#[trigger] s.filter(p)[i]) < origin(
                #[trigger] s.filter(p)[j],
            ),
    decreases s.len(),
{
    let f = s.filter(p);
    if s.len() == 0 {
        s.lemma_filter_len(p);
    } else {
        let rest = s.drop_last();
        let e = s.last();
        assert(s =~= rest.push(e));
        rest.lemma_filter_push(e, p);
        assert forall|i: int, j: int| 0 <= i < j < rest.len() implies origin(#[trigger] rest[i])
            < origin(#[trigger] rest[j]) by {
            assert(rest[i] == s[i] && rest[j] == s[j]);
        }
        lemma_filter_keeps_growth(rest, p, origin);
        let g = rest.filter(p);
        assert forall|i: int, j: int| 0 <= i < j < f.len() implies origin(#[trigger] f[i])
            < origin(#[trigger] f[j]) by {
            if j < g.len() {
                assert(f[i] == g[i] && f[j] == g[j]);
            } else {
                assert(f[j] == e);
                assert(f[i] == g[i]);
                assert(g.contains(g[i]));
                rest.lemma_filter_contains_rev(p, g[i]);
                let k = choose|k: int| 0 <= k < rest.len() && rest[k] == g[i];
                assert(origin(s[k]) < origin(s[s.len() - 1]));
            }
        }
    }
}

/// Stability in terms of origins. Let every element of `a` carry a mark that
/// grows strictly along `a` (its index, say), invisible to the order. In a
/// stable rearrangement `b` of `a`, of two elements that compare equal the
/// one with the smaller mark comes first.
pub proof fn lemma_stable_keeps_origin_order<T: Ord>(
    a: Seq<T>,
    b: Seq<T>,
    origin: spec_fn(T) -> int,
    i: int,
    j: int,
)
    requires
        total_order::<T>(),
        stable(a, b),
        forall|p: int, q: int|
            0 <= p < q < a.len() ==> origin(#[trigger] a[p]) < origin(#[trigger] a[q]),
        0 <= i < j < b.len(),
        equiv(b[i], b[j]),
    ensures
        origin(b[i]) < origin(b[j]),
{
    let c = class_of(b[i]);
    lemma_le_refl(b[i]);
    let r = lemma_filter_keeps_order(b, c, i, j);
    assert(b.filter(c) == a.filter(c));
    lemma_filter_keeps_growth(a, c, origin);
    let f = a.filter(c);
    assert(origin(f[r.0]) < origin(f[r.1]));
}

} // verus!
