//! The comparator abstraction: what it means for an element type to be
//! totally ordered, the three relations every algorithm is stated in, the
//! laws they obey, and the executable comparisons the algorithms call.

use vstd::prelude::*;
use vstd::laws_cmp::obeys_cmp;
use vstd::laws_cmp::obeys_cmp_ord;
use vstd::laws_cmp::obeys_cmp_partial_ord;
use vstd::laws_cmp::obeys_partial_cmp_spec_properties;
use vstd::laws_eq::obeys_eq_spec_properties;
use vstd::std_specs::cmp::OrdSpec;
use vstd::std_specs::cmp::PartialOrdSpec;
use core::cmp::Ordering;

verus! {

/// The element type's comparison is deterministic and a total order up to
/// its own notion of equality: `<`, `<=`, `>`, `>=` and `cmp` all agree,
/// every two values are comparable, and the order is transitive.
///
/// Every sorting function of this crate asks for it. It holds of the
/// primitive integers, and of tuples, options and references built from
/// types of which it holds.
pub open spec fn total_order<T: Ord>() -> bool {
    obeys_cmp::<T>()
}

/// `a` is ordered strictly before `b`.
pub open spec fn lt<T: Ord>(a: T, b: T) -> bool {
    a.cmp_spec(&b) == Ordering::Less
}

/// `a` is ordered before `b`, or the two compare equal.
pub open spec fn le<T: Ord>(a: T, b: T) -> bool {
    a.cmp_spec(&b) != Ordering::Greater
}

/// `a` and `b` compare equal. They need not be the same value: a record
/// ordered by one of its fields compares equal to every record with the
/// same key.
pub open spec fn equiv<T: Ord>(a: T, b: T) -> bool {
    a.cmp_spec(&b) == Ordering::Equal
}

/// No two different values of the type compare equal.
pub open spec fn antisymmetric<T: Ord>() -> bool {
    forall|a: T, b: T| #[trigger] equiv(a, b) ==> a == b
}

/// Every value is ordered before or equal to itself.
pub proof fn lemma_le_refl<T: Ord>(a: T)
    requires
        total_order::<T>(),
    ensures
        le(a, a),
        equiv(a, a),
        !lt(a, a),
{
    reveal(obeys_cmp_partial_ord);
    reveal(obeys_cmp_ord);
    reveal(obeys_partial_cmp_spec_properties);
    assert(a.partial_cmp_spec(&a) == Some(a.cmp_spec(&a)));
}

/// Exactly one of `a < b`, `a ~ b`, `b < a` holds, and `<=` is the
/// complement of the reversed `<`.
pub proof fn lemma_trichotomy<T: Ord>(a: T, b: T)
    requires
        total_order::<T>(),
    ensures
        le(a, b) <==> !lt(b, a),
        le(a, b) <==> lt(a, b) || equiv(a, b),
        equiv(a, b) <==> le(a, b) && le(b, a),
        equiv(a, b) <==> equiv(b, a),
        lt(a, b) ==> !equiv(a, b) && !lt(b, a),
{
    reveal(obeys_cmp_partial_ord);
    reveal(obeys_cmp_ord);
    reveal(obeys_partial_cmp_spec_properties);
    reveal(obeys_eq_spec_properties);
    assert(a.partial_cmp_spec(&b) == Some(a.cmp_spec(&b)));
    assert(b.partial_cmp_spec(&a) == Some(b.cmp_spec(&a)));
    lemma_le_refl(a);
}

/// Strict order is transitive.
pub proof fn lemma_lt_trans<T: Ord>(a: T, b: T, c: T)
    requires
        total_order::<T>(),
        lt(a, b),
        lt(b, c),
    ensures
        lt(a, c),
{
    reveal(obeys_cmp_partial_ord);
    reveal(obeys_cmp_ord);
    reveal(obeys_partial_cmp_spec_properties);
    assert(a.partial_cmp_spec(&b) == Some(a.cmp_spec(&b)));
    assert(b.partial_cmp_spec(&c) == Some(b.cmp_spec(&c)));
    assert(a.partial_cmp_spec(&c) == Some(a.cmp_spec(&c)));
}

/// Comparing equal is transitive.
pub proof fn lemma_equiv_trans<T: Ord>(a: T, b: T, c: T)
    requires
        total_order::<T>(),
        equiv(a, b),
        equiv(b, c),
    ensures
        equiv(a, c),
{
    reveal(obeys_cmp_partial_ord);
    reveal(obeys_cmp_ord);
    reveal(obeys_partial_cmp_spec_properties);
    reveal(obeys_eq_spec_properties);
    assert(a.partial_cmp_spec(&b) == Some(a.cmp_spec(&b)));
    assert(b.partial_cmp_spec(&c) == Some(b.cmp_spec(&c)));
    assert(a.partial_cmp_spec(&c) == Some(a.cmp_spec(&c)));
}

/// `<=` is transitive, and the conclusion is strict as soon as one of the
/// two steps is.
pub proof fn lemma_le_trans<T: Ord>(a: T, b: T, c: T)
    requires
        total_order::<T>(),
        le(a, b),
        le(b, c),
    ensures
        le(a, c),
        lt(a, b) || lt(b, c) ==> lt(a, c),
{
    lemma_trichotomy(a, b);
    lemma_trichotomy(b, c);
    lemma_trichotomy(a, c);
    lemma_trichotomy(c, a);
    if lt(a, b) && lt(b, c) {
        lemma_lt_trans(a, b, c);
    } else if equiv(a, b) && equiv(b, c) {
        lemma_equiv_trans(a, b, c);
    } else if lt(a, b) {
        // b ~ c: were c <= a, then c < b or c ~ b ~ ... would contradict a < b
        if lt(c, a) {
            lemma_lt_trans(c, a, b);
            lemma_trichotomy(c, b);
        } else if equiv(c, a) {
            lemma_trichotomy(b, c);
            lemma_equiv_trans(b, c, a);
            lemma_trichotomy(b, a);
        }
    } else {
        // a ~ b and b < c
        if lt(c, a) {
            lemma_lt_trans(b, c, a);
            lemma_trichotomy(b, a);
        } else if equiv(c, a) {
            lemma_equiv_trans(c, a, b);
            lemma_trichotomy(c, b);
        }
    }
}

/// The laws of the order in one place, for every value at once.
pub proof fn lemma_order_laws<T: Ord>()
    requires
        total_order::<T>(),
    ensures
        forall|a: T| #[trigger] le(a, a),
        forall|a: T| #[trigger] equiv(a, a),
        forall|a: T, b: T| #[trigger] le(a, b) <==> !lt(b, a),
        forall|a: T, b: T| #[trigger] equiv(a, b) <==> le(a, b) && le(b, a),
        forall|a: T, b: T| #[trigger] lt(a, b) ==> le(a, b),
        forall|a: T, b: T, c: T| #[trigger] le(a, b) && #[trigger] le(b, c) ==> le(a, c),
{
    assert forall|a: T| #[trigger] le(a, a) by {
        lemma_le_refl(a);
    }
    assert forall|a: T| #[trigger] equiv(a, a) by {
        lemma_le_refl(a);
    }
    assert forall|a: T, b: T|
        (#[trigger] le(a, b) <==> !lt(b, a)) && (equiv(a, b) <==> le(a, b) && le(b, a)) && (lt(
            a,
            b,
        ) ==> le(a, b)) by {
        lemma_trichotomy(a, b);
    }
    assert forall|a: T, b: T, c: T| #[trigger] le(a, b) && #[trigger] le(b, c) implies le(
        a,
        c,
    ) by {
        lemma_le_trans(a, b, c);
    }
}

/// Whether `a` is ordered strictly before `b`.
pub fn less<T: Ord>(a: &T, b: &T) -> (r: bool)
    requires
        total_order::<T>(),
    ensures
        r == lt(*a, *b),
{
    proof {
        reveal(obeys_cmp_partial_ord);
        reveal(obeys_cmp_ord);
    }
    *a < *b
}

/// Whether `a` is ordered before `b` or compares equal to it.
pub fn at_most<T: Ord>(a: &T, b: &T) -> (r: bool)
    requires
        total_order::<T>(),
    ensures
        r == le(*a, *b),
{
    proof {
        reveal(obeys_cmp_partial_ord);
        reveal(obeys_cmp_ord);
    }
    *a <= *b
}

/// Whether `a` is ordered strictly after `b`.
pub fn greater<T: Ord>(a: &T, b: &T) -> (r: bool)
    requires
        total_order::<T>(),
    ensures
        r == lt(*b, *a),
{
    proof {
        lemma_trichotomy(*a, *b);
        lemma_trichotomy(*b, *a);
        reveal(obeys_cmp_partial_ord);
        reveal(obeys_cmp_ord);
        reveal(obeys_partial_cmp_spec_properties);
    }
    *a > *b
}

/// Whether `a` is ordered after `b` or compares equal to it.
pub fn at_least<T: Ord>(a: &T, b: &T) -> (r: bool)
    requires
        total_order::<T>(),
    ensures
        r == le(*b, *a),
{
    proof {
        lemma_trichotomy(*a, *b);
        lemma_trichotomy(*b, *a);
        reveal(obeys_cmp_partial_ord);
        reveal(obeys_cmp_ord);
        reveal(obeys_partial_cmp_spec_properties);
    }
    *a >= *b
}

} // verus!
