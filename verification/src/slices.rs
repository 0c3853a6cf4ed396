//! Exchanging and copying the elements of slices.

use vstd::prelude::*;
use crate::rearrange::swapped;

verus! {

/// Cloning a value of the type gives that value again, whatever the value.
///
/// The sorts that copy elements ask for it: without it a copy could differ
/// from what it was made of, and what comes out would not be what went in. It
/// holds of the primitive integers, of `bool` and `char`, and of shared
/// references.
pub open spec fn faithful_clone<T: Clone>() -> bool {
    forall|a: T, b: T| #[trigger] call_ensures(T::clone, (&a,), b) ==> b == a
}

/// Exchanges the elements at `a` and `b`.
pub fn exchange<T>(xs: &mut [T], a: usize, b: usize)
    requires
        a < old(xs)@.len(),
        b < old(xs)@.len(),
    ensures
        final(xs)@ == swapped(old(xs)@, a as int, b as int),
{
    let ghost orig = xs@;
    if a == b {
        proof {
            assert(swapped(orig, a as int, b as int) =~= orig);
        }
        return ;
    }
    let (lo, hi) = if a < b {
        (a, b)
    } else {
        (b, a)
    };
    let (left, right) = xs.split_at_mut(hi);
    core::mem::swap(&mut left[lo], &mut right[0]);
    proof {
        assert(left@ + right@ =~= swapped(orig, a as int, b as int));
    }
}

/// A new vector that holds a clone of each element of `xs`, in order.
pub fn copy_of<T: Clone>(xs: &[T]) -> (v: Vec<T>)
    requires
        faithful_clone::<T>(),
    ensures
        v@ == xs@,
{
    let mut v: Vec<T> = Vec::new();
    let mut c: usize = 0;
    while c < xs.len()
        invariant
            faithful_clone::<T>(),
            c <= xs@.len(),
            v@ == xs@.subrange(0, c as int),
        decreases xs@.len() - c,
    {
        v.push(xs[c].clone());
        proof {
            assert(v@ =~= xs@.subrange(0, c + 1));
        }
        c = c + 1;
    }
    proof {
        assert(xs@.subrange(0, xs@.len() as int) =~= xs@);
    }
    v
}

/// Overwrites each element of `xs` with a clone of the element of `src` at
/// its position.
pub fn copy_from<T: Clone>(xs: &mut [T], src: &[T])
    requires
        faithful_clone::<T>(),
        old(xs)@.len() == src@.len(),
    ensures
        final(xs)@ == src@,
{
    let mut c: usize = 0;
    while c < src.len()
        invariant
            faithful_clone::<T>(),
            c <= src@.len(),
            xs@.len() == src@.len(),
            forall|k: int| 0 <= k < c ==> xs@[k] == src@[k],
        decreases src@.len() - c,
    {
        xs[c] = src[c].clone();
        c = c + 1;
    }
    proof {
        assert(xs@ =~= src@);
    }
}

} // verus!
