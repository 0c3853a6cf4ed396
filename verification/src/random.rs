//! The random source, and what this crate takes on trust about it.

use vstd::prelude::*;
use rand::rngs::ThreadRng;
use rand::seq::SliceRandom;

verus! {

/// `rand::rngs::ThreadRng`, the generator that each thread keeps for itself.
/// Nothing is known of its state.
#[verifier::external_type_specification]
#[verifier::external_body]
pub struct ExThreadRng(rand::rngs::ThreadRng);

/// `rand::thread_rng`: a handle to the calling thread's generator, seeded by
/// the system. Nothing is claimed of what it will generate. (It takes no
/// argument, and panics only where the system has no randomness to seed the
/// generator with.)
pub assume_specification[ rand::thread_rng ]() -> (rng: ThreadRng)
;

/// `rand::seq::SliceRandom::shuffle`: brings the slice's elements into a
/// random order by exchanging them in pairs. Which order is not known; that
/// the elements are the same, each as often as before, is.
#[verifier::external_body]
pub(crate) fn shuffle<T>(xs: &mut [T], rng: &mut ThreadRng)
    ensures
        final(xs)@.to_multiset() == old(xs)@.to_multiset(),
        final(xs)@.len() == old(xs)@.len(),
{
    xs.shuffle(rng)
}

} // verus!
