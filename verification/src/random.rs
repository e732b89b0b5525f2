//! The random source, as far as the library draws on it.
use rand::seq::SliceRandom;
use rand::Rng;
use vstd::prelude::*;
use crate::problem::rect::Rect;

verus! {

/// `rand::rngs::ThreadRng`, the generator that `rand` keeps for each thread.
/// Nothing is known of its state.
#[verifier::external_type_specification]
#[verifier::external_body]
pub struct ExThreadRng(rand::rngs::ThreadRng);

/// `rand::rng`: a handle to the generator of the calling thread. The first
/// call on a thread seeds the generator from the operating system, and stops
/// the program if the system cannot supply the seed.
#[verifier::external_body]
pub(crate) fn thread_rng() -> rand::rngs::ThreadRng {
    rand::rng()
}

/// `Rng::random_range` on an inclusive range of `u64`: some value of the
/// range. The call panics on an empty range, which `low <= high` rules out.
/// Which value comes is up to the generator.
#[verifier::external_body]
pub(crate) fn random_between(rng: &mut rand::rngs::ThreadRng, low: u64, high: u64) -> (value: u64)
    requires
        low <= high,
    ensures
        low <= value <= high,
{
    rng.random_range(low..=high)
}

/// `SliceRandom::shuffle` on the rectangles of a vector: they are permuted in
/// place, so the vector holds the same rectangles as before, each as often
/// as before. Which order comes is up to the generator.
#[verifier::external_body]
pub(crate) fn shuffle_rects(rects: &mut Vec<Rect>, rng: &mut rand::rngs::ThreadRng)
    ensures
        final(rects)@.to_multiset() == old(rects)@.to_multiset(),
{
    rects.shuffle(rng)
}

} // verus!
