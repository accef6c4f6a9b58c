//! The random source.
//!
//! Randomness comes from rand's `StdRng`, seeded from the operating system's
//! entropy source — passphrase unpredictability is a security property, so
//! the generator is never seeded deterministically. Each wrapper states only
//! what holds of every possible outcome: nothing more can be promised of a
//! random value.

use vstd::prelude::*;
use rand::rngs::StdRng;

verus! {

#[verifier::external_type_specification]
#[verifier::external_body]
pub struct ExStdRng(StdRng);

/// Relies on rand's `SeedableRng::from_os_rng`: a fresh generator seeded
/// from the operating system's entropy source.
#[verifier::external_body]
pub fn new_rng() -> StdRng {
    <StdRng as rand::SeedableRng>::from_os_rng()
}

/// Relies on rand's `Rng::random_range` over `0..len`: the draw is uniform
/// over that range, so it lies below `len`. The range must be non-empty,
/// else the call panics.
#[verifier::external_body]
pub fn draw_index(rng: &mut StdRng, len: usize) -> (r: usize)
    requires
        len > 0,
    ensures
        r < len,
{
    rand::Rng::random_range(rng, 0..len)
}

/// Relies on rand's `SliceRandom::shuffle`: a uniformly random in-place
/// permutation — the list is rearranged, no word added or dropped.
#[verifier::external_body]
pub fn shuffle_words(rng: &mut StdRng, words: &mut Vec<String>)
    ensures
        final(words).deep_view().to_multiset() == old(words).deep_view().to_multiset(),
{
    rand::seq::SliceRandom::shuffle(words.as_mut_slice(), rng);
}

} // verus!
