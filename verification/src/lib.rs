//! Diceware word-table construction and passphrase sampling.
//!
//! The library has two halves. The construction half filters a corpus of
//! words by length, removes duplicates, generates the complete space of
//! dice-roll index strings, and pairs a sorted word list against that index
//! space to form a diceware word table. The sampling half draws words
//! uniformly at random from a finished word list and joins them into a
//! passphrase.

use vstd::prelude::*;

pub mod assemble;
pub mod dedup;
pub mod filter;
pub mod index;
pub mod order;
pub mod rng;
pub mod sample;
pub mod text;

verus! {

/// The errors the library reports. Both are fatal for the invocation that
/// raised them.
#[derive(Clone, Copy, Debug, PartialEq, Eq, Structural)]
pub enum DicewareError {
    /// The index space `dice^number` exceeds the platform's safe ceiling.
    IndexSpaceOverflow,
    /// The sampler was invoked with no candidate words.
    EmptyWordList,
}

} // verus!
