//! Seeded pseudo-random draws, through the `rand` crate's `StdRng`.
//!
//! A generator is opaque here. Its whole state is named by [`rng_state`], and
//! every draw is a named function of that state and of the draw's arguments:
//! the same seed followed by the same draws gives the same values.

use rand::rngs::StdRng;
use rand::seq::SliceRandom;
use rand::{Rng, SeedableRng};
use vstd::prelude::*;

verus! {

/// `rand::rngs::StdRng`, a deterministic generator (ChaCha with 12 rounds).
#[verifier::external_type_specification]
#[verifier::external_body]
pub struct ExStdRng(rand::rngs::StdRng);

/// What a generator holds: its key, counter and buffered words, as bytes.
pub uninterp spec fn rng_state(rng: StdRng) -> Seq<u8>;

/// The state that `StdRng::seed_from_u64` makes of a seed.
pub uninterp spec fn seeded_state(seed: u64) -> Seq<u8>;

/// What `Rng::random_range(0..bound)` draws as a `usize` in a given state, and
/// the state after it.
pub uninterp spec fn drawn_below(state: Seq<u8>, bound: nat) -> (nat, Seq<u8>);

/// What `Rng::random_range(low..=high)` draws as a `u16` in a given state, and
/// the state after it.
pub uninterp spec fn drawn_between(state: Seq<u8>, low: u16, high: u16) -> (u16, Seq<u8>);

/// What `Rng::random_ratio(numerator, denominator)` draws in a given state,
/// and the state after it.
pub uninterp spec fn drawn_chance(state: Seq<u8>, numerator: u32, denominator: u32) -> (bool, Seq<u8>);

/// The order in which `SliceRandom::shuffle` leaves `items` in a given state,
/// and the state after it.
pub uninterp spec fn shuffled(state: Seq<u8>, items: Seq<usize>) -> (Seq<usize>, Seq<u8>);

/// The item that a draw points at, if there is one.
pub open spec fn pointed<T>(items: Seq<T>, draw: nat) -> Option<T> {
    if draw < items.len() {
        Some(items[draw as int])
    } else {
        None
    }
}

/// `StdRng::seed_from_u64`: the generator's state is a function of the seed
/// alone.
#[verifier::external_body]
pub(crate) fn seed_rng(seed: u64) -> (rng: StdRng)
    ensures
        rng_state(rng) == seeded_state(seed),
{
    StdRng::seed_from_u64(seed)
}

/// `Rng::random_range(0..bound)`: a value below `bound`, which together with
/// the state left behind is a function of the state before and of `bound`. The
/// outside function panics on an empty range.
#[verifier::external_body]
pub(crate) fn random_below(rng: &mut StdRng, bound: usize) -> (value: usize)
    requires
        0 < bound,
    ensures
        value < bound,
        (value as nat, rng_state(*final(rng))) == drawn_below(rng_state(*old(rng)), bound as nat),
{
    rng.random_range(0..bound)
}

/// `Rng::random_range(low..=high)`: a value from `low` to `high`, which
/// together with the state left behind is a function of the state before and
/// of the bounds. The outside function panics on an empty range.
#[verifier::external_body]
pub(crate) fn random_between(rng: &mut StdRng, low: u16, high: u16) -> (value: u16)
    requires
        low <= high,
    ensures
        low <= value <= high,
        (value, rng_state(*final(rng))) == drawn_between(rng_state(*old(rng)), low, high),
{
    rng.random_range(low..=high)
}

/// `Rng::random_ratio`: `true` with probability `numerator / denominator`,
/// always at equality and never at zero; a function of the state before and of
/// the two numbers, as is the state left behind. The outside function panics
/// where the probability is not one.
#[verifier::external_body]
pub(crate) fn random_chance(rng: &mut StdRng, numerator: u32, denominator: u32) -> (hit: bool)
    requires
        numerator <= denominator,
        0 < denominator,
    ensures
        numerator == denominator ==> hit,
        numerator == 0 ==> !hit,
        (hit, rng_state(*final(rng))) == drawn_chance(rng_state(*old(rng)), numerator, denominator),
{
    rng.random_ratio(numerator, denominator)
}

/// `SliceRandom::shuffle`: reorders the items; the order, like the state left
/// behind, is a function of the state before and of the items as they stood.
#[verifier::external_body]
pub(crate) fn shuffle(rng: &mut StdRng, items: &mut Vec<usize>)
    ensures
        (final(items)@, rng_state(*final(rng))) == shuffled(rng_state(*old(rng)), old(items)@),
        final(items)@.to_multiset() == old(items)@.to_multiset(),
{
    items.shuffle(rng)
}

} // verus!
