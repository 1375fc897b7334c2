//! The league's source of randomness: a seeded `StdRng` from the `rand` crate.
//!
//! Every draw the engine takes goes through the trusted items in this module.
//! Their contracts state only what holds of every outcome: a draw lies in the
//! requested range, a shuffle is a permutation.

use vstd::prelude::*;
use rand::rngs::StdRng;
use rand::seq::SliceRandom;
use rand::{Rng, SeedableRng};

verus! {

#[verifier::external_type_specification]
#[verifier::external_body]
pub struct ExStdRng(StdRng);

/// `rand::SeedableRng::seed_from_u64` for `StdRng`: a generator seeded from
/// the given number. Nothing is stated of its internal state.
#[verifier::external_body]
pub(crate) fn rng_from_seed(seed: u64) -> StdRng {
    StdRng::seed_from_u64(seed)
}

/// `rand::Rng::gen_range` on an inclusive `i32` range: the draw lies in
/// `lo..=hi`. (The call panics on an empty range, which `requires` rules out.)
#[verifier::external_body]
pub(crate) fn rng_between(rng: &mut StdRng, lo: i32, hi: i32) -> (r: i32)
    requires
        lo <= hi,
    ensures
        lo <= r <= hi,
{
    rng.gen_range(lo..=hi)
}

/// `rand::Rng::gen_range` on a half-open `usize` range `0..n` (an index
/// drawn from a full machine word): the draw is below `n`. (The call panics
/// on an empty range, which `requires` rules out.)
#[verifier::external_body]
pub(crate) fn rng_below(rng: &mut StdRng, n: usize) -> (r: usize)
    requires
        n > 0,
    ensures
        r < n,
{
    rng.gen_range(0..n)
}

/// `rand::Rng::gen::<u64>`: one 64-bit word from the generator (the word a
/// uniform draw in `[0, 1)` is built from). Nothing is stated of its value.
#[verifier::external_body]
pub(crate) fn rng_word(rng: &mut StdRng) -> u64 {
    rng.gen::<u64>()
}

/// `rand::seq::SliceRandom::shuffle` on a vector of ids: the result is a
/// rearrangement of the same ids.
#[verifier::external_body]
pub(crate) fn rng_shuffle(v: &mut Vec<u32>, rng: &mut StdRng)
    ensures
        final(v)@.len() == old(v)@.len(),
        final(v)@.to_multiset() == old(v)@.to_multiset(),
{
    v.shuffle(rng);
}

} // verus!
