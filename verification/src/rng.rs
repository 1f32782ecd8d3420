//! Trusted boundary to the `rand` crate.
//!
//! The maze generator and the game constructor draw uniform numbers from a
//! seedable generator so that a fixed seed reproduces an identical maze.

use vstd::prelude::*;
use rand::Rng;
use rand::SeedableRng;

verus! {

#[verifier::external_type_specification]
#[verifier::external_body]
pub struct ExStdRng(rand::rngs::StdRng);

/// Relies on rand's `StdRng::seed_from_u64`: builds a generator from a seed.
/// Nothing is stated of the generator's state.
#[verifier::external_body]
pub fn rng_from_seed(seed: u64) -> rand::rngs::StdRng {
    rand::rngs::StdRng::seed_from_u64(seed)
}

/// Relies on rand's `Rng::gen_range`: a value uniformly drawn from `lo..hi`.
/// Only membership in the half-open range is stated; which value comes back
/// depends on the generator's state.
#[verifier::external_body]
pub fn rng_range(rng: &mut rand::rngs::StdRng, lo: usize, hi: usize) -> (r: usize)
    requires
        lo < hi,
    ensures
        lo <= r < hi,
{
    rng.gen_range(lo..hi)
}

} // verus!
