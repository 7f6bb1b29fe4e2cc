//! The explicit randomness source threaded through every `fit` call.
//!
//! Split thresholds are drawn at random; holding the generator in a value of
//! this type keeps training reproducible whenever the caller seeds it.

use vstd::prelude::*;

verus! {

/// rand's standard generator, declared so values of it can sit in a field.
#[verifier::external_type_specification]
#[verifier::external_body]
pub struct ExStdRng(rand::rngs::StdRng);

/// A source of random ticks. Construct it from a fixed seed for reproducible
/// training, or from operating-system entropy.
pub struct RandomSource {
    rng: rand::rngs::StdRng,
}

impl RandomSource {
    /// Relies on rand's `SeedableRng::seed_from_u64`: a deterministic
    /// generator built from the seed.
    #[verifier::external_body]
    pub fn from_seed(seed: u64) -> RandomSource {
        RandomSource { rng: <rand::rngs::StdRng as rand::SeedableRng>::seed_from_u64(seed) }
    }

    /// Relies on rand's `SeedableRng::from_entropy`: a generator seeded from
    /// operating-system entropy. rand documents a panic if the entropy source
    /// fails; verified code never calls this constructor.
    #[verifier::external_body]
    pub fn from_entropy() -> RandomSource {
        RandomSource { rng: <rand::rngs::StdRng as rand::SeedableRng>::from_entropy() }
    }

    /// Relies on rand's `Rng::gen_range` over `lo..hi`: a sample from the
    /// half-open range `[lo, hi)`, which panics only on an empty range.
    #[verifier::external_body]
    pub(crate) fn next_in(&mut self, lo: i64, hi: i64) -> (r: i64)
        requires
            lo < hi,
        ensures
            lo <= r < hi,
    {
        rand::Rng::gen_range(&mut self.rng, lo..hi)
    }
}

} // verus!
