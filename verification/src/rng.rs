//! A reproducibly seeded random number generator.
//!
//! Every generator starts from the same fixed seed unless the caller picks
//! another, so a sketch that draws random geometry renders the same image on
//! every run.

use rand::Rng;
use rand::RngCore;
use rand::SeedableRng;
use vstd::prelude::*;

verus! {

/// The fixed default seed for `rng`.
pub const RNG_SEED: u64 = 69_420;

/// Relies on rand's `SmallRng`: a small, fast, non-cryptographic generator.
#[verifier::external_type_specification]
#[verifier::external_body]
pub struct ExSmallRng(rand::rngs::SmallRng);

/// A random number generator seeded with a reproducible seed.
pub struct FartThreadRng {
    rng: rand::rngs::SmallRng,
}

/// Relies on rand's `SeedableRng::seed_from_u64`, which builds a generator
/// from the given seed.
#[verifier::external_body]
fn small_rng_from_seed(seed: u64) -> rand::rngs::SmallRng {
    rand::rngs::SmallRng::seed_from_u64(seed)
}

impl FartThreadRng {
    /// Create a generator from the given seed.
    pub fn seeded(seed: u64) -> FartThreadRng {
        FartThreadRng { rng: small_rng_from_seed(seed) }
    }

    /// The next random `u32`. Relies on rand's `RngCore::next_u32`; nothing
    /// can be promised of a random value.
    #[verifier::external_body]
    pub fn next_u32(&mut self) -> u32 {
        self.rng.next_u32()
    }

    /// The next random `u64`. Relies on rand's `RngCore::next_u64`; nothing
    /// can be promised of a random value.
    #[verifier::external_body]
    pub fn next_u64(&mut self) -> u64 {
        self.rng.next_u64()
    }

    /// A random `i64` in `[low, high)`. Relies on rand's `Rng::random_range`,
    /// which panics only on an empty range and always returns a value within
    /// the given range.
    #[verifier::external_body]
    pub fn gen_range(&mut self, low: i64, high: i64) -> (r: i64)
        requires
            low < high,
        ensures
            low <= r < high,
    {
        self.rng.random_range(low..high)
    }

    /// A random index below `len`. Relies on rand's `Rng::random_range`,
    /// which panics only on an empty range and always returns a value within
    /// the given range.
    #[verifier::external_body]
    pub fn gen_index(&mut self, len: usize) -> (r: usize)
        requires
            len > 0,
        ensures
            r < len,
    {
        self.rng.random_range(0..len)
    }
}

/// Get a random number generator, seeded with the fixed default seed.
pub fn rng() -> FartThreadRng {
    FartThreadRng::seeded(RNG_SEED)
}

} // verus!
