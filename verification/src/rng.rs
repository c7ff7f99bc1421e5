//! Trusted boundary to the `rand` crate and the system clock: the only
//! sources of nondeterminism in board generation.
use vstd::prelude::*;

use rand::Rng;
use rand::SeedableRng;

verus! {

#[verifier::external_type_specification]
#[verifier::external_body]
pub struct ExSmallRng(rand::rngs::SmallRng);

/// Relies on rand's `SmallRng::seed_from_u64` (`SeedableRng`): builds a
/// small fast generator from a 64-bit seed.
#[verifier::external_body]
pub fn rng_from_seed(seed: u64) -> rand::rngs::SmallRng {
    rand::rngs::SmallRng::seed_from_u64(seed)
}

/// Relies on rand's `Rng::random_range` over `0..bound`: whatever value
/// comes back, it is below `bound` (the call panics on an empty range, so
/// `bound` must be positive).
#[verifier::external_body]
pub fn rng_below(rng: &mut rand::rngs::SmallRng, bound: usize) -> (r: usize)
    requires
        bound >= 1,
    ensures
        r < bound,
{
    rng.random_range(0..bound)
}

/// Relies on std's `SystemTime::now` and `duration_since(UNIX_EPOCH)`: a
/// high-entropy clock reading, used only to seed board generation.
#[verifier::external_body]
pub fn time_seed() -> u64 {
    match std::time::SystemTime::now().duration_since(std::time::UNIX_EPOCH) {
        Ok(d) => d.as_nanos() as u64,
        Err(_) => 0,
    }
}

} // verus!
