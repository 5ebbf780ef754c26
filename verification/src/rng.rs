//! The arena's source of randomness: `rand`'s small, seedable generator.
use vstd::prelude::*;
use rand::rngs::SmallRng;
use rand::Rng;
use rand::SeedableRng;

verus! {

#[verifier::external_type_specification]
#[verifier::external_body]
pub struct ExSmallRng(SmallRng);

/// Calls `SeedableRng::seed_from_u64`: a generator whose stream is fixed by `seed`.
/// Nothing is claimed of the generator's state.
#[verifier::external_body]
pub fn seeded(seed: u64) -> SmallRng {
    SmallRng::seed_from_u64(seed)
}

/// Calls `Rng::random_range` with the inclusive range `lo..=hi`. The crate's uniform
/// integer sampler returns a value inside the range; which one depends on the
/// generator's state and is not claimed.
#[verifier::external_body]
pub fn random_between(rng: &mut SmallRng, lo: i32, hi: i32) -> (r: i32)
    requires
        lo <= hi,
    ensures
        lo <= r <= hi,
{
    rng.random_range(lo..=hi)
}

/// Calls `Rng::random_ratio`: `true` with chance `numerator / denominator`. The crate
/// documents (and its source shows) that a ratio of one always gives `true` and a
/// numerator of zero always gives `false`; otherwise the outcome is left open.
#[verifier::external_body]
pub fn random_ratio(rng: &mut SmallRng, numerator: u32, denominator: u32) -> (r: bool)
    requires
        0 < denominator,
        numerator <= denominator,
    ensures
        numerator == denominator ==> r,
        numerator == 0 ==> !r,
{
    rng.random_ratio(numerator, denominator)
}

} // verus!
