//! The library's only source of randomness: a seeded PRNG from the
//! `rand` crate behind two trusted wrappers. Nothing is assumed about
//! the values drawn beyond their range, so every caller is verified for
//! every possible outcome.

use vstd::prelude::*;

verus! {

#[verifier::external_type_specification]
#[verifier::external_body]
pub struct ExSmallRng(rand::rngs::SmallRng);

/// Relies on `rand::rngs::SmallRng` implementing
/// `SeedableRng::seed_from_u64`: builds a generator from a seed.
/// Nothing is stated about the stream it will produce.
#[verifier::external_body]
pub fn rng_from_seed(seed: u64) -> rand::rngs::SmallRng {
    <rand::rngs::SmallRng as rand::SeedableRng>::seed_from_u64(seed)
}

/// Relies on `rand::Rng::random_range` over `lo..hi`: returns a value
/// of the half-open range and panics only when it is empty, which the
/// precondition rules out.
#[verifier::external_body]
pub fn rng_range(rng: &mut rand::rngs::SmallRng, lo: i32, hi: i32) -> (r: i32)
    requires
        lo < hi,
    ensures
        lo <= r < hi,
{
    rand::Rng::random_range(rng, lo..hi)
}

} // verus!
