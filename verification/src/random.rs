//! The random source that tree construction draws from.

use rand::rngs::StdRng;
use rand::Rng;
use rand::SeedableRng;
use vstd::prelude::*;

verus! {

/// `rand::rngs::StdRng`, the generator of the `rand` crate. It is carried
/// through as it is: nothing inside it is read.
#[verifier::external_type_specification]
#[verifier::external_body]
pub struct ExStdRng(StdRng);

/// The generator that `rand::SeedableRng::seed_from_u64` makes of `seed`.
pub uninterp spec fn seeded_source(seed: u64) -> StdRng;

/// Calls `rand::SeedableRng::seed_from_u64` for `StdRng`. The generator that
/// comes back is made of the seed alone: the seed is spread over the
/// generator's key by fixed arithmetic, and nothing else enters. What the
/// generator then draws is not claimed.
#[verifier::external_body]
pub(crate) fn seeded_rng(seed: u64) -> (rng: StdRng)
    ensures
        rng == seeded_source(seed),
{
    StdRng::seed_from_u64(seed)
}

/// Calls `rand::Rng::gen::<u64>`. The draw may be any value.
#[verifier::external_body]
pub(crate) fn random_u64(rng: &mut StdRng) -> (r: u64) {
    rng.gen::<u64>()
}

/// Calls `rand::Rng::gen::<usize>`. The draw may be any value.
#[verifier::external_body]
pub(crate) fn random_usize(rng: &mut StdRng) -> (r: usize) {
    rng.gen::<usize>()
}

/// Calls `rand::Rng::gen::<bool>`. The draw may be either value.
#[verifier::external_body]
pub(crate) fn random_flip(rng: &mut StdRng) -> (r: bool) {
    rng.gen::<bool>()
}

} // verus!
