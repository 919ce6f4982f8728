//! The library's sources of randomness, used by the workload randomizer
//! and by the random-order demonstration mode of the engine. Beside the
//! process-local source, a seedable generator is exposed so that a caller
//! who wants reproducible randomized runs can have them.

use vstd::prelude::*;

verus! {

/// Relies on `rand::thread_rng` and `rand::Rng::gen_range`: for a nonempty
/// half-open range `low..high` the result is a value in that range. Nothing
/// more is assumed of the value; callers must hold for every outcome.
#[verifier::external_body]
pub(crate) fn rand_in_range(low: u32, high: u32) -> (r: u32)
    requires
        low < high,
    ensures
        low <= r < high,
{
    rand::Rng::gen_range(&mut rand::thread_rng(), low..high)
}

/// The standard seedable generator of the `rand` crate, opaque to the
/// library; a value of it is only created and passed back into the
/// trusted draws below.
#[verifier::external_type_specification]
#[verifier::external_body]
pub struct ExStdRng(rand::rngs::StdRng);

/// Relies on `rand::SeedableRng::seed_from_u64`: creates the generator in
/// the state the seed determines. Nothing is assumed of that state.
#[verifier::external_body]
pub fn seeded_rng(seed: u64) -> rand::rngs::StdRng {
    <rand::rngs::StdRng as rand::SeedableRng>::seed_from_u64(seed)
}

/// Relies on `rand::Rng::gen_range` on a caller-supplied generator: for a
/// nonempty half-open range `low..high` the result is a value in that
/// range. Nothing more is assumed of the value.
#[verifier::external_body]
pub(crate) fn rand_in_range_from(rng: &mut rand::rngs::StdRng, low: u32, high: u32) -> (r: u32)
    requires
        low < high,
    ensures
        low <= r < high,
{
    rand::Rng::gen_range(rng, low..high)
}

} // verus!
