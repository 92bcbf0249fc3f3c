//! The seeded pseudorandom source that drives a solve.
//!
//! The solver draws raw 32-bit values from rand's `StdRng`, seeded with the
//! 32-byte seed a solve is given. Everything the solver decides from a draw
//! (tie-breaking noise, the weighted choice of a variant) is computed from the
//! returned integer by verified code; nothing is promised about the values
//! themselves, so every contract downstream holds whatever the stream yields.

use vstd::prelude::*;
use rand::RngCore;
use rand::SeedableRng;

verus! {

/// rand's seeded standard generator, opaque to verification.
#[verifier::external_type_specification]
#[verifier::external_body]
pub struct ExStdRng(rand::rngs::StdRng);

/// Relies on rand's `StdRng::from_seed` (`SeedableRng`): builds the generator
/// deterministically from a 32-byte seed.
#[verifier::external_body]
pub(crate) fn rng_from_seed(seed: [u8; 32]) -> rand::rngs::StdRng {
    rand::rngs::StdRng::from_seed(seed)
}

/// Relies on rand's `RngCore::next_u32` for `StdRng`: returns the stream's
/// next 32-bit value and advances the generator. Any value may come back.
#[verifier::external_body]
pub(crate) fn rng_next_u32(rng: &mut rand::rngs::StdRng) -> u32 {
    rng.next_u32()
}

} // verus!
