//! Trusted boundary to the rand crate's xorshift generator.
//!
//! The engine draws randomness from `rand::XorShiftRng`. Verus sees the
//! generator as an opaque type; each operation the engine needs is wrapped
//! in one trusted function whose contract states only what the rand
//! source shows of it.

use vstd::prelude::*;
use crate::ipoint::IPoint;

verus! {

/// Declares rand's `XorShiftRng` to Verus as an opaque type, so the
/// generator can live in the world's state and pass through signatures.
#[verifier::external_type_specification]
#[verifier::external_body]
pub struct ExXorShiftRng(rand::XorShiftRng);

/// Relies on rand's `XorShiftRng::from_seed` (via `SeedableRng`): builds a
/// generator from the four seed words. It panics on an all-zero seed, so
/// that seed is excluded.
#[verifier::external_body]
pub(crate) fn rng_from_seed(s0: u32, s1: u32, s2: u32, s3: u32) -> (r: rand::XorShiftRng)
    requires
        !(s0 == 0 && s1 == 0 && s2 == 0 && s3 == 0),
{
    <rand::XorShiftRng as rand::SeedableRng<[u32; 4]>>::from_seed([s0, s1, s2, s3])
}

/// Relies on rand's `Rng::next_u32` for `XorShiftRng`: advances the
/// generator and returns the next word of its stream. Nothing is promised
/// of the value.
#[verifier::external_body]
pub(crate) fn rng_next_u32(rng: &mut rand::XorShiftRng) -> (r: u32) {
    rand::Rng::next_u32(rng)
}

/// Relies on rand's `Rng::shuffle` for `XorShiftRng`: reorders the slice in
/// place by element swaps, so exactly the same points remain.
#[verifier::external_body]
pub(crate) fn rng_shuffle(rng: &mut rand::XorShiftRng, values: &mut Vec<IPoint>)
    ensures
        final(values)@.to_multiset() == old(values)@.to_multiset(),
        final(values)@.len() == old(values)@.len(),
{
    rand::Rng::shuffle(rng, values.as_mut_slice())
}

} // verus!
