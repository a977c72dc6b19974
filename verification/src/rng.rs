use rand::rngs::SmallRng;
use rand::{Rng, SeedableRng};
use vstd::prelude::*;

verus! {

/// The small pseudo-random generator of the rand crate, declared so that
/// one can be threaded through verified code. Its draws are opaque:
/// nothing is assumed of them beyond each wrapper's contract.
#[verifier::external_type_specification]
#[verifier::external_body]
pub struct ExSmallRng(SmallRng);

/// Relies on rand's SeedableRng::seed_from_u64: builds a generator
/// deterministically from a seed.
#[verifier::external_body]
pub(crate) fn rng_from_seed(seed: u64) -> (rng: SmallRng) {
    SmallRng::seed_from_u64(seed)
}

/// Relies on rand's Rng::random_ratio: a draw that is true with
/// probability `numerator / denominator`; its documentation guarantees
/// the outcome only for a zero numerator (always false) and for equal
/// numerator and denominator (always true).
#[verifier::external_body]
pub(crate) fn rng_ratio(rng: &mut SmallRng, numerator: u32, denominator: u32) -> (b: bool)
    requires
        0 < denominator,
        numerator <= denominator,
    ensures
        numerator == 0 ==> !b,
        numerator == denominator ==> b,
{
    rng.random_ratio(numerator, denominator)
}

/// Relies on rand's Rng::random_range: a draw from the non-empty
/// inclusive range from 1 to `faces`.
#[verifier::external_body]
pub(crate) fn rng_face(rng: &mut SmallRng, faces: u8) -> (v: u8)
    requires
        1 <= faces,
    ensures
        1 <= v <= faces,
{
    rng.random_range(1..=faces)
}

} // verus!
