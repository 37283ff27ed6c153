//! Draws from a seeded random number generator.

use rand::rngs::StdRng;
use rand::Rng;
use vstd::prelude::*;

verus! {

/// `rand`'s standard generator. What it holds stays hidden.
#[verifier::external_type_specification]
#[verifier::external_body]
pub struct ExStdRng(StdRng);

/// `Rng::gen_ratio`: true with a chance of `numerator` in `denominator`.
/// It is always false for a numerator of 0 and always true where both are
/// equal; nothing else is claimed of the outcome.
#[verifier::external_body]
pub(crate) fn draw_ratio(rng: &mut StdRng, numerator: u32, denominator: u32) -> (hit: bool)
    requires
        0 < denominator,
        numerator <= denominator,
    ensures
        numerator == 0 ==> !hit,
        numerator == denominator ==> hit,
{
    rng.gen_ratio(numerator, denominator)
}

/// `Rng::gen_range` on a half-open range of `u64`: some number from `low` up
/// to, but not including, `high`.
#[verifier::external_body]
pub(crate) fn draw_range(rng: &mut StdRng, low: u64, high: u64) -> (drawn: u64)
    requires
        low < high,
    ensures
        low <= drawn < high,
{
    rng.gen_range(low..high)
}

} // verus!
