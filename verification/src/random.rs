//! Random draws from `rand`'s standard generator.

use rand::rngs::StdRng;
use rand::{Rng, SeedableRng};
use vstd::prelude::*;

verus! {

/// `rand::rngs::StdRng`, the generator that dungeons and drops are drawn from.
#[verifier::external_type_specification]
#[verifier::external_body]
pub struct ExStdRng(StdRng);

/// `StdRng::from_entropy`: a generator seeded by the operating system.
#[verifier::external_body]
pub(crate) fn entropy_rng() -> StdRng {
    StdRng::from_entropy()
}

/// `Rng::gen_range(low..high)` on `i32`: a value drawn from the half-open
/// range. It panics on an empty range, so the range must hold a value.
#[verifier::external_body]
pub(crate) fn random_below(rng: &mut StdRng, low: i32, high: i32) -> (r: i32)
    requires
        low < high,
    ensures
        low <= r < high,
{
    rng.gen_range(low..high)
}

/// `Rng::gen_range(low..=high)` on `i32`: a value drawn from the closed
/// range. It panics on an empty range, so the range must hold a value.
#[verifier::external_body]
pub(crate) fn random_between(rng: &mut StdRng, low: i32, high: i32) -> (r: i32)
    requires
        low <= high,
    ensures
        low <= r <= high,
{
    rng.gen_range(low..=high)
}

/// `Rng::gen_range(0..n)` on `usize`: an index drawn below `n`.
/// It panics when `n` is zero.
#[verifier::external_body]
pub(crate) fn random_index(rng: &mut StdRng, n: usize) -> (r: usize)
    requires
        n > 0,
    ensures
        r < n,
{
    rng.gen_range(0..n)
}

/// `Rng::gen_ratio(numerator, denominator)`: true with that probability.
/// It panics when the denominator is zero or below the numerator. A ratio
/// of one is always true and a ratio of zero always false (`Bernoulli`
/// keeps a certain outcome exact); otherwise the outcome is chance.
#[verifier::external_body]
pub(crate) fn random_ratio(rng: &mut StdRng, numerator: u32, denominator: u32) -> (b: bool)
    requires
        0 < denominator,
        numerator <= denominator,
    ensures
        numerator == denominator ==> b,
        numerator == 0 ==> !b,
{
    rng.gen_ratio(numerator, denominator)
}

} // verus!
