//! Random choices. Every draw comes from the thread-local generator of
//! `rand`; a chance is written in basis points (parts of `CHANCE_SCALE`).
use vstd::prelude::*;

use rand::Rng;

verus! {

/// The denominator of every chance: a chance of `CHANCE_SCALE` always hits.
pub const CHANCE_SCALE: u32 = 10000;

/// `Rng::random_range(low..high)` on `u32`, drawn from `rand::rng()`.
/// The documentation promises a value of the range and panics on an empty
/// one; which value comes out is left to chance.
#[verifier::external_body]
pub(crate) fn random_u32(low: u32, high: u32) -> (r: u32)
    requires
        low < high,
    ensures
        low <= r < high,
{
    rand::rng().random_range(low..high)
}

/// `Rng::random_range(low..high)` on `usize`, drawn from `rand::rng()`.
/// The documentation promises a value of the range and panics on an empty
/// one; which value comes out is left to chance.
#[verifier::external_body]
pub(crate) fn random_usize(low: usize, high: usize) -> (r: usize)
    requires
        low < high,
    ensures
        low <= r < high,
{
    rand::rng().random_range(low..high)
}

/// `Rng::random_range(low..high)` on `i32`, drawn from `rand::rng()`.
/// The documentation promises a value of the range and panics on an empty
/// one; which value comes out is left to chance.
#[verifier::external_body]
pub(crate) fn random_i32(low: i32, high: i32) -> (r: i32)
    requires
        low < high,
    ensures
        low <= r < high,
{
    rand::rng().random_range(low..high)
}

/// `Rng::random_ratio(numerator, denominator)`, drawn from `rand::rng()`:
/// true with chance `numerator / denominator`. The documentation guarantees
/// `true` when the two are equal and `false` when the numerator is zero, and
/// panics on a zero denominator or a numerator above it.
#[verifier::external_body]
pub(crate) fn random_ratio(numerator: u32, denominator: u32) -> (r: bool)
    requires
        0 < denominator,
        numerator <= denominator,
    ensures
        numerator == 0 ==> !r,
        numerator == denominator ==> r,
{
    rand::rng().random_ratio(numerator, denominator)
}

/// Whether a chance given in basis points hits: never at 0, always at
/// `CHANCE_SCALE`.
pub fn chance(basis_points: u32) -> (r: bool)
    requires
        basis_points <= CHANCE_SCALE,
    ensures
        basis_points == 0 ==> !r,
        basis_points == CHANCE_SCALE ==> r,
{
    random_ratio(basis_points, CHANCE_SCALE)
}

} // verus!
