//! The random draws the game rules make, taken from the thread's random
//! number generator of the `rand` crate.

use vstd::prelude::*;
use rand::Rng;

verus! {

/// Calls `rand::Rng::gen_ratio(numerator, denominator)` on `rand::thread_rng()`.
/// The crate documents and its source shows that the result is true with
/// chance `numerator / denominator`, always true when the two are equal,
/// always false when `numerator` is 0, and that it panics when `denominator`
/// is 0 or below `numerator`. The contract states the two certain outcomes;
/// which value comes out otherwise is left open.
#[verifier::external_body]
pub(crate) fn random_ratio(numerator: u32, denominator: u32) -> (r: bool)
    requires
        0 < denominator,
        numerator <= denominator,
    ensures
        numerator == 0 ==> !r,
        numerator == denominator ==> r,
{
    rand::thread_rng().gen_ratio(numerator, denominator)
}

/// Calls `rand::Rng::gen_range(low..high)` on `rand::thread_rng()` with a
/// `usize` range. The crate documents a value drawn from the half-open range
/// and panics on an empty range. The contract states that the value lies in
/// the range; which one is left open.
#[verifier::external_body]
pub(crate) fn random_below(low: usize, high: usize) -> (r: usize)
    requires
        low < high,
    ensures
        low <= r < high,
{
    rand::thread_rng().gen_range(low..high)
}

/// Calls `rand::Rng::gen_range(low..=high)` on `rand::thread_rng()` with a
/// `u32` range. The crate documents a value drawn from the closed range and
/// panics on an empty range. The contract states that the value lies in the
/// range; which one is left open.
#[verifier::external_body]
pub(crate) fn random_between(low: u32, high: u32) -> (r: u32)
    requires
        low <= high,
    ensures
        low <= r <= high,
{
    rand::thread_rng().gen_range(low..=high)
}

} // verus!
