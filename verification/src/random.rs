//! The single source of randomness: a uniform draw below a bound, supplied
//! by the `rand` crate. Everything derived from a draw (positions, station
//! kinds, intensities, passenger targets) is interpreted by verified code
//! that takes the draw as an argument.

use vstd::prelude::*;

use rand::RngExt;

verus! {

/// Relies on rand's `RngExt::random_range` on the thread-local generator:
/// a uniform draw from the half-open range `0..n` is strictly below `n`.
/// The range is non-empty (`n > 0`), so the call does not panic.
#[verifier::external_body]
pub fn random_below(n: u64) -> (r: u64)
    requires
        n > 0,
    ensures
        r < n,
{
    rand::rng().random_range(0..n)
}

} // verus!
