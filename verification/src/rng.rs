//! The engine's one source of randomness.

use rand::RngExt;
use vstd::prelude::*;

verus! {

/// Relies on `rand::rng` and `rand::RngExt::random_range`: a draw from the
/// half-open range `[0, n)`. Nothing is assumed about which value comes
/// back, only that it is in range.
#[verifier::external_body]
pub(crate) fn draw_below(n: u128) -> (r: u128)
    requires
        n >= 1,
    ensures
        r < n,
{
    rand::rng().random_range(0..n)
}

} // verus!
