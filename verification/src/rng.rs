//! The single point where randomness enters: a uniform draw from a
//! non-empty index range.

use vstd::prelude::*;

verus! {

/// Relies on `rand::rng` and `rand::RngExt::random_range`: samples a value
/// from `0..n`, panicking only on an empty range, which `requires` excludes.
/// Nothing more is assumed of the draw than its bound.
#[verifier::external_body]
pub(crate) fn random_below(n: usize) -> (r: usize)
    requires
        n >= 1,
    ensures
        r < n,
{
    rand::RngExt::random_range(&mut rand::rng(), 0..n)
}

} // verus!
