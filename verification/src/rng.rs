//! The randomness source behind the `random` constructors and the
//! per-call circle color.

use vstd::prelude::*;

verus! {

/// Relies on `rand::rng()` and `rand::Rng::random_range`: a sample drawn
/// uniformly from the half-open range `low..high`. `random_range` panics
/// only on an empty range, which the precondition rules out; nothing more
/// than membership in the range is assumed of the outcome.
#[verifier::external_body]
pub(crate) fn sample_range(low: i32, high: i32) -> (n: i32)
    requires
        low < high,
    ensures
        low <= n < high,
{
    let mut g = rand::rng();
    rand::Rng::random_range(&mut g, low..high)
}

} // verus!
