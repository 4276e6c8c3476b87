//! The pseudo-random source of the randomised operators.

use rand::RngExt;
use rand::rngs::SmallRng;
use vstd::prelude::*;

verus! {

#[verifier::external_type_specification]
#[verifier::external_body]
pub struct ExSmallRng(SmallRng);

/// Relies on rand's `RngExt::random_range` over `0..bound`: a value below
/// `bound` (the range must not be empty, else it panics).
#[verifier::external_body]
pub(crate) fn draw_below(rng: &mut SmallRng, bound: u64) -> (r: u64)
    requires
        bound > 0,
    ensures
        r < bound,
{
    rng.random_range(0..bound)
}

} // verus!
