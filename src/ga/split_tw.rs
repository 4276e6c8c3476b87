//! Split of a giant tour into routes that also respect time windows.

use vstd::prelude::*;

use crate::distance::DistanceMatrix;
use crate::evaluation::{ids_below, valid_instance};
use crate::ga::split::{SplitResult, split_dp, split_spec};
use crate::models::customer::Customer;

verus! {

/// Splits the giant tour `tour` into consecutive routes from depot 0, each
/// within `capacity` and reaching every customer before its window closes
/// (waiting when early), of least total length. When no split covers the
/// whole tour, `complete` is false and the routes cover the longest prefix
/// that can be split.
pub fn split_tw(tour: &[usize], customers: &[Customer], distances: &DistanceMatrix, capacity: u32) -> (r: SplitResult)
    requires
        valid_instance(customers@, *distances),
        customers@.len() > 0,
        ids_below(tour@, customers@.len()),
        tour@.len() < usize::MAX,
    ensures
        split_spec(customers@, *distances, tour@, capacity as int, true, r),
{
    split_dp(tour, customers, distances, capacity, true)
}

} // verus!
