//! Nearest-neighbour construction under time windows.

use vstd::prelude::*;

use crate::constructive::nearest_neighbor::{nn_core, nn_result, valid_fleet};
use crate::distance::DistanceMatrix;
use crate::models::customer::Customer;
use crate::models::solution::Solution;
use crate::models::vehicle::Vehicle;

verus! {

/// Nearest-neighbour construction under time windows (Solomon's variant):
/// as `nearest_neighbor`, but a customer is a candidate only if the vehicle,
/// leaving the previous stop after waiting and service, reaches it before
/// its window closes. A customer that cannot be reached in time from the
/// depot is never served.
pub fn nearest_neighbor_tw(customers: &[Customer], distances: &DistanceMatrix, vehicles: &[Vehicle]) -> (r: Solution)
    requires
        valid_fleet(customers@, *distances, vehicles@),
    ensures
        nn_result(customers@, *distances, vehicles@, true, r),
{
    nn_core(customers, distances, vehicles, true)
}

} // verus!
