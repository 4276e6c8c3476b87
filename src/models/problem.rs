//! The interface a routing problem offers to solvers.

use vstd::prelude::*;

use crate::models::customer::Customer;
use crate::models::solution::{Solution, Violation};
use crate::models::vehicle::Vehicle;

verus! {

/// A routing problem: its locations (index 0 the depot), its vehicles, the
/// distance and travel time between locations, and how it rates a solution.
pub trait RoutingProblem {
    /// All locations, the depot first.
    fn customers(&self) -> &[Customer];

    /// The available vehicles.
    fn vehicles(&self) -> &[Vehicle];

    /// Number of customers, the depot excluded.
    fn num_customers(&self) -> usize;

    /// Distance from `from` to `to`.
    fn distance(&self, from: usize, to: usize) -> u32;

    /// Travel time from `from` to `to`; by default the distance.
    fn travel_time(&self, from: usize, to: usize) -> u32 {
        self.distance(from, to)
    }

    /// The cost of `solution` and its violations; a feasible solution has
    /// none.
    fn evaluate(&self, solution: &Solution) -> (u128, Vec<Violation>);
}

} // verus!
