//! Solutions and constraint violations.

use vstd::prelude::*;

use crate::models::route::{Route, joined};

verus! {

/// A broken constraint of a route.
#[derive(Debug, Clone, Copy, PartialEq, Eq)]
pub enum ViolationType {
    /// The route's load is above the vehicle's capacity.
    CapacityExceeded { route_index: usize, load: u128, capacity: u32 },
    /// The vehicle arrives at a customer after its window has closed.
    TimeWindowViolated { customer_id: usize, arrival: u128, due: u32 },
    /// The route is longer than the vehicle may drive.
    MaxDistanceExceeded { route_index: usize, distance: u128, max_distance: u64 },
    /// The route takes longer than the vehicle may work.
    MaxDurationExceeded { route_index: usize, duration: u128, max_duration: u64 },
}

/// A constraint violation.
#[derive(Debug, Clone, Copy, PartialEq, Eq)]
pub struct Violation {
    pub kind: ViolationType,
}

impl Violation {
    pub fn new(kind: ViolationType) -> (r: Violation)
        ensures
            r.kind == kind,
    {
        Violation { kind }
    }
}

/// The customer ids served by a sequence of routes, route after route.
pub open spec fn served_ids(routes: Seq<Route>) -> Seq<usize> {
    joined(routes.map_values(|r: Route| r.spec_ids()))
}

/// Sum of the cached distances of a sequence of routes.
pub open spec fn routes_distance(routes: Seq<Route>) -> int
    decreases routes.len(),
{
    if routes.len() == 0 {
        0
    } else {
        routes_distance(routes.drop_last()) + routes.last().spec_total_distance()
    }
}

/// Number of visits over a sequence of routes.
pub open spec fn routes_visits(routes: Seq<Route>) -> int
    decreases routes.len(),
{
    if routes.len() == 0 {
        0
    } else {
        routes_visits(routes.drop_last()) + routes.last().spec_visits().len()
    }
}

/// `v`, or `cap` when `v` is larger.
pub open spec fn capped(v: int, cap: int) -> int {
    if v <= cap {
        v
    } else {
        cap
    }
}

/// A set of routes, the customers left out, and a cached total cost.
#[derive(Debug, Clone)]
pub struct Solution {
    routes: Vec<Route>,
    unassigned: Vec<usize>,
    total_cost: u128,
}

impl Solution {
    pub closed spec fn spec_routes(&self) -> Seq<Route> {
        self.routes@
    }

    pub closed spec fn spec_unassigned(&self) -> Seq<usize> {
        self.unassigned@
    }

    pub closed spec fn spec_total_cost(&self) -> u128 {
        self.total_cost
    }

    /// The customers served, route after route.
    pub open spec fn spec_served(&self) -> Seq<usize> {
        served_ids(self.spec_routes())
    }

    /// An empty solution.
    pub fn new() -> (r: Solution)
        ensures
            r.spec_routes() == Seq::<Route>::empty(),
            r.spec_unassigned() == Seq::<usize>::empty(),
            r.spec_total_cost() == 0,
    {
        Solution { routes: Vec::new(), unassigned: Vec::new(), total_cost: 0 }
    }

    pub fn add_route(&mut self, route: Route)
        ensures
            final(self).spec_routes() == old(self).spec_routes().push(route),
            final(self).spec_unassigned() == old(self).spec_unassigned(),
            final(self).spec_total_cost() == old(self).spec_total_cost(),
    {
        self.routes.push(route);
    }

    pub fn add_unassigned(&mut self, customer_id: usize)
        ensures
            final(self).spec_routes() == old(self).spec_routes(),
            final(self).spec_unassigned() == old(self).spec_unassigned().push(customer_id),
            final(self).spec_total_cost() == old(self).spec_total_cost(),
    {
        self.unassigned.push(customer_id);
    }

    pub fn routes(&self) -> (r: &[Route])
        ensures
            r@ == self.spec_routes(),
    {
        self.routes.as_slice()
    }

    pub fn routes_mut(&mut self) -> (r: &mut Vec<Route>)
        ensures
            r@ == old(self).spec_routes(),
            final(self).spec_routes() == final(r)@,
            final(self).spec_unassigned() == old(self).spec_unassigned(),
            final(self).spec_total_cost() == old(self).spec_total_cost(),
    {
        &mut self.routes
    }

    pub fn num_routes(&self) -> (r: usize)
        ensures
            r == self.spec_routes().len(),
    {
        self.routes.len()
    }

    pub fn unassigned(&self) -> (r: &[usize])
        ensures
            r@ == self.spec_unassigned(),
    {
        self.unassigned.as_slice()
    }

    pub fn num_unassigned(&self) -> (r: usize)
        ensures
            r == self.spec_unassigned().len(),
    {
        self.unassigned.len()
    }

    pub fn total_cost(&self) -> (r: u128)
        ensures
            r == self.spec_total_cost(),
    {
        self.total_cost
    }

    pub fn set_total_cost(&mut self, cost: u128)
        ensures
            final(self).spec_routes() == old(self).spec_routes(),
            final(self).spec_unassigned() == old(self).spec_unassigned(),
            final(self).spec_total_cost() == cost,
    {
        self.total_cost = cost;
    }

    /// Sum of the routes' distances (held at `u128::MAX` should it not fit).
    pub fn total_distance(&self) -> (r: u128)
        ensures
            r == capped(routes_distance(self.spec_routes()), u128::MAX as int),
    {
        let mut total: u128 = 0;
        let mut i: usize = 0;
        while i < self.routes.len()
            invariant
                i <= self.routes@.len(),
                total == capped(routes_distance(self.routes@.take(i as int)), u128::MAX as int),
            decreases self.routes@.len() - i,
        {
            assert(self.routes@.take(i + 1 as int).drop_last() =~= self.routes@.take(i as int));
            total = total.saturating_add(self.routes[i].total_distance());
            i += 1;
        }
        assert(self.routes@.take(i as int) =~= self.routes@);
        total
    }

    /// Number of customers served over all routes (held at `usize::MAX`
    /// should it not fit).
    pub fn num_served(&self) -> (r: usize)
        ensures
            r == capped(routes_visits(self.spec_routes()), usize::MAX as int),
    {
        let mut total: usize = 0;
        let mut i: usize = 0;
        while i < self.routes.len()
            invariant
                i <= self.routes@.len(),
                total == capped(routes_visits(self.routes@.take(i as int)), usize::MAX as int),
            decreases self.routes@.len() - i,
        {
            assert(self.routes@.take(i + 1 as int).drop_last() =~= self.routes@.take(i as int));
            total = total.saturating_add(self.routes[i].len());
            i += 1;
        }
        assert(self.routes@.take(i as int) =~= self.routes@);
        total
    }
}

impl Default for Solution {
    fn default() -> (r: Solution)
        ensures
            r.spec_routes() == Seq::<Route>::empty(),
            r.spec_unassigned() == Seq::<usize>::empty(),
            r.spec_total_cost() == 0,
    {
        Solution::new()
    }
}

} // verus!
