//! The routing problem as seen by an ALNS driver: an initial solution and
//! a cost.

use vstd::prelude::*;

use crate::alns::solution_repr::RoutingSolution;
use crate::constructive::customer_ids;
use crate::constructive::nearest_neighbor::{fits_fleet, nearest_neighbor, route_fits};
use crate::distance::DistanceMatrix;
use crate::evaluation::{ids_below, valid_instance};
use crate::models::customer::Customer;
use crate::models::solution::capped;
use crate::models::vehicle::Vehicle;
use crate::route_set::{all_customers, ids_of_routes, lemma_joined_customers, route_ids, seqs_below, seqs_cost, seqs_of_vecs};

verus! {

broadcast use vstd::multiset::group_multiset_axioms;

/// Cost of one unassigned customer.
pub const UNASSIGNED_PENALTY: u128 = 10_000;

/// A capacitated routing problem for the ALNS driver.
pub struct RoutingAlnsProblem {
    customers: Vec<Customer>,
    distances: DistanceMatrix,
    capacity: u32,
}

impl RoutingAlnsProblem {
    pub closed spec fn spec_customers(&self) -> Seq<Customer> {
        self.customers@
    }

    pub closed spec fn spec_distances(&self) -> DistanceMatrix {
        self.distances
    }

    pub closed spec fn spec_capacity(&self) -> u32 {
        self.capacity
    }

    pub fn new(customers: Vec<Customer>, distances: DistanceMatrix, capacity: u32) -> (r: RoutingAlnsProblem)
        ensures
            r.spec_customers() == customers@,
            r.spec_distances() == distances,
            r.spec_capacity() == capacity,
    {
        RoutingAlnsProblem { customers, distances, capacity }
    }

    /// The nearest-neighbour solution with one vehicle per location, all of
    /// the problem's capacity, as routes of customer ids.
    pub fn initial_solution(&self) -> (r: RoutingSolution)
        requires
            valid_instance(self.spec_customers(), self.spec_distances()),
            self.spec_customers().len() > 0,
        ensures
            all_customers(r.spec_routes()).add(r.spec_unassigned().to_multiset()) == customer_ids(self.spec_customers().len()),
            seqs_below(r.spec_routes(), self.spec_customers().len()),
            r.spec_total_distance() == capped(seqs_cost(self.spec_distances(), 0, r.spec_routes()), u128::MAX as int),
            forall|k: int| 0 <= k < r.spec_routes().len() ==> {
                &&& (#[trigger] r.spec_routes()[k]).len() > 0
                &&& crate::evaluation::load_of(self.spec_customers(), r.spec_routes()[k]) <= self.spec_capacity()
            },
    {
        let n = self.customers.len();
        let mut vehicles: Vec<Vehicle> = Vec::new();
        let mut i: usize = 0;
        while i < n
            invariant
                i <= n,
                n == self.spec_customers().len(),
                vehicles@.len() == i,
                forall|j: int| 0 <= j < i ==> (#[trigger] vehicles@[j]).spec_depot() == 0
                    && vehicles@[j].spec_capacity() == self.spec_capacity(),
            decreases n - i,
        {
            vehicles.push(Vehicle::new(i, self.capacity));
            i += 1;
        }
        let nn_sol = nearest_neighbor(self.customers.as_slice(), &self.distances, vehicles.as_slice());
        let routes = ids_of_routes(nn_sol.routes());
        let ghost rt = nn_sol.spec_routes();
        assert(seqs_of_vecs(routes@) =~= route_ids(rt));
        let mut unassigned: Vec<usize> = Vec::new();
        crate::local_search::extend_range(&mut unassigned, nn_sol.unassigned(), 0, nn_sol.unassigned().len());
        assert(nn_sol.spec_unassigned().subrange(0, nn_sol.spec_unassigned().len() as int) =~= nn_sol.spec_unassigned());
        proof {
            lemma_joined_customers(route_ids(rt));
            assert forall|k: int| 0 <= k < route_ids(rt).len() implies {
                &&& ids_below(#[trigger] route_ids(rt)[k], n as nat)
                &&& route_ids(rt)[k].len() > 0
                &&& crate::evaluation::load_of(self.spec_customers(), route_ids(rt)[k]) <= self.spec_capacity()
            } by {
                assert(fits_fleet(self.spec_customers(), self.spec_distances(), vehicles@, false, rt[k]));
                let j = choose|j: int| 0 <= j < vehicles@.len() && route_fits(self.spec_customers(), self.spec_distances(), vehicles@[j], false, rt[k]);
                assert(route_ids(rt)[k] == rt[k].spec_ids());
                assert(rt[k].spec_ids().len() == rt[k].spec_visits().len());
            }
        }
        RoutingSolution::new(routes, unassigned, self.customers.as_slice(), &self.distances)
    }

    /// Total distance plus `UNASSIGNED_PENALTY` per unassigned customer
    /// (held at `u128::MAX` should it not fit).
    pub fn cost(&self, solution: &RoutingSolution) -> (r: u128)
        ensures
            r == capped(
                solution.spec_total_distance() + UNASSIGNED_PENALTY * solution.spec_unassigned().len(),
                u128::MAX as int,
            ),
    {
        let penalty: u128 = UNASSIGNED_PENALTY * solution.unassigned().len() as u128;
        solution.total_distance().saturating_add(penalty)
    }
}

} // verus!
