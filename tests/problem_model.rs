#![allow(unused_imports)]

use u_routing::alns::destroy::{RandomRemoval, ShawRemoval, WorstRemoval};
use u_routing::alns::problem::RoutingAlnsProblem;
use u_routing::alns::repair::{GreedyInsertion, RegretInsertion, best_insertion};
use u_routing::alns::solution_repr::RoutingSolution;
use u_routing::constructive::clarke_wright::clarke_wright_savings;
use u_routing::constructive::nearest_neighbor::nearest_neighbor;
use u_routing::constructive::nn_tw::nearest_neighbor_tw;
use u_routing::constructive::solomon_i1::{farthest_from_depot, solomon_i1};
use u_routing::constructive::sweep::sweep;
use u_routing::distance::DistanceMatrix;
use u_routing::evaluation::RouteEvaluator;
use u_routing::ga::chromosome::GiantTour;
use u_routing::ga::problem::RoutingGaProblem;
use u_routing::ga::split::split;
use u_routing::ga::split_tw::split_tw;
use u_routing::local_search::exchange::exchange_improve;
use u_routing::local_search::or_opt::{or_opt_improve, route_distance};
use u_routing::local_search::relocate::{insertion_cost, relocate_improve, removal_cost};
use u_routing::local_search::three_opt::three_opt_improve;
use u_routing::local_search::two_opt::two_opt_improve;
use u_routing::models::customer::{Customer, TimeWindow};
use u_routing::models::route::{Route, Visit};
use u_routing::models::solution::{Solution, Violation, ViolationType};
use u_routing::models::vehicle::Vehicle;
use u_routing::models::problem::RoutingProblem;

struct SimpleProblem {
    customers: Vec<Customer>,
    vehicles: Vec<Vehicle>,
    distances: DistanceMatrix,
}

impl RoutingProblem for SimpleProblem {
    fn customers(&self) -> &[Customer] {
        &self.customers
    }
    fn vehicles(&self) -> &[Vehicle] {
        &self.vehicles
    }
    fn num_customers(&self) -> usize {
        self.customers.len() - 1
    }
    fn distance(&self, from: usize, to: usize) -> u32 {
        self.distances.get(from, to)
    }
    fn travel_time(&self, from: usize, to: usize) -> u32 {
        self.distances.get(from, to)
    }
    fn evaluate(&self, solution: &Solution) -> (u128, Vec<Violation>) {
        let cost = solution.total_distance();
        (cost, vec![])
    }
}

#[test]
fn test_simple_problem() {
    let customers = vec![
        Customer::depot(0, 0),
        Customer::new(1, 3, 4, 10, 5),
        Customer::new(2, 6, 8, 20, 5),
    ];
    let distances = DistanceMatrix::from_customers(&customers);
    let vehicles = vec![Vehicle::new(0, 100)];

    let problem = SimpleProblem {
        customers,
        vehicles,
        distances,
    };

    assert_eq!(problem.num_customers(), 2);
    assert_eq!(problem.distance(0, 1), 5);

    let sol = Solution::new();
    let (cost, violations) = problem.evaluate(&sol);
    assert_eq!(cost, 0);
    assert!(violations.is_empty());
}
