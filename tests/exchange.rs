#![allow(unused_imports)]

use u_routing::alns::destroy::{RandomRemoval, ShawRemoval, WorstRemoval};
use u_routing::alns::problem::RoutingAlnsProblem;
use u_routing::alns::repair::{GreedyInsertion, RegretInsertion, best_insertion};
use u_routing::alns::solution_repr::RoutingSolution;
use u_routing::constructive::clarke_wright::clarke_wright_savings;
use u_routing::constructive::nearest_neighbor::nearest_neighbor;
use u_routing::constructive::nn_tw::nearest_neighbor_tw;
use u_routing::constructive::solomon_i1::{farthest_from_depot, solomon_i1};
use u_routing::constructive::sweep::sweep;
use u_routing::distance::DistanceMatrix;
use u_routing::evaluation::RouteEvaluator;
use u_routing::ga::chromosome::GiantTour;
use u_routing::ga::problem::RoutingGaProblem;
use u_routing::ga::split::split;
use u_routing::ga::split_tw::split_tw;
use u_routing::local_search::exchange::exchange_improve;
use u_routing::local_search::or_opt::{or_opt_improve, route_distance};
use u_routing::local_search::relocate::{insertion_cost, relocate_improve, removal_cost};
use u_routing::local_search::three_opt::three_opt_improve;
use u_routing::local_search::two_opt::two_opt_improve;
use u_routing::models::customer::{Customer, TimeWindow};
use u_routing::models::route::{Route, Visit};
use u_routing::models::solution::{Solution, Violation, ViolationType};
use u_routing::models::vehicle::Vehicle;

#[test]
fn test_exchange_single_route() {
    let customers = vec![
        Customer::depot(0, 0),
        Customer::new(1, 1, 0, 10, 0),
    ];
    let dm = DistanceMatrix::from_customers(&customers);
    let vehicle = Vehicle::new(0, 100);
    let vehicles = vec![vehicle.clone()];
    let sol = nearest_neighbor(&customers, &dm, &vehicles);
    let improved = exchange_improve(&sol, &customers, &dm, &vehicle);
    assert_eq!(improved.num_served(), 1);
}

#[test]
fn test_exchange_does_not_worsen() {
    let customers = vec![
        Customer::depot(0, 0),
        Customer::new(1, 1, 1, 10, 0),
        Customer::new(2, -1, -1, 10, 0),
        Customer::new(3, 1, -1, 10, 0),
        Customer::new(4, -1, 1, 10, 0),
    ];
    let dm = DistanceMatrix::from_customers(&customers);
    let vehicle = Vehicle::new(0, 20);
    let vehicles = vec![Vehicle::new(0, 20), Vehicle::new(1, 20)];
    let initial = nearest_neighbor(&customers, &dm, &vehicles);
    let improved = exchange_improve(&initial, &customers, &dm, &vehicle);
    assert!(improved.total_distance() <= initial.total_distance());
}

#[test]
fn test_exchange_respects_capacity() {
    let customers = vec![
        Customer::depot(0, 0),
        Customer::new(1, 1, 0, 10, 0),
        Customer::new(2, 2, 0, 10, 0),
        Customer::new(3, -1, 0, 10, 0),
        Customer::new(4, -2, 0, 10, 0),
    ];
    let dm = DistanceMatrix::from_customers(&customers);
    let vehicle = Vehicle::new(0, 20);
    let vehicles = vec![Vehicle::new(0, 20), Vehicle::new(1, 20)];
    let sol = nearest_neighbor(&customers, &dm, &vehicles);
    let improved = exchange_improve(&sol, &customers, &dm, &vehicle);
    for route in improved.routes() {
        assert!(route.total_load() <= 20);
    }
}

#[test]
fn test_exchange_fixes_interleaved_routes() {
    // Route 1: [1(east), 4(west)] and Route 2: [3(east), 2(west)]
    // Exchange tails to get [1, 3] (east) and [4, 2] (west)
    let customers = vec![
        Customer::depot(0, 0),
        Customer::new(1, 5, 1, 10, 0),  // east
        Customer::new(2, -5, -1, 10, 0), // west
        Customer::new(3, 5, -1, 10, 0),  // east
        Customer::new(4, -5, 1, 10, 0),  // west
    ];
    let dm = DistanceMatrix::from_customers(&customers);
    let vehicle = Vehicle::new(0, 20);

    // Manually create a bad solution with interleaved clusters
    let evaluator = RouteEvaluator::new(&customers, &dm, &vehicle);
    let mut sol = Solution::new();
    let (r1, _) = evaluator.build_route(&[1, 4]);
    let (r2, _) = evaluator.build_route(&[3, 2]);
    sol.add_route(r1);
    sol.add_route(r2);
    sol.set_total_cost(sol.total_distance());

    let initial_dist = sol.total_distance();
    let improved = exchange_improve(&sol, &customers, &dm, &vehicle);
    assert!(improved.total_distance() <= initial_dist);
    assert_eq!(improved.num_served(), 4);
}

#[test]
fn test_exchange_preserves_all_customers() {
    let customers = vec![
        Customer::depot(0, 0),
        Customer::new(1, 1, 1, 5, 0),
        Customer::new(2, 2, -1, 5, 0),
        Customer::new(3, -1, 2, 5, 0),
        Customer::new(4, -2, -1, 5, 0),
    ];
    let dm = DistanceMatrix::from_customers(&customers);
    let vehicle = Vehicle::new(0, 10);
    let vehicles = vec![Vehicle::new(0, 10), Vehicle::new(1, 10)];
    let initial = nearest_neighbor(&customers, &dm, &vehicles);
    let improved = exchange_improve(&initial, &customers, &dm, &vehicle);
    assert_eq!(improved.num_served(), 4);
}
