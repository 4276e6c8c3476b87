#![allow(unused_imports)]

use u_routing::alns::destroy::{RandomRemoval, ShawRemoval, WorstRemoval};
use u_routing::alns::problem::RoutingAlnsProblem;
use u_routing::alns::repair::{GreedyInsertion, RegretInsertion, best_insertion};
use u_routing::alns::solution_repr::RoutingSolution;
use u_routing::constructive::clarke_wright::clarke_wright_savings;
use u_routing::constructive::nearest_neighbor::nearest_neighbor;
use u_routing::constructive::nn_tw::nearest_neighbor_tw;
use u_routing::constructive::solomon_i1::{farthest_from_depot, solomon_i1};
use u_routing::constructive::sweep::sweep;
use u_routing::distance::DistanceMatrix;
use u_routing::evaluation::RouteEvaluator;
use u_routing::ga::chromosome::GiantTour;
use u_routing::ga::problem::RoutingGaProblem;
use u_routing::ga::split::split;
use u_routing::ga::split_tw::split_tw;
use u_routing::local_search::exchange::exchange_improve;
use u_routing::local_search::or_opt::{or_opt_improve, route_distance};
use u_routing::local_search::relocate::{insertion_cost, relocate_improve, removal_cost};
use u_routing::local_search::three_opt::three_opt_improve;
use u_routing::local_search::two_opt::two_opt_improve;
use u_routing::models::customer::{Customer, TimeWindow};
use u_routing::models::route::{Route, Visit};
use u_routing::models::solution::{Solution, Violation, ViolationType};
use u_routing::models::vehicle::Vehicle;

#[test]
fn test_sweep_all_one_route() {
    let customers = vec![
        Customer::depot(0, 0),
        Customer::new(1, 1, 0, 10, 0),
        Customer::new(2, 2, 0, 10, 0),
        Customer::new(3, 3, 0, 10, 0),
    ];
    let dm = DistanceMatrix::from_customers(&customers);
    let vehicle = Vehicle::new(0, 100);
    let sol = sweep(&customers, &dm, &vehicle);
    assert_eq!(sol.num_served(), 3);
    assert_eq!(sol.num_unassigned(), 0);
    assert_eq!(sol.num_routes(), 1);
}

#[test]
fn test_sweep_splits_by_capacity() {
    let customers = vec![
        Customer::depot(0, 0),
        Customer::new(1, 1, 1, 15, 0),
        Customer::new(2, -1, 1, 15, 0),
        Customer::new(3, -1, -1, 15, 0),
        Customer::new(4, 1, -1, 15, 0),
    ];
    let dm = DistanceMatrix::from_customers(&customers);
    let vehicle = Vehicle::new(0, 25);
    let sol = sweep(&customers, &dm, &vehicle);
    assert_eq!(sol.num_served(), 4);
    assert_eq!(sol.num_unassigned(), 0);
    // Capacity 25 with demand 15 each: at most 1 per route = 4 routes
    assert!(sol.num_routes() >= 2);
}

#[test]
fn test_sweep_clusters_geographically() {
    // Customers in two clusters: NE quadrant and SW quadrant
    let customers = vec![
        Customer::depot(0, 0),
        Customer::new(1, 2, 2, 10, 0),   // NE ~45°
        Customer::new(2, 3, 3, 10, 0),   // NE ~45°
        Customer::new(3, -2, -2, 10, 0), // SW ~-135°
        Customer::new(4, -3, -3, 10, 0), // SW ~-135°
    ];
    let dm = DistanceMatrix::from_customers(&customers);
    let vehicle = Vehicle::new(0, 20);
    let sol = sweep(&customers, &dm, &vehicle);
    assert_eq!(sol.num_served(), 4);
    assert_eq!(sol.num_unassigned(), 0);
    assert_eq!(sol.num_routes(), 2);
    // Verify clustering: each route should have 2 nearby customers
    for route in sol.routes() {
        assert_eq!(route.len(), 2);
    }
}

#[test]
fn test_sweep_empty() {
    let customers = vec![Customer::depot(0, 0)];
    let dm = DistanceMatrix::from_customers(&customers);
    let vehicle = Vehicle::new(0, 100);
    let sol = sweep(&customers, &dm, &vehicle);
    assert_eq!(sol.num_routes(), 0);
    assert_eq!(sol.num_served(), 0);
}

#[test]
fn test_sweep_single_customer() {
    let customers = vec![
        Customer::depot(0, 0),
        Customer::new(1, 5, 0, 10, 0),
    ];
    let dm = DistanceMatrix::from_customers(&customers);
    let vehicle = Vehicle::new(0, 100);
    let sol = sweep(&customers, &dm, &vehicle);
    assert_eq!(sol.num_routes(), 1);
    assert_eq!(sol.num_served(), 1);
    assert_eq!(sol.total_distance(), 10);
}

#[test]
fn test_sweep_oversized_customer() {
    let customers = vec![
        Customer::depot(0, 0),
        Customer::new(1, 1, 0, 10, 0),
        Customer::new(2, 2, 0, 200, 0), // exceeds capacity
        Customer::new(3, 3, 0, 10, 0),
    ];
    let dm = DistanceMatrix::from_customers(&customers);
    let vehicle = Vehicle::new(0, 100);
    let sol = sweep(&customers, &dm, &vehicle);
    assert_eq!(sol.num_served(), 2);
    assert_eq!(sol.num_unassigned(), 1);
}

#[test]
fn test_sweep_angular_ordering() {
    // Customers at known angles: 0°, 90°, 180°, 270°
    let customers = vec![
        Customer::depot(0, 0),
        Customer::new(1, 1, 0, 10, 0),  // 0°
        Customer::new(2, 0, 1, 10, 0),  // 90°
        Customer::new(3, -1, 0, 10, 0), // 180°
        Customer::new(4, 0, -1, 10, 0), // -90° (=270°)
    ];
    let dm = DistanceMatrix::from_customers(&customers);
    let vehicle = Vehicle::new(0, 100);
    let sol = sweep(&customers, &dm, &vehicle);
    assert_eq!(sol.num_served(), 4);
    // All in one route, ordered by angle: 4(-90°), 1(0°), 2(90°), 3(180°)
    assert_eq!(sol.num_routes(), 1);
    let ids = sol.routes()[0].customer_ids();
    assert_eq!(ids, vec![4, 1, 2, 3]);
}
