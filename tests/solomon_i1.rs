#![allow(unused_imports)]

use u_routing::alns::destroy::{RandomRemoval, ShawRemoval, WorstRemoval};
use u_routing::alns::problem::RoutingAlnsProblem;
use u_routing::alns::repair::{GreedyInsertion, RegretInsertion, best_insertion};
use u_routing::alns::solution_repr::RoutingSolution;
use u_routing::constructive::clarke_wright::clarke_wright_savings;
use u_routing::constructive::nearest_neighbor::nearest_neighbor;
use u_routing::constructive::nn_tw::nearest_neighbor_tw;
use u_routing::constructive::solomon_i1::{farthest_from_depot, solomon_i1};
use u_routing::constructive::sweep::sweep;
use u_routing::distance::DistanceMatrix;
use u_routing::evaluation::RouteEvaluator;
use u_routing::ga::chromosome::GiantTour;
use u_routing::ga::problem::RoutingGaProblem;
use u_routing::ga::split::split;
use u_routing::ga::split_tw::split_tw;
use u_routing::local_search::exchange::exchange_improve;
use u_routing::local_search::or_opt::{or_opt_improve, route_distance};
use u_routing::local_search::relocate::{insertion_cost, relocate_improve, removal_cost};
use u_routing::local_search::three_opt::three_opt_improve;
use u_routing::local_search::two_opt::two_opt_improve;
use u_routing::models::customer::{Customer, TimeWindow};
use u_routing::models::route::{Route, Visit};
use u_routing::models::solution::{Solution, Violation, ViolationType};
use u_routing::models::vehicle::Vehicle;

#[test]
fn test_solomon_all_one_route() {
    let customers = vec![
        Customer::depot(0, 0),
        Customer::new(1, 1, 0, 10, 2)
            .with_time_window(TimeWindow::new(0, 100).expect("valid")),
        Customer::new(2, 2, 0, 10, 2)
            .with_time_window(TimeWindow::new(0, 100).expect("valid")),
        Customer::new(3, 3, 0, 10, 2)
            .with_time_window(TimeWindow::new(0, 100).expect("valid")),
    ];
    let dm = DistanceMatrix::from_customers(&customers);
    let vehicle = Vehicle::new(0, 100);
    let sol = solomon_i1(&customers, &dm, &vehicle);
    assert_eq!(sol.num_served(), 3);
    assert_eq!(sol.num_unassigned(), 0);
}

#[test]
fn test_solomon_capacity_split() {
    let customers = vec![
        Customer::depot(0, 0),
        Customer::new(1, 1, 0, 15, 0),
        Customer::new(2, 2, 0, 15, 0),
        Customer::new(3, 3, 0, 15, 0),
    ];
    let dm = DistanceMatrix::from_customers(&customers);
    let vehicle = Vehicle::new(0, 25);
    let sol = solomon_i1(&customers, &dm, &vehicle);
    assert_eq!(sol.num_served(), 3);
    assert!(sol.num_routes() >= 2);
}

#[test]
fn test_solomon_tw_split() {
    // Time windows force separate routes
    let customers = vec![
        Customer::depot(0, 0),
        Customer::new(1, 5, 0, 10, 5)
            .with_time_window(TimeWindow::new(0, 6).expect("valid")),
        Customer::new(2, -5, 0, 10, 5)
            .with_time_window(TimeWindow::new(0, 6).expect("valid")),
    ];
    let dm = DistanceMatrix::from_customers(&customers);
    let vehicle = Vehicle::new(0, 100);
    let sol = solomon_i1(&customers, &dm, &vehicle);
    assert_eq!(sol.num_served(), 2);
    // After visiting 1 (arrive=5, service=5, depart=10), can't reach 2 by due=6
    assert_eq!(sol.num_routes(), 2);
}

#[test]
fn test_solomon_empty() {
    let customers = vec![Customer::depot(0, 0)];
    let dm = DistanceMatrix::from_customers(&customers);
    let vehicle = Vehicle::new(0, 100);
    let sol = solomon_i1(&customers, &dm, &vehicle);
    assert_eq!(sol.num_routes(), 0);
}

#[test]
fn test_solomon_single_customer() {
    let customers = vec![
        Customer::depot(0, 0),
        Customer::new(1, 5, 0, 10, 0)
            .with_time_window(TimeWindow::new(0, 100).expect("valid")),
    ];
    let dm = DistanceMatrix::from_customers(&customers);
    let vehicle = Vehicle::new(0, 100);
    let sol = solomon_i1(&customers, &dm, &vehicle);
    assert_eq!(sol.num_served(), 1);
    assert_eq!(sol.num_routes(), 1);
}

#[test]
fn test_solomon_no_tw() {
    // Works without time windows too
    let customers = vec![
        Customer::depot(0, 0),
        Customer::new(1, 1, 0, 10, 0),
        Customer::new(2, 2, 0, 10, 0),
    ];
    let dm = DistanceMatrix::from_customers(&customers);
    let vehicle = Vehicle::new(0, 100);
    let sol = solomon_i1(&customers, &dm, &vehicle);
    assert_eq!(sol.num_served(), 2);
}

#[test]
fn test_solomon_seeds_farthest() {
    // Verify farthest customer is used as seed
    let customers = vec![
        Customer::depot(0, 0),
        Customer::new(1, 1, 0, 10, 0),
        Customer::new(2, 10, 0, 10, 0), // farthest
    ];
    let dm = DistanceMatrix::from_customers(&customers);
    let unrouted = vec![1, 2];
    let idx = farthest_from_depot(&unrouted, 0, &dm);
    assert_eq!(unrouted[idx], 2);
}
