#![allow(unused_imports)]

use u_routing::alns::destroy::{RandomRemoval, ShawRemoval, WorstRemoval};
use u_routing::alns::problem::RoutingAlnsProblem;
use u_routing::alns::repair::{GreedyInsertion, RegretInsertion, best_insertion};
use u_routing::alns::solution_repr::RoutingSolution;
use u_routing::constructive::clarke_wright::clarke_wright_savings;
use u_routing::constructive::nearest_neighbor::nearest_neighbor;
use u_routing::constructive::nn_tw::nearest_neighbor_tw;
use u_routing::constructive::solomon_i1::{farthest_from_depot, solomon_i1};
use u_routing::constructive::sweep::sweep;
use u_routing::distance::DistanceMatrix;
use u_routing::evaluation::RouteEvaluator;
use u_routing::ga::chromosome::GiantTour;
use u_routing::ga::problem::RoutingGaProblem;
use u_routing::ga::split::split;
use u_routing::ga::split_tw::split_tw;
use u_routing::local_search::exchange::exchange_improve;
use u_routing::local_search::or_opt::{or_opt_improve, route_distance};
use u_routing::local_search::relocate::{insertion_cost, relocate_improve, removal_cost};
use u_routing::local_search::three_opt::three_opt_improve;
use u_routing::local_search::two_opt::two_opt_improve;
use u_routing::models::customer::{Customer, TimeWindow};
use u_routing::models::route::{Route, Visit};
use u_routing::models::solution::{Solution, Violation, ViolationType};
use u_routing::models::vehicle::Vehicle;

#[test]
fn test_split_tw_all_feasible() {
    let customers = vec![
        Customer::depot(0, 0),
        Customer::new(1, 1, 0, 10, 2)
            .with_time_window(TimeWindow::new(0, 100).expect("valid")),
        Customer::new(2, 2, 0, 10, 2)
            .with_time_window(TimeWindow::new(0, 100).expect("valid")),
        Customer::new(3, 3, 0, 10, 2)
            .with_time_window(TimeWindow::new(0, 100).expect("valid")),
    ];
    let dm = DistanceMatrix::from_customers(&customers);
    let result = split_tw(&[1, 2, 3], &customers, &dm, 30);
    assert_eq!(result.routes.len(), 1);
}

#[test]
fn test_split_tw_forces_split() {
    // Customer 2 has tight window that forces it on a separate route
    let customers = vec![
        Customer::depot(0, 0),
        Customer::new(1, 5, 0, 10, 5)
            .with_time_window(TimeWindow::new(0, 6).expect("valid")),
        Customer::new(2, -5, 0, 10, 5)
            .with_time_window(TimeWindow::new(0, 6).expect("valid")),
    ];
    let dm = DistanceMatrix::from_customers(&customers);
    // Tour [1, 2]: after visiting 1 (arrive=5, service=5, depart=10), travel to 2 takes 10, arrive=20 > due=6
    let result = split_tw(&[1, 2], &customers, &dm, 100);
    assert_eq!(result.routes.len(), 2);
}

#[test]
fn test_split_tw_no_time_windows() {
    // Without TW, behaves like regular split
    let customers = vec![
        Customer::depot(0, 0),
        Customer::new(1, 1, 0, 10, 0),
        Customer::new(2, 2, 0, 10, 0),
        Customer::new(3, 3, 0, 10, 0),
    ];
    let dm = DistanceMatrix::from_customers(&customers);
    let result = split_tw(&[1, 2, 3], &customers, &dm, 30);
    assert_eq!(result.routes.len(), 1);
    assert_eq!(result.total_distance, 6);
}

#[test]
fn test_split_tw_waiting() {
    // Customer has late window — waiting is fine, still feasible
    let customers = vec![
        Customer::depot(0, 0),
        Customer::new(1, 1, 0, 10, 2)
            .with_time_window(TimeWindow::new(10, 20).expect("valid")),
        Customer::new(2, 2, 0, 10, 2)
            .with_time_window(TimeWindow::new(14, 30).expect("valid")),
    ];
    let dm = DistanceMatrix::from_customers(&customers);
    // Cust 1: arrive=1, wait to 10, service=2, depart=12
    // Cust 2: arrive=12+1=13, wait to 14, service=2, depart=16
    let result = split_tw(&[1, 2], &customers, &dm, 30);
    assert_eq!(result.routes.len(), 1);
}

#[test]
fn test_split_tw_empty() {
    let customers = vec![Customer::depot(0, 0)];
    let dm = DistanceMatrix::from_customers(&customers);
    let result = split_tw(&[], &customers, &dm, 30);
    assert!(result.routes.is_empty());
    assert_eq!(result.total_distance, 0);
}

#[test]
fn test_split_tw_capacity_and_tw_combined() {
    // Both capacity and time window constraints active
    let customers = vec![
        Customer::depot(0, 0),
        Customer::new(1, 1, 0, 15, 0)
            .with_time_window(TimeWindow::new(0, 100).expect("valid")),
        Customer::new(2, 2, 0, 15, 0)
            .with_time_window(TimeWindow::new(0, 100).expect("valid")),
        Customer::new(3, 3, 0, 15, 0)
            .with_time_window(TimeWindow::new(0, 100).expect("valid")),
    ];
    let dm = DistanceMatrix::from_customers(&customers);
    // Capacity 25: can hold at most 1 customer each (15+15=30>25)
    let result = split_tw(&[1, 2, 3], &customers, &dm, 25);
    assert!(result.routes.len() >= 2);
}
