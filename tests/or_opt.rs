#![allow(unused_imports)]

use u_routing::alns::destroy::{RandomRemoval, ShawRemoval, WorstRemoval};
use u_routing::alns::problem::RoutingAlnsProblem;
use u_routing::alns::repair::{GreedyInsertion, RegretInsertion, best_insertion};
use u_routing::alns::solution_repr::RoutingSolution;
use u_routing::constructive::clarke_wright::clarke_wright_savings;
use u_routing::constructive::nearest_neighbor::nearest_neighbor;
use u_routing::constructive::nn_tw::nearest_neighbor_tw;
use u_routing::constructive::solomon_i1::{farthest_from_depot, solomon_i1};
use u_routing::constructive::sweep::sweep;
use u_routing::distance::DistanceMatrix;
use u_routing::evaluation::RouteEvaluator;
use u_routing::ga::chromosome::GiantTour;
use u_routing::ga::problem::RoutingGaProblem;
use u_routing::ga::split::split;
use u_routing::ga::split_tw::split_tw;
use u_routing::local_search::exchange::exchange_improve;
use u_routing::local_search::or_opt::{or_opt_improve, route_distance};
use u_routing::local_search::relocate::{insertion_cost, relocate_improve, removal_cost};
use u_routing::local_search::three_opt::three_opt_improve;
use u_routing::local_search::two_opt::two_opt_improve;
use u_routing::models::customer::{Customer, TimeWindow};
use u_routing::models::route::{Route, Visit};
use u_routing::models::solution::{Solution, Violation, ViolationType};
use u_routing::models::vehicle::Vehicle;

fn line_customers() -> (Vec<Customer>, DistanceMatrix) {
    let customers = vec![
        Customer::depot(0, 0),
        Customer::new(1, 1, 0, 10, 0),
        Customer::new(2, 2, 0, 10, 0),
        Customer::new(3, 3, 0, 10, 0),
    ];
    let dm = DistanceMatrix::from_customers(&customers);
    (customers, dm)
}

#[test]
fn test_or_opt_already_optimal() {
    let (_, dm) = line_customers();
    let (improved, dist) = or_opt_improve(&[1, 2, 3], 0, &dm);
    assert_eq!(improved, vec![1, 2, 3]);
    assert_eq!(dist, 6);
}

#[test]
fn test_or_opt_empty() {
    let (_, dm) = line_customers();
    let (improved, dist) = or_opt_improve(&[], 0, &dm);
    assert!(improved.is_empty());
    assert_eq!(dist, 0);
}

#[test]
fn test_or_opt_single() {
    let (_, dm) = line_customers();
    let (improved, dist) = or_opt_improve(&[2], 0, &dm);
    assert_eq!(improved, vec![2]);
    assert_eq!(dist, 4);
}

#[test]
fn test_or_opt_does_not_worsen() {
    let customers = vec![
        Customer::depot(5, 5),
        Customer::new(1, 0, 0, 5, 0),
        Customer::new(2, 10, 0, 5, 0),
        Customer::new(3, 0, 10, 5, 0),
        Customer::new(4, 10, 10, 5, 0),
    ];
    let dm = DistanceMatrix::from_customers(&customers);
    let initial = vec![1, 4, 2, 3]; // deliberately bad order
    let initial_dist = route_distance(&initial, 0, &dm);
    let (_, improved_dist) = or_opt_improve(&initial, 0, &dm);
    assert!(improved_dist <= initial_dist);
}

#[test]
fn test_or_opt_two_customers() {
    let (_, dm) = line_customers();
    let (improved, dist) = or_opt_improve(&[2, 1], 0, &dm);
    // 0→2→1→0 = 2+1+1 = 4 vs 0→1→2→0 = 1+1+2 = 4 (same distance on line)
    assert_eq!(improved.len(), 2);
    assert!(dist <= 4);
}

#[test]
fn test_or_opt_with_crossing() {
    let customers = vec![
        Customer::depot(0, 0),
        Customer::new(1, 1, 1, 10, 0),
        Customer::new(2, 2, 0, 10, 0),
        Customer::new(3, 1, -1, 10, 0),
    ];
    let dm = DistanceMatrix::from_customers(&customers);
    let initial = vec![1, 3, 2]; // crosses
    let initial_dist = route_distance(&initial, 0, &dm);
    let (_, improved_dist) = or_opt_improve(&initial, 0, &dm);
    assert!(improved_dist <= initial_dist);
}

#[test]
fn or_opt_test_route_distance() {
    let (_, dm) = line_customers();
    let d = route_distance(&[1, 2, 3], 0, &dm);
    assert_eq!(d, 6);
}
