#![allow(unused_imports)]

use u_routing::alns::destroy::{RandomRemoval, ShawRemoval, WorstRemoval};
use u_routing::alns::problem::RoutingAlnsProblem;
use u_routing::alns::repair::{GreedyInsertion, RegretInsertion, best_insertion};
use u_routing::alns::solution_repr::RoutingSolution;
use u_routing::constructive::clarke_wright::clarke_wright_savings;
use u_routing::constructive::nearest_neighbor::nearest_neighbor;
use u_routing::constructive::nn_tw::nearest_neighbor_tw;
use u_routing::constructive::solomon_i1::{farthest_from_depot, solomon_i1};
use u_routing::constructive::sweep::sweep;
use u_routing::distance::DistanceMatrix;
use u_routing::evaluation::RouteEvaluator;
use u_routing::ga::chromosome::GiantTour;
use u_routing::ga::problem::RoutingGaProblem;
use u_routing::ga::split::split;
use u_routing::ga::split_tw::split_tw;
use u_routing::local_search::exchange::exchange_improve;
use u_routing::local_search::or_opt::{or_opt_improve, route_distance};
use u_routing::local_search::relocate::{insertion_cost, relocate_improve, removal_cost};
use u_routing::local_search::three_opt::three_opt_improve;
use u_routing::local_search::two_opt::two_opt_improve;
use u_routing::models::customer::{Customer, TimeWindow};
use u_routing::models::route::{Route, Visit};
use u_routing::models::solution::{Solution, Violation, ViolationType};
use u_routing::models::vehicle::Vehicle;

fn square_customers() -> (Vec<Customer>, DistanceMatrix) {
    // Depot at center, 4 customers at square corners
    let customers = vec![
        Customer::depot(0, 0),
        Customer::new(1, 1, 1, 10, 0),
        Customer::new(2, 1, -1, 10, 0),
        Customer::new(3, -1, -1, 10, 0),
        Customer::new(4, -1, 1, 10, 0),
    ];
    let dm = DistanceMatrix::from_customers(&customers);
    (customers, dm)
}

#[test]
fn test_3opt_already_optimal() {
    let (_, dm) = square_customers();
    // Optimal tour around the square: 1→2→3→4
    let (improved, dist) = three_opt_improve(&[1, 2, 3, 4], 0, &dm);
    let orig_dist = route_distance(&[1, 2, 3, 4], 0, &dm);
    assert_eq!(dist, orig_dist);
    assert_eq!(improved.len(), 4);
}

#[test]
fn test_3opt_does_not_worsen() {
    let (_, dm) = square_customers();
    let initial = vec![1, 3, 2, 4]; // deliberately bad
    let initial_dist = route_distance(&initial, 0, &dm);
    let (_, improved_dist) = three_opt_improve(&initial, 0, &dm);
    assert!(improved_dist <= initial_dist);
}

#[test]
fn test_3opt_larger_instance() {
    let customers = vec![
        Customer::depot(5, 5),
        Customer::new(1, 0, 0, 5, 0),
        Customer::new(2, 10, 0, 5, 0),
        Customer::new(3, 10, 10, 5, 0),
        Customer::new(4, 0, 10, 5, 0),
        Customer::new(5, 5, 0, 5, 0),
        Customer::new(6, 5, 10, 5, 0),
    ];
    let dm = DistanceMatrix::from_customers(&customers);
    let initial = vec![1, 3, 5, 2, 6, 4]; // scrambled
    let initial_dist = route_distance(&initial, 0, &dm);
    let (_, improved_dist) = three_opt_improve(&initial, 0, &dm);
    assert!(improved_dist <= initial_dist);
}

#[test]
fn test_3opt_small_routes_passthrough() {
    let (_, dm) = square_customers();
    // Routes with < 4 customers should pass through unchanged
    let (r1, d1) = three_opt_improve(&[1], 0, &dm);
    assert_eq!(r1, vec![1]);
    assert!(d1 > 0);

    let (r2, d2) = three_opt_improve(&[1, 2], 0, &dm);
    assert_eq!(r2.len(), 2);
    assert!(d2 > 0);

    let (r3, d3) = three_opt_improve(&[1, 2, 3], 0, &dm);
    assert_eq!(r3.len(), 3);
    assert!(d3 > 0);
}

#[test]
fn test_3opt_empty() {
    let (_, dm) = square_customers();
    let (improved, dist) = three_opt_improve(&[], 0, &dm);
    assert!(improved.is_empty());
    assert_eq!(dist, 0);
}

#[test]
fn test_3opt_preserves_all_customers() {
    let customers = vec![
        Customer::depot(0, 0),
        Customer::new(1, 2, 3, 5, 0),
        Customer::new(2, 4, 1, 5, 0),
        Customer::new(3, 6, 4, 5, 0),
        Customer::new(4, 3, 5, 5, 0),
        Customer::new(5, 1, 4, 5, 0),
    ];
    let dm = DistanceMatrix::from_customers(&customers);
    let initial = vec![1, 4, 2, 5, 3];
    let (improved, _) = three_opt_improve(&initial, 0, &dm);
    let mut sorted = improved.clone();
    sorted.sort();
    assert_eq!(sorted, vec![1, 2, 3, 4, 5]);
}

#[test]
fn test_3opt_improves_crossed_route() {
    // Create a route with obvious crossings that 3-opt can fix
    let customers = vec![
        Customer::depot(0, 0),
        Customer::new(1, 1, 0, 10, 0),
        Customer::new(2, 2, 1, 10, 0),
        Customer::new(3, 3, 0, 10, 0),
        Customer::new(4, 2, -1, 10, 0),
    ];
    let dm = DistanceMatrix::from_customers(&customers);
    let initial = vec![1, 3, 2, 4]; // crosses edges
    let initial_dist = route_distance(&initial, 0, &dm);
    let (_, improved_dist) = three_opt_improve(&initial, 0, &dm);
    assert!(improved_dist <= initial_dist);
}
