#![allow(unused_imports)]

use u_routing::alns::destroy::{RandomRemoval, ShawRemoval, WorstRemoval};
use u_routing::alns::problem::RoutingAlnsProblem;
use u_routing::alns::repair::{GreedyInsertion, RegretInsertion, best_insertion};
use u_routing::alns::solution_repr::RoutingSolution;
use u_routing::constructive::clarke_wright::clarke_wright_savings;
use u_routing::constructive::nearest_neighbor::nearest_neighbor;
use u_routing::constructive::nn_tw::nearest_neighbor_tw;
use u_routing::constructive::solomon_i1::{farthest_from_depot, solomon_i1};
use u_routing::constructive::sweep::sweep;
use u_routing::distance::DistanceMatrix;
use u_routing::evaluation::RouteEvaluator;
use u_routing::ga::chromosome::GiantTour;
use u_routing::ga::problem::RoutingGaProblem;
use u_routing::ga::split::split;
use u_routing::ga::split_tw::split_tw;
use u_routing::local_search::exchange::exchange_improve;
use u_routing::local_search::or_opt::{or_opt_improve, route_distance};
use u_routing::local_search::relocate::{insertion_cost, relocate_improve, removal_cost};
use u_routing::local_search::three_opt::three_opt_improve;
use u_routing::local_search::two_opt::two_opt_improve;
use u_routing::models::customer::{Customer, TimeWindow};
use u_routing::models::route::{Route, Visit};
use u_routing::models::solution::{Solution, Violation, ViolationType};
use u_routing::models::vehicle::Vehicle;

fn line_customers() -> (Vec<Customer>, DistanceMatrix) {
    let customers = vec![
        Customer::depot(0, 0),
        Customer::new(1, 1, 0, 10, 0),
        Customer::new(2, 2, 0, 10, 0),
        Customer::new(3, 3, 0, 10, 0),
    ];
    let dm = DistanceMatrix::from_customers(&customers);
    (customers, dm)
}

#[test]
fn test_split_single_route() {
    let (cust, dm) = line_customers();
    let result = split(&[1, 2, 3], &cust, &dm, 30);
    assert_eq!(result.routes.len(), 1);
    assert_eq!(result.routes[0], vec![1, 2, 3]);
    // 0→1→2→3→0 = 1+1+1+3 = 6
    assert_eq!(result.total_distance, 6);
}

#[test]
fn test_split_forced_two_routes() {
    let (cust, dm) = line_customers();
    // Capacity 20 can hold 2 customers (demand 10 each)
    let result = split(&[1, 2, 3], &cust, &dm, 20);
    assert_eq!(result.routes.len(), 2);
    // Optimal split: [1]+[2,3] = (0→1→0)+(0→2→3→0) = 2+6 = 8
    assert_eq!(result.routes[0], vec![1]);
    assert_eq!(result.routes[1], vec![2, 3]);
    assert_eq!(result.total_distance, 8);
}

#[test]
fn test_split_each_alone() {
    let (cust, dm) = line_customers();
    // Capacity 10 — each customer alone
    let result = split(&[1, 2, 3], &cust, &dm, 10);
    assert_eq!(result.routes.len(), 3);
    // (0→1→0)+(0→2→0)+(0→3→0) = 2+4+6 = 12
    assert_eq!(result.total_distance, 12);
}

#[test]
fn test_split_empty() {
    let (cust, dm) = line_customers();
    let result = split(&[], &cust, &dm, 30);
    assert!(result.routes.is_empty());
    assert_eq!(result.total_distance, 0);
}

#[test]
fn test_split_single_customer() {
    let (cust, dm) = line_customers();
    let result = split(&[2], &cust, &dm, 30);
    assert_eq!(result.routes.len(), 1);
    assert_eq!(result.routes[0], vec![2]);
    // 0→2→0 = 4
    assert_eq!(result.total_distance, 4);
}

#[test]
fn test_split_reversed_order() {
    let (cust, dm) = line_customers();
    // Tour [3,2,1] — reversed
    let result = split(&[3, 2, 1], &cust, &dm, 30);
    assert_eq!(result.routes.len(), 1);
    // 0→3→2→1→0 = 3+1+1+1 = 6
    assert_eq!(result.total_distance, 6);
}

#[test]
fn test_split_optimal_partition() {
    // Cluster layout: two clusters far apart
    let customers = vec![
        Customer::depot(0, 0),
        Customer::new(1, 1, 0, 10, 0),
        Customer::new(2, 2, 0, 10, 0),
        Customer::new(3, 10, 0, 10, 0),
        Customer::new(4, 11, 0, 10, 0),
    ];
    let dm = DistanceMatrix::from_customers(&customers);
    // Tour: [1,2,3,4], capacity 20 → split into [1,2] + [3,4]
    let result = split(&[1, 2, 3, 4], &customers, &dm, 20);
    assert_eq!(result.routes.len(), 2);
    assert_eq!(result.routes[0], vec![1, 2]);
    assert_eq!(result.routes[1], vec![3, 4]);
    // [1,2]: 0→1→2→0 = 1+1+2 = 4
    // [3,4]: 0→3→4→0 = 10+1+11 = 22
    // Total: 26
    assert_eq!(result.total_distance, 26);
}
