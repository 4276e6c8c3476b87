#![allow(unused_imports)]

use u_routing::alns::destroy::{RandomRemoval, ShawRemoval, WorstRemoval};
use u_routing::alns::problem::RoutingAlnsProblem;
use u_routing::alns::repair::{GreedyInsertion, RegretInsertion, best_insertion};
use u_routing::alns::solution_repr::RoutingSolution;
use u_routing::constructive::clarke_wright::clarke_wright_savings;
use u_routing::constructive::nearest_neighbor::nearest_neighbor;
use u_routing::constructive::nn_tw::nearest_neighbor_tw;
use u_routing::constructive::solomon_i1::{farthest_from_depot, solomon_i1};
use u_routing::constructive::sweep::sweep;
use u_routing::distance::DistanceMatrix;
use u_routing::evaluation::RouteEvaluator;
use u_routing::ga::chromosome::GiantTour;
use u_routing::ga::problem::RoutingGaProblem;
use u_routing::ga::split::split;
use u_routing::ga::split_tw::split_tw;
use u_routing::local_search::exchange::exchange_improve;
use u_routing::local_search::or_opt::{or_opt_improve, route_distance};
use u_routing::local_search::relocate::{insertion_cost, relocate_improve, removal_cost};
use u_routing::local_search::three_opt::three_opt_improve;
use u_routing::local_search::two_opt::two_opt_improve;
use u_routing::models::customer::{Customer, TimeWindow};
use u_routing::models::route::{Route, Visit};
use u_routing::models::solution::{Solution, Violation, ViolationType};
use u_routing::models::vehicle::Vehicle;

fn setup() -> (Vec<Customer>, DistanceMatrix) {
    let customers = vec![
        Customer::depot(0, 0),
        Customer::new(1, 1, 0, 10, 0),
        Customer::new(2, 2, 0, 10, 0),
        Customer::new(3, 3, 0, 10, 0),
        Customer::new(4, 4, 0, 10, 0),
    ];
    let dm = DistanceMatrix::from_customers(&customers);
    (customers, dm)
}

#[test]
fn test_greedy_inserts_all() {
    let (cust, dm) = setup();
    let sol = RoutingSolution::new(vec![vec![1]], vec![2, 3, 4], &cust, &dm);
    let op = GreedyInsertion::new(dm.clone(), cust.clone(), 100);
    let mut rng = u_numflow::random::create_rng(42);
    let repaired = op.repair(&sol, &mut rng);
    assert!(repaired.unassigned().is_empty());
    let total: usize = repaired.routes().iter().map(|r| r.len()).sum();
    assert_eq!(total, 4);
}

#[test]
fn test_greedy_creates_new_route_when_full() {
    let (cust, dm) = setup();
    let sol = RoutingSolution::new(vec![vec![1, 2]], vec![3, 4], &cust, &dm);
    let op = GreedyInsertion::new(dm.clone(), cust.clone(), 20); // cap 20, demand 10 each
    let mut rng = u_numflow::random::create_rng(42);
    let repaired = op.repair(&sol, &mut rng);
    assert!(repaired.unassigned().is_empty());
    assert!(repaired.num_routes() >= 2);
}

#[test]
fn test_regret_inserts_all() {
    let (cust, dm) = setup();
    let sol = RoutingSolution::new(vec![vec![1]], vec![2, 3, 4], &cust, &dm);
    let op = RegretInsertion::new(dm.clone(), cust.clone(), 100);
    let mut rng = u_numflow::random::create_rng(42);
    let repaired = op.repair(&sol, &mut rng);
    assert!(repaired.unassigned().is_empty());
    let total: usize = repaired.routes().iter().map(|r| r.len()).sum();
    assert_eq!(total, 4);
}

#[test]
fn test_regret_prioritizes_constrained_customers() {
    let (cust, dm) = setup();
    // Two routes, both nearly full — regret should prioritize customers
    // with fewer insertion options
    let sol = RoutingSolution::new(vec![vec![1], vec![2]], vec![3, 4], &cust, &dm);
    let op = RegretInsertion::new(dm.clone(), cust.clone(), 20);
    let mut rng = u_numflow::random::create_rng(42);
    let repaired = op.repair(&sol, &mut rng);
    assert!(repaired.unassigned().is_empty());
}

#[test]
fn test_best_insertion_position() {
    let (cust, dm) = setup();
    // Route [1, 3], insert 2 — best position should be between 1 and 3
    let routes = vec![vec![1, 3]];
    let result = best_insertion(&routes, 2, &dm, &cust, 100);
    assert!(result.is_some());
    let (ri, pos, _cost) = result.expect("should find insertion");
    assert_eq!(ri, 0);
    assert_eq!(pos, 1); // between 1 and 3
}
