#![allow(unused_imports)]

use u_routing::alns::destroy::{RandomRemoval, ShawRemoval, WorstRemoval};
use u_routing::alns::problem::RoutingAlnsProblem;
use u_routing::alns::repair::{GreedyInsertion, RegretInsertion, best_insertion};
use u_routing::alns::solution_repr::RoutingSolution;
use u_routing::constructive::clarke_wright::clarke_wright_savings;
use u_routing::constructive::nearest_neighbor::nearest_neighbor;
use u_routing::constructive::nn_tw::nearest_neighbor_tw;
use u_routing::constructive::solomon_i1::{farthest_from_depot, solomon_i1};
use u_routing::constructive::sweep::sweep;
use u_routing::distance::DistanceMatrix;
use u_routing::evaluation::RouteEvaluator;
use u_routing::ga::chromosome::GiantTour;
use u_routing::ga::problem::RoutingGaProblem;
use u_routing::ga::split::split;
use u_routing::ga::split_tw::split_tw;
use u_routing::local_search::exchange::exchange_improve;
use u_routing::local_search::or_opt::{or_opt_improve, route_distance};
use u_routing::local_search::relocate::{insertion_cost, relocate_improve, removal_cost};
use u_routing::local_search::three_opt::three_opt_improve;
use u_routing::local_search::two_opt::two_opt_improve;
use u_routing::models::customer::{Customer, TimeWindow};
use u_routing::models::route::{Route, Visit};
use u_routing::models::solution::{Solution, Violation, ViolationType};
use u_routing::models::vehicle::Vehicle;

fn setup() -> (Vec<Customer>, DistanceMatrix) {
    let customers = vec![
        Customer::depot(0, 0),
        Customer::new(1, 1, 0, 10, 0),
        Customer::new(2, 2, 0, 10, 0),
        Customer::new(3, 3, 0, 10, 0),
    ];
    let dm = DistanceMatrix::from_customers(&customers);
    (customers, dm)
}

#[test]
fn test_create_individual() {
    let (cust, dm) = setup();
    let problem = RoutingGaProblem::new(cust, dm, 30);
    let mut rng = u_numflow::random::create_rng(42);
    let ind = problem.create_individual(&mut rng);
    assert_eq!(ind.len(), 3);
    let mut sorted = ind.customers().to_vec();
    sorted.sort();
    assert_eq!(sorted, vec![1, 2, 3]);
}

#[test]
fn test_evaluate_optimal_tour() {
    let (cust, dm) = setup();
    let problem = RoutingGaProblem::new(cust, dm, 30).without_local_search();
    let tour = GiantTour::new(vec![1, 2, 3]);
    let fitness = problem.evaluate(&tour);
    // 0→1→2→3→0 = 6
    assert_eq!(fitness, Some(6));
}

#[test]
fn test_evaluate_with_local_search() {
    let (cust, dm) = setup();
    let problem = RoutingGaProblem::new(cust, dm, 30);
    let tour = GiantTour::new(vec![3, 1, 2]);
    let fitness = problem.evaluate(&tour);
    // After split and 2-opt, should find optimal or near-optimal
    assert!(fitness.unwrap() <= 6);
}

#[test]
fn test_crossover_preserves_genes() {
    let (cust, dm) = setup();
    let problem = RoutingGaProblem::new(cust, dm, 30);
    let p1 = GiantTour::new(vec![1, 2, 3]);
    let p2 = GiantTour::new(vec![3, 1, 2]);
    let mut rng = u_numflow::random::create_rng(42);
    let children = problem.crossover(&p1, &p2, &mut rng);
    assert_eq!(children.len(), 2);
    for child in &children {
        assert_eq!(child.len(), 3);
        let mut sorted = child.customers().to_vec();
        sorted.sort();
        assert_eq!(sorted, vec![1, 2, 3]);
    }
}

#[test]
fn test_mutate_preserves_genes() {
    let (cust, dm) = setup();
    let problem = RoutingGaProblem::new(cust, dm, 30);
    let mut tour = GiantTour::new(vec![1, 2, 3]);
    let mut rng = u_numflow::random::create_rng(42);
    problem.mutate(&mut tour, &mut rng);
    let mut sorted = tour.customers().to_vec();
    sorted.sort();
    assert_eq!(sorted, vec![1, 2, 3]);
}

