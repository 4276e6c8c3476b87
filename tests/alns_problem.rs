#![allow(unused_imports)]

use u_routing::alns::destroy::{RandomRemoval, ShawRemoval, WorstRemoval};
use u_routing::alns::problem::RoutingAlnsProblem;
use u_routing::alns::repair::{GreedyInsertion, RegretInsertion, best_insertion};
use u_routing::alns::solution_repr::RoutingSolution;
use u_routing::constructive::clarke_wright::clarke_wright_savings;
use u_routing::constructive::nearest_neighbor::nearest_neighbor;
use u_routing::constructive::nn_tw::nearest_neighbor_tw;
use u_routing::constructive::solomon_i1::{farthest_from_depot, solomon_i1};
use u_routing::constructive::sweep::sweep;
use u_routing::distance::DistanceMatrix;
use u_routing::evaluation::RouteEvaluator;
use u_routing::ga::chromosome::GiantTour;
use u_routing::ga::problem::RoutingGaProblem;
use u_routing::ga::split::split;
use u_routing::ga::split_tw::split_tw;
use u_routing::local_search::exchange::exchange_improve;
use u_routing::local_search::or_opt::{or_opt_improve, route_distance};
use u_routing::local_search::relocate::{insertion_cost, relocate_improve, removal_cost};
use u_routing::local_search::three_opt::three_opt_improve;
use u_routing::local_search::two_opt::two_opt_improve;
use u_routing::models::customer::{Customer, TimeWindow};
use u_routing::models::route::{Route, Visit};
use u_routing::models::solution::{Solution, Violation, ViolationType};
use u_routing::models::vehicle::Vehicle;

fn setup() -> (Vec<Customer>, DistanceMatrix) {
    let customers = vec![
        Customer::depot(0, 0),
        Customer::new(1, 1, 0, 10, 0),
        Customer::new(2, 2, 0, 10, 0),
        Customer::new(3, 3, 0, 10, 0),
    ];
    let dm = DistanceMatrix::from_customers(&customers);
    (customers, dm)
}

#[test]
fn test_initial_solution() {
    let (cust, dm) = setup();
    let problem = RoutingAlnsProblem::new(cust, dm, 30);
    let mut rng = u_numflow::random::create_rng(42);
    let sol = problem.initial_solution();
    let total: usize = sol.routes().iter().map(|r| r.len()).sum();
    assert_eq!(total, 3);
    assert!(sol.unassigned().is_empty());
}

#[test]
fn test_cost_penalizes_unassigned() {
    let (cust, dm) = setup();
    let problem = RoutingAlnsProblem::new(cust.clone(), dm.clone(), 30);
    let sol_full = RoutingSolution::new(vec![vec![1, 2, 3]], vec![], &cust, &dm);
    let sol_partial = RoutingSolution::new(vec![vec![1, 2]], vec![3], &cust, &dm);
    assert!(problem.cost(&sol_partial) > problem.cost(&sol_full));
}

