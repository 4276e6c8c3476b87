#![allow(unused_imports)]

use u_routing::alns::destroy::{RandomRemoval, ShawRemoval, WorstRemoval};
use u_routing::alns::problem::RoutingAlnsProblem;
use u_routing::alns::repair::{GreedyInsertion, RegretInsertion, best_insertion};
use u_routing::alns::solution_repr::RoutingSolution;
use u_routing::constructive::clarke_wright::clarke_wright_savings;
use u_routing::constructive::nearest_neighbor::nearest_neighbor;
use u_routing::constructive::nn_tw::nearest_neighbor_tw;
use u_routing::constructive::solomon_i1::{farthest_from_depot, solomon_i1};
use u_routing::constructive::sweep::sweep;
use u_routing::distance::DistanceMatrix;
use u_routing::evaluation::RouteEvaluator;
use u_routing::ga::chromosome::GiantTour;
use u_routing::ga::problem::RoutingGaProblem;
use u_routing::ga::split::split;
use u_routing::ga::split_tw::split_tw;
use u_routing::local_search::exchange::exchange_improve;
use u_routing::local_search::or_opt::{or_opt_improve, route_distance};
use u_routing::local_search::relocate::{insertion_cost, relocate_improve, removal_cost};
use u_routing::local_search::three_opt::three_opt_improve;
use u_routing::local_search::two_opt::two_opt_improve;
use u_routing::models::customer::{Customer, TimeWindow};
use u_routing::models::route::{Route, Visit};
use u_routing::models::solution::{Solution, Violation, ViolationType};
use u_routing::models::vehicle::Vehicle;

fn setup() -> (Vec<Customer>, DistanceMatrix) {
    let customers = vec![
        Customer::depot(0, 0),
        Customer::new(1, 1, 0, 10, 0),
        Customer::new(2, 2, 0, 10, 0),
        Customer::new(3, 3, 0, 10, 0),
        Customer::new(4, 4, 0, 10, 0),
    ];
    let dm = DistanceMatrix::from_customers(&customers);
    (customers, dm)
}

#[test]
fn test_random_removal() {
    let (cust, dm) = setup();
    let sol = RoutingSolution::new(vec![vec![1, 2, 3, 4]], vec![], &cust, &dm);
    let op = RandomRemoval;
    let mut rng = u_numflow::random::create_rng(42);
    let destroyed = op.destroy(&sol, 500_000, &mut rng);
    // Should remove ~2 customers
    let assigned: usize = destroyed.routes().iter().map(|r| r.len()).sum();
    assert_eq!(assigned + destroyed.unassigned().len(), 4);
    assert!(!destroyed.unassigned().is_empty());
}

#[test]
fn test_worst_removal() {
    let (cust, dm) = setup();
    let sol = RoutingSolution::new(vec![vec![1, 2, 3, 4]], vec![], &cust, &dm);
    let op = WorstRemoval::new(dm.clone());
    let mut rng = u_numflow::random::create_rng(42);
    let destroyed = op.destroy(&sol, 250_000, &mut rng);
    // Should remove 1 customer (the worst-positioned)
    assert_eq!(destroyed.unassigned().len(), 1);
}

#[test]
fn test_shaw_removal() {
    let (cust, dm) = setup();
    let sol = RoutingSolution::new(vec![vec![1, 2, 3, 4]], vec![], &cust, &dm);
    let op = ShawRemoval::new(dm.clone(), cust.clone());
    let mut rng = u_numflow::random::create_rng(42);
    let destroyed = op.destroy(&sol, 500_000, &mut rng);
    // Should remove ~2 related customers
    assert_eq!(destroyed.unassigned().len(), 2);
    // Removed customers should be close to each other (on a line, consecutive IDs)
    let removed = destroyed.unassigned();
    assert!((removed[0] as i32 - removed[1] as i32).unsigned_abs() <= 2);
}

#[test]
fn test_removal_preserves_all_customers() {
    let (cust, dm) = setup();
    let sol = RoutingSolution::new(vec![vec![1, 2], vec![3, 4]], vec![], &cust, &dm);
    let op = RandomRemoval;
    let mut rng = u_numflow::random::create_rng(42);
    let destroyed = op.destroy(&sol, 500_000, &mut rng);
    let mut all: Vec<usize> = destroyed
        .routes()
        .iter()
        .flat_map(|r| r.iter().copied())
        .chain(destroyed.unassigned().iter().copied())
        .collect();
    all.sort();
    assert_eq!(all, vec![1, 2, 3, 4]);
}
