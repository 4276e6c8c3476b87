#![allow(unused_imports)]

use u_routing::alns::destroy::{RandomRemoval, ShawRemoval, WorstRemoval};
use u_routing::alns::problem::RoutingAlnsProblem;
use u_routing::alns::repair::{GreedyInsertion, RegretInsertion, best_insertion};
use u_routing::alns::solution_repr::RoutingSolution;
use u_routing::constructive::clarke_wright::clarke_wright_savings;
use u_routing::constructive::nearest_neighbor::nearest_neighbor;
use u_routing::constructive::nn_tw::nearest_neighbor_tw;
use u_routing::constructive::solomon_i1::{farthest_from_depot, solomon_i1};
use u_routing::constructive::sweep::sweep;
use u_routing::distance::DistanceMatrix;
use u_routing::evaluation::RouteEvaluator;
use u_routing::ga::chromosome::GiantTour;
use u_routing::ga::problem::RoutingGaProblem;
use u_routing::ga::split::split;
use u_routing::ga::split_tw::split_tw;
use u_routing::local_search::exchange::exchange_improve;
use u_routing::local_search::or_opt::{or_opt_improve, route_distance};
use u_routing::local_search::relocate::{insertion_cost, relocate_improve, removal_cost};
use u_routing::local_search::three_opt::three_opt_improve;
use u_routing::local_search::two_opt::two_opt_improve;
use u_routing::models::customer::{Customer, TimeWindow};
use u_routing::models::route::{Route, Visit};
use u_routing::models::solution::{Solution, Violation, ViolationType};
use u_routing::models::vehicle::Vehicle;

#[test]
fn test_nn_tw_all_feasible() {
    let customers = vec![
        Customer::depot(0, 0),
        Customer::new(1, 1, 0, 10, 2)
            .with_time_window(TimeWindow::new(0, 100).expect("valid")),
        Customer::new(2, 2, 0, 10, 2)
            .with_time_window(TimeWindow::new(0, 100).expect("valid")),
        Customer::new(3, 3, 0, 10, 2)
            .with_time_window(TimeWindow::new(0, 100).expect("valid")),
    ];
    let dm = DistanceMatrix::from_customers(&customers);
    let vehicles = vec![Vehicle::new(0, 100)];
    let sol = nearest_neighbor_tw(&customers, &dm, &vehicles);
    assert_eq!(sol.num_served(), 3);
    assert_eq!(sol.num_unassigned(), 0);
    assert_eq!(sol.num_routes(), 1);
}

#[test]
fn test_nn_tw_tight_windows_force_split() {
    // Customer 1 has a tight early window, customer 2 has a tight late window
    // Both are near depot but can't share a route due to time
    let customers = vec![
        Customer::depot(0, 0),
        Customer::new(1, 1, 0, 10, 5)
            .with_time_window(TimeWindow::new(0, 2).expect("valid")),
        Customer::new(2, -1, 0, 10, 5)
            .with_time_window(TimeWindow::new(0, 2).expect("valid")),
    ];
    let dm = DistanceMatrix::from_customers(&customers);
    let vehicles = vec![Vehicle::new(0, 100), Vehicle::new(1, 100)];
    let sol = nearest_neighbor_tw(&customers, &dm, &vehicles);
    assert_eq!(sol.num_served(), 2);
    assert_eq!(sol.num_unassigned(), 0);
    // After visiting 1 (arrive=1, wait=0, depart=6), reaching 2 at time 8 > due 2
    // So customer 2 needs separate route
    assert_eq!(sol.num_routes(), 2);
}

#[test]
fn test_nn_tw_infeasible_window() {
    // Customer 2 has a window that closes before we can reach it
    let customers = vec![
        Customer::depot(0, 0),
        Customer::new(1, 1, 0, 10, 0)
            .with_time_window(TimeWindow::new(0, 100).expect("valid")),
        Customer::new(2, 100, 0, 10, 0)
            .with_time_window(TimeWindow::new(0, 5).expect("valid")), // too far, window closes at 5
    ];
    let dm = DistanceMatrix::from_customers(&customers);
    let vehicles = vec![Vehicle::new(0, 100)];
    let sol = nearest_neighbor_tw(&customers, &dm, &vehicles);
    // Customer 2 is 100 units away, window closes at 5 → infeasible
    // With 1 vehicle: after visiting customer 1 at time 1+0=1, going to 2 takes 99, arrival=100 > due=5
    // From depot directly: arrival=100 > due=5
    // So customer 2 is unassigned
    assert_eq!(sol.num_served(), 1);
    assert_eq!(sol.num_unassigned(), 1);
}

#[test]
fn test_nn_tw_waiting_time() {
    // Customer has a late window — vehicle arrives early and waits
    let customers = vec![
        Customer::depot(0, 0),
        Customer::new(1, 1, 0, 10, 5)
            .with_time_window(TimeWindow::new(10, 20).expect("valid")),
        Customer::new(2, 2, 0, 10, 5)
            .with_time_window(TimeWindow::new(16, 30).expect("valid")),
    ];
    let dm = DistanceMatrix::from_customers(&customers);
    let vehicles = vec![Vehicle::new(0, 100)];
    let sol = nearest_neighbor_tw(&customers, &dm, &vehicles);
    assert_eq!(sol.num_served(), 2);
    assert_eq!(sol.num_unassigned(), 0);
    // Customer 1: arrive=1, wait until 10, service 5, depart=15
    // Customer 2: arrive=15+1=16, within [16,30], service 5, depart=21
    let visits = sol.routes()[0].visits();
    assert_eq!(visits[0].arrival_time, 1);
    assert_eq!(visits[0].departure_time, 15);
    assert_eq!(visits[1].arrival_time, 16);
    assert_eq!(visits[1].departure_time, 21);
}

#[test]
fn test_nn_tw_no_time_windows() {
    // Falls back to standard nearest-neighbor behavior
    let customers = vec![
        Customer::depot(0, 0),
        Customer::new(1, 1, 0, 10, 0),
        Customer::new(2, 2, 0, 10, 0),
    ];
    let dm = DistanceMatrix::from_customers(&customers);
    let vehicles = vec![Vehicle::new(0, 100)];
    let sol = nearest_neighbor_tw(&customers, &dm, &vehicles);
    assert_eq!(sol.num_served(), 2);
    assert_eq!(sol.num_routes(), 1);
}

#[test]
fn test_nn_tw_empty() {
    let customers = vec![Customer::depot(0, 0)];
    let dm = DistanceMatrix::from_customers(&customers);
    let vehicles = vec![Vehicle::new(0, 100)];
    let sol = nearest_neighbor_tw(&customers, &dm, &vehicles);
    assert_eq!(sol.num_routes(), 0);
}

#[test]
fn test_nn_tw_selects_nearest_feasible() {
    // Customer 1 is far but feasible, customer 2 is near but infeasible
    let customers = vec![
        Customer::depot(0, 0),
        Customer::new(1, 5, 0, 10, 0)
            .with_time_window(TimeWindow::new(0, 100).expect("valid")),
        Customer::new(2, 1, 0, 10, 0)
            .with_time_window(TimeWindow::new(0, 0).expect("valid")), // window closes before arrival
    ];
    let dm = DistanceMatrix::from_customers(&customers);
    let vehicles = vec![Vehicle::new(0, 100)];
    let sol = nearest_neighbor_tw(&customers, &dm, &vehicles);
    // Customer 2 is nearest but arrives at t=1 > due=0
    // So only customer 1 is served
    assert_eq!(sol.num_served(), 1);
    assert_eq!(sol.routes()[0].customer_ids(), vec![1]);
}
