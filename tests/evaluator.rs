#![allow(unused_imports)]

use u_routing::alns::destroy::{RandomRemoval, ShawRemoval, WorstRemoval};
use u_routing::alns::problem::RoutingAlnsProblem;
use u_routing::alns::repair::{GreedyInsertion, RegretInsertion, best_insertion};
use u_routing::alns::solution_repr::RoutingSolution;
use u_routing::constructive::clarke_wright::clarke_wright_savings;
use u_routing::constructive::nearest_neighbor::nearest_neighbor;
use u_routing::constructive::nn_tw::nearest_neighbor_tw;
use u_routing::constructive::solomon_i1::{farthest_from_depot, solomon_i1};
use u_routing::constructive::sweep::sweep;
use u_routing::distance::DistanceMatrix;
use u_routing::evaluation::RouteEvaluator;
use u_routing::ga::chromosome::GiantTour;
use u_routing::ga::problem::RoutingGaProblem;
use u_routing::ga::split::split;
use u_routing::ga::split_tw::split_tw;
use u_routing::local_search::exchange::exchange_improve;
use u_routing::local_search::or_opt::{or_opt_improve, route_distance};
use u_routing::local_search::relocate::{insertion_cost, relocate_improve, removal_cost};
use u_routing::local_search::three_opt::three_opt_improve;
use u_routing::local_search::two_opt::two_opt_improve;
use u_routing::models::customer::{Customer, TimeWindow};
use u_routing::models::route::{Route, Visit};
use u_routing::models::solution::{Solution, Violation, ViolationType};
use u_routing::models::vehicle::Vehicle;

fn setup() -> (Vec<Customer>, DistanceMatrix, Vehicle) {
    let customers = vec![
        Customer::depot(0, 0),
        Customer::new(1, 3, 4, 10, 5),
        Customer::new(2, 6, 8, 20, 5),
        Customer::new(3, 0, 10, 15, 5),
    ];
    let dm = DistanceMatrix::from_customers(&customers);
    let vehicle = Vehicle::new(0, 50);
    (customers, dm, vehicle)
}

#[test]
fn test_build_route_empty() {
    let (customers, dm, vehicle) = setup();
    let eval = RouteEvaluator::new(&customers, &dm, &vehicle);
    let (route, violations) = eval.build_route(&[]);
    assert!(route.is_empty());
    assert!(violations.is_empty());
    assert_eq!(route.total_distance(), 0);
}

#[test]
fn test_build_route_single() {
    let (customers, dm, vehicle) = setup();
    let eval = RouteEvaluator::new(&customers, &dm, &vehicle);
    let (route, violations) = eval.build_route(&[1]);
    assert_eq!(route.len(), 1);
    assert!(violations.is_empty());
    // depot->1 = 5, 1->depot = 5
    assert_eq!(route.total_distance(), 10);
    assert_eq!(route.total_load(), 10);
}

#[test]
fn test_build_route_capacity_violated() {
    let (customers, dm, _) = setup();
    let small_vehicle = Vehicle::new(0, 25);
    let eval = RouteEvaluator::new(&customers, &dm, &small_vehicle);
    // 10 + 20 + 15 = 45 > 25
    let (route, violations) = eval.build_route(&[1, 2, 3]);
    assert_eq!(route.len(), 3);
    assert_eq!(violations.len(), 1);
    assert!(matches!(
        violations[0].kind,
        ViolationType::CapacityExceeded {
            load: 45,
            capacity: 25,
            ..
        }
    ));
}

#[test]
fn test_build_route_within_capacity() {
    let (customers, dm, vehicle) = setup();
    let eval = RouteEvaluator::new(&customers, &dm, &vehicle);
    // 10 + 20 = 30 <= 50
    let (_, violations) = eval.build_route(&[1, 2]);
    assert!(violations.is_empty());
}

#[test]
fn test_build_route_time_window_ok() {
    let tw = TimeWindow::new(0, 100).expect("valid");
    let customers = vec![
        Customer::depot(0, 0),
        Customer::new(1, 3, 4, 10, 5).with_time_window(tw),
    ];
    let dm = DistanceMatrix::from_customers(&customers);
    let vehicle = Vehicle::new(0, 100);
    let eval = RouteEvaluator::new(&customers, &dm, &vehicle);
    let (_, violations) = eval.build_route(&[1]);
    assert!(violations.is_empty());
}

#[test]
fn test_build_route_time_window_violated() {
    let tw = TimeWindow::new(0, 3).expect("valid");
    let customers = vec![
        Customer::depot(0, 0),
        Customer::new(1, 3, 4, 10, 5).with_time_window(tw),
    ];
    let dm = DistanceMatrix::from_customers(&customers);
    let vehicle = Vehicle::new(0, 100);
    let eval = RouteEvaluator::new(&customers, &dm, &vehicle);
    // Travel time = 5 > due = 3
    let (_, violations) = eval.build_route(&[1]);
    assert_eq!(violations.len(), 1);
    assert!(matches!(
        violations[0].kind,
        ViolationType::TimeWindowViolated { customer_id: 1, .. }
    ));
}

#[test]
fn test_build_route_waiting() {
    let tw = TimeWindow::new(20, 100).expect("valid");
    let customers = vec![
        Customer::depot(0, 0),
        Customer::new(1, 3, 4, 10, 5).with_time_window(tw),
    ];
    let dm = DistanceMatrix::from_customers(&customers);
    let vehicle = Vehicle::new(0, 100);
    let eval = RouteEvaluator::new(&customers, &dm, &vehicle);
    let (route, violations) = eval.build_route(&[1]);
    assert!(violations.is_empty());
    let visit = &route.visits()[0];
    // Arrival at 5, wait until 20, service 5, depart at 25
    assert_eq!(visit.arrival_time, 5);
    assert_eq!(visit.departure_time, 25);
}

#[test]
fn test_build_route_max_distance_violated() {
    let (customers, dm, _) = setup();
    let vehicle = Vehicle::new(0, 100).with_max_distance(8);
    let eval = RouteEvaluator::new(&customers, &dm, &vehicle);
    // depot->1->depot = 10 > 8
    let (_, violations) = eval.build_route(&[1]);
    assert_eq!(violations.len(), 1);
    assert!(matches!(
        violations[0].kind,
        ViolationType::MaxDistanceExceeded { .. }
    ));
}

#[test]
fn test_build_route_max_duration_violated() {
    let (customers, dm, _) = setup();
    let vehicle = Vehicle::new(0, 100).with_max_duration(5);
    let eval = RouteEvaluator::new(&customers, &dm, &vehicle);
    // travel 5 + service 5 + return 5 = 15 > 5
    let (_, violations) = eval.build_route(&[1]);
    assert_eq!(violations.len(), 1);
    assert!(matches!(
        violations[0].kind,
        ViolationType::MaxDurationExceeded { .. }
    ));
}

#[test]
fn test_timing_chain() {
    let (customers, dm, vehicle) = setup();
    let eval = RouteEvaluator::new(&customers, &dm, &vehicle);
    let (route, _) = eval.build_route(&[1, 2]);
    let v1 = &route.visits()[0];
    let v2 = &route.visits()[1];
    // Customer 1 departs, then travels to customer 2
    let expected_arrival_2 = v1.departure_time + dm.get(1, 2) as u128;
    assert_eq!(v2.arrival_time, expected_arrival_2);
}
