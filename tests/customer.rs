#![allow(unused_imports)]

use u_routing::alns::destroy::{RandomRemoval, ShawRemoval, WorstRemoval};
use u_routing::alns::problem::RoutingAlnsProblem;
use u_routing::alns::repair::{GreedyInsertion, RegretInsertion, best_insertion};
use u_routing::alns::solution_repr::RoutingSolution;
use u_routing::constructive::clarke_wright::clarke_wright_savings;
use u_routing::constructive::nearest_neighbor::nearest_neighbor;
use u_routing::constructive::nn_tw::nearest_neighbor_tw;
use u_routing::constructive::solomon_i1::{farthest_from_depot, solomon_i1};
use u_routing::constructive::sweep::sweep;
use u_routing::distance::DistanceMatrix;
use u_routing::evaluation::RouteEvaluator;
use u_routing::ga::chromosome::GiantTour;
use u_routing::ga::problem::RoutingGaProblem;
use u_routing::ga::split::split;
use u_routing::ga::split_tw::split_tw;
use u_routing::local_search::exchange::exchange_improve;
use u_routing::local_search::or_opt::{or_opt_improve, route_distance};
use u_routing::local_search::relocate::{insertion_cost, relocate_improve, removal_cost};
use u_routing::local_search::three_opt::three_opt_improve;
use u_routing::local_search::two_opt::two_opt_improve;
use u_routing::models::customer::{Customer, TimeWindow};
use u_routing::models::route::{Route, Visit};
use u_routing::models::solution::{Solution, Violation, ViolationType};
use u_routing::models::vehicle::Vehicle;

#[test]
fn test_time_window_valid() {
    let tw = TimeWindow::new(10, 20).expect("valid");
    assert_eq!(tw.ready(), 10);
    assert_eq!(tw.due(), 20);
}

#[test]
fn test_time_window_invalid() {
    assert!(TimeWindow::new(20, 10).is_none());
    assert!(TimeWindow::new(11, 10).is_none());
    assert!(TimeWindow::new(u32::MAX, 10).is_none());
}

#[test]
fn test_time_window_contains() {
    let tw = TimeWindow::new(10, 20).expect("valid");
    assert!(tw.contains(10));
    assert!(tw.contains(15));
    assert!(tw.contains(20));
    assert!(!tw.contains(9));
    assert!(!tw.contains(21));
}

#[test]
fn test_time_window_waiting() {
    let tw = TimeWindow::new(10, 20).expect("valid");
    assert_eq!(tw.waiting_time(5), 5);
    assert_eq!(tw.waiting_time(10), 0);
    assert_eq!(tw.waiting_time(15), 0);
}

#[test]
fn test_time_window_violated() {
    let tw = TimeWindow::new(10, 20).expect("valid");
    assert!(!tw.is_violated(10));
    assert!(!tw.is_violated(20));
    assert!(tw.is_violated(21));
}

#[test]
fn test_customer_new() {
    let c = Customer::new(1, 10, 20, 5, 3);
    assert_eq!(c.id(), 1);
    assert_eq!(c.x(), 10);
    assert_eq!(c.y(), 20);
    assert_eq!(c.demand(), 5);
    assert_eq!(c.service_duration(), 3);
    assert!(c.time_window().is_none());
}

#[test]
fn test_customer_depot() {
    let d = Customer::depot(35, 35);
    assert_eq!(d.id(), 0);
    assert_eq!(d.demand(), 0);
    assert_eq!(d.service_duration(), 0);
}

#[test]
fn test_customer_with_time_window() {
    let tw = TimeWindow::new(100, 200).expect("valid");
    let c = Customer::new(1, 10, 20, 5, 3).with_time_window(tw);
    assert!(c.time_window().is_some());
    assert_eq!(c.time_window().expect("has tw").ready(), 100);
}

#[test]
fn test_customer_distance() {
    let a = Customer::new(0, 0, 0, 0, 0);
    let b = Customer::new(1, 3, 4, 0, 0);
    assert_eq!(a.distance_to(&b), 5);
}

#[test]
fn test_customer_distance_symmetric() {
    let a = Customer::new(0, 1, 2, 0, 0);
    let b = Customer::new(1, 4, 6, 0, 0);
    assert_eq!(a.distance_to(&b), b.distance_to(&a));
}
