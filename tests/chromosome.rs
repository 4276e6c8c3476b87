#![allow(unused_imports)]

use u_routing::alns::destroy::{RandomRemoval, ShawRemoval, WorstRemoval};
use u_routing::alns::problem::RoutingAlnsProblem;
use u_routing::alns::repair::{GreedyInsertion, RegretInsertion, best_insertion};
use u_routing::alns::solution_repr::RoutingSolution;
use u_routing::constructive::clarke_wright::clarke_wright_savings;
use u_routing::constructive::nearest_neighbor::nearest_neighbor;
use u_routing::constructive::nn_tw::nearest_neighbor_tw;
use u_routing::constructive::solomon_i1::{farthest_from_depot, solomon_i1};
use u_routing::constructive::sweep::sweep;
use u_routing::distance::DistanceMatrix;
use u_routing::evaluation::RouteEvaluator;
use u_routing::ga::chromosome::GiantTour;
use u_routing::ga::problem::RoutingGaProblem;
use u_routing::ga::split::split;
use u_routing::ga::split_tw::split_tw;
use u_routing::local_search::exchange::exchange_improve;
use u_routing::local_search::or_opt::{or_opt_improve, route_distance};
use u_routing::local_search::relocate::{insertion_cost, relocate_improve, removal_cost};
use u_routing::local_search::three_opt::three_opt_improve;
use u_routing::local_search::two_opt::two_opt_improve;
use u_routing::models::customer::{Customer, TimeWindow};
use u_routing::models::route::{Route, Visit};
use u_routing::models::solution::{Solution, Violation, ViolationType};
use u_routing::models::vehicle::Vehicle;

#[test]
fn test_giant_tour_new() {
    let tour = GiantTour::new(vec![1, 2, 3]);
    assert_eq!(tour.customers(), &[1, 2, 3]);
    assert_eq!(tour.len(), 3);
    assert!(!tour.is_empty());
    assert_eq!(tour.fitness(), None);
}

#[test]
fn test_giant_tour_empty() {
    let tour = GiantTour::new(vec![]);
    assert!(tour.is_empty());
    assert_eq!(tour.len(), 0);
}

#[test]
fn test_giant_tour_set_fitness() {
    let mut tour = GiantTour::new(vec![1, 2, 3]);
    tour.set_fitness(Some(42));
    assert_eq!(tour.fitness(), Some(42));
}

#[test]
fn test_giant_tour_clone() {
    let mut tour = GiantTour::new(vec![1, 2, 3]);
    tour.set_fitness(Some(10));
    let cloned = tour.clone();
    assert_eq!(cloned.customers(), &[1, 2, 3]);
    assert_eq!(cloned.fitness(), Some(10));
}

#[test]
fn test_giant_tour_mutate_customers() {
    let mut tour = GiantTour::new(vec![1, 2, 3]);
    tour.customers_mut().swap(0, 2);
    assert_eq!(tour.customers(), &[3, 2, 1]);
}
