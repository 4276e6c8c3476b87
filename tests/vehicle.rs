#![allow(unused_imports)]

use u_routing::alns::destroy::{RandomRemoval, ShawRemoval, WorstRemoval};
use u_routing::alns::problem::RoutingAlnsProblem;
use u_routing::alns::repair::{GreedyInsertion, RegretInsertion, best_insertion};
use u_routing::alns::solution_repr::RoutingSolution;
use u_routing::constructive::clarke_wright::clarke_wright_savings;
use u_routing::constructive::nearest_neighbor::nearest_neighbor;
use u_routing::constructive::nn_tw::nearest_neighbor_tw;
use u_routing::constructive::solomon_i1::{farthest_from_depot, solomon_i1};
use u_routing::constructive::sweep::sweep;
use u_routing::distance::DistanceMatrix;
use u_routing::evaluation::RouteEvaluator;
use u_routing::ga::chromosome::GiantTour;
use u_routing::ga::problem::RoutingGaProblem;
use u_routing::ga::split::split;
use u_routing::ga::split_tw::split_tw;
use u_routing::local_search::exchange::exchange_improve;
use u_routing::local_search::or_opt::{or_opt_improve, route_distance};
use u_routing::local_search::relocate::{insertion_cost, relocate_improve, removal_cost};
use u_routing::local_search::three_opt::three_opt_improve;
use u_routing::local_search::two_opt::two_opt_improve;
use u_routing::models::customer::{Customer, TimeWindow};
use u_routing::models::route::{Route, Visit};
use u_routing::models::solution::{Solution, Violation, ViolationType};
use u_routing::models::vehicle::Vehicle;

#[test]
fn test_vehicle_new() {
    let v = Vehicle::new(0, 200);
    assert_eq!(v.id(), 0);
    assert_eq!(v.capacity(), 200);
    assert_eq!(v.depot_id(), 0);
    assert_eq!(v.cost_per_distance(), 1);
    assert_eq!(v.fixed_cost(), 0);
    assert!(v.max_distance().is_none());
    assert!(v.max_duration().is_none());
}

#[test]
fn test_vehicle_builder() {
    let v = Vehicle::new(1, 100)
        .with_depot(2)
        .with_cost_per_distance(3)
        .with_fixed_cost(50)
        .with_max_distance(500)
        .with_max_duration(480);
    assert_eq!(v.id(), 1);
    assert_eq!(v.capacity(), 100);
    assert_eq!(v.depot_id(), 2);
    assert_eq!(v.cost_per_distance(), 3);
    assert_eq!(v.fixed_cost(), 50);
    assert_eq!(v.max_distance(), Some(500));
    assert_eq!(v.max_duration(), Some(480));
}
