//! Vehicle routing core: a shared data model (customers, vehicles, distance
//! matrix, routes, solutions), a route evaluator, constructive heuristics,
//! local search operators, the giant-tour split of the genetic algorithm and
//! the destroy/repair operators of adaptive large neighbourhood search.
//!
//! All quantities are integers: coordinates are `i32`, single distances,
//! demands, capacities, service durations and window bounds are `u32`, and
//! quantities accumulated along a route (times, loads, distances) are `u128`.
//! Euclidean distances are rounded to the nearest integer.

pub mod models;
pub mod random;
pub mod distance;
pub mod evaluation;
pub mod alns;
pub mod constructive;
pub mod ga;
pub mod local_search;
pub mod route_set;
