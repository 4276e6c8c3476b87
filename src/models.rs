//! Domain model: customers, time windows, vehicles, routes and solutions.

pub mod customer;
pub mod problem;
pub mod route;
pub mod solution;
pub mod vehicle;
