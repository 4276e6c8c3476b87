//! Adaptive large neighbourhood search support: a lightweight solution of
//! customer-id sequences, destroy and repair operators, and the problem's
//! initial solution and cost.

pub mod destroy;
pub mod repair;
pub mod problem;
pub mod solution_repr;
