//! Giant-tour genetic algorithm support: the split of a permutation into
//! routes, the chromosome, and the problem's operators.

pub mod chromosome;
pub mod problem;
pub mod split;
pub mod split_tw;
