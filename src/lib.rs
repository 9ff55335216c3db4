//! A WalkSAT-style local-search SAT solver with unit-propagation preprocessing.

pub mod model;
pub mod simplify;
pub mod residual;
pub mod random;
pub mod search;
pub mod solver;
pub mod sat_opaa;
pub mod sprintier_sat;
