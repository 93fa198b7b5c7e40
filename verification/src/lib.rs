//! Heuristic solvers for the maximum diversity problem: choose `k` of `n`
//! elements so that the sum of the pairwise distances among the chosen
//! elements is as large as possible.
//!
//! Distances are non-negative integers in a fixed-point unit chosen by the
//! caller, so every sum and every gain is exact.

pub mod evaluator;
pub mod model;
pub mod neighborhood;
pub mod random;
pub mod ratio;
pub mod report;
pub mod selection;
pub mod solver;
pub mod solver_direct;
pub mod solver_grasp;
pub mod solver_local_search;
pub mod solver_population;
pub mod solver_qubo;
pub mod tabu;
