//! Exact solvers.

pub mod branch_and_bound;
