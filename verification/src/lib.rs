//! Exact maximum-independent-set solving on small undirected graphs.
//!
//! The crate models a mutable graph with reversible vertex deactivation,
//! a solution bit-vector with cached cardinality, and a recursive
//! branch-and-bound solver that restores graph and working solution
//! exactly on every return path.

pub mod counts;
pub mod graph;
pub mod matrix;
pub mod profile;
pub mod reduction;
pub mod solve;
