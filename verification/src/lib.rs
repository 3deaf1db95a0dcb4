//! Hybrid DAG TSP solver: the integer core.
//!
//! The Lehmer-code decoder that maps route indices to permutations, the
//! structural parts of the DAG decomposition, the route operations used by
//! merging and local search, and the solver configuration.
pub mod lehmer;
pub mod tour;
pub mod subsets;
pub mod dag;
pub mod config;
pub mod api;
pub mod sample;
pub mod stats;
