//! Ordering of jobs by their dependencies.
//!
//! A plan is a map from job ids to jobs, each of which lists the ids of the
//! jobs that depend on it. [`graph_topology::topological_sort_jobs`] puts the
//! jobs in an order in which every job comes after the jobs it depends on, or
//! reports that the plan has a cycle.

pub mod graph;
pub mod graph_topology;
pub mod precedence;
pub mod schema;
mod sort_proof;
pub mod types;
