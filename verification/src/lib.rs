//! A breadth-first-search engine for a fuel-relay optimization problem: an
//! agent must move a supply of fuel across a fixed one-dimensional distance,
//! consuming one unit per step, carrying at most a fixed capacity, and caching
//! fuel at intermediate points. The library enumerates the reachable state
//! graph in synchronized rounds across a configurable number of logical
//! workers, deduplicates states in a partitioned visited table, and reports
//! the maximum amount deliverable to the far end.

pub mod answer;
pub mod coordinator;
pub mod engine;
pub mod escape;
pub mod frame;
pub mod hashing;
pub mod plans;
pub mod rounds;
pub mod shard;
pub mod state;
