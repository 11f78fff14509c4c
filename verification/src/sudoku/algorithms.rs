//! The two search strategies, the protocol they share and the run's counters.

pub mod backtracking;
pub mod base_algorithms;
pub mod candidate_election;
pub mod completion;
pub mod perf;
pub mod protocol;
pub mod strategy;
pub mod trail;
