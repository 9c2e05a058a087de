//! The scheduling core of a thread pool whose parallelism is bounded by its number of logical
//! processors.

pub mod affinity;
pub mod bounded;
pub mod count_down_latch;
pub mod invariants;
pub mod laws;
pub mod logical_processor;
pub mod model;
pub mod semaphore;
