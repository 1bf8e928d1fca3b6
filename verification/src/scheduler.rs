//! Greedy scheduling of a queue that is reshuffled by verifiable randomness.
pub mod common;
pub mod container;
pub mod laws;
pub mod locks;
pub mod model;
pub mod ooze_scheduler;
pub mod transaction;
