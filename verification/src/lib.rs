//! Fair transaction ordering from verifiable randomness.
//!
//! A validator orders transactions by a shuffle that is seeded with the output of
//! a verifiable random function. Anyone can check that a published order is the
//! one that its proof gives, and a validator that signs as Ed25519 prescribes has
//! one proof for each slot and set of transactions. `vrf` and `ordering` hold the
//! randomness and the ordering of a batch; `scheduler` applies them to a
//! scheduler's priority queue before each greedy scheduling pass.
pub mod bytes;
pub mod digest;
pub mod identity;
pub mod ordering;
pub mod scheduler;
pub mod shuffle;
pub mod sorting;
pub mod vrf;

pub use ordering::{verify_ordering, OozeOrderer, OrderableTx, OrderingResult, VerifyError};
pub use scheduler::ooze_scheduler::{OozeScheduler, OozeSchedulerConfig};
pub use vrf::{commit_hash, VrfError, VrfOutput};
