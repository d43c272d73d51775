//! Deterministic testing of concurrent programs: a run enumerator, a
//! coordinator that serialises participants into one controlled order,
//! and the exhaustive testing of processes that share one state.

pub mod clock;
pub mod coordinator;
pub mod corruption;
pub mod interleavings;
pub mod kernel;
pub mod model;
pub mod outcome;
pub mod priority;
pub mod rng;
pub mod runs;
pub mod scheduler;
pub mod transport;
