//! Deterministic ownership of Raft nodes for controlled simulations.

pub mod cluster;
pub mod durable;
pub mod laws;
pub mod network;
pub mod progress;
pub mod promises;
pub mod rng;
pub mod simulation;
pub mod trace;

pub use cluster::{Cluster, ClusterError};
pub use durable::DurableState;
pub use rng::Rng;
pub use simulation::Simulation;
pub use trace::TraceEvent;
