//! Kurogane: a transport-free Raft core, the replicated key/value state
//! machine on top of it, a deterministic simulator, a linearizability checker
//! and the decisions of the networked runtime.

pub mod kv;
pub mod raft;
pub mod runtime;
pub mod safety;
pub mod sim;
pub mod text;
pub mod verify;
pub mod views;
