//! Protocol types, node state and synchronous state transitions.

pub mod ids;
pub mod laws;
pub mod log_promises;
pub mod model;
pub mod node;
pub mod promises;
pub mod readiness;
pub mod types;

pub use node::Node;
pub use types::{
    AppendEntries, AppendEntriesResponse, ClusterConfig, CompactError, ConfigError, Effect, Event,
    HardState, InstallSnapshot, InstallSnapshotResponse, LogEntry, LogPayload, Message, NodeId,
    RequestVote, RequestVoteResponse, Role, Snapshot, SnapshotMetadata,
};
