//! What the networked runtime decides: conversions to and from the wire,
//! durable storage, the actor that owns one replica, and how a process starts.

pub mod actor;
pub mod auth;
pub mod bootstrap;
pub mod dto;
pub mod peers;
pub mod promises;
pub mod proto;
pub mod replies;
pub mod storage;
pub mod timer;
pub mod wire_promises;

pub use actor::{Actor, AddLearnerOutcome, PeerTransport, ProposeOutcome};
pub use auth::TokenInterceptor;
pub use storage::Storage;
