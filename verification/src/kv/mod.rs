//! The replicated key/value state machine.

pub mod codec;
pub mod command;
pub mod laws;
pub mod order;
pub mod promises;
pub mod replica;
pub mod state_machine;

pub use command::{Command, DecodeError};
pub use replica::Replica;
pub use state_machine::{ApplyResult, StateMachine};
