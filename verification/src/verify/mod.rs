//! Client-visible histories, how they come about under faults, and whether
//! they are linearizable.

pub mod accord;
pub mod checker;
pub mod clients;
pub mod harness;
pub mod harness_promises;
pub mod history;
pub mod laws;
pub mod ledger;
pub mod linearization;
pub mod outcomes;
pub mod plain;
pub mod progress;
pub mod promises;
pub mod run;
pub mod run_promises;
pub mod seed;
pub mod seed_promises;
pub mod upkeep;

pub use checker::is_linearizable;
pub use harness::Harness;
pub use history::{ClientId, FaultEvent, FaultKind, HistoryEntry, Outcome};
pub use run::{run, try_run, RunConfig};
pub use seed::{decode_seed, encode_seed};
