//! Why a cluster never loses what it has committed.

pub mod bounds;
pub mod facts;
pub mod growth;
pub mod leading;
pub mod membership;
pub mod moves;
pub mod progress;
pub mod record;
pub mod replication;
pub mod steps;
pub mod system;
pub mod updates;
