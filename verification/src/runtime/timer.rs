//! Ticks with real randomness: the only place where chance enters.

use vstd::prelude::*;

use crate::raft::types::Event;

verus! {

/// A number between `low` and `high`, both included, from
/// `rand::random_range`, which panics on an empty range. Which number it is
/// depends on chance.
#[verifier::external_body]
fn random_between(low: u64, high: u64) -> (number: u64)
    requires
        low <= high,
    ensures
        low <= number <= high,
{
    rand::random_range(low..=high)
}

/// One tick, with a fresh election timeout drawn between the two bounds; the
/// node uses it only if it starts an election on this tick.
pub fn random_tick(min_timeout: u64, max_timeout: u64) -> (event: Event)
    requires
        min_timeout <= max_timeout,
    ensures
        event matches Event::Tick { next_timeout } && min_timeout <= next_timeout <= max_timeout,
{
    Event::Tick { next_timeout: random_between(min_timeout, max_timeout) }
}

} // verus!
