//! A reproducible stream of pseudo-random numbers.

use vstd::prelude::*;

verus! {

/// Deterministic splitmix64 generator so simulations are reproducible from a
/// seed. The Raft core never reads time or randomness itself.
#[derive(Debug)]
pub struct Rng(u64);

/// The state after one draw.
pub open spec fn next_state(state: u64) -> u64 {
    state.wrapping_add(0x9E37_79B9_7F4A_7C15)
}

/// The number drawn when the state becomes `state`.
pub open spec fn mixed(state: u64) -> u64 {
    let a = (state ^ (state >> 30)).wrapping_mul(0xBF58_476D_1CE4_E5B9);
    let b = (a ^ (a >> 27)).wrapping_mul(0x94D0_49BB_1331_11EB);
    b ^ (b >> 31)
}

/// The number between `low` and `high` drawn from `state`.
pub open spec fn drawn(state: u64, low: u64, high: u64) -> u64 {
    (low + mixed(next_state(state)) as int % (high - low + 1)) as u64
}

/// Whether a number between `low` and `high` can be drawn.
pub open spec fn range_ok(low: u64, high: u64) -> bool {
    low <= high && high - low < u64::MAX
}

/// A number drawn lies in its range.
pub proof fn drawn_in_range(state: u64, low: u64, high: u64)
    requires
        range_ok(low, high),
    ensures
        low <= drawn(state, low, high) <= high,
{
    let span = high - low + 1;
    let r = mixed(next_state(state)) as int % span;
    assert(0 <= r < span) by (nonlinear_arith)
        requires
            span > 0,
            r == mixed(next_state(state)) as int % span,
    ;
}

impl View for Rng {
    type V = u64;

    closed spec fn view(&self) -> u64 {
        self.0
    }
}

impl Rng {
    pub fn new(seed: u64) -> (rng: Self)
        ensures
            rng@ == seed,
    {
        Rng(seed)
    }

    pub fn next_u64(&mut self) -> (number: u64)
        ensures
            final(self)@ == next_state(old(self)@),
            number == mixed(final(self)@),
    {
        self.0 = self.0.wrapping_add(0x9E37_79B9_7F4A_7C15);
        let mut z: u64 = self.0;
        z = (z ^ (z >> 30)).wrapping_mul(0xBF58_476D_1CE4_E5B9);
        z = (z ^ (z >> 27)).wrapping_mul(0x94D0_49BB_1331_11EB);
        z ^ (z >> 31)
    }

    /// Returns a value in `[low, high]` inclusive.
    pub fn range_inclusive(&mut self, low: u64, high: u64) -> (number: u64)
        requires
            range_ok(low, high),
        ensures
            final(self)@ == next_state(old(self)@),
            number == drawn(old(self)@, low, high),
            low <= number <= high,
    {
        proof {
            drawn_in_range(self@, low, high);
        }
        let span: u64 = high - low + 1;
        low + self.next_u64() % span
    }
}

} // verus!
