//! How long to pause between the steps of a live run.

use vstd::prelude::*;

verus! {

/// The pause after each step.
#[derive(Debug, Clone, Copy)]
pub struct Pace {
    q_schedule_ns: u64,
}

impl Pace {
    /// The pause after a step that asks for none, in nanoseconds.
    pub closed spec fn quantum(&self) -> u64 {
        self.q_schedule_ns
    }

    /// Pauses for the scheduling quantum unless a step asks for something else.
    pub fn new(q_schedule_ns: u64) -> (r: Self)
        ensures
            r.quantum() == q_schedule_ns,
    {
        Pace { q_schedule_ns }
    }

    /// The pause after a step in nanoseconds: what the step asked for, in milliseconds, or else the
    /// scheduling quantum.
    pub fn after_step(&self, asked_ms: Option<u64>) -> (r: u128)
        ensures
            r == match asked_ms {
                Some(ms) => ms * 1_000_000,
                None => self.quantum() as int,
            },
    {
        match asked_ms {
            Some(ms) => ms as u128 * 1_000_000,
            None => self.q_schedule_ns as u128,
        }
    }
}

} // verus!
