//! No-op output sink.

use crate::quantum::Quantum;
use vstd::prelude::*;

verus! {

/// Discards every quantum; used when only estimates are needed.
pub struct NullSink;

impl NullSink {
    /// Takes a quantum and leaves no trace of it.
    pub fn emit(&mut self, _quantum: &Quantum)
        ensures
            *final(self) == *old(self),
    {
    }

    /// There is nothing to finish.
    pub fn finish(&mut self)
        ensures
            *final(self) == *old(self),
    {
    }
}

} // verus!
