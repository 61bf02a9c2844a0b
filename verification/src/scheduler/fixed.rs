//! Fixed scheduler: holds a constant set of counters for every quantum.

use crate::event::EventId;
use crate::scheduler::ScheduleDecision;
use vstd::prelude::*;

verus! {

/// Returns the same counter set every step.
pub struct FixedScheduler {
    active: Vec<EventId>,
}

impl View for FixedScheduler {
    type V = Seq<EventId>;

    closed spec fn view(&self) -> Seq<EventId> {
        self.active@
    }
}

impl FixedScheduler {
    /// A scheduler that always returns `active`.
    pub fn new(active: Vec<EventId>) -> (r: Self)
        ensures
            r@ == active@,
    {
        FixedScheduler { active }
    }

    /// Accepts any events and slot count, and changes nothing.
    pub fn init(&mut self, _all_events: Vec<EventId>, _num_slots: usize)
        ensures
            final(self)@ == old(self)@,
    {
    }

    /// The constant set.
    pub fn next_step(&mut self) -> (r: ScheduleDecision)
        ensures
            final(self)@ == old(self)@,
            r.active_events@ == old(self)@,
            r.duration is None,
    {
        ScheduleDecision { active_events: self.active.clone(), duration: None }
    }
}

} // verus!
