//! Round-robin scheduler: cycles through all events in fixed-size windows.

use crate::event::EventId;
use crate::scheduler::{self, read_ring, ScheduleDecision};
use vstd::prelude::*;

verus! {

/// Activates successive `num_slots`-wide windows of the event list, wrapping around on each step.
pub struct RoundRobinScheduler {
    events: Vec<EventId>,
    num_slots: usize,
    current: usize,
}

/// Model of [`RoundRobinScheduler`].
#[verifier::ext_equal]
pub struct RoundRobinView {
    /// The events to rotate through.
    pub events: Seq<EventId>,
    /// Events per step.
    pub num_slots: nat,
    /// Where the next window starts.
    pub current: nat,
}

impl View for RoundRobinScheduler {
    type V = RoundRobinView;

    closed spec fn view(&self) -> RoundRobinView {
        RoundRobinView {
            events: self.events@,
            num_slots: self.num_slots as nat,
            current: self.current as nat,
        }
    }
}

impl Default for RoundRobinScheduler {
    fn default() -> (r: Self)
        ensures
            r@ == (RoundRobinView { events: Seq::empty(), num_slots: 4, current: 0 }),
    {
        Self::new()
    }
}

impl RoundRobinScheduler {
    /// Validity: the next window starts inside the list, if there is any event.
    pub open spec fn wf(&self) -> bool {
        self@.events.len() > 0 ==> self@.current < self@.events.len()
    }

    /// A scheduler without events and with four slots.
    pub fn new() -> (r: Self)
        ensures
            r@ == (RoundRobinView { events: Seq::empty(), num_slots: 4, current: 0 }),
    {
        RoundRobinScheduler { events: Vec::new(), num_slots: 4, current: 0 }
    }

    /// Sets the events to rotate through and the number of slots. The rotation goes on where it
    /// stands, which has to be inside the new list.
    pub fn init(&mut self, events: Vec<EventId>, num_slots: usize)
        requires
            events@.len() > 0 ==> old(self)@.current < events@.len(),
        ensures
            final(self).wf(),
            final(self)@ == (RoundRobinView {
                events: events@,
                num_slots: num_slots as nat,
                current: old(self)@.current,
            }),
    {
        self.events = events;
        self.num_slots = num_slots;
    }

    /// The next window of the event list.
    pub fn next_step(&mut self) -> (r: ScheduleDecision)
        requires
            old(self).wf(),
        ensures
            final(self).wf(),
            r.active_events@.len() <= old(self)@.num_slots,
            r.duration is None,
            old(self)@.events.len() == 0 ==> r.active_events@ == Seq::<EventId>::empty()
                && final(self)@ == old(self)@,
            old(self)@.events.len() > 0 ==> r.active_events@ == scheduler::ring_window(
                old(self)@.events,
                old(self)@.current as int,
                old(self)@.num_slots,
            ) && final(self)@ == (RoundRobinView {
                current: (old(self)@.current + old(self)@.num_slots)
                    % old(self)@.events.len(),
                ..old(self)@
            }),
    {
        if self.events.len() == 0 {
            return ScheduleDecision { active_events: Vec::new(), duration: None };
        }
        let (active_events, next) = read_ring(&self.events, self.current, self.num_slots);
        self.current = next;
        ScheduleDecision { active_events, duration: None }
    }
}

} // verus!
