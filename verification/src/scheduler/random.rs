//! Random scheduler: picks a uniformly random subset of counters each step.

use crate::event::EventId;
use crate::scheduler::{self, ScheduleDecision};
use rand::rngs::ThreadRng;
use rand::seq::IndexedRandom;
use vstd::prelude::*;

verus! {

/// The thread-local random number generator of the `rand` crate, carried unopened.
#[verifier::external_type_specification]
#[verifier::external_body]
pub struct ExThreadRng(ThreadRng);

/// Samples `num_slots` events uniformly at random from the full event list each step.
pub struct RandomScheduler {
    events: Vec<EventId>,
    num_slots: usize,
    rng: ThreadRng,
}

/// Whether `picked` consists of entries of `events` at different positions.
pub open spec fn drawn_from(picked: Seq<EventId>, events: Seq<EventId>) -> bool {
    exists|at: Seq<int>| #[trigger] at.len() == picked.len() && drawn_at(picked, events, at)
}

/// Whether the entries of `picked` stand at the positions `at`, all different, of `events`.
pub open spec fn drawn_at(picked: Seq<EventId>, events: Seq<EventId>, at: Seq<int>) -> bool {
    &&& at.len() == picked.len()
    &&& at.no_duplicates()
    &&& forall|i: int|
        0 <= i < at.len() ==> 0 <= #[trigger] at[i] < events.len() && events[at[i]] == picked[i]
}

/// Calls `rand::rng`: a handle to the thread's random number generator.
#[verifier::external_body]
fn thread_rng() -> (r: ThreadRng) {
    rand::rng()
}

/// Calls `IndexedRandom::choose_multiple`: `amount` elements without repetition, or all elements
/// if there are fewer, in random order. Which elements they are is left to chance.
#[verifier::external_body]
fn choose_multiple(events: &Vec<EventId>, rng: &mut ThreadRng, amount: usize) -> (r: Vec<EventId>)
    ensures
        r@.len() == scheduler::lesser(amount as int, events@.len() as int),
        drawn_from(r@, events@),
{
    events.choose_multiple(rng, amount).cloned().collect()
}

/// Model of [`RandomScheduler`].
#[verifier::ext_equal]
pub struct RandomView {
    /// The candidate events.
    pub events: Seq<EventId>,
    /// Events per step.
    pub num_slots: nat,
}

impl View for RandomScheduler {
    type V = RandomView;

    closed spec fn view(&self) -> RandomView {
        RandomView { events: self.events@, num_slots: self.num_slots as nat }
    }
}

impl Default for RandomScheduler {
    fn default() -> (r: Self)
        ensures
            r@ == (RandomView { events: Seq::empty(), num_slots: 4 }),
    {
        Self::new()
    }
}

impl RandomScheduler {
    /// A scheduler without events and with four slots.
    pub fn new() -> (r: Self)
        ensures
            r@ == (RandomView { events: Seq::empty(), num_slots: 4 }),
    {
        RandomScheduler { events: Vec::new(), num_slots: 4, rng: thread_rng() }
    }

    /// Sets the candidate events and the number of slots.
    pub fn init(&mut self, all_events: Vec<EventId>, num_slots: usize)
        ensures
            final(self)@ == (RandomView { events: all_events@, num_slots: num_slots as nat }),
    {
        self.events = all_events;
        self.num_slots = num_slots;
    }

    /// As many candidates as there are slots, no position of the list twice; all of them if there
    /// are no more than slots.
    pub fn next_step(&mut self) -> (r: ScheduleDecision)
        ensures
            final(self)@ == old(self)@,
            r.active_events@.len() == scheduler::lesser(
                old(self)@.num_slots as int,
                old(self)@.events.len() as int,
            ),
            drawn_from(r.active_events@, old(self)@.events),
            r.active_events@.len() <= old(self)@.num_slots,
            r.duration is None,
    {
        let active_events = choose_multiple(&self.events, &mut self.rng, self.num_slots);
        ScheduleDecision { active_events, duration: None }
    }
}

/// A draw of different positions from a list without repetition has no repetition, and holds only
/// entries of the list.
pub proof fn draws_do_not_repeat(picked: Seq<EventId>, events: Seq<EventId>)
    requires
        drawn_from(picked, events),
        events.no_duplicates(),
    ensures
        picked.no_duplicates(),
        forall|i: int| 0 <= i < picked.len() ==> events.contains(#[trigger] picked[i]),
{
    let at = choose|at: Seq<int>| #[trigger]
        at.len() == picked.len() && drawn_at(picked, events, at);
    assert forall|i: int, j: int| 0 <= i < picked.len() && 0 <= j < picked.len() && i
        != j implies picked[i] != picked[j] by {
        assert(at[i] != at[j]);
        assert(events[at[i]] == picked[i] && events[at[j]] == picked[j]);
    }
    assert forall|i: int| 0 <= i < picked.len() implies events.contains(#[trigger] picked[i]) by {
        assert(events[at[i]] == picked[i]);
    }
}

} // verus!
