//! Uncertainty-driven scheduler: prioritizes events with the highest mean estimation uncertainty.

use crate::event::EventId;
use crate::order::{self, Key};
use crate::scheduler::{self, order_key, pick_leading, EventScore, ScheduleDecision};
use rand::seq::SliceRandom;
use vstd::prelude::*;

verus! {

/// Bit pattern of positive infinity.
pub const INFINITY_BITS: u64 = 0x7FF0_0000_0000_0000;

/// Selects the events whose uncertainty is highest on average over the threads.
pub struct MaxUncertaintyScheduler {
    events: Vec<EventId>,
    num_slots: usize,
}

/// Model of [`MaxUncertaintyScheduler`].
#[verifier::ext_equal]
pub struct MaxUncertaintyView {
    /// The candidate events, in the order that decides between equals.
    pub events: Seq<EventId>,
    /// Events per step.
    pub num_slots: nat,
}

impl View for MaxUncertaintyScheduler {
    type V = MaxUncertaintyView;

    closed spec fn view(&self) -> MaxUncertaintyView {
        MaxUncertaintyView { events: self.events@, num_slots: self.num_slots as nat }
    }
}

/// Calls `SliceRandom::shuffle` with the thread's generator: the same elements in random order.
/// Which order it is is left to chance.
#[verifier::external_body]
fn shuffled(events: Vec<EventId>) -> (r: Vec<EventId>)
    ensures
        r@.to_multiset() == events@.to_multiset(),
{
    let mut events = events;
    events.shuffle(&mut rand::rng());
    events
}

/// The mean uncertainty of an event; infinite when it has none. The last score counts.
pub open spec fn uncertainty_of(means: Seq<EventScore>, event_id: EventId) -> u64
    decreases means.len(),
{
    if means.len() == 0 {
        INFINITY_BITS
    } else if means.last().event_id == event_id {
        means.last().score
    } else {
        uncertainty_of(means.drop_last(), event_id)
    }
}

/// Sort keys that put the most uncertain event first, and the smaller ID where events are equally
/// uncertain.
pub open spec fn uncertainty_keys(events: Seq<EventId>, means: Seq<EventScore>) -> Seq<Key> {
    events.map_values(
        |e: EventId|
            (
                (u64::MAX - scheduler::total_order_key(uncertainty_of(means, e))) as u64,
                e as u64,
            ),
    )
}

fn find_uncertainty(means: &Vec<EventScore>, event_id: EventId) -> (r: u64)
    ensures
        r == uncertainty_of(means@, event_id),
{
    let mut n: usize = means.len();
    assert(means@.take(n as int) =~= means@);
    while n > 0
        invariant
            n <= means@.len(),
            uncertainty_of(means@, event_id) == uncertainty_of(means@.take(n as int), event_id),
        decreases n,
    {
        assert(means@.take(n as int).drop_last() =~= means@.take(n - 1));
        if means[n - 1].event_id == event_id {
            return means[n - 1].score;
        }
        n = n - 1;
    }
    INFINITY_BITS
}

impl Default for MaxUncertaintyScheduler {
    fn default() -> (r: Self)
        ensures
            r@ == (MaxUncertaintyView { events: Seq::empty(), num_slots: 6 }),
    {
        Self::new()
    }
}

impl MaxUncertaintyScheduler {
    /// A scheduler without events and with six slots.
    pub fn new() -> (r: Self)
        ensures
            r@ == (MaxUncertaintyView { events: Seq::empty(), num_slots: 6 }),
    {
        MaxUncertaintyScheduler { events: Vec::new(), num_slots: 6 }
    }

    /// Sets the candidate events, in random order, and the number of slots.
    pub fn init(&mut self, all_events: Vec<EventId>, num_slots: usize)
        ensures
            final(self)@.events.to_multiset() == all_events@.to_multiset(),
            final(self)@.num_slots == num_slots,
    {
        self.events = shuffled(all_events);
        self.num_slots = num_slots;
    }

    /// Ranks all candidates by mean uncertainty, highest first and by ascending ID where it is the
    /// same, and takes as many as there are slots. An event that was never measured counts as infinitely uncertain, so that every
    /// event gets measured in the end.
    pub fn next_step(&mut self, means: &Vec<EventScore>) -> (r: ScheduleDecision)
        ensures
            final(self)@ == old(self)@,
            r.active_events@ == scheduler::leading(
                old(self)@.events,
                uncertainty_keys(old(self)@.events, means@),
                old(self)@.num_slots,
            ),
            r.active_events@.len() <= old(self)@.num_slots,
            r.duration is None,
    {
        let mut keys: Vec<Key> = Vec::new();
        let mut i: usize = 0;
        while i < self.events.len()
            invariant
                *self == *old(self),
                i <= self.events@.len(),
                keys@ == uncertainty_keys(self.events@.take(i as int), means@),
            decreases self.events@.len() - i,
        {
            let u = find_uncertainty(means, self.events[i]);
            keys.push((u64::MAX - order_key(u), self.events[i] as u64));
            i = i + 1;
            assert(keys@ =~= uncertainty_keys(self.events@.take(i as int), means@));
        }
        assert(self.events@.take(self.events@.len() as int) =~= self.events@);
        let active_events = pick_leading(&self.events, &keys, self.num_slots);
        ScheduleDecision { active_events, duration: None }
    }
}

/// An event that was never measured goes before every event whose mean uncertainty is finite.
pub proof fn unmeasured_events_go_first(
    events: Seq<EventId>,
    means: Seq<EventScore>,
    unmeasured: int,
    measured: int,
)
    requires
        0 <= unmeasured < events.len(),
        0 <= measured < events.len(),
        forall|i: int|
            0 <= i < means.len() ==> (#[trigger] means[i]).event_id != events[unmeasured],
        scheduler::total_order_key(uncertainty_of(means, events[measured]))
            < scheduler::total_order_key(INFINITY_BITS),
    ensures
        order::goes_before(
            uncertainty_keys(events, means)[unmeasured],
            unmeasured,
            uncertainty_keys(events, means)[measured],
            measured,
        ),
{
    lemma_unmeasured(means, events[unmeasured]);
}

proof fn lemma_unmeasured(means: Seq<EventScore>, event_id: EventId)
    requires
        forall|i: int| 0 <= i < means.len() ==> (#[trigger] means[i]).event_id != event_id,
    ensures
        uncertainty_of(means, event_id) == INFINITY_BITS,
    decreases means.len(),
{
    if means.len() > 0 {
        assert(means[means.len() - 1].event_id != event_id);
        lemma_unmeasured(means.drop_last(), event_id);
    }
}

/// Whether event `a` is ranked no later than event `b`.
pub open spec fn ranked(means: Seq<EventScore>, a: EventId, b: EventId) -> bool {
    let x = scheduler::total_order_key(uncertainty_of(means, a));
    let y = scheduler::total_order_key(uncertainty_of(means, b));
    x > y || (x == y && a <= b)
}

proof fn lemma_ranking(events: Seq<EventId>, means: Seq<EventScore>)
    requires
        events.len() <= usize::MAX,
    ensures
        ({
            let out = order::arranged(events, uncertainty_keys(events, means));
            &&& out.to_multiset() == events.to_multiset()
            &&& forall|i: int, j: int|
                0 <= i < j < out.len() ==> ranked(means, #[trigger] out[i], #[trigger] out[j])
        }),
{
    let keys = uncertainty_keys(events, means);
    order::order_exists(keys);
    order::arranging_keeps_items(events, keys);
    let order = order::order_of(keys);
    let out = order::arranged(events, keys);
    assert forall|i: int, j: int| 0 <= i < j < out.len() implies ranked(
        means,
        #[trigger] out[i],
        #[trigger] out[j],
    ) by {
        assert(out[i] == events[order[i] as int]);
        assert(out[j] == events[order[j] as int]);
        assert(order::goes_before(
            keys[order[i] as int],
            order[i] as int,
            keys[order[j] as int],
            order[j] as int,
        ));
    }
}

/// What is picked does not depend on the order of the candidates.
pub proof fn candidate_order_does_not_matter(
    a: Seq<EventId>,
    b: Seq<EventId>,
    means: Seq<EventScore>,
    num_slots: nat,
)
    requires
        a.to_multiset() == b.to_multiset(),
        a.len() <= usize::MAX,
        b.len() <= usize::MAX,
    ensures
        scheduler::leading(a, uncertainty_keys(a, means), num_slots) == scheduler::leading(
            b,
            uncertainty_keys(b, means),
            num_slots,
        ),
{
    broadcast use vstd::seq_lib::group_to_multiset_ensures;

    let leq = |x: EventId, y: EventId| ranked(means, x, y);
    lemma_ranking(a, means);
    lemma_ranking(b, means);
    let out_a = order::arranged(a, uncertainty_keys(a, means));
    let out_b = order::arranged(b, uncertainty_keys(b, means));
    assert(vstd::relations::total_ordering(leq));
    assert(vstd::relations::sorted_by(out_a, leq));
    assert(vstd::relations::sorted_by(out_b, leq));
    vstd::seq_lib::lemma_sorted_unique(out_a, out_b, leq);
    assert(a.to_multiset().len() == a.len());
    assert(b.to_multiset().len() == b.len());
}

/// Whether IDs are in ascending order.
pub open spec fn ascending(events: Seq<EventId>) -> bool {
    forall|i: int, j: int| 0 <= i < j < events.len() ==> #[trigger] events[i] <= #[trigger] events[j]
}

/// With nothing measured yet, the candidates with the smallest IDs are taken, in ascending order,
/// as many as there are slots: the scheduler never waits for a measurement to begin, and begins
/// the same way every time.
pub proof fn cold_start_takes_smallest_ids(
    events: Seq<EventId>,
    sorted: Seq<EventId>,
    num_slots: nat,
)
    requires
        events.len() <= usize::MAX,
        sorted.to_multiset() == events.to_multiset(),
        ascending(sorted),
    ensures
        scheduler::leading(events, uncertainty_keys(events, Seq::empty()), num_slots)
            == sorted.take(scheduler::lesser(num_slots as int, events.len() as int)),
{
    let leq = |x: EventId, y: EventId| x <= y;
    lemma_ranking(events, Seq::empty());
    let out = order::arranged(events, uncertainty_keys(events, Seq::empty()));
    assert forall|i: int, j: int| 0 <= i < j < out.len() implies #[trigger] leq(out[i], out[j]) by {
        assert(ranked(Seq::empty(), out[i], out[j]));
    }
    assert(vstd::relations::total_ordering(leq));
    assert(vstd::relations::sorted_by(out, leq));
    assert(vstd::relations::sorted_by(sorted, leq));
    vstd::seq_lib::lemma_sorted_unique(out, sorted, leq);
}

/// The uncertainty of an event is the score of its last mean; an event without a mean is infinitely
/// uncertain.
pub proof fn the_last_mean_counts(means: Seq<EventScore>, event_id: EventId)
    ensures
        forall|i: int|
            0 <= i < means.len() && (#[trigger] means[i]).event_id == event_id && (forall|j: int|
                i < j < means.len() ==> (#[trigger] means[j]).event_id != event_id)
                ==> uncertainty_of(means, event_id) == means[i].score,
        (forall|j: int| 0 <= j < means.len() ==> (#[trigger] means[j]).event_id != event_id)
            ==> uncertainty_of(means, event_id) == 0x7FF0_0000_0000_0000,
    decreases means.len(),
{
    if means.len() > 0 {
        let front = means.drop_last();
        the_last_mean_counts(front, event_id);
        let n = means.len() - 1;
        assert(forall|j: int| 0 <= j < front.len() ==> #[trigger] front[j] == means[j]);
        assert forall|i: int|
            0 <= i < means.len() && (#[trigger] means[i]).event_id == event_id && (forall|j: int|
                i < j < means.len() ==> (#[trigger] means[j]).event_id
                    != event_id) implies uncertainty_of(means, event_id) == means[i].score by {
            if i < n {
                assert(means[n].event_id != event_id);
                assert(front[i].event_id == event_id);
                assert forall|j: int| i < j < front.len() implies (#[trigger] front[j]).event_id
                    != event_id by {
                    assert(means[j].event_id != event_id);
                }
            }
        }
        if forall|j: int| 0 <= j < means.len() ==> (#[trigger] means[j]).event_id != event_id {
            assert(means[n].event_id != event_id);
            assert forall|j: int| 0 <= j < front.len() implies (#[trigger] front[j]).event_id
                != event_id by {
                assert(means[j].event_id != event_id);
            }
        }
    }
}

/// No selected event is less uncertain than one left out; of equally uncertain ones those with the
/// smaller IDs are selected.
pub proof fn the_most_uncertain_are_selected(
    events: Seq<EventId>,
    means: Seq<EventScore>,
    num_slots: nat,
    i: int,
    j: int,
)
    requires
        events.len() <= usize::MAX,
        events.no_duplicates(),
        0 <= i < events.len(),
        0 <= j < events.len(),
        scheduler::leading(events, uncertainty_keys(events, means), num_slots).contains(events[i]),
        !scheduler::leading(events, uncertainty_keys(events, means), num_slots).contains(events[j]),
    ensures
        scheduler::total_order_key(uncertainty_of(means, events[i])) >= scheduler::total_order_key(
            uncertainty_of(means, events[j]),
        ),
        uncertainty_of(means, events[i]) == uncertainty_of(means, events[j]) ==> events[i]
            < events[j],
{
    let keys = uncertainty_keys(events, means);
    scheduler::the_smallest_keys_are_picked(events, keys, num_slots, i, j);
    assert(events[i] != events[j]);
}

} // verus!
