//! Distribution scheduler: the measured events with the highest mean uncertainty.

use crate::event::EventId;
use crate::order::{self, sort_order, Key};
use crate::scheduler::{self, order_key, EventScore, ScheduleDecision};
use vstd::prelude::*;

verus! {

/// Selects the measured events whose uncertainty is highest on average over the threads.
pub struct DistributionScheduler {
    events: Vec<EventId>,
    num_slots: usize,
}

/// Model of [`DistributionScheduler`].
#[verifier::ext_equal]
pub struct DistributionView {
    /// The candidate events.
    pub events: Seq<EventId>,
    /// Events per step.
    pub num_slots: nat,
}

impl View for DistributionScheduler {
    type V = DistributionView;

    closed spec fn view(&self) -> DistributionView {
        DistributionView { events: self.events@, num_slots: self.num_slots as nat }
    }
}

/// Sort keys of scores in the total order of double-precision numbers.
pub open spec fn score_keys(scores: Seq<EventScore>) -> Seq<Key> {
    scores.map_values(|s: EventScore| (scheduler::total_order_key(s.score), 0u64))
}

/// The scored events from the highest score down; of equal scores, the later one first.
pub open spec fn highest_first(scores: Seq<EventScore>) -> Seq<EventId> {
    order::arranged(scores, score_keys(scores)).reverse().map_values(|s: EventScore| s.event_id)
}

impl Default for DistributionScheduler {
    fn default() -> (r: Self)
        ensures
            r@ == (DistributionView { events: Seq::empty(), num_slots: 4 }),
    {
        Self::new()
    }
}

impl DistributionScheduler {
    /// A scheduler without events and with four slots.
    pub fn new() -> (r: Self)
        ensures
            r@ == (DistributionView { events: Seq::empty(), num_slots: 4 }),
    {
        DistributionScheduler { events: Vec::new(), num_slots: 4 }
    }

    /// Sets the candidate events and the number of slots.
    pub fn init(&mut self, all_events: Vec<EventId>, num_slots: usize)
        ensures
            final(self)@ == (DistributionView { events: all_events@, num_slots: num_slots as nat }),
    {
        self.events = all_events;
        self.num_slots = num_slots;
    }

    /// The events with the highest mean uncertainties, as many as there are slots. Events that
    /// were never measured are not among them.
    pub fn next_step(&mut self, means: &Vec<EventScore>) -> (r: ScheduleDecision)
        ensures
            final(self)@ == old(self)@,
            r.active_events@ == highest_first(means@).take(
                scheduler::lesser(old(self)@.num_slots as int, means@.len() as int),
            ),
            r.active_events@.len() <= old(self)@.num_slots,
            r.duration is None,
    {
        let mut keys: Vec<Key> = Vec::new();
        let mut i: usize = 0;
        while i < means.len()
            invariant
                i <= means@.len(),
                keys@ == score_keys(means@.take(i as int)),
            decreases means@.len() - i,
        {
            keys.push((order_key(means[i].score), 0));
            i = i + 1;
            assert(keys@ =~= score_keys(means@.take(i as int)));
        }
        assert(means@.take(means@.len() as int) =~= means@);
        let order = sort_order(&keys);
        let n: usize = if self.num_slots <= means.len() {
            self.num_slots
        } else {
            means.len()
        };
        let mut active_events: Vec<EventId> = Vec::new();
        let mut j: usize = 0;
        while j < n
            invariant
                *self == *old(self),
                j <= n <= means@.len(),
                keys@ == score_keys(means@),
                order::is_order(order@, keys@),
                order@ == order::order_of(keys@),
                active_events@ == highest_first(means@).take(j as int),
            decreases n - j,
        {
            active_events.push(means[order[order.len() - 1 - j]].event_id);
            j = j + 1;
            assert(active_events@ =~= highest_first(means@).take(j as int));
        }
        ScheduleDecision { active_events, duration: None }
    }
}

/// Events come from the highest score down, and of equal scores the later one comes first. Returns
/// where the two events stand among the scores.
pub proof fn higher_scores_come_first(scores: Seq<EventScore>, i: int, j: int) -> (at: (int, int))
    requires
        scores.len() <= usize::MAX,
        0 <= i < j < scores.len(),
    ensures
        highest_first(scores).len() == scores.len(),
        0 <= at.0 < scores.len(),
        0 <= at.1 < scores.len(),
        at.0 != at.1,
        highest_first(scores)[i] == scores[at.0].event_id,
        highest_first(scores)[j] == scores[at.1].event_id,
        scheduler::total_order_key(scores[at.0].score) >= scheduler::total_order_key(
            scores[at.1].score,
        ),
        scores[at.0].score == scores[at.1].score ==> at.0 > at.1,
{
    let keys = score_keys(scores);
    let n = scores.len() as int;
    order::arranging_sorts_by_key(scores, keys, n - 1 - j, n - 1 - i);
    let order = order::order_of(keys);
    (order[n - 1 - i] as int, order[n - 1 - j] as int)
}

/// Every scored event is ranked, as often as it is scored.
pub proof fn every_scored_event_is_ranked(scores: Seq<EventScore>)
    requires
        scores.len() <= usize::MAX,
    ensures
        highest_first(scores).to_multiset() == scores.map_values(
            |s: EventScore| s.event_id,
        ).to_multiset(),
{
    let keys = score_keys(scores);
    let ids = scores.map_values(|s: EventScore| s.event_id);
    order::arranging_keeps_items(ids, keys);
    let up = order::arranged(ids, keys);
    order::order_exists(keys);
    assert(highest_first(scores) =~= up.reverse());
    lemma_reversed(up);
}

proof fn lemma_reversed(s: Seq<EventId>)
    ensures
        s.reverse().to_multiset() == s.to_multiset(),
    decreases s.len(),
{
    broadcast use vstd::seq_lib::group_to_multiset_ensures;

    if s.len() > 0 {
        let front = s.drop_last();
        lemma_reversed(front);
        assert(s =~= front.push(s.last()));
        assert(s.reverse() =~= seq![s.last()] + front.reverse());
        vstd::seq_lib::lemma_multiset_commutative(seq![s.last()], front.reverse());
        assert(seq![s.last()] =~= Seq::<EventId>::empty().push(s.last()));
    } else {
        assert(s.reverse() =~= s);
    }
}

} // verus!
