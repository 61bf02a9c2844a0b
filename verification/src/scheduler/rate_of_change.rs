//! Rate-of-change scheduler: prioritizes events whose rate is changing most rapidly, by the
//! triangle-area cost metric of Lim 2014.

use crate::event::EventId;
use crate::order::{self, Key};
use crate::scheduler::{self, order_key, pick_leading, EventScore, ScheduleDecision};
use std::collections::HashMap;
use vstd::prelude::*;

verus! {

broadcast use vstd::std_specs::hash::group_hash_axioms;

/// An observation: when, and the bit pattern of the mean rate.
pub type Observation = (u64, u64);

/// Prioritizes hardware events with a high rate of change.
///
/// Three tiers see to it that all events are observed before cost decides:
/// - never observed: first of all, the lower event ID before the higher;
/// - one or two observations: next, the one scheduled longest ago first;
/// - three observations: by triangle-area cost times the time since the event was last scheduled.
pub struct RateOfChangeScheduler {
    events: Vec<EventId>,
    num_slots: usize,
    history: HashMap<u32, Vec<Observation>>,
    observed: Vec<EventId>,
    last_scheduled_ns: HashMap<u32, u64>,
}

/// What the cost of an event is worked out from: its three observations, oldest first, and the
/// time since it was last scheduled.
#[derive(Debug, Clone, Copy)]
pub struct CostInput {
    /// Oldest observation.
    pub a: Observation,
    /// Middle observation.
    pub b: Observation,
    /// Latest observation.
    pub c: Observation,
    /// Nanoseconds since the event was last scheduled.
    pub delta_t_ns: u64,
}

/// The observations kept of each event, oldest first.
pub type History = Map<EventId, Seq<Observation>>;

/// Model of [`RateOfChangeScheduler`].
#[verifier::ext_equal]
pub struct RateOfChangeView {
    /// The candidate events.
    pub events: Seq<EventId>,
    /// Events per step.
    pub num_slots: nat,
    /// The observations kept of each event.
    pub history: History,
    /// When each event was last scheduled.
    pub last_scheduled: Map<EventId, u64>,
}

/// The time from `then` to `now`, zero if `then` is later.
pub open spec fn age(now: u64, then: u64) -> u64 {
    if now >= then {
        (now - then) as u64
    } else {
        0
    }
}

/// Age beyond which an observation is dropped: two hundred quanta.
pub open spec fn stale_threshold(elapsed_ns: u64) -> u64 {
    if 200 * elapsed_ns > u64::MAX {
        u64::MAX
    } else {
        (200 * elapsed_ns) as u64
    }
}

/// The observations left once the stale ones at the front are dropped.
pub open spec fn fresh(h: Seq<Observation>, now: u64, threshold: u64) -> Seq<Observation>
    decreases h.len(),
{
    if h.len() > 0 && age(now, h[0].0) > threshold {
        fresh(h.drop_first(), now, threshold)
    } else {
        h
    }
}

/// The history once stale observations are dropped; a quantum without duration drops none.
pub open spec fn evicted(history: History, now: u64, elapsed_ns: u64) -> History {
    let threshold = stale_threshold(elapsed_ns);
    if threshold == 0 {
        history
    } else {
        history.map_values(|h: Seq<Observation>| fresh(h, now, threshold))
    }
}

/// The observations of an event.
pub open spec fn observations(history: History, event_id: EventId) -> Seq<Observation> {
    if history.contains_key(event_id) {
        history[event_id]
    } else {
        Seq::empty()
    }
}

/// The last three observations once another is made.
pub open spec fn extended(h: Seq<Observation>, observation: Observation) -> Seq<Observation> {
    let longer = h.push(observation);
    if longer.len() > 3 {
        longer.drop_first()
    } else {
        longer
    }
}

/// The history once the mean rates of a quantum are recorded.
pub open spec fn recorded(history: History, now: u64, means: Seq<EventScore>) -> History
    decreases means.len(),
{
    if means.len() == 0 {
        history
    } else {
        let rest = recorded(history, now, means.drop_last());
        let last = means.last();
        rest.insert(
            last.event_id,
            extended(observations(rest, last.event_id), (now, last.score)),
        )
    }
}

impl RateOfChangeView {
    /// When an event was last scheduled; zero if never.
    pub open spec fn last_scheduled_of(self, event_id: EventId) -> u64 {
        if self.last_scheduled.contains_key(event_id) {
            self.last_scheduled[event_id]
        } else {
            0
        }
    }

    /// What an event is ranked by, lower before higher: its tier, then within the tier the event
    /// ID, the time it was last scheduled, or the cost, the highest first. `cost` counts only for
    /// an event with three observations.
    pub open spec fn rank(self, event_id: EventId, cost: u64) -> Key {
        let n = observations(self.history, event_id).len();
        if n == 0 {
            (0, event_id as u64)
        } else if n <= 2 {
            (1, self.last_scheduled_of(event_id))
        } else {
            (2, (u64::MAX - scheduler::total_order_key(cost)) as u64)
        }
    }

    /// The ranks of the candidates.
    pub open spec fn rank_keys(self, costs: Seq<u64>) -> Seq<Key> {
        Seq::new(self.events.len(), |i: int| self.rank(self.events[i], costs[i]))
    }

    /// What the cost of an event is worked out from, if it has three observations.
    pub open spec fn cost_input(self, event_id: EventId, now: u64) -> Option<CostInput> {
        let h = observations(self.history, event_id);
        if h.len() >= 3 {
            Some(
                CostInput {
                    a: h[0],
                    b: h[1],
                    c: h[2],
                    delta_t_ns: age(now, self.last_scheduled_of(event_id)),
                },
            )
        } else {
            None
        }
    }
}

/// The schedule times once some events are scheduled.
pub open spec fn scheduled(
    last: Map<EventId, u64>,
    events: Seq<EventId>,
    now: u64,
) -> Map<EventId, u64>
    decreases events.len(),
{
    if events.len() == 0 {
        last
    } else {
        scheduled(last, events.drop_last(), now).insert(events.last(), now)
    }
}

impl View for RateOfChangeScheduler {
    type V = RateOfChangeView;

    closed spec fn view(&self) -> RateOfChangeView {
        RateOfChangeView {
            events: self.events@,
            num_slots: self.num_slots as nat,
            history: self.history@.map_values(|h: Vec<Observation>| h@),
            last_scheduled: self.last_scheduled_ns@,
        }
    }
}

impl Default for RateOfChangeScheduler {
    fn default() -> (r: Self)
        ensures
            r.wf(),
            r@ == (RateOfChangeView {
                events: Seq::empty(),
                num_slots: 6,
                history: Map::empty(),
                last_scheduled: Map::empty(),
            }),
    {
        let r = RateOfChangeScheduler {
            events: Vec::new(),
            num_slots: 6,
            history: HashMap::new(),
            observed: Vec::new(),
            last_scheduled_ns: HashMap::new(),
        };
        assert(r@.history =~= Map::empty());
        r
    }
}

fn is_stale(observation: Observation, now: u64, threshold: u64) -> (r: bool)
    ensures
        r == (age(now, observation.0) > threshold),
{
    now >= observation.0 && now - observation.0 > threshold
}

/// Drops the stale observations at the front.
fn drop_stale(h: Vec<Observation>, now: u64, threshold: u64) -> (r: Vec<Observation>)
    ensures
        r@ == fresh(h@, now, threshold),
{
    let mut h = h;
    let ghost start = h@;
    while h.len() > 0 && is_stale(h[0], now, threshold)
        invariant
            fresh(start, now, threshold) == fresh(h@, now, threshold),
        decreases h@.len(),
    {
        let ghost before = h@;
        h.remove(0);
        assert(h@ =~= before.drop_first());
    }
    h
}

impl RateOfChangeScheduler {
    /// Validity: the observed events are those with a history, none twice, and no history is
    /// longer than three.
    pub closed spec fn wf(&self) -> bool {
        &&& self.observed@.no_duplicates()
        &&& forall|e: EventId|
            #[trigger] self.history@.contains_key(e) <==> self.observed@.contains(e)
        &&& forall|e: EventId| #[trigger]
            self.history@.contains_key(e) ==> self.history@[e]@.len() <= 3
    }

    /// No more than the last three observations of an event are kept.
    pub proof fn lemma_history_is_short(&self, e: EventId)
        requires
            self.wf(),
        ensures
            observations(self@.history, e).len() <= 3,
    {
    }

    /// Sets the candidate events and the number of slots.
    pub fn init(&mut self, all_events: Vec<EventId>, num_slots: usize)
        requires
            old(self).wf(),
        ensures
            final(self).wf(),
            final(self)@ == (RateOfChangeView {
                events: all_events@,
                num_slots: num_slots as nat,
                ..old(self)@
            }),
    {
        self.events = all_events;
        self.num_slots = num_slots;
    }

    fn evict(&mut self, now_ns: u64, threshold: u64)
        requires
            old(self).wf(),
        ensures
            final(self).wf(),
            final(self)@ == (RateOfChangeView {
                history: old(self)@.history.map_values(
                    |h: Seq<Observation>| fresh(h, now_ns, threshold),
                ),
                ..old(self)@
            }),
    {
        let mut i: usize = 0;
        let ghost start = self.history@;
        while i < self.observed.len()
            invariant
                i <= self.observed@.len(),
                self.events == old(self).events,
                self.num_slots == old(self).num_slots,
                self.observed == old(self).observed,
                self.last_scheduled_ns == old(self).last_scheduled_ns,
                start == old(self).history@,
                old(self).wf(),
                self.history@.dom() == start.dom(),
                forall|j: int|
                    0 <= j < i ==> self.history@[#[trigger] self.observed@[j]]@ == fresh(
                        start[self.observed@[j]]@,
                        now_ns,
                        threshold,
                    ),
                forall|j: int|
                    i <= j < self.observed@.len() ==> self.history@[#[trigger] self.observed@[j]]
                        == start[self.observed@[j]],
            decreases self.observed@.len() - i,
        {
            let e = self.observed[i];
            let ghost before = self.history@;
            assert(self.observed@.contains(e));
            assert(start.contains_key(e));
            if let Some(h) = self.history.remove(&e) {
                let kept = drop_stale(h, now_ns, threshold);
                self.history.insert(e, kept);
            }
            assert(self.history@.dom() =~= start.dom());
            assert forall|j: int| 0 <= j < self.observed@.len() && j
                != i implies self.history@[#[trigger] self.observed@[j]]
                == before[self.observed@[j]] by {
                assert(self.observed@[j] != e);
            }
            i = i + 1;
        }
        assert forall|e: EventId| start.contains_key(e) implies #[trigger] self.history@[e]@
            == fresh(start[e]@, now_ns, threshold) by {
            let j = choose|j: int| 0 <= j < self.observed@.len() && self.observed@[j] == e;
            assert(self.history@[self.observed@[j]]@ == fresh(
                start[self.observed@[j]]@,
                now_ns,
                threshold,
            ));
        }
        assert(self@.history =~= old(self)@.history.map_values(
            |h: Seq<Observation>| fresh(h, now_ns, threshold),
        ));
        assert forall|e: EventId| #[trigger] self.history@.contains_key(e) implies
            self.history@[e]@.len() <= 3 by {
            assert(start.contains_key(e));
            lemma_fresh_len(start[e]@, now_ns, threshold);
        }
        assert forall|e: EventId|
            #[trigger] self.history@.contains_key(e) <==> self.observed@.contains(e) by {
            assert(start.contains_key(e) <==> old(self).observed@.contains(e));
        }
    }

    fn record(&mut self, event_id: EventId, observation: Observation)
        requires
            old(self).wf(),
        ensures
            final(self).wf(),
            final(self)@ == (RateOfChangeView {
                history: old(self)@.history.insert(
                    event_id,
                    extended(observations(old(self)@.history, event_id), observation),
                ),
                ..old(self)@
            }),
    {
        let ghost before = self.observed@;
        let mut h: Vec<Observation> = match self.history.remove(&event_id) {
            Some(h) => h,
            None => {
                self.observed.push(event_id);
                Vec::new()
            },
        };
        assert(h@ =~= observations(old(self)@.history, event_id));
        let ghost start = h@;
        h.push(observation);
        if h.len() > 3 {
            h.remove(0);
        }
        assert(h@ =~= extended(start, observation));
        self.history.insert(event_id, h);
        assert(self@.history =~= old(self)@.history.insert(
            event_id,
            extended(observations(old(self)@.history, event_id), observation),
        ));
        assert forall|e: EventId|
            #[trigger] self.history@.contains_key(e) <==> self.observed@.contains(e) by {
            assert(old(self).history@.contains_key(e) <==> before.contains(e));
            if before.contains(e) {
                let j = choose|j: int| 0 <= j < before.len() && before[j] == e;
                assert(self.observed@[j] == e);
            }
            if e == event_id && !before.contains(e) {
                assert(self.observed@[before.len() as int] == e);
            }
        }
        assert(old(self).history@.contains_key(event_id) <==> before.contains(event_id));
        assert forall|e: EventId| #[trigger] self.history@.contains_key(e) implies
            self.history@[e]@.len() <= 3 by {
            if e != event_id {
                assert(old(self).history@.contains_key(e));
            }
        }
    }

    /// Takes in a quantum: drops observations older than two hundred quanta, so that phases far
    /// apart are not mixed, and records the mean rate of every event measured.
    pub fn observe(&mut self, now_ns: u64, elapsed_ns: u64, means: &Vec<EventScore>)
        requires
            old(self).wf(),
        ensures
            final(self).wf(),
            final(self)@ == (RateOfChangeView {
                history: recorded(evicted(old(self)@.history, now_ns, elapsed_ns), now_ns, means@),
                ..old(self)@
            }),
    {
        let threshold: u64 = if elapsed_ns > u64::MAX / 200 {
            u64::MAX
        } else {
            200 * elapsed_ns
        };
        assert(threshold == stale_threshold(elapsed_ns));
        if threshold > 0 {
            self.evict(now_ns, threshold);
        }
        let ghost mid = self@.history;
        let mut i: usize = 0;
        while i < means.len()
            invariant
                i <= means@.len(),
                self.wf(),
                self@ == (RateOfChangeView {
                    history: recorded(mid, now_ns, means@.take(i as int)),
                    ..old(self)@
                }),
            decreases means@.len() - i,
        {
            assert(means@.take(i as int + 1).drop_last() =~= means@.take(i as int));
            self.record(means[i].event_id, (now_ns, means[i].score));
            i = i + 1;
        }
        assert(means@.take(means@.len() as int) =~= means@);
    }

    fn last_scheduled(&self, event_id: EventId) -> (r: u64)
        ensures
            r == self@.last_scheduled_of(event_id),
    {
        match self.last_scheduled_ns.get(&event_id) {
            Some(ns) => *ns,
            None => 0,
        }
    }

    /// For each candidate event, what its cost is worked out from, if it has three observations.
    pub fn cost_inputs(&self, now_ns: u64) -> (r: Vec<Option<CostInput>>)
        ensures
            r@ == self@.events.map_values(|e: EventId| self@.cost_input(e, now_ns)),
    {
        let mut r: Vec<Option<CostInput>> = Vec::new();
        let mut i: usize = 0;
        while i < self.events.len()
            invariant
                i <= self.events@.len(),
                r@ == self.events@.take(i as int).map_values(
                    |e: EventId| self@.cost_input(e, now_ns),
                ),
            decreases self.events@.len() - i,
        {
            let e = self.events[i];
            let last = self.last_scheduled(e);
            let delta_t_ns: u64 = if now_ns >= last {
                now_ns - last
            } else {
                0
            };
            let input = match self.history.get(&e) {
                None => None,
                Some(h) => if h.len() >= 3 {
                    Some(CostInput { a: h[0], b: h[1], c: h[2], delta_t_ns })
                } else {
                    None
                },
            };
            assert(input == self@.cost_input(e, now_ns));
            r.push(input);
            i = i + 1;
            assert(r@ =~= self.events@.take(i as int).map_values(
                |e: EventId| self@.cost_input(e, now_ns),
            ));
        }
        assert(self.events@.take(self.events@.len() as int) =~= self.events@);
        r
    }

    /// Ranks the candidate events, takes as many as there are slots, and notes when they were
    /// scheduled. `costs` holds the cost of each candidate; it counts only where there are three
    /// observations.
    pub fn select(&mut self, now_ns: u64, costs: &Vec<u64>) -> (r: ScheduleDecision)
        requires
            old(self).wf(),
            costs@.len() == old(self)@.events.len(),
        ensures
            final(self).wf(),
            r.active_events@ == scheduler::leading(
                old(self)@.events,
                old(self)@.rank_keys(costs@),
                old(self)@.num_slots,
            ),
            r.active_events@.len() <= old(self)@.num_slots,
            r.duration is None,
            final(self)@ == (RateOfChangeView {
                last_scheduled: scheduled(
                    old(self)@.last_scheduled,
                    r.active_events@,
                    now_ns,
                ),
                ..old(self)@
            }),
    {
        let mut keys: Vec<Key> = Vec::new();
        let mut i: usize = 0;
        while i < self.events.len()
            invariant
                i <= self.events@.len(),
                costs@.len() == self.events@.len(),
                *self == *old(self),
                keys@ == self@.rank_keys(costs@).take(i as int),
            decreases self.events@.len() - i,
        {
            let e = self.events[i];
            let seen: usize = match self.history.get(&e) {
                None => 0,
                Some(h) => h.len(),
            };
            assert(seen == observations(self@.history, e).len());
            let key: Key = if seen == 0 {
                (0, e as u64)
            } else if seen <= 2 {
                (1, self.last_scheduled(e))
            } else {
                (2, u64::MAX - order_key(costs[i]))
            };
            assert(key == self@.rank(e, costs@[i as int]));
            keys.push(key);
            i = i + 1;
            assert(keys@ =~= self@.rank_keys(costs@).take(i as int));
        }
        assert(keys@ =~= self@.rank_keys(costs@));
        let active_events = pick_leading(&self.events, &keys, self.num_slots);
        let mut j: usize = 0;
        while j < active_events.len()
            invariant
                j <= active_events@.len(),
                self.wf(),
                self@ == (RateOfChangeView {
                    last_scheduled: scheduled(
                        old(self)@.last_scheduled,
                        active_events@.take(j as int),
                        now_ns,
                    ),
                    ..old(self)@
                }),
            decreases active_events@.len() - j,
        {
            assert(active_events@.take(j as int + 1).drop_last() =~= active_events@.take(j as int));
            self.last_scheduled_ns.insert(active_events[j], now_ns);
            j = j + 1;
        }
        assert(active_events@.take(active_events@.len() as int) =~= active_events@);
        ScheduleDecision { active_events, duration: None }
    }
}

proof fn lemma_fresh_len(h: Seq<Observation>, now: u64, threshold: u64)
    ensures
        fresh(h, now, threshold).len() <= h.len(),
    decreases h.len(),
{
    if h.len() > 0 && age(now, h[0].0) > threshold {
        lemma_fresh_len(h.drop_first(), now, threshold);
    }
}

/// Events are observed before cost decides: whatever the costs, an event never observed goes before
/// one observed, and an event with one or two observations before one with three.
pub proof fn observation_comes_before_cost(
    v: RateOfChangeView,
    costs: Seq<u64>,
    i: int,
    j: int,
)
    requires
        0 <= i < v.events.len(),
        0 <= j < v.events.len(),
        observations(v.history, v.events[i]).len() < 3,
        observations(v.history, v.events[j]).len() >= 3 || (observations(
            v.history,
            v.events[i],
        ).len() == 0 && observations(v.history, v.events[j]).len() > 0),
    ensures
        order::goes_before(v.rank_keys(costs)[i], i, v.rank_keys(costs)[j], j),
{
}

/// Within a tier, events never observed go by ascending ID, those with one or two observations by
/// when they were last scheduled, the longest ago first, and those with three by cost, the highest
/// first.
pub proof fn tiers_are_ordered_within(v: RateOfChangeView, costs: Seq<u64>, i: int, j: int)
    requires
        0 <= i < v.events.len(),
        0 <= j < v.events.len(),
        ({
            let a = observations(v.history, v.events[i]).len();
            let b = observations(v.history, v.events[j]).len();
            ||| a == 0 && b == 0 && v.events[i] < v.events[j]
            ||| 1 <= a <= 2 && 1 <= b <= 2 && v.last_scheduled_of(v.events[i])
                < v.last_scheduled_of(v.events[j])
            ||| a >= 3 && b >= 3 && scheduler::total_order_key(costs[i])
                > scheduler::total_order_key(costs[j])
        }),
    ensures
        order::goes_before(v.rank_keys(costs)[i], i, v.rank_keys(costs)[j], j),
{
}

/// The latest observation is always kept, and what is kept are the last observations made, at most
/// three.
pub proof fn the_last_three_are_kept(h: Seq<Observation>, observation: Observation)
    requires
        h.len() <= 3,
    ensures
        extended(h, observation).last() == observation,
        extended(h, observation).len() == if h.len() + 1 <= 3 {
            h.len() + 1
        } else {
            3
        },
        extended(h, observation) == h.push(observation).skip(
            h.len() + 1 - extended(h, observation).len(),
        ),
{
    let kept = extended(h, observation);
    assert(kept =~= h.push(observation).skip(h.len() + 1 - kept.len()));
}

/// Recording the mean rates of a quantum leaves the events without a mean as they were. An event
/// with one mean has it as its latest observation, at the time of the quantum; before it stand the
/// last observations made earlier, so that there are three at most.
pub proof fn recording_appends_the_mean(
    history: History,
    now: u64,
    means: Seq<EventScore>,
    event_id: EventId,
)
    requires
        observations(history, event_id).len() <= 3,
    ensures
        (forall|i: int| 0 <= i < means.len() ==> (#[trigger] means[i]).event_id != event_id) ==> (
        observations(recorded(history, now, means), event_id) == observations(history, event_id)
            && recorded(history, now, means).contains_key(event_id) == history.contains_key(
            event_id,
        )),
        forall|i: int|
            0 <= i < means.len() && (#[trigger] means[i]).event_id == event_id && (forall|j: int|
                0 <= j < means.len() && j != i ==> (#[trigger] means[j]).event_id != event_id) ==> ({
                let before = observations(history, event_id);
                let after = observations(recorded(history, now, means), event_id);
                &&& after.last() == (now, means[i].score)
                &&& after.len() == if before.len() < 3 {
                    before.len() + 1
                } else {
                    3
                }
                &&& after == before.push((now, means[i].score)).skip(
                    before.len() + 1 - after.len(),
                )
            }),
        observations(recorded(history, now, means), event_id).len() <= 3,
    decreases means.len(),
{
    if means.len() > 0 {
        let front = means.drop_last();
        recording_appends_the_mean(history, now, front, event_id);
        let n = means.len() - 1;
        let rest = recorded(history, now, front);
        assert(forall|j: int| 0 <= j < front.len() ==> #[trigger] front[j] == means[j]);
        if means[n].event_id == event_id {
            the_last_three_are_kept(observations(rest, event_id), (now, means[n].score));
            assert forall|i: int|
                0 <= i < means.len() && (#[trigger] means[i]).event_id == event_id && (forall|
                    j: int,
                |
                    0 <= j < means.len() && j != i ==> (#[trigger] means[j]).event_id
                        != event_id) implies ({
                let before = observations(history, event_id);
                let after = observations(recorded(history, now, means), event_id);
                &&& after.last() == (now, means[i].score)
                &&& after.len() == if before.len() < 3 {
                    before.len() + 1
                } else {
                    3
                }
                &&& after == before.push((now, means[i].score)).skip(
                    before.len() + 1 - after.len(),
                )
            }) by {
                assert(i == n) by {
                    if i != n {
                        assert(means[n].event_id != event_id);
                    }
                }
                assert forall|k: int| 0 <= k < front.len() implies (#[trigger] front[k]).event_id
                    != event_id by {
                    assert(means[k].event_id != event_id);
                }
            }
        } else {
            assert forall|i: int|
                0 <= i < means.len() && (#[trigger] means[i]).event_id == event_id && (forall|
                    j: int,
                |
                    0 <= j < means.len() && j != i ==> (#[trigger] means[j]).event_id
                        != event_id) implies ({
                let before = observations(history, event_id);
                let after = observations(recorded(history, now, means), event_id);
                &&& after.last() == (now, means[i].score)
                &&& after.len() == if before.len() < 3 {
                    before.len() + 1
                } else {
                    3
                }
                &&& after == before.push((now, means[i].score)).skip(
                    before.len() + 1 - after.len(),
                )
            }) by {
                assert(front[i].event_id == event_id);
                assert forall|k: int| 0 <= k < front.len() && k != i implies (
                #[trigger] front[k]).event_id != event_id by {
                    assert(means[k].event_id != event_id);
                }
            }
            if forall|i: int| 0 <= i < means.len() ==> (#[trigger] means[i]).event_id != event_id {
                assert forall|k: int| 0 <= k < front.len() implies (#[trigger] front[k]).event_id
                    != event_id by {
                    assert(means[k].event_id != event_id);
                }
            }
        }
    }
}

proof fn lemma_fresh(h: Seq<Observation>, now: u64, threshold: u64) -> (k: int)
    ensures
        0 <= k <= h.len(),
        fresh(h, now, threshold) == h.skip(k),
        forall|j: int| 0 <= j < k ==> now - (#[trigger] h[j]).0 > threshold,
        k < h.len() ==> now - h[k].0 <= threshold,
    decreases h.len(),
{
    if h.len() > 0 && age(now, h[0].0) > threshold {
        let k = lemma_fresh(h.drop_first(), now, threshold);
        assert(h.drop_first().skip(k) =~= h.skip(k + 1));
        assert forall|j: int| 0 <= j < k + 1 implies now - (#[trigger] h[j]).0 > threshold by {
            if j > 0 {
                assert(h.drop_first()[j - 1] == h[j]);
            }
        }
        if k + 1 < h.len() {
            assert(h.drop_first()[k] == h[k + 1]);
        }
        k + 1
    } else {
        assert(h.skip(0) =~= h);
        0
    }
}

/// Of each event's observations those at the front that lie more than two hundred quanta back are
/// dropped; what stands behind them stays, and a quantum without duration drops nothing. No event
/// is forgotten or made up. Returns how many are dropped.
pub proof fn only_stale_observations_are_dropped(
    history: History,
    now: u64,
    elapsed_ns: u64,
    event_id: EventId,
) -> (k: int)
    ensures
        evicted(history, now, elapsed_ns).dom() == history.dom(),
        ({
            let before = observations(history, event_id);
            &&& 0 <= k <= before.len()
            &&& observations(evicted(history, now, elapsed_ns), event_id) == before.skip(k)
            &&& elapsed_ns == 0 ==> k == 0
            &&& forall|j: int| 0 <= j < k ==> now - (#[trigger] before[j]).0 > 200 * elapsed_ns
            &&& elapsed_ns > 0 && k < before.len() ==> now - before[k].0 <= 200 * elapsed_ns
        }),
{
    let before = observations(history, event_id);
    let threshold = stale_threshold(elapsed_ns);
    assert(evicted(history, now, elapsed_ns).dom() =~= history.dom());
    if threshold == 0 || !history.contains_key(event_id) {
        assert(before.skip(0) =~= before);
        0
    } else {
        let k = lemma_fresh(before, now, threshold);
        assert(evicted(history, now, elapsed_ns)[event_id] == fresh(before, now, threshold));
        if 200 * elapsed_ns > u64::MAX {
            if k > 0 {
                assert(now - before[0].0 > threshold);
            }
        }
        k
    }
}

/// An event measured once in a quantum has its mean rate as the latest observation afterwards, at
/// the time of the quantum, whatever was dropped; an event not measured has none that it did not
/// have before.
pub proof fn a_measured_event_is_observed(
    history: History,
    now: u64,
    elapsed_ns: u64,
    means: Seq<EventScore>,
    i: int,
    event_id: EventId,
)
    requires
        0 <= i < means.len(),
        forall|j: int|
            0 <= j < means.len() && j != i ==> (#[trigger] means[j]).event_id != means[i].event_id,
        observations(history, means[i].event_id).len() <= 3,
        observations(history, event_id).len() <= 3,
        forall|j: int| 0 <= j < means.len() ==> (#[trigger] means[j]).event_id != event_id,
    ensures
        ({
            let after = recorded(evicted(history, now, elapsed_ns), now, means);
            &&& observations(after, means[i].event_id).last() == (now, means[i].score)
            &&& 1 <= observations(after, means[i].event_id).len() <= 3
            &&& observations(after, event_id).is_suffix_of(observations(history, event_id))
        }),
{
    let kept = evicted(history, now, elapsed_ns);
    let k = only_stale_observations_are_dropped(history, now, elapsed_ns, means[i].event_id);
    recording_appends_the_mean(kept, now, means, means[i].event_id);
    let l = only_stale_observations_are_dropped(history, now, elapsed_ns, event_id);
    recording_appends_the_mean(kept, now, means, event_id);
    let before = observations(history, event_id);
    assert(before.skip(l) =~= before.subrange(
        before.len() - before.skip(l).len(),
        before.len() as int,
    ));
}

/// Scheduling notes the time for every event scheduled, and for no other.
pub proof fn scheduling_notes_the_time(
    last: Map<EventId, u64>,
    events: Seq<EventId>,
    now: u64,
    event_id: EventId,
)
    ensures
        events.contains(event_id) ==> scheduled(last, events, now).contains_key(event_id)
            && scheduled(last, events, now)[event_id] == now,
        !events.contains(event_id) ==> scheduled(last, events, now).contains_key(event_id)
            == last.contains_key(event_id) && (last.contains_key(event_id) ==> scheduled(
            last,
            events,
            now,
        )[event_id] == last[event_id]),
    decreases events.len(),
{
    if events.len() > 0 {
        let front = events.drop_last();
        scheduling_notes_the_time(last, front, now, event_id);
        if events.contains(event_id) && events.last() != event_id {
            let i = choose|i: int| 0 <= i < events.len() && events[i] == event_id;
            assert(front[i] == event_id);
        }
        if front.contains(event_id) {
            let i = choose|i: int| 0 <= i < front.len() && front[i] == event_id;
            assert(events[i] == event_id);
        }
        if events.last() == event_id {
            assert(events[events.len() - 1] == event_id);
        }
    }
}

/// A cost is worked out for an event exactly if three observations are kept of it: from those
/// three, the oldest first, and from the time since the event was last scheduled, counted from
/// zero if it never was.
pub proof fn costs_come_from_three_observations(v: RateOfChangeView, event_id: EventId, now: u64)
    ensures
        v.cost_input(event_id, now) is Some <==> v.history.contains_key(event_id)
            && v.history[event_id].len() >= 3,
        v.cost_input(event_id, now) matches Some(input) ==> ({
            &&& input.a == v.history[event_id][0]
            &&& input.b == v.history[event_id][1]
            &&& input.c == v.history[event_id][2]
            &&& v.last_scheduled.contains_key(event_id) && v.last_scheduled[event_id] <= now
                ==> input.delta_t_ns == now - v.last_scheduled[event_id]
            &&& v.last_scheduled.contains_key(event_id) && v.last_scheduled[event_id] > now
                ==> input.delta_t_ns == 0
            &&& !v.last_scheduled.contains_key(event_id) ==> input.delta_t_ns == now
        }),
{
}

/// No event that was observed is selected while one that never was is left out, and no event with
/// three observations while one with fewer is.
pub proof fn less_observed_events_are_not_left_out(
    v: RateOfChangeView,
    costs: Seq<u64>,
    i: int,
    j: int,
)
    requires
        v.events.len() <= usize::MAX,
        v.events.no_duplicates(),
        0 <= i < v.events.len(),
        0 <= j < v.events.len(),
        scheduler::leading(v.events, v.rank_keys(costs), v.num_slots).contains(v.events[i]),
        !scheduler::leading(v.events, v.rank_keys(costs), v.num_slots).contains(v.events[j]),
    ensures
        ({
            let a = observations(v.history, v.events[i]).len();
            let b = observations(v.history, v.events[j]).len();
            &&& b == 0 ==> a == 0 && v.events[i] < v.events[j]
            &&& 1 <= b <= 2 ==> a <= 2
            &&& 1 <= a <= 2 && 1 <= b <= 2 ==> v.last_scheduled_of(v.events[i])
                <= v.last_scheduled_of(v.events[j])
            &&& a >= 3 ==> b >= 3 && scheduler::total_order_key(costs[i])
                >= scheduler::total_order_key(costs[j])
        }),
{
    let keys = v.rank_keys(costs);
    scheduler::the_smallest_keys_are_picked(v.events, keys, v.num_slots, i, j);
    assert(v.events[i] != v.events[j]);
}

} // verus!
