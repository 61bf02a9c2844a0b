//! Stepping a set of virtual counters from per-event observations.

use crate::counter_backend::Observation;
use crate::event::EventId;
use crate::quantum::RateRatio;
use crate::scheduler::ScheduleDecision;
use vstd::prelude::*;

verus! {

/// Total duration of some observations.
pub open spec fn total_duration(observations: Seq<Observation>) -> nat
    decreases observations.len(),
{
    if observations.len() == 0 {
        0
    } else {
        total_duration(observations.drop_last()) + observations.last().total_duration_ns as nat
    }
}

/// The time that a step covers: that of its observations, and never zero.
pub open spec fn elapsed(observations: Seq<Observation>) -> nat {
    if total_duration(observations) == 0 {
        1
    } else {
        total_duration(observations)
    }
}

/// The observations that took any time at all, in order.
pub open spec fn timed(observations: Seq<Observation>) -> Seq<Observation>
    decreases observations.len(),
{
    if observations.len() == 0 {
        Seq::empty()
    } else {
        let before = timed(observations.drop_last());
        if observations.last().total_duration_ns > 0 {
            before.push(observations.last())
        } else {
            before
        }
    }
}

/// Whether an event is among some observations.
pub open spec fn observes(observations: Seq<Observation>, event_id: EventId) -> bool {
    exists|i: int| 0 <= i < observations.len() && (#[trigger] observations[i]).event_id == event_id
}

/// The events below `n` that are not among some observations, in order.
pub open spec fn unobserved(observations: Seq<Observation>, n: nat) -> Seq<EventId>
    decreases n,
{
    if n == 0 {
        Seq::empty()
    } else {
        let before = unobserved(observations, (n - 1) as nat);
        if observes(observations, (n - 1) as EventId) {
            before
        } else {
            before.push((n - 1) as EventId)
        }
    }
}

/// A measurement of an event: its rate over all readings, and how its readings spread.
pub struct Measurement {
    /// The event.
    pub event_id: EventId,
    /// Its total count over its total duration.
    pub rate: RateRatio,
    /// The rates whose deviation is that of the measurement; it is zero where there is none.
    pub spread: Vec<RateRatio>,
}

/// Model of [`Measurement`]: event, rate and spread.
pub type MeasurementView = (EventId, RateRatio, Seq<RateRatio>);

impl View for Measurement {
    type V = MeasurementView;

    open spec fn view(&self) -> MeasurementView {
        (self.event_id, self.rate, self.spread@)
    }
}

/// The measurement that an observation gives. Fewer than two samples do not spread.
pub open spec fn measurement_of(o: Observation) -> MeasurementView {
    (
        o.event_id,
        RateRatio { count: o.total_count, duration_ns: o.total_duration_ns },
        if o.num_samples < 2 {
            Seq::empty()
        } else {
            o.rates@
        },
    )
}

/// The measurements that observations give, in order.
pub open spec fn measurements_of(observations: Seq<Observation>) -> Seq<MeasurementView> {
    timed(observations).map_values(|o: Observation| measurement_of(o))
}

/// The models of measurements.
pub open spec fn measurement_views(measured: Seq<Measurement>) -> Seq<MeasurementView> {
    measured.map_values(|m: Measurement| m@)
}

/// What a step updates.
pub struct StepPlan {
    /// The time that the step covers, in nanoseconds.
    pub elapsed_ns: u64,
    /// The time of its measurements, in nanoseconds since the start.
    pub timestamp_ns: u64,
    /// What was measured.
    pub measured: Vec<Measurement>,
    /// The events whose uncertainty grows.
    pub unmeasured: Vec<EventId>,
}

/// The active set and the clock.
pub struct Oculomotor {
    active_set: Vec<EventId>,
    last_step_ns: u64,
}

/// Model of [`Oculomotor`].
pub struct OculomotorView {
    /// Events currently enabled.
    pub active_set: Seq<EventId>,
    /// Nanoseconds covered by the steps so far.
    pub last_step_ns: u64,
}

impl View for Oculomotor {
    type V = OculomotorView;

    closed spec fn view(&self) -> OculomotorView {
        OculomotorView { active_set: self.active_set@, last_step_ns: self.last_step_ns }
    }
}

proof fn lemma_prefix_duration(observations: Seq<Observation>, n: int)
    requires
        0 <= n <= observations.len(),
    ensures
        total_duration(observations.take(n)) <= total_duration(observations),
    decreases observations.len(),
{
    if n == observations.len() {
        assert(observations.take(n) =~= observations);
    } else {
        assert(observations.drop_last().take(n) =~= observations.take(n));
        lemma_prefix_duration(observations.drop_last(), n);
    }
}

impl Oculomotor {
    /// Starts at time zero with nothing enabled.
    pub fn new() -> (r: Self)
        ensures
            r@ == (OculomotorView { active_set: Seq::empty(), last_step_ns: 0 }),
    {
        let r = Oculomotor { active_set: Vec::new(), last_step_ns: 0 };
        assert(r@.active_set =~= Seq::empty());
        r
    }

    /// Begins a step: which observations are measurements, which events go without, and how far
    /// the clock moves.
    pub fn begin_step(&mut self, observations: &Vec<Observation>, num_events: u32) -> (r: StepPlan)
        requires
            old(self)@.last_step_ns + elapsed(observations@) <= u64::MAX,
        ensures
            final(self)@ == (OculomotorView { last_step_ns: r.timestamp_ns, ..old(self)@ }),
            r.elapsed_ns == elapsed(observations@),
            r.timestamp_ns == old(self)@.last_step_ns + elapsed(observations@),
            measurement_views(r.measured@) == measurements_of(observations@),
            r.unmeasured@ == unobserved(timed(observations@), num_events as nat),
    {
        let mut total: u64 = 0;
        let mut measured: Vec<Measurement> = Vec::new();
        let mut i: usize = 0;
        assert(observations@.take(0) =~= Seq::empty());
        assert(measurement_views(measured@) =~= measurements_of(observations@.take(0)));
        while i < observations.len()
            invariant
                i <= observations@.len(),
                total_duration(observations@) <= u64::MAX,
                total == total_duration(observations@.take(i as int)),
                measurement_views(measured@) == measurements_of(observations@.take(i as int)),
            decreases observations@.len() - i,
        {
            assert(observations@.take(i as int + 1).drop_last() =~= observations@.take(i as int));
            proof {
                lemma_prefix_duration(observations@, i as int + 1);
            }
            let o = &observations[i];
            total = total + o.total_duration_ns;
            let ghost before = measured@;
            if o.total_duration_ns > 0 {
                let spread: Vec<RateRatio> = if o.num_samples < 2 {
                    Vec::new()
                } else {
                    o.rates.clone()
                };
                let m = Measurement {
                    event_id: o.event_id,
                    rate: RateRatio { count: o.total_count, duration_ns: o.total_duration_ns },
                    spread,
                };
                assert(m@.2 =~= measurement_of(*o).2);
                measured.push(m);
                assert(measurement_views(measured@) =~= measurement_views(before).push(m@));
            }
            i = i + 1;
            assert(measurement_views(measured@) =~= measurements_of(observations@.take(i as int)));
        }
        assert(observations@.take(i as int) =~= observations@);
        let elapsed_ns: u64 = if total == 0 {
            1
        } else {
            total
        };
        let mut unmeasured: Vec<EventId> = Vec::new();
        let mut id: u32 = 0;
        while id < num_events
            invariant
                id <= num_events,
                measurement_views(measured@) == measurements_of(observations@),
                unmeasured@ == unobserved(timed(observations@), id as nat),
            decreases num_events - id,
        {
            let mut seen = false;
            let mut j: usize = 0;
            while j < measured.len()
                invariant
                    j <= measured@.len(),
                    seen == exists|k: int| 0 <= k < j && (#[trigger] measured@[k]).event_id == id,
                decreases measured@.len() - j,
            {
                if measured[j].event_id == id {
                    seen = true;
                }
                j = j + 1;
            }
            assert(seen == observes(timed(observations@), id)) by {
                let all = timed(observations@);
                assert(measured@.len() == measurement_views(measured@).len());
                assert(all.len() == measurements_of(observations@).len());
                assert forall|k: int| 0 <= k < all.len() implies (#[trigger] all[k]).event_id
                    == measured@[k].event_id by {
                    assert(measurement_views(measured@)[k] == measured@[k]@);
                    assert(measurements_of(observations@)[k] == measurement_of(all[k]));
                }
                if seen {
                    let k = choose|k: int|
                        0 <= k < measured@.len() && (#[trigger] measured@[k]).event_id == id;
                    assert(all[k].event_id == id);
                }
                if observes(all, id) {
                    let k = choose|k: int| 0 <= k < all.len() && (#[trigger] all[k]).event_id == id;
                    assert(measured@[k].event_id == id);
                }
            }
            if !seen {
                unmeasured.push(id);
            }
            id = id + 1;
        }
        self.last_step_ns = self.last_step_ns + elapsed_ns;
        StepPlan { elapsed_ns, timestamp_ns: self.last_step_ns, measured, unmeasured }
    }

    /// Ends a step with the scheduler's decision. Returns the duration asked for, in milliseconds.
    pub fn end_step(&mut self, decision: ScheduleDecision) -> (r: Option<u64>)
        ensures
            final(self)@ == (OculomotorView { active_set: decision.active_events@, ..old(self)@ }),
            r == decision.duration,
    {
        self.active_set = decision.active_events;
        decision.duration
    }

    /// Events currently enabled.
    pub fn active_set(&self) -> (r: &Vec<EventId>)
        ensures
            r@ == self@.active_set,
    {
        &self.active_set
    }

    /// Nanoseconds covered by the steps so far.
    pub fn last_step_ns(&self) -> (r: u64)
        ensures
            r == self@.last_step_ns,
    {
        self.last_step_ns
    }
}

/// An event with fewer than two samples counts as measured without deviation, whatever its rate.
pub proof fn single_samples_do_not_deviate(o: Observation)
    requires
        o.num_samples < 2,
    ensures
        measurement_of(o).2 == Seq::<RateRatio>::empty(),
{
}

/// A step covers the durations of its observations, added up, and a nanosecond if they took no
/// time at all.
pub proof fn a_step_covers_its_observations(observations: Seq<Observation>)
    ensures
        ({
            let total = observations.fold_left(
                0int,
                |n: int, o: Observation| n + o.total_duration_ns,
            );
            &&& total > 0 ==> elapsed(observations) == total
            &&& total == 0 ==> elapsed(observations) == 1
            &&& total >= 0
        }),
{
    lemma_total_duration(observations);
}

proof fn lemma_total_duration(observations: Seq<Observation>)
    ensures
        total_duration(observations) == observations.fold_left(
            0int,
            |n: int, o: Observation| n + o.total_duration_ns,
        ),
    decreases observations.len(),
{
    if observations.len() > 0 {
        lemma_total_duration(observations.drop_last());
    }
}

proof fn lemma_timed(observations: Seq<Observation>)
    ensures
        timed(observations) == observations.filter(|o: Observation| o.total_duration_ns > 0),
    decreases observations.len(),
{
    reveal(Seq::filter);
    if observations.len() > 0 {
        lemma_timed(observations.drop_last());
    }
}

/// Each observation that took time is one measurement: of its event, at its total count over its
/// total duration, with the rates of its readings as the spread if there are two or more. The
/// measurements keep the order of the observations.
pub proof fn timed_observations_are_measurements(observations: Seq<Observation>, i: int)
    requires
        0 <= i < observations.filter(|o: Observation| o.total_duration_ns > 0).len(),
    ensures
        ({
            let kept = observations.filter(|o: Observation| o.total_duration_ns > 0);
            let m = measurements_of(observations);
            &&& m.len() == kept.len()
            &&& m[i].0 == kept[i].event_id
            &&& m[i].1.count == kept[i].total_count
            &&& m[i].1.duration_ns == kept[i].total_duration_ns
            &&& kept[i].num_samples >= 2 ==> m[i].2 == kept[i].rates@
            &&& kept[i].num_samples < 2 ==> m[i].2.len() == 0
        }),
{
    lemma_timed(observations);
}

/// Every event is either measured in a step or among those whose uncertainty grows, in ascending
/// order, each once.
pub proof fn events_are_measured_or_grow_uncertain(observations: Seq<Observation>, n: nat, id: int)
    requires
        n <= u32::MAX,
        0 <= id < n,
    ensures
        unobserved(timed(observations), n).contains(id as EventId) <==> !(exists|i: int|
            0 <= i < observations.len() && (#[trigger] observations[i]).event_id == id
                && observations[i].total_duration_ns > 0),
        forall|i: int, j: int|
            0 <= i < j < unobserved(timed(observations), n).len() ==> (#[trigger] unobserved(
                timed(observations),
                n,
            )[i]) < (#[trigger] unobserved(timed(observations), n)[j]),
        forall|i: int|
            0 <= i < unobserved(timed(observations), n).len() ==> (#[trigger] unobserved(
                timed(observations),
                n,
            )[i]) < n,
{
    broadcast use vstd::seq_lib::group_filter_ensures;

    lemma_timed(observations);
    let kept = observations.filter(|o: Observation| o.total_duration_ns > 0);
    lemma_unobserved(kept, n);
    assert(unobserved(kept, n).contains(id as EventId) <==> !observes(kept, id as EventId));
    if observes(kept, id as EventId) {
        let k = choose|k: int| 0 <= k < kept.len() && (#[trigger] kept[k]).event_id == id;
        assert(kept.contains(kept[k]));
        observations.lemma_filter_contains_rev(
            |o: Observation| o.total_duration_ns > 0,
            kept[k],
        );
        let i = choose|i: int| 0 <= i < observations.len() && observations[i] == kept[k];
        assert(observations[i].event_id == id && observations[i].total_duration_ns > 0);
    }
    if exists|i: int|
        0 <= i < observations.len() && (#[trigger] observations[i]).event_id == id
            && observations[i].total_duration_ns > 0 {
        let i = choose|i: int|
            0 <= i < observations.len() && (#[trigger] observations[i]).event_id == id
                && observations[i].total_duration_ns > 0;
        assert(kept.contains(observations[i]));
        let k = choose|k: int| 0 <= k < kept.len() && kept[k] == observations[i];
        assert(kept[k].event_id == id);
    }
}

proof fn lemma_unobserved(observations: Seq<Observation>, n: nat)
    requires
        n <= u32::MAX,
    ensures
        forall|id: EventId| #[trigger]
            unobserved(observations, n).contains(id) <==> id < n && !observes(observations, id),
        forall|i: int, j: int|
            0 <= i < j < unobserved(observations, n).len() ==> (#[trigger] unobserved(
                observations,
                n,
            )[i]) < (#[trigger] unobserved(observations, n)[j]),
        forall|i: int|
            0 <= i < unobserved(observations, n).len() ==> (#[trigger] unobserved(
                observations,
                n,
            )[i]) < n,
    decreases n,
{
    if n > 0 {
        lemma_unobserved(observations, (n - 1) as nat);
        let before = unobserved(observations, (n - 1) as nat);
        let all = unobserved(observations, n);
        assert forall|i: int| 0 <= i < all.len() implies (#[trigger] all[i]) < n by {
            if i < before.len() {
                assert(all[i] == before[i]);
            }
        }
        assert forall|i: int, j: int| 0 <= i < j < all.len() implies (#[trigger] all[i]) < (
        #[trigger] all[j]) by {
            assert(all[i] == before[i]);
            if j < before.len() {
                assert(all[j] == before[j]);
            }
        }
        assert forall|id: EventId| #[trigger]
            all.contains(id) <==> id < n && !observes(observations, id) by {
            assert(before.contains(id) <==> id < n - 1 && !observes(observations, id));
            if before.contains(id) {
                let k = choose|k: int| 0 <= k < before.len() && before[k] == id;
                assert(all[k] == id);
            }
            if all.contains(id) && !before.contains(id) {
                let k = choose|k: int| 0 <= k < all.len() && all[k] == id;
                assert(k < before.len() ==> before[k] == id);
            }
            if id == n - 1 && !observes(observations, id) {
                assert(all[before.len() as int] == id);
            }
        }
    }
}

} // verus!
