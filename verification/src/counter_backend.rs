//! Adding up raw slot readings per event.

use crate::event::EventId;
use crate::quantum::{self, rate_at_most, RateRatio};
use crate::sample::{WireSample, MAX_COUNTERS};
use vstd::prelude::*;

verus! {

/// What was observed of an event since the last poll. The mean rate and its deviation are those of
/// `rates`.
pub struct Observation {
    /// The event.
    pub event_id: EventId,
    /// Sum of its counts.
    pub total_count: u64,
    /// Sum of the durations over which it was counted, in nanoseconds.
    pub total_duration_ns: u64,
    /// Smallest rate of a reading, if any took time.
    pub min_rate: Option<RateRatio>,
    /// Largest rate of a reading, if any took time.
    pub max_rate: Option<RateRatio>,
    /// Number of readings that took any time.
    pub num_samples: u32,
    /// The rates of those readings, in order.
    pub rates: Vec<RateRatio>,
}

/// One reading of one slot.
#[derive(Clone, Copy)]
pub struct SlotReading {
    /// The event that the slot counts.
    pub event_id: EventId,
    /// The count.
    pub value: u64,
    /// Duration of the interval in nanoseconds.
    pub duration_ns: u64,
}

/// The readings of the first `n` slots of a record; a slot with neither event nor value is unused.
pub open spec fn slot_readings(wire: WireSample, n: nat) -> Seq<SlotReading>
    decreases n,
{
    if n == 0 {
        Seq::empty()
    } else {
        let before = slot_readings(wire, (n - 1) as nat);
        if wire.counters@[n - 1] == 0 && wire.events@[n - 1] == 0 {
            before
        } else {
            before.push(
                SlotReading {
                    event_id: wire.events@[n - 1] as EventId,
                    value: wire.counters@[n - 1],
                    duration_ns: wire.duration_ns,
                },
            )
        }
    }
}

/// The readings of several records, in order.
pub open spec fn readings(wires: Seq<WireSample>) -> Seq<SlotReading>
    decreases wires.len(),
{
    if wires.len() == 0 {
        Seq::empty()
    } else {
        readings(wires.drop_last()) + slot_readings(wires.last(), 4)
    }
}

/// Total count of an event.
pub open spec fn count_of(readings: Seq<SlotReading>, event_id: EventId) -> nat
    decreases readings.len(),
{
    if readings.len() == 0 {
        0
    } else {
        count_of(readings.drop_last(), event_id) + if readings.last().event_id == event_id {
            readings.last().value as nat
        } else {
            0
        }
    }
}

/// Total duration over which an event was counted.
pub open spec fn duration_of(readings: Seq<SlotReading>, event_id: EventId) -> nat
    decreases readings.len(),
{
    if readings.len() == 0 {
        0
    } else {
        duration_of(readings.drop_last(), event_id) + if readings.last().event_id == event_id {
            readings.last().duration_ns as nat
        } else {
            0
        }
    }
}

/// The rates of the readings of an event that took any time, in order.
pub open spec fn rates_of(readings: Seq<SlotReading>, event_id: EventId) -> Seq<RateRatio>
    decreases readings.len(),
{
    if readings.len() == 0 {
        Seq::empty()
    } else {
        let rest = rates_of(readings.drop_last(), event_id);
        let last = readings.last();
        if last.event_id == event_id && last.duration_ns > 0 {
            rest.push(RateRatio { count: last.value, duration_ns: last.duration_ns })
        } else {
            rest
        }
    }
}

/// Whether `r` is the smallest of some rates; absent if there is none.
pub open spec fn is_least(r: Option<RateRatio>, rates: Seq<RateRatio>) -> bool {
    match r {
        Some(m) => rates.contains(m) && forall|i: int|
            0 <= i < rates.len() ==> quantum::rate_le(m, #[trigger] rates[i]),
        None => rates.len() == 0,
    }
}

/// Whether `r` is the largest of some rates; absent if there is none.
pub open spec fn is_greatest(r: Option<RateRatio>, rates: Seq<RateRatio>) -> bool {
    match r {
        Some(m) => rates.contains(m) && forall|i: int|
            0 <= i < rates.len() ==> quantum::rate_le(#[trigger] rates[i], m),
        None => rates.len() == 0,
    }
}

impl Observation {
    /// Whether this holds what was read of its event.
    pub open spec fn summarizes(self, readings: Seq<SlotReading>) -> bool {
        &&& self.total_count == count_of(readings, self.event_id)
        &&& self.total_duration_ns == duration_of(readings, self.event_id)
        &&& self.rates@ == rates_of(readings, self.event_id)
        &&& self.num_samples == self.rates@.len()
        &&& is_least(self.min_rate, self.rates@)
        &&& is_greatest(self.max_rate, self.rates@)
    }
}

/// Whether an event was read.
pub open spec fn is_read(readings: Seq<SlotReading>, event_id: EventId) -> bool {
    exists|i: int| 0 <= i < readings.len() && (#[trigger] readings[i]).event_id == event_id
}

/// Whether an event has an observation.
pub open spec fn has_observation(observations: Seq<Observation>, event_id: EventId) -> bool {
    exists|i: int| 0 <= i < observations.len() && (#[trigger] observations[i]).event_id == event_id
}

/// Whether `observations` holds each event that was read, once, with its totals.
pub open spec fn is_summary(observations: Seq<Observation>, readings: Seq<SlotReading>) -> bool {
    &&& forall|i: int, j: int|
        0 <= i < j < observations.len() ==> (#[trigger] observations[i]).event_id != (
        #[trigger] observations[j]).event_id
    &&& forall|i: int|
        0 <= i < observations.len() ==> (#[trigger] observations[i]).summarizes(readings)
    &&& forall|event_id: EventId|
        has_observation(observations, event_id) <==> #[trigger] is_read(readings, event_id)
}

/// Whether the totals of every event fit their fields.
pub open spec fn totals_fit(readings: Seq<SlotReading>) -> bool {
    &&& readings.len() <= u32::MAX
    &&& forall|event_id: EventId|
        #[trigger] count_of(readings, event_id) <= u64::MAX && duration_of(readings, event_id)
            <= u64::MAX
}

proof fn lemma_rates_of(readings: Seq<SlotReading>, event_id: EventId)
    ensures
        rates_of(readings, event_id).len() <= readings.len(),
        forall|i: int|
            0 <= i < rates_of(readings, event_id).len() ==> (#[trigger] rates_of(
                readings,
                event_id,
            )[i]).duration_ns > 0,
    decreases readings.len(),
{
    if readings.len() > 0 {
        let front = rates_of(readings.drop_last(), event_id);
        lemma_rates_of(readings.drop_last(), event_id);
        let all = rates_of(readings, event_id);
        assert forall|i: int| 0 <= i < all.len() implies (#[trigger] all[i]).duration_ns > 0 by {
            if i < front.len() {
                assert(all[i] == front[i]);
            }
        }
    }
}

impl Observation {
    /// An event that was not read.
    fn unread(event_id: EventId) -> (r: Self)
        ensures
            r.event_id == event_id,
            r.total_count == 0,
            r.total_duration_ns == 0,
            r.min_rate is None,
            r.max_rate is None,
            r.num_samples == 0,
            r.rates@ == Seq::<RateRatio>::empty(),
    {
        Observation {
            event_id,
            total_count: 0,
            total_duration_ns: 0,
            min_rate: None,
            max_rate: None,
            num_samples: 0,
            rates: Vec::new(),
        }
    }

    /// Adds one more reading.
    fn include_reading(&mut self, x: SlotReading, seen: Ghost<Seq<SlotReading>>)
        requires
            old(self).summarizes(seen@),
            x.event_id == old(self).event_id,
            count_of(seen@, x.event_id) + x.value <= u64::MAX,
            duration_of(seen@, x.event_id) + x.duration_ns <= u64::MAX,
            seen@.len() < u32::MAX,
        ensures
            final(self).event_id == old(self).event_id,
            final(self).summarizes(seen@.push(x)),
    {
        assert(seen@.push(x).drop_last() =~= seen@);
        proof {
            lemma_rates_of(seen@, x.event_id);
        }
        self.total_count = self.total_count + x.value;
        self.total_duration_ns = self.total_duration_ns + x.duration_ns;
        if x.duration_ns > 0 {
            let rate = RateRatio { count: x.value, duration_ns: x.duration_ns };
            let ghost before = self.rates@;
            let ghost old_min = self.min_rate;
            let ghost old_max = self.max_rate;
            self.min_rate = match self.min_rate {
                Some(m) => if rate_at_most(m, rate) {
                    Some(m)
                } else {
                    Some(rate)
                },
                None => Some(rate),
            };
            self.max_rate = match self.max_rate {
                Some(m) => if rate_at_most(rate, m) {
                    Some(m)
                } else {
                    Some(rate)
                },
                None => Some(rate),
            };
            self.num_samples = self.num_samples + 1;
            self.rates.push(rate);
            proof {
                let after = self.rates@;
                assert(after[before.len() as int] == rate);
                if let Some(m) = old_min {
                    let k = choose|k: int| 0 <= k < before.len() && before[k] == m;
                    assert(after[k] == m);
                }
                if let Some(m) = old_max {
                    let k = choose|k: int| 0 <= k < before.len() && before[k] == m;
                    assert(after[k] == m);
                }
                assert forall|i: int| 0 <= i < after.len() implies quantum::rate_le(
                    self.min_rate->0,
                    #[trigger] after[i],
                ) && quantum::rate_le(after[i], self.max_rate->0) by {
                    if i < before.len() {
                        assert(after[i] == before[i]);
                        if self.min_rate == Some(rate) {
                            quantum::lemma_le_transitive(rate, old_min->0, before[i]);
                        }
                        if self.max_rate == Some(rate) {
                            quantum::lemma_le_transitive(before[i], old_max->0, rate);
                        }
                    }
                }
            }
        }
    }
}

fn collect_readings(wires: &Vec<WireSample>) -> (r: Vec<SlotReading>)
    ensures
        r@ == readings(wires@),
{
    let mut out: Vec<SlotReading> = Vec::new();
    let mut i: usize = 0;
    assert(wires@.take(0) =~= Seq::empty());
    while i < wires.len()
        invariant
            i <= wires@.len(),
            out@ == readings(wires@.take(i as int)),
        decreases wires@.len() - i,
    {
        assert(wires@.take(i as int + 1).drop_last() =~= wires@.take(i as int));
        let w = &wires[i];
        let ghost start = out@;
        let mut slot: usize = 0;
        assert(start + slot_readings(*w, 0) =~= start);
        while slot < MAX_COUNTERS
            invariant
                slot <= 4,
                out@ == start + slot_readings(*w, slot as nat),
            decreases 4 - slot,
        {
            let value = w.counters[slot];
            let event = w.events[slot];
            if !(value == 0 && event == 0) {
                out.push(
                    SlotReading {
                        event_id: #[verifier::truncate] (event as EventId),
                        value,
                        duration_ns: w.duration_ns,
                    },
                );
            }
            slot = slot + 1;
            assert(out@ =~= start + slot_readings(*w, slot as nat));
        }
        i = i + 1;
    }
    assert(wires@.take(i as int) =~= wires@);
    out
}

proof fn lemma_unread(readings: Seq<SlotReading>, event_id: EventId)
    requires
        !is_read(readings, event_id),
    ensures
        count_of(readings, event_id) == 0,
        duration_of(readings, event_id) == 0,
        rates_of(readings, event_id) == Seq::<RateRatio>::empty(),
    decreases readings.len(),
{
    if readings.len() > 0 {
        let front = readings.drop_last();
        assert(readings[readings.len() - 1].event_id != event_id);
        assert(!is_read(front, event_id)) by {
            if is_read(front, event_id) {
                let i = choose|i: int|
                    0 <= i < front.len() && (#[trigger] front[i]).event_id == event_id;
                assert(readings[i].event_id == event_id);
            }
        }
        lemma_unread(front, event_id);
    }
}

proof fn lemma_prefix_totals(readings: Seq<SlotReading>, n: int, event_id: EventId)
    requires
        0 <= n <= readings.len(),
    ensures
        count_of(readings.take(n), event_id) <= count_of(readings, event_id),
        duration_of(readings.take(n), event_id) <= duration_of(readings, event_id),
    decreases readings.len(),
{
    if n == readings.len() {
        assert(readings.take(n) =~= readings);
    } else {
        assert(readings.drop_last().take(n) =~= readings.take(n));
        lemma_prefix_totals(readings.drop_last(), n, event_id);
    }
}

/// Adds up the readings of some records per event.
pub fn observations(wires: &Vec<WireSample>) -> (r: Vec<Observation>)
    requires
        totals_fit(readings(wires@)),
    ensures
        is_summary(r@, readings(wires@)),
{
    let all = collect_readings(wires);
    let mut out: Vec<Observation> = Vec::new();
    let mut i: usize = 0;
    assert(all@.take(0) =~= Seq::empty());
    while i < all.len()
        invariant
            i <= all@.len(),
            totals_fit(all@),
            is_summary(out@, all@.take(i as int)),
        decreases all@.len() - i,
    {
        let x = all[i];
        let ghost seen = all@.take(i as int);
        let ghost next = all@.take(i as int + 1);
        let ghost before = out@;
        assert(next.drop_last() =~= seen);
        assert(next.last() == x);
        let mut slot: usize = 0;
        while slot < out.len() && out[slot].event_id != x.event_id
            invariant
                out@ == before,
                slot <= out@.len(),
                forall|k: int| 0 <= k < slot ==> (#[trigger] out@[k]).event_id != x.event_id,
            decreases out@.len() - slot,
        {
            slot = slot + 1;
        }
        if slot == out.len() {
            assert(!has_observation(before, x.event_id));
            assert(!is_read(seen, x.event_id));
            proof {
                lemma_unread(seen, x.event_id);
            }
            out.push(Observation::unread(x.event_id));
        }
        proof {
            lemma_prefix_totals(all@, i as int + 1, x.event_id);
            assert(count_of(all@, x.event_id) <= u64::MAX);
        }
        assert(out@[slot as int].event_id == x.event_id);
        assert(out@[slot as int].summarizes(seen));
        assert(seen.push(x) =~= next);
        out[slot].include_reading(x, Ghost(seen));
        assert forall|k: int| 0 <= k < out@.len() && k != slot implies #[trigger] out@[k]
            == before[k] && out@[k].event_id != x.event_id && out@[k].summarizes(next) by {
            assert(before[k].summarizes(seen));
        }
        assert forall|e: EventId| has_observation(out@, e) <==> #[trigger] is_read(next, e) by {
            assert(has_observation(before, e) <==> is_read(seen, e));
            if has_observation(before, e) {
                let k = choose|k: int| 0 <= k < before.len() && (#[trigger] before[k]).event_id == e;
                assert(out@[k].event_id == e);
            }
            if has_observation(out@, e) && e != x.event_id {
                let k = choose|k: int| 0 <= k < out@.len() && (#[trigger] out@[k]).event_id == e;
                assert(before[k].event_id == e);
            }
            if e == x.event_id {
                assert(next[i as int].event_id == e);
                assert(out@[slot as int].event_id == e);
            }
            if is_read(seen, e) {
                let k = choose|k: int| 0 <= k < seen.len() && (#[trigger] seen[k]).event_id == e;
                assert(next[k].event_id == e);
            }
            if is_read(next, e) && e != x.event_id {
                let k = choose|k: int| 0 <= k < next.len() && (#[trigger] next[k]).event_id == e;
                assert(seen[k].event_id == e);
            }
        }
        i = i + 1;
    }
    assert(all@.take(i as int) =~= all@);
    out
}

proof fn lemma_slot_readings(wire: WireSample, n: nat)
    requires
        n <= 4,
    ensures
        slot_readings(wire, n) == Seq::new(n, |s: int| s).filter(
            |s: int| wire.counters@[s] != 0 || wire.events@[s] != 0,
        ).map_values(
            |s: int|
                SlotReading {
                    event_id: wire.events@[s] as EventId,
                    value: wire.counters@[s],
                    duration_ns: wire.duration_ns,
                },
        ),
    decreases n,
{
    reveal(Seq::filter);
    let slots = Seq::new(n, |s: int| s);
    let kept = slots.filter(|s: int| wire.counters@[s] != 0 || wire.events@[s] != 0);
    if n == 0 {
        assert(slots.len() == 0);
        assert(kept.len() == 0);
    } else {
        lemma_slot_readings(wire, (n - 1) as nat);
        assert(slots.drop_last() =~= Seq::new((n - 1) as nat, |s: int| s));
        assert(slots.last() == n - 1);
    }
    assert(slot_readings(wire, n) =~= kept.map_values(
        |s: int|
            SlotReading {
                event_id: wire.events@[s] as EventId,
                value: wire.counters@[s],
                duration_ns: wire.duration_ns,
            },
    ));
}

/// A record has a reading for each slot that has an event or a count, in the order of the slots,
/// over the duration of the record. The readings of several records follow one another.
pub proof fn every_used_slot_is_read(wires: Seq<WireSample>)
    ensures
        readings(wires) == wires.map_values(
            |w: WireSample|
                seq![0int, 1, 2, 3].filter(
                    |s: int| w.counters@[s] != 0 || w.events@[s] != 0,
                ).map_values(
                    |s: int|
                        SlotReading {
                            event_id: w.events@[s] as EventId,
                            value: w.counters@[s],
                            duration_ns: w.duration_ns,
                        },
                ),
        ).flatten_alt(),
    decreases wires.len(),
{
    let parts = wires.map_values(
        |w: WireSample|
            seq![0int, 1, 2, 3].filter(
                |s: int| w.counters@[s] != 0 || w.events@[s] != 0,
            ).map_values(
                |s: int|
                    SlotReading {
                        event_id: w.events@[s] as EventId,
                        value: w.counters@[s],
                        duration_ns: w.duration_ns,
                    },
            ),
    );
    if wires.len() > 0 {
        let front = wires.drop_last();
        every_used_slot_is_read(front);
        lemma_slot_readings(wires.last(), 4);
        assert(Seq::new(4, |s: int| s) =~= seq![0int, 1, 2, 3]);
        assert(parts.drop_last() =~= front.map_values(
            |w: WireSample|
                seq![0int, 1, 2, 3].filter(
                    |s: int| w.counters@[s] != 0 || w.events@[s] != 0,
                ).map_values(
                    |s: int|
                        SlotReading {
                            event_id: w.events@[s] as EventId,
                            value: w.counters@[s],
                            duration_ns: w.duration_ns,
                        },
                ),
        ));
    }
}

proof fn lemma_totals(readings: Seq<SlotReading>, event_id: EventId)
    ensures
        count_of(readings, event_id) == readings.filter(
            |r: SlotReading| r.event_id == event_id,
        ).fold_left(0int, |n: int, r: SlotReading| n + r.value),
        duration_of(readings, event_id) == readings.filter(
            |r: SlotReading| r.event_id == event_id,
        ).fold_left(0int, |n: int, r: SlotReading| n + r.duration_ns),
        rates_of(readings, event_id) == readings.filter(
            |r: SlotReading| r.event_id == event_id && r.duration_ns > 0,
        ).map_values(|r: SlotReading| RateRatio { count: r.value, duration_ns: r.duration_ns }),
    decreases readings.len(),
{
    reveal(Seq::filter);
    let own = readings.filter(|r: SlotReading| r.event_id == event_id);
    let kept = readings.filter(|r: SlotReading| r.event_id == event_id && r.duration_ns > 0);
    if readings.len() > 0 {
        let front = readings.drop_last();
        lemma_totals(front, event_id);
        let rest = front.filter(|r: SlotReading| r.event_id == event_id);
        if readings.last().event_id == event_id {
            assert(own.drop_last() =~= rest);
        }
    }
    assert(rates_of(readings, event_id) =~= kept.map_values(
        |r: SlotReading| RateRatio { count: r.value, duration_ns: r.duration_ns },
    ));
}

/// What is observed of an event are its readings: their counts and durations added up, and the
/// rates of those that took time, in order, with the smallest and the largest among them. Every
/// event that was read is observed, once.
pub proof fn observations_add_up_the_readings(
    observations: Seq<Observation>,
    readings: Seq<SlotReading>,
    i: int,
)
    requires
        is_summary(observations, readings),
        0 <= i < observations.len(),
    ensures
        ({
            let o = observations[i];
            let own = readings.filter(|r: SlotReading| r.event_id == o.event_id);
            let taken = readings.filter(
                |r: SlotReading| r.event_id == o.event_id && r.duration_ns > 0,
            );
            &&& o.total_count == own.fold_left(0int, |n: int, r: SlotReading| n + r.value)
            &&& o.total_duration_ns == own.fold_left(
                0int,
                |n: int, r: SlotReading| n + r.duration_ns,
            )
            &&& o.num_samples == taken.len()
            &&& o.rates@ == taken.map_values(
                |r: SlotReading| RateRatio { count: r.value, duration_ns: r.duration_ns },
            )
            &&& taken.len() == 0 <==> o.min_rate is None
            &&& taken.len() == 0 <==> o.max_rate is None
            &&& forall|k: int|
                0 <= k < taken.len() ==> (#[trigger] taken[k]).value * o.min_rate->0.duration_ns
                    >= o.min_rate->0.count * taken[k].duration_ns && taken[k].value
                    * o.max_rate->0.duration_ns <= o.max_rate->0.count * taken[k].duration_ns
        }),
        forall|k: int|
            0 <= k < readings.len() ==> has_observation(
                observations,
                (#[trigger] readings[k]).event_id,
            ),
        forall|a: int, b: int|
            0 <= a < observations.len() && 0 <= b < observations.len() && (
            #[trigger] observations[a]).event_id == (#[trigger] observations[b]).event_id ==> a
                == b,
{
    let o = observations[i];
    assert(o.summarizes(readings));
    lemma_totals(readings, o.event_id);
    let taken = readings.filter(|r: SlotReading| r.event_id == o.event_id && r.duration_ns > 0);
    assert forall|k: int| 0 <= k < taken.len() implies (#[trigger] taken[k]).value
        * o.min_rate->0.duration_ns >= o.min_rate->0.count * taken[k].duration_ns && taken[k].value
        * o.max_rate->0.duration_ns <= o.max_rate->0.count * taken[k].duration_ns by {
        assert(o.rates@[k] == (RateRatio {
            count: taken[k].value,
            duration_ns: taken[k].duration_ns,
        }));
        assert(quantum::rate_le(o.min_rate->0, o.rates@[k]));
        assert(quantum::rate_le(o.rates@[k], o.max_rate->0));
    }
    assert forall|k: int| 0 <= k < readings.len() implies has_observation(
        observations,
        (#[trigger] readings[k]).event_id,
    ) by {
        assert(is_read(readings, readings[k].event_id));
    }
}

} // verus!
