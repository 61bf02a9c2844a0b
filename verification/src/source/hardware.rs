//! Turning the absolute counter readings of the sample stream into counts per interval.

use crate::event::EventId;
use crate::sample::{RawSample, SampleType, WireSample, MAX_COUNTERS};
use crate::source::{self, slot_updates, SlotUpdate};
use vstd::prelude::*;

verus! {

/// Hardware sample source: keeps the last reading of every CPU and slot.
pub struct HardwareSampleSource {
    baselines: Vec<Vec<u64>>,
}

/// What a reading says beyond the baseline; a reading below it counts nothing.
pub open spec fn delta(reading: u64, baseline: u64) -> u64 {
    if reading >= baseline {
        (reading - baseline) as u64
    } else {
        0
    }
}

/// The sample that slot `s` of a record gives.
pub open spec fn slot_sample(wire: WireSample, base: Seq<u64>, s: int) -> RawSample {
    RawSample {
        timestamp_ns: wire.timestamp_ns,
        duration_ns: wire.duration_ns,
        cpu_id: wire.cpu_id,
        pid: wire.pid,
        tid: wire.tid,
        event_id: wire.events@[s] as EventId,
        count: delta(wire.counters@[s], base[s]),
        task: wire.task,
    }
}

/// The samples of the first `n` slots of a record: one for each slot that has an event.
pub open spec fn slot_samples(wire: WireSample, base: Seq<u64>, n: nat) -> Seq<RawSample>
    decreases n,
{
    if n == 0 {
        Seq::empty()
    } else {
        let before = slot_samples(wire, base, (n - 1) as nat);
        if wire.events@[n - 1] != 0 {
            before.push(slot_sample(wire, base, n - 1))
        } else {
            before
        }
    }
}

/// The baselines of a CPU after a record: the readings of the slots that have an event.
pub open spec fn next_baselines(wire: WireSample, base: Seq<u64>) -> Seq<u64> {
    Seq::new(
        4,
        |s: int|
            if wire.events@[s] != 0 {
                wire.counters@[s]
            } else {
                base[s]
            },
    )
}

/// What a record does: the baselines after it and the samples that it gives. A resume marker sets
/// the baselines of its CPU and gives nothing; a record without duration, or of a CPU out of
/// range, does nothing.
pub open spec fn decoded(baselines: Seq<Seq<u64>>, wire: WireSample) -> (
    Seq<Seq<u64>>,
    Seq<RawSample>,
) {
    let cpu = wire.cpu_id as int;
    if cpu >= baselines.len() {
        (baselines, Seq::empty())
    } else if wire.type_ == SampleType::Resume.wire_code() {
        (baselines.update(cpu, wire.counters@), Seq::empty())
    } else if wire.duration_ns == 0 {
        (baselines, Seq::empty())
    } else {
        (
            baselines.update(cpu, next_baselines(wire, baselines[cpu])),
            slot_samples(wire, baselines[cpu], 4),
        )
    }
}

/// What several records do, in order.
pub open spec fn all_decoded(baselines: Seq<Seq<u64>>, wires: Seq<WireSample>) -> (
    Seq<Seq<u64>>,
    Seq<RawSample>,
)
    decreases wires.len(),
{
    if wires.len() == 0 {
        (baselines, Seq::empty())
    } else {
        let before = all_decoded(baselines, wires.drop_last());
        let step = decoded(before.0, wires.last());
        (step.0, before.1 + step.1)
    }
}

impl View for HardwareSampleSource {
    type V = Seq<Seq<u64>>;

    closed spec fn view(&self) -> Seq<Seq<u64>> {
        self.baselines@.map_values(|row: Vec<u64>| row@)
    }
}

fn zero_row() -> (r: Vec<u64>)
    ensures
        r@ == seq![0u64, 0, 0, 0],
{
    let mut row: Vec<u64> = Vec::new();
    row.push(0);
    row.push(0);
    row.push(0);
    row.push(0);
    assert(row@ =~= seq![0u64, 0, 0, 0]);
    row
}

/// Baselines of nothing counted yet.
pub open spec fn zero_baselines(cpus: nat) -> Seq<Seq<u64>> {
    Seq::new(cpus, |cpu: int| seq![0u64, 0, 0, 0])
}

/// The baselines after a change of schedule: zero where any slot is reconfigured.
pub open spec fn rescheduled(
    baselines: Seq<Seq<u64>>,
    old_set: Seq<EventId>,
    new_set: Seq<EventId>,
) -> Seq<Seq<u64>> {
    if source::updates(old_set, new_set).len() > 0 {
        zero_baselines(baselines.len())
    } else {
        baselines
    }
}

impl HardwareSampleSource {
    /// Validity: every CPU has a baseline for every slot.
    pub closed spec fn wf(&self) -> bool {
        forall|cpu: int| 0 <= cpu < self@.len() ==> (#[trigger] self@[cpu]).len() == MAX_COUNTERS
    }

    /// Starts with all baselines at zero.
    pub fn new(max_cpus: usize) -> (r: Self)
        ensures
            r.wf(),
            r@ == zero_baselines(max_cpus as nat),
    {
        let mut baselines: Vec<Vec<u64>> = Vec::new();
        let mut cpu: usize = 0;
        while cpu < max_cpus
            invariant
                cpu <= max_cpus,
                baselines@.len() == cpu,
                forall|c: int| 0 <= c < cpu ==> (#[trigger] baselines@[c])@ == seq![0u64, 0, 0, 0],
            decreases max_cpus - cpu,
        {
            baselines.push(zero_row());
            cpu = cpu + 1;
        }
        let r = HardwareSampleSource { baselines };
        assert(r@ =~= zero_baselines(max_cpus as nat));
        r
    }

    /// Converts a record to per-event samples and moves the baselines.
    pub fn wire_to_raw(&mut self, wire: &WireSample) -> (r: Vec<RawSample>)
        requires
            old(self).wf(),
        ensures
            final(self).wf(),
            (final(self)@, r@) == decoded(old(self)@, *wire),
    {
        let ghost start = self@;
        let cpu = wire.cpu_id as usize;
        let mut samples: Vec<RawSample> = Vec::new();
        if cpu >= self.baselines.len() {
            assert(samples@ =~= Seq::empty());
            return samples;
        }
        let resume = wire.type_ == SampleType::Resume.code();
        if !resume && wire.duration_ns == 0 {
            assert(samples@ =~= Seq::empty());
            return samples;
        }
        let mut row: Vec<u64> = Vec::new();
        let ghost base = start[cpu as int];
        assert(base == self.baselines@[cpu as int]@);
        let mut slot: usize = 0;
        while slot < 4
            invariant
                slot <= 4,
                self@ == start,
                cpu < self.baselines@.len(),
                base == self.baselines@[cpu as int]@,
                base.len() == 4,
                row@.len() == slot,
                resume ==> samples@ == Seq::<RawSample>::empty(),
                !resume ==> samples@ == slot_samples(*wire, base, slot as nat),
                forall|s: int|
                    0 <= s < slot ==> #[trigger] row@[s] == if resume || wire.events@[s] != 0 {
                        wire.counters@[s]
                    } else {
                        base[s]
                    },
            decreases 4 - slot,
        {
            let reading = wire.counters[slot];
            let baseline = self.baselines[cpu][slot];
            if resume {
                row.push(reading);
            } else if wire.events[slot] != 0 {
                samples.push(
                    RawSample {
                        timestamp_ns: wire.timestamp_ns,
                        duration_ns: wire.duration_ns,
                        cpu_id: wire.cpu_id,
                        pid: wire.pid,
                        tid: wire.tid,
                        event_id: #[verifier::truncate] (wire.events[slot] as EventId),
                        count: if reading >= baseline {
                            reading - baseline
                        } else {
                            0
                        },
                        task: wire.task,
                    },
                );
                row.push(reading);
            } else {
                row.push(baseline);
            }
            slot = slot + 1;
        }
        let ghost last = row@;
        self.baselines.set(cpu, row);
        assert(self@ =~= start.update(cpu as int, last));
        assert(resume ==> last =~= wire.counters@);
        assert(!resume ==> last =~= next_baselines(*wire, base));
        samples
    }

    /// Converts the records received since the last call. The time covered is never zero.
    pub fn collect(&mut self, wires: &Vec<WireSample>, elapsed_ns: u64) -> (r: (
        Vec<RawSample>,
        u64,
    ))
        requires
            old(self).wf(),
        ensures
            final(self).wf(),
            (final(self)@, r.0@) == all_decoded(old(self)@, wires@),
            r.1 == if elapsed_ns == 0 {
                1
            } else {
                elapsed_ns
            },
    {
        let ghost start = self@;
        let mut out: Vec<RawSample> = Vec::new();
        let mut i: usize = 0;
        assert(wires@.take(0) =~= Seq::empty());
        while i < wires.len()
            invariant
                i <= wires@.len(),
                self.wf(),
                (self@, out@) == all_decoded(start, wires@.take(i as int)),
            decreases wires@.len() - i,
        {
            assert(wires@.take(i as int + 1).drop_last() =~= wires@.take(i as int));
            let mut samples = self.wire_to_raw(&wires[i]);
            out.append(&mut samples);
            i = i + 1;
        }
        assert(wires@.take(i as int) =~= wires@);
        (
            out,
            if elapsed_ns == 0 {
                1
            } else {
                elapsed_ns
            },
        )
    }

    /// The slots to reconfigure for a change of schedule. Where there is any, the world stops for
    /// it and the readings before say nothing of those after, so all baselines return to zero.
    /// Where the schedule stays as it is, so do they.
    pub fn apply_schedule(&mut self, old_set: &Vec<EventId>, new_set: &Vec<EventId>) -> (r: Vec<
        SlotUpdate,
    >)
        requires
            old(self).wf(),
            old_set@.len() <= new_set@.len(),
        ensures
            final(self).wf(),
            final(self)@ == rescheduled(old(self)@, old_set@, new_set@),
            r@ == source::updates(old_set@, new_set@),
    {
        let updates = slot_updates(old_set, new_set);
        if updates.len() > 0 {
            *self = HardwareSampleSource::new(self.baselines.len());
        }
        updates
    }

    /// Number of counter slots.
    pub fn num_slots(&self) -> (r: usize)
        ensures
            r == MAX_COUNTERS,
    {
        MAX_COUNTERS
    }
}

/// Total count of the samples of one event.
pub open spec fn counted(samples: Seq<RawSample>, event_id: EventId) -> int
    decreases samples.len(),
{
    if samples.len() == 0 {
        0
    } else {
        counted(samples.drop_last(), event_id) + if samples.last().event_id == event_id {
            samples.last().count as int
        } else {
            0
        }
    }
}

proof fn lemma_counted_append(a: Seq<RawSample>, b: Seq<RawSample>, event_id: EventId)
    ensures
        counted(a + b, event_id) == counted(a, event_id) + counted(b, event_id),
    decreases b.len(),
{
    if b.len() == 0 {
        assert(a + b =~= a);
    } else {
        lemma_counted_append(a, b.drop_last(), event_id);
        assert((a + b).drop_last() =~= a + b.drop_last());
    }
}

/// Whether a record is a reading of `event_id` by slot `s` of CPU `cpu` and by no other slot.
pub open spec fn reads(wire: WireSample, cpu: int, s: int, event_id: EventId) -> bool {
    &&& wire.cpu_id == cpu
    &&& wire.type_ != SampleType::Resume.wire_code()
    &&& wire.duration_ns > 0
    &&& wire.events@[s] == event_id
    &&& event_id != 0
    &&& forall|t: int| 0 <= t < 4 && t != s ==> #[trigger] wire.events@[t] as EventId != event_id
}

proof fn lemma_slot_count(wire: WireSample, base: Seq<u64>, cpu: int, s: int, event_id: EventId, n: nat)
    requires
        reads(wire, cpu, s, event_id),
        0 <= s < 4,
        n <= 4,
    ensures
        counted(slot_samples(wire, base, n), event_id) == if s < n {
            delta(wire.counters@[s], base[s]) as int
        } else {
            0
        },
    decreases n,
{
    if n > 0 {
        lemma_slot_count(wire, base, cpu, s, event_id, (n - 1) as nat);
        let before = slot_samples(wire, base, (n - 1) as nat);
        if wire.events@[n - 1] != 0 {
            assert(slot_samples(wire, base, n).drop_last() =~= before);
        }
    }
}

/// While a slot keeps its event and its counter does not fall, the counts of its samples add up to
/// how far the counter has moved from the baseline: nothing is lost and nothing counted twice.
pub proof fn counts_add_up(
    baselines: Seq<Seq<u64>>,
    wires: Seq<WireSample>,
    cpu: int,
    s: int,
    event_id: EventId,
)
    requires
        0 <= cpu < baselines.len(),
        0 <= s < 4,
        forall|i: int| 0 <= i < wires.len() ==> reads(#[trigger] wires[i], cpu, s, event_id),
        forall|i: int, j: int|
            0 <= i <= j < wires.len() ==> (#[trigger] wires[i]).counters@[s] <= (
            #[trigger] wires[j]).counters@[s],
        wires.len() > 0 ==> baselines[cpu][s] <= wires[0].counters@[s],
    ensures
        all_decoded(baselines, wires).0.len() == baselines.len(),
        wires.len() > 0 ==> all_decoded(baselines, wires).0[cpu][s]
            == wires.last().counters@[s],
        counted(all_decoded(baselines, wires).1, event_id) == if wires.len() == 0 {
            0
        } else {
            wires.last().counters@[s] - baselines[cpu][s]
        },
    decreases wires.len(),
{
    if wires.len() > 0 {
        let front = wires.drop_last();
        assert forall|i: int| 0 <= i < front.len() implies reads(
            #[trigger] front[i],
            cpu,
            s,
            event_id,
        ) by {
            assert(front[i] == wires[i]);
        }
        counts_add_up(baselines, front, cpu, s, event_id);
        let before = all_decoded(baselines, front);
        let wire = wires.last();
        assert(wire == wires[wires.len() - 1]);
        assert(front.len() > 0 ==> front.last() == wires[front.len() - 1]);
        let step = decoded(before.0, wire);
        lemma_slot_count(wire, before.0[cpu], cpu, s, event_id, 4);
        lemma_counted_append(before.1, step.1, event_id);
        assert(before.0[cpu][s] <= wire.counters@[s]);
    }
}

/// What the `i`-th of several records in a row gives.
pub open spec fn outcome(baselines: Seq<Seq<u64>>, wires: Seq<WireSample>, i: int) -> Seq<
    RawSample,
> {
    decoded(all_decoded(baselines, wires.take(i)).0, wires[i]).1
}

/// Where the sample of slot `s` stands among those that a record gives: behind those of the slots
/// before it that have an event.
pub open spec fn slot_rank(wire: WireSample, s: int) -> int
    decreases s,
{
    if s <= 0 {
        0
    } else {
        slot_rank(wire, s - 1) + if wire.events@[s - 1] != 0 {
            1int
        } else {
            0
        }
    }
}

proof fn lemma_slot_rank(wire: WireSample, base: Seq<u64>, s: int, n: nat)
    requires
        0 <= s,
        n <= 4,
    ensures
        slot_samples(wire, base, n).len() == slot_rank(wire, n as int),
        s < n && wire.events@[s] != 0 ==> 0 <= slot_rank(wire, s) < slot_samples(
            wire,
            base,
            n,
        ).len() && slot_samples(wire, base, n)[slot_rank(wire, s)] == slot_sample(wire, base, s),
    decreases n,
{
    if n > 0 {
        lemma_slot_rank(wire, base, s, (n - 1) as nat);
    }
}

/// Whether a record is a reading of CPU `cpu` in which slot `s` has the event `event_id`.
pub open spec fn keeps(wire: WireSample, cpu: int, s: int, event_id: EventId) -> bool {
    &&& wire.cpu_id == cpu
    &&& wire.type_ != SampleType::Resume.wire_code()
    &&& wire.duration_ns > 0
    &&& wire.events@[s] == event_id
    &&& event_id != 0
}

/// A run of records of one CPU: a resume marker, then readings in which slot `s` keeps its event
/// and its counter does not fall.
pub open spec fn is_run(
    wires: Seq<WireSample>,
    cpu: int,
    s: int,
    event_id: EventId,
) -> bool {
    &&& wires.len() > 0
    &&& wires[0].cpu_id == cpu
    &&& wires[0].type_ == SampleType::Resume.wire_code()
    &&& forall|i: int| 1 <= i < wires.len() ==> keeps(#[trigger] wires[i], cpu, s, event_id)
    &&& forall|i: int, j: int|
        0 <= i <= j < wires.len() ==> (#[trigger] wires[i]).counters@[s] <= (
        #[trigger] wires[j]).counters@[s]
}

/// Whether the `i`-th record gives, for slot `s`, a sample of `event_id` with the fields of the
/// record and the difference to the reading before.
pub open spec fn gives_difference(
    baselines: Seq<Seq<u64>>,
    wires: Seq<WireSample>,
    s: int,
    event_id: EventId,
    i: int,
) -> bool {
    let wire = wires[i];
    let at = slot_rank(wire, s);
    &&& 0 <= at < outcome(baselines, wires, i).len()
    &&& outcome(baselines, wires, i)[at] == (RawSample {
        timestamp_ns: wire.timestamp_ns,
        duration_ns: wire.duration_ns,
        cpu_id: wire.cpu_id,
        pid: wire.pid,
        tid: wire.tid,
        event_id,
        count: (wire.counters@[s] - wires[i - 1].counters@[s]) as u64,
        task: wire.task,
    })
}

/// How much the samples of slot `s` count in the first `n` readings of a run.
pub open spec fn slot_total(
    baselines: Seq<Seq<u64>>,
    wires: Seq<WireSample>,
    s: int,
    n: int,
) -> int
    decreases n,
{
    if n <= 0 {
        0
    } else {
        slot_total(baselines, wires, s, n - 1) + outcome(baselines, wires, n)[slot_rank(
            wires[n],
            s,
        )].count
    }
}

proof fn lemma_run_baselines(
    baselines: Seq<Seq<u64>>,
    wires: Seq<WireSample>,
    cpu: int,
    s: int,
    event_id: EventId,
    n: int,
)
    requires
        0 <= cpu < baselines.len(),
        0 <= s < 4,
        is_run(wires, cpu, s, event_id),
        0 <= n <= wires.len(),
    ensures
        ({
            let after = all_decoded(baselines, wires.take(n)).0;
            &&& after.len() == baselines.len()
            &&& forall|c: int| 0 <= c < after.len() && c != cpu ==> #[trigger] after[c] == baselines[c]
            &&& n > 0 ==> after[cpu][s] == wires[n - 1].counters@[s]
        }),
    decreases n,
{
    if n > 0 {
        lemma_run_baselines(baselines, wires, cpu, s, event_id, n - 1);
        assert(wires.take(n).drop_last() =~= wires.take(n - 1));
        let wire = wires.take(n).last();
        assert(wire == wires[n - 1]);
        if n > 1 {
            assert(keeps(wires[n - 1], cpu, s, event_id));
        }
    }
}

/// Counts are what a counter moved between readings: over a run of records the resume marker gives
/// nothing; each reading gives, for the slot, one sample of its event with the fields of the record
/// and the difference to the reading before; the differences add up to the whole way of the
/// counter; and the baselines of other CPUs stay as they are.
pub proof fn readings_become_differences(
    baselines: Seq<Seq<u64>>,
    wires: Seq<WireSample>,
    cpu: int,
    s: int,
    event_id: EventId,
)
    requires
        0 <= cpu < baselines.len(),
        0 <= s < 4,
        is_run(wires, cpu, s, event_id),
    ensures
        outcome(baselines, wires, 0) == Seq::<RawSample>::empty(),
        forall|i: int|
            1 <= i < wires.len() ==> #[trigger] gives_difference(baselines, wires, s, event_id, i),
        slot_total(baselines, wires, s, wires.len() - 1) == wires.last().counters@[s]
            - wires[0].counters@[s],
        all_decoded(baselines, wires).0.len() == baselines.len(),
        forall|c: int|
            0 <= c < baselines.len() && c != cpu ==> #[trigger] all_decoded(baselines, wires).0[c]
                == baselines[c],
{
    lemma_run_baselines(baselines, wires, cpu, s, event_id, 0);
    assert forall|i: int| 1 <= i < wires.len() implies #[trigger] gives_difference(
        baselines,
        wires,
        s,
        event_id,
        i,
    ) by {
        lemma_run_sample(baselines, wires, cpu, s, event_id, i);
    }
    lemma_run_total(baselines, wires, cpu, s, event_id, wires.len() - 1);
    lemma_run_baselines(baselines, wires, cpu, s, event_id, wires.len() as int);
    assert(wires.take(wires.len() as int) =~= wires);
}

proof fn lemma_run_sample(
    baselines: Seq<Seq<u64>>,
    wires: Seq<WireSample>,
    cpu: int,
    s: int,
    event_id: EventId,
    i: int,
)
    requires
        0 <= cpu < baselines.len(),
        0 <= s < 4,
        is_run(wires, cpu, s, event_id),
        1 <= i < wires.len(),
    ensures
        gives_difference(baselines, wires, s, event_id, i),
{
    lemma_run_baselines(baselines, wires, cpu, s, event_id, i);
    let base = all_decoded(baselines, wires.take(i)).0[cpu];
    assert(keeps(wires[i], cpu, s, event_id));
    assert(wires[i - 1].counters@[s] <= wires[i].counters@[s]);
    lemma_slot_rank(wires[i], base, s, 4);
}

proof fn lemma_run_total(
    baselines: Seq<Seq<u64>>,
    wires: Seq<WireSample>,
    cpu: int,
    s: int,
    event_id: EventId,
    n: int,
)
    requires
        0 <= cpu < baselines.len(),
        0 <= s < 4,
        is_run(wires, cpu, s, event_id),
        0 <= n < wires.len(),
    ensures
        slot_total(baselines, wires, s, n) == wires[n].counters@[s] - wires[0].counters@[s],
    decreases n,
{
    if n > 0 {
        lemma_run_total(baselines, wires, cpu, s, event_id, n - 1);
        lemma_run_sample(baselines, wires, cpu, s, event_id, n);
        assert(wires[n - 1].counters@[s] <= wires[n].counters@[s]);
    }
}

/// What happens to a source: a record comes in, or a schedule takes the place of another.
pub enum Happening {
    /// A record.
    Record(WireSample),
    /// A change of schedule, from the first set to the second.
    Schedule(Seq<EventId>, Seq<EventId>),
}

/// What a source makes of several happenings: its baselines after them and the samples given.
pub open spec fn all_happened(baselines: Seq<Seq<u64>>, happenings: Seq<Happening>) -> (
    Seq<Seq<u64>>,
    Seq<RawSample>,
)
    decreases happenings.len(),
{
    if happenings.len() == 0 {
        (baselines, Seq::empty())
    } else {
        let before = all_happened(baselines, happenings.drop_last());
        match happenings.last() {
            Happening::Record(wire) => {
                let step = decoded(before.0, wire);
                (step.0, before.1 + step.1)
            },
            Happening::Schedule(old_set, new_set) => (
                rescheduled(before.0, old_set, new_set),
                before.1,
            ),
        }
    }
}

/// The records among happenings, in order.
pub open spec fn records(happenings: Seq<Happening>) -> Seq<WireSample>
    decreases happenings.len(),
{
    if happenings.len() == 0 {
        Seq::empty()
    } else {
        let before = records(happenings.drop_last());
        match happenings.last() {
            Happening::Record(wire) => before.push(wire),
            Happening::Schedule(_, _) => before,
        }
    }
}

/// Whether a happening leaves every slot with its event.
pub open spec fn reconfigures_nothing(h: Happening) -> bool {
    match h {
        Happening::Record(_) => true,
        Happening::Schedule(old_set, new_set) => source::updates(old_set, new_set).len() == 0,
    }
}

/// Applying a schedule that changes no slot leaves no trace: the records around it give the same
/// samples and the same baselines as without it.
pub proof fn unchanged_schedules_leave_no_trace(
    baselines: Seq<Seq<u64>>,
    happenings: Seq<Happening>,
)
    requires
        forall|i: int| 0 <= i < happenings.len() ==> reconfigures_nothing(#[trigger] happenings[i]),
    ensures
        all_happened(baselines, happenings) == all_decoded(baselines, records(happenings)),
    decreases happenings.len(),
{
    if happenings.len() > 0 {
        let front = happenings.drop_last();
        assert forall|i: int| 0 <= i < front.len() implies reconfigures_nothing(
            #[trigger] front[i],
        ) by {
            assert(reconfigures_nothing(happenings[i]));
        }
        unchanged_schedules_leave_no_trace(baselines, front);
        assert(reconfigures_nothing(happenings[happenings.len() - 1]));
        if let Happening::Record(wire) = happenings.last() {
            assert(records(happenings).drop_last() =~= records(front));
        }
    }
}

/// Counts add up across schedules that change no slot: as long as a slot keeps its event and its
/// counter does not fall, the counts of its samples are how far the counter has moved from the
/// baseline, however often the same set is applied in between.
pub proof fn counts_add_up_across_schedules(
    baselines: Seq<Seq<u64>>,
    happenings: Seq<Happening>,
    cpu: int,
    s: int,
    event_id: EventId,
)
    requires
        0 <= cpu < baselines.len(),
        0 <= s < 4,
        forall|i: int| 0 <= i < happenings.len() ==> reconfigures_nothing(#[trigger] happenings[i]),
        ({
            let wires = records(happenings);
            &&& wires.len() > 0
            &&& forall|i: int| 0 <= i < wires.len() ==> reads(#[trigger] wires[i], cpu, s, event_id)
            &&& forall|i: int, j: int|
                0 <= i <= j < wires.len() ==> (#[trigger] wires[i]).counters@[s] <= (
                #[trigger] wires[j]).counters@[s]
            &&& baselines[cpu][s] <= wires[0].counters@[s]
        }),
    ensures
        counted(all_happened(baselines, happenings).1, event_id) == records(
            happenings,
        ).last().counters@[s] - baselines[cpu][s],
        all_happened(baselines, happenings).0[cpu][s] == records(happenings).last().counters@[s],
{
    unchanged_schedules_leave_no_trace(baselines, happenings);
    counts_add_up(baselines, records(happenings), cpu, s, event_id);
}

/// Whether a sample is that of slot `s` of a record: what the record says, the event of the slot,
/// and how far the reading is above the baseline, zero if it is below.
pub open spec fn is_slot_sample(
    sample: RawSample,
    wire: WireSample,
    baseline: u64,
    s: int,
) -> bool {
    &&& sample.timestamp_ns == wire.timestamp_ns
    &&& sample.duration_ns == wire.duration_ns
    &&& sample.cpu_id == wire.cpu_id
    &&& sample.pid == wire.pid
    &&& sample.tid == wire.tid
    &&& sample.event_id == wire.events@[s] as EventId
    &&& sample.task == wire.task
    &&& wire.counters@[s] >= baseline ==> sample.count == wire.counters@[s] - baseline
    &&& wire.counters@[s] < baseline ==> sample.count == 0
}

proof fn lemma_slots_with_events(wire: WireSample, base: Seq<u64>, n: nat)
    requires
        n <= 4,
    ensures
        slot_samples(wire, base, n) == Seq::new(n, |s: int| s).filter(
            |s: int| wire.events@[s] != 0,
        ).map_values(|s: int| slot_sample(wire, base, s)),
    decreases n,
{
    reveal(Seq::filter);
    let slots = Seq::new(n, |s: int| s);
    let kept = slots.filter(|s: int| wire.events@[s] != 0);
    if n == 0 {
        assert(slots.len() == 0);
        assert(kept.len() == 0);
    } else {
        lemma_slots_with_events(wire, base, (n - 1) as nat);
        assert(slots.drop_last() =~= Seq::new((n - 1) as nat, |s: int| s));
        assert(slots.last() == n - 1);
    }
    assert(slot_samples(wire, base, n) =~= kept.map_values(
        |s: int| slot_sample(wire, base, s),
    ));
}

/// A reading of a known CPU gives one sample for each slot that has an event, in the order of the
/// slots, and these slots' readings are the CPU's baselines from then on. A resume marker gives no
/// sample and makes all its readings the baselines. A reading without duration, or of a CPU out of
/// range, does nothing. No record touches the baselines of another CPU.
pub proof fn records_give_samples_of_slots_with_events(
    baselines: Seq<Seq<u64>>,
    wire: WireSample,
)
    ensures
        ({
            let cpu = wire.cpu_id as int;
            let after = decoded(baselines, wire).0;
            let samples = decoded(baselines, wire).1;
            let slots = seq![0int, 1, 2, 3].filter(|s: int| wire.events@[s] != 0);
            &&& after.len() == baselines.len()
            &&& forall|c: int|
                0 <= c < baselines.len() && c != cpu ==> #[trigger] after[c] == baselines[c]
            &&& cpu >= baselines.len() ==> samples.len() == 0
            &&& cpu < baselines.len() && wire.type_ == 2 ==> samples.len() == 0 && after[cpu]
                == wire.counters@
            &&& cpu < baselines.len() && wire.type_ != 2 && wire.duration_ns == 0
                ==> samples.len() == 0 && after[cpu] == baselines[cpu]
            &&& cpu < baselines.len() && wire.type_ != 2 && wire.duration_ns > 0 ==> {
                &&& samples.len() == slots.len()
                &&& forall|k: int|
                    0 <= k < samples.len() ==> is_slot_sample(
                        #[trigger] samples[k],
                        wire,
                        baselines[cpu][slots[k]],
                        slots[k],
                    )
                &&& after[cpu].len() == 4
                &&& forall|s: int|
                    0 <= s < 4 ==> #[trigger] after[cpu][s] == (if wire.events@[s] != 0 {
                        wire.counters@[s]
                    } else {
                        baselines[cpu][s]
                    })
            }
        }),
{
    let cpu = wire.cpu_id as int;
    if cpu < baselines.len() {
        lemma_slots_with_events(wire, baselines[cpu], 4);
        assert(Seq::new(4, |s: int| s) =~= seq![0int, 1, 2, 3]);
    }
}

/// Records are taken in one after the other: taking in some and then others is taking in all.
pub proof fn records_are_taken_in_order(
    baselines: Seq<Seq<u64>>,
    a: Seq<WireSample>,
    b: Seq<WireSample>,
)
    ensures
        all_decoded(baselines, a + b).0 == all_decoded(all_decoded(baselines, a).0, b).0,
        all_decoded(baselines, a + b).1 == all_decoded(baselines, a).1 + all_decoded(
            all_decoded(baselines, a).0,
            b,
        ).1,
    decreases b.len(),
{
    if b.len() == 0 {
        assert(a + b =~= a);
        assert(all_decoded(baselines, a).1 + Seq::<RawSample>::empty() =~= all_decoded(
            baselines,
            a,
        ).1);
    } else {
        records_are_taken_in_order(baselines, a, b.drop_last());
        assert((a + b).drop_last() =~= a + b.drop_last());
        let first = all_decoded(baselines, a);
        let mid = all_decoded(first.0, b.drop_last());
        let step = decoded(mid.0, b.last());
        assert(first.1 + mid.1 + step.1 =~= first.1 + (mid.1 + step.1));
    }
}

/// A single record does what it does alone.
pub proof fn one_record_is_decoded(baselines: Seq<Seq<u64>>, wire: WireSample)
    ensures
        all_decoded(baselines, seq![wire]) == decoded(baselines, wire),
{
    assert(seq![wire].drop_last() =~= Seq::empty());
    assert(all_decoded(baselines, Seq::empty()) == (baselines, Seq::<RawSample>::empty()));
    assert(Seq::<RawSample>::empty() + decoded(baselines, wire).1 =~= decoded(baselines, wire).1);
}

/// A change of schedule returns every baseline to zero if any slot gets another event, and leaves
/// them alone if none does.
pub proof fn reconfiguring_resets_the_baselines(
    baselines: Seq<Seq<u64>>,
    old_set: Seq<EventId>,
    new_set: Seq<EventId>,
    cpu: int,
    s: int,
)
    requires
        new_set.len() <= usize::MAX,
        0 <= cpu < baselines.len(),
        0 <= s < 4,
    ensures
        rescheduled(baselines, old_set, new_set).len() == baselines.len(),
        forall|i: int|
            0 <= i < new_set.len() && (i >= old_set.len() || old_set[i] != #[trigger] new_set[i])
                ==> rescheduled(baselines, old_set, new_set)[cpu].len() == 4 && rescheduled(
                baselines,
                old_set,
                new_set,
            )[cpu][s] == 0,
        (forall|i: int|
            0 <= i < new_set.len() ==> i < old_set.len() && old_set[i] == #[trigger] new_set[i])
            ==> rescheduled(baselines, old_set, new_set) == baselines,
{
    let all = source::updates(old_set, new_set);
    assert forall|i: int|
        0 <= i < new_set.len() && (i >= old_set.len() || old_set[i]
            != #[trigger] new_set[i]) implies all.len() > 0 by {
        source::changed_slots_are_updated_once(old_set, new_set, i);
    }
    if (forall|i: int|
        0 <= i < new_set.len() ==> i < old_set.len() && old_set[i] == #[trigger] new_set[i])
        && all.len() > 0 {
        if new_set.len() > 0 {
            source::changed_slots_are_updated_once(old_set, new_set, 0);
            let slot = all[0].slot as int;
            assert(slot < new_set.len());
            source::changed_slots_are_updated_once(old_set, new_set, slot);
            assert(old_set[slot] == new_set[slot]);
        }
    }
}

/// The counts of an event's samples are added up, and no others.
pub proof fn counted_adds_up_the_events_samples(samples: Seq<RawSample>, event_id: EventId)
    ensures
        counted(samples, event_id) == samples.filter(
            |s: RawSample| s.event_id == event_id,
        ).fold_left(0int, |n: int, s: RawSample| n + s.count),
    decreases samples.len(),
{
    reveal(Seq::filter);
    if samples.len() > 0 {
        let front = samples.drop_last();
        counted_adds_up_the_events_samples(front, event_id);
        let kept = samples.filter(|s: RawSample| s.event_id == event_id);
        let rest = front.filter(|s: RawSample| s.event_id == event_id);
        if samples.last().event_id == event_id {
            assert(kept.drop_last() =~= rest);
        }
    }
}

} // verus!
