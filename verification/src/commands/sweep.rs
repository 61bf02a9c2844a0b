//! Measuring every event: the batches of a sweep, and what is collected while they run.
//!
//! Each batch reserves one counter slot for retired instructions as an anchor and fills the
//! remaining slots with other events.

use crate::event::{Event, EventId, EventLibrary};
use crate::quantum::{self, Quantum, RateRatio};
use crate::sample::{self, task_name, RawSample, MAX_COUNTERS};
use crate::text::same_text;
use vstd::prelude::*;

verus! {

/// Name of the anchor event.
pub fn anchor_name() -> (r: &'static str)
    ensures
        r@ == "ex_ret_instr"@,
{
    "ex_ret_instr"
}

/// The position of the first event with a name.
pub open spec fn first_named(events: Seq<Event>, name: Seq<char>) -> Option<nat>
    decreases events.len(),
{
    if events.len() == 0 {
        None
    } else {
        match first_named(events.drop_last(), name) {
            Some(i) => Some(i),
            None => if events.last().name@ == name {
                Some((events.len() - 1) as nat)
            } else {
                None
            },
        }
    }
}

/// The ID of the anchor event: the first of its name in the library. `None` when there is none.
pub fn find_anchor(library: &EventLibrary) -> (r: Option<EventId>)
    requires
        library.events@.len() <= u32::MAX,
    ensures
        match r {
            Some(id) => first_named(library.events@, "ex_ret_instr"@) == Some(id as nat),
            None => first_named(library.events@, "ex_ret_instr"@) is None,
        },
{
    let mut found: Option<EventId> = None;
    let mut i: usize = 0;
    let ghost name = "ex_ret_instr"@;
    assert(library.events@.take(0) =~= Seq::empty());
    while i < library.events.len()
        invariant
            i <= library.events@.len() <= u32::MAX,
            name == "ex_ret_instr"@,
            match found {
                Some(id) => first_named(library.events@.take(i as int), name) == Some(id as nat),
                None => first_named(library.events@.take(i as int), name) is None,
            },
        decreases library.events@.len() - i,
    {
        assert(library.events@.take(i as int + 1).drop_last() =~= library.events@.take(i as int));
        if found.is_none() && same_text(library.events[i].name.as_str(), anchor_name()) {
            found = Some(i as EventId);
        }
        i = i + 1;
    }
    assert(library.events@.take(i as int) =~= library.events@);
    found
}

/// Every event ID but the anchor's, in order.
pub open spec fn user_ids(num_events: nat, anchor: EventId) -> Seq<EventId> {
    Seq::new(
        if anchor < num_events {
            (num_events - 1) as nat
        } else {
            num_events
        },
        |i: int|
            if i < anchor {
                i as EventId
            } else {
                (i + 1) as EventId
            },
    )
}

/// The IDs of batch `k`: the anchor, then the next few of `ids`.
pub open spec fn batch(ids: Seq<EventId>, anchor: EventId, k: int) -> Seq<EventId> {
    let width = MAX_COUNTERS - 1;
    let end = if width * (k + 1) <= ids.len() {
        width * (k + 1)
    } else {
        ids.len() as int
    };
    seq![anchor] + ids.subrange(width * k, end)
}

/// How many batches it takes.
pub open spec fn num_batches(ids: Seq<EventId>) -> nat {
    ((ids.len() + MAX_COUNTERS - 2) / (MAX_COUNTERS - 1)) as nat
}

/// The batches of a sweep over `num_events` events.
pub open spec fn batches(num_events: nat, anchor: EventId) -> Seq<Seq<EventId>> {
    let ids = user_ids(num_events, anchor);
    Seq::new(num_batches(ids), |k: int| batch(ids, anchor, k))
}

/// Plans the batches of a sweep over `num_events` events.
pub fn plan_batches(num_events: u32, anchor: EventId) -> (r: Vec<Vec<EventId>>)
    ensures
        r@.map_values(|b: Vec<EventId>| b@) == batches(num_events as nat, anchor),
{
    let mut out: Vec<Vec<EventId>> = Vec::new();
    let mut current: Vec<EventId> = Vec::new();
    let ghost ids = user_ids(num_events as nat, anchor);
    let ghost taken: int = 0;
    let mut id: u32 = 0;
    while id < num_events
        invariant
            id <= num_events,
            ids == user_ids(num_events as nat, anchor),
            taken == (if anchor < id {
                id - 1
            } else {
                id as int
            }),
            0 <= taken <= ids.len(),
            out@.len() == taken / 3,
            forall|k: int| 0 <= k < out@.len() ==> (#[trigger] out@[k])@ == batch(ids, anchor, k),
            taken % 3 == 0 ==> current@.len() == 0,
            taken % 3 != 0 ==> current@ == seq![anchor] + ids.subrange(3 * (taken / 3), taken),
        decreases num_events - id,
    {
        if id != anchor {
            let ghost start = 3 * (taken / 3);
            if current.len() == 0 {
                current.push(anchor);
            }
            assert(ids[taken] == id);
            current.push(id);
            assert(current@ =~= seq![anchor] + ids.subrange(start, taken + 1));
            proof {
                taken = taken + 1;
            }
            if current.len() == MAX_COUNTERS {
                let mut full: Vec<EventId> = Vec::new();
                std::mem::swap(&mut full, &mut current);
                assert(taken % 3 == 0);
                assert(full@ =~= batch(ids, anchor, taken / 3 - 1));
                out.push(full);
            }
        }
        id = id + 1;
    }
    assert(taken == ids.len());
    if current.len() > 0 {
        assert(current@ =~= batch(ids, anchor, taken / 3));
        out.push(current);
    }
    assert(r_matches(out@, batches(num_events as nat, anchor)));
    assert(out@.map_values(|b: Vec<EventId>| b@) =~= batches(num_events as nat, anchor));
    out
}

spec fn r_matches(out: Seq<Vec<EventId>>, expected: Seq<Seq<EventId>>) -> bool {
    out.len() == expected.len() && forall|k: int|
        0 <= k < out.len() ==> (#[trigger] out[k])@ == expected[k]
}

/// Whether an event stands at place `p` of batch `k`.
pub open spec fn measured_at(plan: Seq<Seq<EventId>>, k: int, p: int, id: EventId) -> bool {
    0 <= k < plan.len() && 1 <= p < plan[k].len() && plan[k][p] == id
}

/// Every event but the anchor is measured in exactly one place of one batch; every batch starts
/// with the anchor and fits the counters.
pub proof fn every_event_is_measured_once(num_events: nat, anchor: EventId, id: EventId)
    requires
        num_events <= u32::MAX,
        id < num_events,
        id != anchor,
    ensures
        exists|k: int, p: int| measured_at(batches(num_events, anchor), k, p, id),
        forall|k: int, p: int, k2: int, p2: int| #[trigger]
            measured_at(batches(num_events, anchor), k, p, id) && #[trigger] measured_at(
                batches(num_events, anchor),
                k2,
                p2,
                id,
            ) ==> k == k2 && p == p2,
        forall|k: int|
            0 <= k < batches(num_events, anchor).len() ==> {
                let b = #[trigger] batches(num_events, anchor)[k];
                2 <= b.len() <= MAX_COUNTERS && b[0] == anchor
            },
{
    let plan = batches(num_events, anchor);
    let ids = user_ids(num_events, anchor);
    let i = if id < anchor {
        id as int
    } else {
        id - 1
    };
    assert(ids[i] == id);
    assert(measured_at(plan, i / 3, i % 3 + 1, id)) by {
        assert(plan[i / 3] == batch(ids, anchor, i / 3));
        assert(plan[i / 3][i % 3 + 1] == ids[3 * (i / 3) + i % 3]);
    }
    assert forall|k: int, p: int| #[trigger] measured_at(plan, k, p, id) implies k == i / 3 && p
        == i % 3 + 1 by {
        assert(plan[k] == batch(ids, anchor, k));
        let j = 3 * k + p - 1;
        assert(plan[k][p] == ids[j]);
        assert(j == i);
    }
}

/// What a sweep measures.
pub struct SweepPlan {
    /// The anchor event.
    pub anchor_id: EventId,
    /// The events of each run of the target.
    pub batches: Vec<Vec<EventId>>,
    /// The name of each event, by ID.
    pub event_names: Vec<String>,
}

/// Plans a sweep over all events of a library; `None` if it lacks the anchor event.
pub fn plan_sweep(library: &EventLibrary) -> (r: Option<SweepPlan>)
    requires
        library.events@.len() <= u32::MAX,
    ensures
        match r {
            Some(plan) => {
                &&& first_named(library.events@, "ex_ret_instr"@) == Some(plan.anchor_id as nat)
                &&& plan.batches@.map_values(|b: Vec<EventId>| b@) == batches(
                    library.events@.len(),
                    plan.anchor_id,
                )
                &&& plan.event_names@.map_values(|s: String| s@) == library.events@.map_values(
                    |e: Event| e.name@,
                )
            },
            None => first_named(library.events@, "ex_ret_instr"@) is None,
        },
{
    let anchor_id = match find_anchor(library) {
        Some(id) => id,
        None => {
            return None;
        },
    };
    let mut event_names: Vec<String> = Vec::new();
    let mut i: usize = 0;
    while i < library.events.len()
        invariant
            i <= library.events@.len(),
            event_names@.len() == i,
            forall|k: int|
                0 <= k < i ==> (#[trigger] event_names@[k])@ == library.events@[k].name@,
        decreases library.events@.len() - i,
    {
        event_names.push(library.events[i].name.clone());
        i = i + 1;
    }
    assert(event_names@.map_values(|s: String| s@) =~= library.events@.map_values(
        |e: Event| e.name@,
    ));
    let batches = plan_batches(library.events.len() as u32, anchor_id);
    Some(SweepPlan { anchor_id, batches, event_names })
}

/// Adds up the anchor event's count and duration over all quanta and batches.
pub struct InstructionTrackerSink {
    /// The anchor event.
    pub anchor_id: EventId,
    /// Total count so far.
    pub total_count: u64,
    /// Total duration so far, in nanoseconds.
    pub total_duration_ns: u64,
}

impl InstructionTrackerSink {
    /// The samples of a quantum that count.
    pub open spec fn counted(self, samples: Seq<RawSample>) -> Seq<RawSample> {
        quantum::group_of(samples, false, (0, self.anchor_id))
    }

    /// Starts with empty totals.
    pub fn new(anchor_id: EventId) -> (r: Self)
        ensures
            r == (InstructionTrackerSink { anchor_id, total_count: 0, total_duration_ns: 0 }),
    {
        InstructionTrackerSink { anchor_id, total_count: 0, total_duration_ns: 0 }
    }

    /// The anchor's rate over everything seen, as a ratio; `None` if nothing was seen.
    pub fn ref_rate(&self) -> (r: Option<RateRatio>)
        ensures
            r == if self.total_duration_ns > 0 {
                Some(
                    RateRatio { count: self.total_count, duration_ns: self.total_duration_ns },
                )
            } else {
                None
            },
    {
        if self.total_duration_ns > 0 {
            Some(RateRatio { count: self.total_count, duration_ns: self.total_duration_ns })
        } else {
            None
        }
    }

    /// Adds the anchor event's samples of a quantum.
    pub fn emit(&mut self, quantum: &Quantum)
        requires
            quantum::totals_fit(quantum@.samples, false),
            old(self).total_count + quantum::count_sum(old(self).counted(quantum@.samples))
                <= u64::MAX,
            old(self).total_duration_ns + quantum::duration_sum(
                old(self).counted(quantum@.samples),
            ) <= u64::MAX,
        ensures
            final(self).anchor_id == old(self).anchor_id,
            final(self).total_count == old(self).total_count + quantum::count_sum(
                old(self).counted(quantum@.samples),
            ),
            final(self).total_duration_ns == old(self).total_duration_ns + quantum::duration_sum(
                old(self).counted(quantum@.samples),
            ),
    {
        let aggregates = quantum.aggregates();
        let ghost start = *self;
        let ghost group = self.counted(quantum@.samples);
        let mut i: usize = 0;
        while i < aggregates.len()
            invariant
                i <= aggregates@.len(),
                *self == start,
                start == *old(self),
                group == start.counted(quantum@.samples),
                quantum::is_grouping(quantum::over_threads(aggregates@), quantum@.samples, false),
                start.total_count + quantum::count_sum(group) <= u64::MAX,
                start.total_duration_ns + quantum::duration_sum(group) <= u64::MAX,
                forall|j: int| 0 <= j < i ==> (#[trigger] aggregates@[j]).event_id
                    != start.anchor_id,
            decreases aggregates@.len() - i,
        {
            if aggregates[i].event_id == self.anchor_id {
                assert(quantum::over_threads(aggregates@)[i as int].aggregate.describes(group));
                self.total_count = self.total_count + aggregates[i].total_count;
                self.total_duration_ns = self.total_duration_ns + aggregates[i].total_duration_ns;
                return ;
            }
            i = i + 1;
        }
        assert(group.len() == 0) by {
            if group.len() > 0 {
                assert(quantum::has_group(quantum::over_threads(aggregates@), (0, start.anchor_id)));
                let g = choose|g: int|
                    0 <= g < aggregates@.len() && (#[trigger] quantum::over_threads(aggregates@)[g]).key() == (
                        0u32,
                        start.anchor_id,
                    );
                assert(aggregates@[g].event_id == start.anchor_id);
            }
        }
    }
}

/// A thread seen during a batch.
pub struct BatchThread {
    /// Thread ID.
    pub tid: u32,
    /// ID of the process that the thread belongs to.
    pub tgid: u32,
    /// Task name.
    pub task: String,
}

/// Model of [`BatchThread`].
pub struct BatchThreadView {
    pub tid: u32,
    pub tgid: u32,
    pub task: Seq<char>,
}

impl View for BatchThread {
    type V = BatchThreadView;

    open spec fn view(&self) -> BatchThreadView {
        BatchThreadView { tid: self.tid, tgid: self.tgid, task: self.task@ }
    }
}

/// The model of the threads of a batch.
pub open spec fn threads_view(threads: Seq<BatchThread>) -> Seq<BatchThreadView> {
    threads.map_values(|t: BatchThread| t@)
}

/// The model of the threads of each batch.
pub open spec fn batches_view(batches: Seq<Vec<BatchThread>>) -> Seq<Seq<BatchThreadView>> {
    batches.map_values(|b: Vec<BatchThread>| threads_view(b@))
}

/// Whether a thread is among some.
pub open spec fn seen(threads: Seq<BatchThreadView>, tid: u32) -> bool {
    exists|i: int| 0 <= i < threads.len() && (#[trigger] threads[i]).tid == tid
}

/// Whether no thread occurs twice.
pub open spec fn distinct(threads: Seq<BatchThreadView>) -> bool {
    forall|i: int, j: int|
        0 <= i < j < threads.len() ==> (#[trigger] threads[i]).tid != (#[trigger] threads[j]).tid
}

/// The threads of a batch after more samples: those of the idle task are passed over, and what a
/// thread's first sample says of it stays.
pub open spec fn with_samples(threads: Seq<BatchThreadView>, samples: Seq<RawSample>) -> Seq<
    BatchThreadView,
>
    decreases samples.len(),
{
    if samples.len() == 0 {
        threads
    } else {
        let before = with_samples(threads, samples.drop_last());
        let s = samples.last();
        if s.tid == 0 || seen(before, s.tid) {
            before
        } else {
            before.push(
                BatchThreadView { tid: s.tid, tgid: s.pid, task: sample::task_text(s.task@) },
            )
        }
    }
}

/// Records, for each batch, which threads appeared and what task they belong to.
pub struct TidCollectorSink {
    /// The threads of each batch, in order of appearance.
    pub batches: Vec<Vec<BatchThread>>,
}

impl View for TidCollectorSink {
    type V = Seq<Seq<BatchThreadView>>;

    open spec fn view(&self) -> Seq<Seq<BatchThreadView>> {
        batches_view(self.batches@)
    }
}

impl TidCollectorSink {
    /// Starts before the first batch.
    pub fn new() -> (r: Self)
        ensures
            r@ == Seq::<Seq<BatchThreadView>>::empty(),
    {
        let r = TidCollectorSink { batches: Vec::new() };
        assert(r@ =~= Seq::<Seq<BatchThreadView>>::empty());
        r
    }

    /// Begins the next batch.
    pub fn begin_batch(&mut self)
        ensures
            final(self)@ == old(self)@.push(Seq::empty()),
    {
        self.batches.push(Vec::new());
        assert(self@.last() =~= Seq::<BatchThreadView>::empty());
        assert(self@ =~= old(self)@.push(Seq::empty()));
    }

    /// Records the threads of a quantum under the current batch.
    pub fn emit(&mut self, quantum: &Quantum)
        requires
            old(self)@.len() > 0,
        ensures
            final(self)@ == old(self)@.update(
                old(self)@.len() - 1,
                with_samples(old(self)@.last(), quantum@.samples),
            ),
    {
        let ghost start = self@;
        let last: usize = self.batches.len() - 1;
        let samples = quantum.samples();
        let mut i: usize = 0;
        assert(samples@.take(0) =~= Seq::empty());
        assert(self@ =~= start.update(last as int, start[last as int]));
        while i < samples.len()
            invariant
                i <= samples@.len(),
                self.batches@.len() == start.len(),
                last == start.len() - 1,
                self@ == start.update(
                    last as int,
                    with_samples(start[last as int], samples@.take(i as int)),
                ),
            decreases samples@.len() - i,
        {
            let s = &samples[i];
            let ghost before = self.batches@;
            let ghost shown = self@;
            let ghost threads = threads_view(self.batches@[last as int]@);
            assert(self@[last as int] == threads);
            assert(samples@.take(i as int + 1).drop_last() =~= samples@.take(i as int));
            assert(samples@.take(i as int + 1).last() == *s);
            assert(threads == with_samples(start[last as int], samples@.take(i as int)));
            let mut known = false;
            let mut j: usize = 0;
            while j < self.batches[last].len()
                invariant
                    last < self.batches@.len(),
                    self.batches@ == before,
                    j <= self.batches@[last as int]@.len(),
                    threads == threads_view(self.batches@[last as int]@),
                    known <==> exists|k: int| 0 <= k < j && (#[trigger] threads[k]).tid == s.tid,
                decreases self.batches@[last as int]@.len() - j,
            {
                assert(threads[j as int].tid == self.batches@[last as int]@[j as int].tid);
                if self.batches[last][j].tid == s.tid {
                    known = true;
                }
                j = j + 1;
            }
            assert(known == seen(threads, s.tid));
            if s.tid != 0 && !known {
                let t = BatchThread { tid: s.tid, tgid: s.pid, task: task_name(&s.task) };
                self.batches[last].push(t);
                assert(threads_view(self.batches@[last as int]@) =~= threads.push(t@));
            }
            i = i + 1;
            assert(threads_view(self.batches@[last as int]@) == with_samples(
                start[last as int],
                samples@.take(i as int),
            ));
            assert forall|k: int| 0 <= k < start.len() && k != last implies #[trigger] self@[k]
                == start[k] by {
                assert(self.batches@[k] == before[k]);
                assert(shown[k] == start[k]);
            }
            assert(self@ =~= start.update(
                last as int,
                with_samples(start[last as int], samples@.take(i as int)),
            ));
        }
        assert(samples@.take(samples@.len() as int) =~= samples@);
    }
}

/// No thread is recorded twice under a batch.
pub proof fn threads_stay_distinct(threads: Seq<BatchThreadView>, samples: Seq<RawSample>)
    requires
        distinct(threads),
    ensures
        distinct(with_samples(threads, samples)),
    decreases samples.len(),
{
    if samples.len() > 0 {
        threads_stay_distinct(threads, samples.drop_last());
    }
}

/// The anchor is the first event of its name; there is none exactly if no event has it.
pub proof fn the_first_of_a_name_is_found(events: Seq<Event>, name: Seq<char>)
    ensures
        match first_named(events, name) {
            Some(i) => i < events.len() && events[i as int].name@ == name && forall|j: int|
                0 <= j < i ==> (#[trigger] events[j]).name@ != name,
            None => forall|j: int| 0 <= j < events.len() ==> (#[trigger] events[j]).name@ != name,
        },
    decreases events.len(),
{
    if events.len() > 0 {
        let front = events.drop_last();
        the_first_of_a_name_is_found(front, name);
        match first_named(events, name) {
            Some(i) => {
                assert forall|j: int| 0 <= j < i implies (#[trigger] events[j]).name@ != name by {
                    assert(front[j] == events[j]);
                }
            },
            None => {
                assert forall|j: int| 0 <= j < events.len() implies (#[trigger] events[j]).name@
                    != name by {
                    if j < front.len() {
                        assert(front[j] == events[j]);
                    }
                }
            },
        }
    }
}

/// Only events of the library are measured, the anchor at the first place of a batch and at no
/// other. Events are measured in the order of their IDs, and every batch but the last is full.
pub proof fn batches_follow_the_ids(num_events: nat, anchor: EventId, k: int, p: int)
    requires
        num_events <= u32::MAX,
        0 <= k < batches(num_events, anchor).len(),
        1 <= p < batches(num_events, anchor)[k].len(),
    ensures
        ({
            let plan = batches(num_events, anchor);
            &&& plan[k][p] < num_events
            &&& plan[k][p] != anchor
            &&& p + 1 < plan[k].len() ==> plan[k][p] < plan[k][p + 1]
            &&& k + 1 < plan.len() ==> plan[k].len() == 4 && plan[k][p] < plan[k + 1][1]
        }),
{
    let plan = batches(num_events, anchor);
    let ids = user_ids(num_events, anchor);
    assert(plan[k] == batch(ids, anchor, k));
    assert(plan[k][p] == ids[3 * k + p - 1]);
    if k + 1 < plan.len() {
        assert(plan[k + 1] == batch(ids, anchor, k + 1));
        assert(plan[k + 1][1] == ids[3 * (k + 1)]);
    }
}

/// The anchor's samples are those of its ID that took any time, on whatever thread.
pub proof fn the_anchors_samples_count(sink: InstructionTrackerSink, samples: Seq<RawSample>)
    ensures
        sink.counted(samples) == samples.filter(
            |s: RawSample| s.duration_ns > 0 && s.event_id == sink.anchor_id,
        ),
        quantum::count_sum(sink.counted(samples)) == sink.counted(samples).fold_left(
            0int,
            |n: int, s: RawSample| n + s.count,
        ),
        quantum::duration_sum(sink.counted(samples)) == sink.counted(samples).fold_left(
            0int,
            |n: int, s: RawSample| n + s.duration_ns,
        ),
    decreases samples.len(),
{
    reveal(Seq::filter);
    if samples.len() > 0 {
        let front = samples.drop_last();
        the_anchors_samples_count(sink, front);
        let all = sink.counted(samples);
        let rest = sink.counted(front);
        if samples.last().duration_ns > 0 && samples.last().event_id == sink.anchor_id {
            assert(all.drop_last() =~= rest);
        }
    }
}

/// Samples are taken in one after the other, and the threads known before stay as they are.
pub proof fn known_threads_stay(
    threads: Seq<BatchThreadView>,
    a: Seq<RawSample>,
    b: Seq<RawSample>,
)
    ensures
        with_samples(threads, a + b) == with_samples(with_samples(threads, a), b),
        with_samples(threads, a).is_prefix_of(with_samples(threads, a + b)),
    decreases b.len(),
{
    if b.len() == 0 {
        assert(a + b =~= a);
    } else {
        known_threads_stay(threads, a, b.drop_last());
        assert((a + b).drop_last() =~= a + b.drop_last());
    }
}

/// A thread is recorded exactly if it was recorded before or has a sample and is not the idle task.
/// One that was not recorded before is described by its first sample: by the process and the task
/// name that this gives. Returns where it is recorded.
pub proof fn new_threads_are_described_by_their_first_sample(
    threads: Seq<BatchThreadView>,
    samples: Seq<RawSample>,
    i: int,
) -> (at: int)
    requires
        0 <= i < samples.len(),
        samples[i].tid != 0,
        !seen(threads, samples[i].tid),
        forall|j: int| 0 <= j < i ==> (#[trigger] samples[j]).tid != samples[i].tid,
    ensures
        ({
            let after = with_samples(threads, samples);
            &&& threads.len() <= at < after.len()
            &&& after[at].tid == samples[i].tid
            &&& after[at].tgid == samples[i].pid
            &&& after[at].task == sample::task_text(samples[i].task@)
        }),
    decreases samples.len(),
{
    let front = samples.drop_last();
    if i < front.len() {
        assert forall|j: int| 0 <= j < i implies (#[trigger] front[j]).tid != front[i].tid by {
            assert(front[j] == samples[j]);
        }
        let at = new_threads_are_described_by_their_first_sample(threads, front, i);
        assert(with_samples(threads, samples)[at] == with_samples(threads, front)[at]);
        at
    } else {
        assert forall|j: int| 0 <= j < front.len() implies (#[trigger] front[j]).tid
            != samples[i].tid by {
            assert(front[j] == samples[j]);
        }
        lemma_seen_with_samples(threads, front, samples[i].tid);
        lemma_threads_grow(threads, front);
        with_samples(threads, front).len() as int
    }
}

proof fn lemma_threads_grow(threads: Seq<BatchThreadView>, samples: Seq<RawSample>)
    ensures
        with_samples(threads, samples).len() >= threads.len(),
    decreases samples.len(),
{
    if samples.len() > 0 {
        lemma_threads_grow(threads, samples.drop_last());
    }
}

proof fn lemma_seen_with_samples(
    threads: Seq<BatchThreadView>,
    samples: Seq<RawSample>,
    tid: u32,
)
    ensures
        seen(with_samples(threads, samples), tid) <==> seen(threads, tid) || (tid != 0 && exists|
            i: int,
        |
            0 <= i < samples.len() && (#[trigger] samples[i]).tid == tid),
    decreases samples.len(),
{
    if samples.len() > 0 {
        let front = samples.drop_last();
        let before = with_samples(threads, front);
        let after = with_samples(threads, samples);
        lemma_seen_with_samples(threads, front, tid);
        let n = samples.len() - 1;
        if seen(before, tid) {
            let k = choose|k: int| 0 <= k < before.len() && (#[trigger] before[k]).tid == tid;
            assert(after[k].tid == tid);
        }
        if exists|i: int| 0 <= i < front.len() && (#[trigger] front[i]).tid == tid {
            let i = choose|i: int| 0 <= i < front.len() && (#[trigger] front[i]).tid == tid;
            assert(samples[i].tid == tid);
        }
        if exists|i: int| 0 <= i < samples.len() && (#[trigger] samples[i]).tid == tid {
            let i = choose|i: int| 0 <= i < samples.len() && (#[trigger] samples[i]).tid == tid;
            if i < front.len() {
                assert(front[i].tid == tid);
            } else if tid != 0 && !seen(before, tid) {
                assert(after[before.len() as int].tid == tid);
            }
        }
        if seen(after, tid) && !seen(before, tid) {
            let k = choose|k: int| 0 <= k < after.len() && (#[trigger] after[k]).tid == tid;
            assert(k < before.len() ==> before[k].tid == tid);
            assert(samples[n].tid == tid);
        }
    }
}

/// A thread is recorded under a batch exactly if it was before or a sample is of it; the idle task
/// is never added.
pub proof fn threads_with_samples_are_recorded(
    threads: Seq<BatchThreadView>,
    samples: Seq<RawSample>,
    tid: u32,
)
    ensures
        (exists|k: int|
            0 <= k < with_samples(threads, samples).len() && (#[trigger] with_samples(
                threads,
                samples,
            )[k]).tid == tid) <==> (exists|k: int|
            0 <= k < threads.len() && (#[trigger] threads[k]).tid == tid) || (tid != 0 && exists|
            i: int,
        |
            0 <= i < samples.len() && (#[trigger] samples[i]).tid == tid),
{
    lemma_seen_with_samples(threads, samples, tid);
    let after = with_samples(threads, samples);
    assert(seen(after, tid) <==> exists|k: int|
        0 <= k < after.len() && (#[trigger] after[k]).tid == tid);
    assert(seen(threads, tid) <==> exists|k: int|
        0 <= k < threads.len() && (#[trigger] threads[k]).tid == tid);
}

} // verus!
