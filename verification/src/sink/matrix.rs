//! Matrix output: per-thread event rates over time, binned.

use crate::bins::{self, bin_times};
use crate::event::EventId;
use crate::sample::{self, task_name, RawSample};
use crate::text::same_text;
use std::collections::HashMap;
use vstd::prelude::*;

verus! {

broadcast use vstd::std_specs::hash::group_hash_axioms;

/// One rate of one event at a time since the batch began: `num / den`, times `scale` if there is
/// any. Its unit is events per nanosecond either way.
#[derive(Debug, Clone, Copy)]
pub struct MatrixPoint {
    /// Nanoseconds since the first sample of the batch.
    pub rel_ts: u64,
    /// Events counted.
    pub num: u64,
    /// Instructions retired meanwhile where there is a scale, and else nanoseconds elapsed.
    pub den: u64,
    /// Bit pattern of the instructions per nanosecond to multiply by.
    pub scale: Option<u64>,
}

/// A sample that was taken in.
#[derive(Debug, Clone, Copy)]
pub struct Placed {
    /// Nanoseconds since the first sample of the batch.
    pub rel_ts: u64,
    /// Number of the quantum that the sample came with.
    pub quantum: usize,
    /// The sample.
    pub sample: RawSample,
}

/// The samples of one event.
pub struct EventSeries {
    /// The event.
    pub event_id: EventId,
    /// Its samples, in the order they came.
    pub points: Vec<Placed>,
}

/// What was collected of one synthetic thread.
pub struct ThreadData {
    task_name: String,
    tgid: u32,
    series: Vec<EventSeries>,
}

/// A task name and the rank of a thread among those of that name.
struct NameIndex {
    name: String,
    ordinal: u32,
}

/// Model of [`EventSeries`].
pub type SeriesView = (EventId, Seq<Placed>);

/// Model of [`ThreadData`].
#[verifier::ext_equal]
pub struct ThreadView {
    /// Task name.
    pub task: Seq<char>,
    /// Process ID.
    pub tgid: u32,
    /// The samples of each event, in the order in which events were first seen.
    pub series: Seq<SeriesView>,
}

impl View for ThreadData {
    type V = ThreadView;

    closed spec fn view(&self) -> ThreadView {
        ThreadView {
            task: self.task_name@,
            tgid: self.tgid,
            series: self.series@.map_values(|s: EventSeries| (s.event_id, s.points@)),
        }
    }
}

/// Collects rates per thread and event across the batches of a sweep.
///
/// A thread has another ID in every run of the target, so threads get synthetic IDs: the same
/// task name and the same rank among the threads of that name stand for the same thread in every
/// batch.
pub struct MatrixSink {
    dt_ns: u64,
    event_names: Vec<String>,
    event_to_batch: Vec<Option<u32>>,
    quanta: Vec<Vec<RawSample>>,
    threads: Vec<ThreadData>,
    names: Vec<NameIndex>,
    current_batch_id: u32,
    current_batch_events: Vec<EventId>,
    batch_real_to_synthetic: HashMap<u32, u32>,
    batch_tasks: Vec<String>,
    batch_t0: Option<u64>,
    anchor_id: Option<EventId>,
    global_ref_rate: Option<u64>,
}

/// Model of [`MatrixSink`].
#[verifier::ext_equal]
pub struct MatrixView {
    /// Width of a time bin.
    pub dt_ns: u64,
    /// Event names, by event ID.
    pub event_names: Seq<Seq<char>>,
    /// The batch that measured each event, by event ID.
    pub event_to_batch: Seq<Option<u32>>,
    /// The samples of each quantum taken in.
    pub quanta: Seq<Seq<RawSample>>,
    /// What was collected of each synthetic thread; thread `i + 1` stands at position `i`.
    pub threads: Seq<ThreadView>,
    /// The task name and rank of each synthetic thread, at the same positions.
    pub names: Seq<(Seq<char>, u32)>,
    /// The current batch.
    pub batch_id: u32,
    /// The events of the current batch.
    pub batch_events: Seq<EventId>,
    /// The synthetic ID of each thread of the current batch.
    pub synthetic: Map<u32, u32>,
    /// The task names of the threads of the current batch, in the order they were first seen.
    pub batch_tasks: Seq<Seq<char>>,
    /// The time of the first sample of the current batch.
    pub t0: Option<u64>,
    /// The event that rates are normalized by.
    pub anchor: Option<EventId>,
    /// Bit pattern of the instruction rate that normalized rates are scaled by.
    pub ref_rate: Option<u64>,
}

/// How often `x` occurs in `s`.
pub open spec fn count_of(s: Seq<Seq<char>>, x: Seq<char>) -> nat
    decreases s.len(),
{
    if s.len() == 0 {
        0
    } else {
        count_of(s.drop_last(), x) + if s.last() == x {
            1nat
        } else {
            0
        }
    }
}

/// The position of `x` in `s`.
pub open spec fn name_position(s: Seq<(Seq<char>, u32)>, x: (Seq<char>, u32)) -> Option<int>
    decreases s.len(),
{
    if s.len() == 0 {
        None
    } else if s.last() == x {
        Some(s.len() - 1)
    } else {
        name_position(s.drop_last(), x)
    }
}

/// The position of an event in `s`.
pub open spec fn series_position(s: Seq<SeriesView>, event_id: EventId) -> Option<int>
    decreases s.len(),
{
    if s.len() == 0 {
        None
    } else if s.last().0 == event_id {
        Some(s.len() - 1)
    } else {
        series_position(s.drop_last(), event_id)
    }
}

/// The series with one more point.
pub open spec fn with_rate(s: Seq<SeriesView>, event_id: EventId, point: Placed) -> Seq<
    SeriesView,
> {
    match series_position(s, event_id) {
        Some(i) => s.update(i, (event_id, s[i].1.push(point))),
        None => s.push((event_id, seq![point])),
    }
}

/// Whether two samples come from the same record: same CPU, time and thread.
pub open spec fn same_record(a: RawSample, b: RawSample) -> bool {
    a.cpu_id == b.cpu_id && a.timestamp_ns == b.timestamp_ns && a.tid == b.tid
}

/// How often the anchor event was counted in the record that `s` comes from; zero if it was not.
/// The last such sample counts.
pub open spec fn anchor_count(samples: Seq<RawSample>, anchor: EventId, s: RawSample) -> u64
    decreases samples.len(),
{
    if samples.len() == 0 {
        0
    } else {
        let a = samples.last();
        if a.event_id == anchor && a.duration_ns > 0 && same_record(a, s) {
            a.count
        } else {
            anchor_count(samples.drop_last(), anchor, s)
        }
    }
}

impl MatrixView {
    /// The synthetic ID of a thread, given out at its first sample in a batch.
    pub open spec fn with_thread_id(self, tid: u32, task: Seq<char>) -> (MatrixView, u32) {
        if self.synthetic.contains_key(tid) {
            (self, self.synthetic[tid])
        } else {
            let key = (task, count_of(self.batch_tasks, task) as u32);
            let (names, syn) = match name_position(self.names, key) {
                Some(i) => (self.names, (i + 1) as u32),
                None => (self.names.push(key), (self.names.len() + 1) as u32),
            };
            (
                MatrixView {
                    names,
                    synthetic: self.synthetic.insert(tid, syn),
                    batch_tasks: self.batch_tasks.push(task),
                    ..self
                },
                syn,
            )
        }
    }

    /// How often the anchor was counted in the record that a sample comes from; zero without an
    /// anchor, and for the samples of the anchor itself. It is the anchor set in the end that
    /// counts, whenever the sample came.
    pub open spec fn instructions(self, p: Placed) -> u64 {
        match self.anchor {
            Some(anchor) => if p.sample.event_id != anchor {
                anchor_count(self.quanta[p.quantum as int], anchor, p.sample)
            } else {
                0
            },
            None => 0,
        }
    }

    /// The rate of a sample: where instructions were counted with it, its count per instruction,
    /// to be scaled by the instruction rate; elsewhere its count per nanosecond.
    pub open spec fn rated(self, p: Placed) -> MatrixPoint {
        if self.instructions(p) > 0 {
            MatrixPoint {
                rel_ts: p.rel_ts,
                num: p.sample.count,
                den: self.instructions(p),
                scale: self.ref_rate,
            }
        } else {
            MatrixPoint {
                rel_ts: p.rel_ts,
                num: p.sample.count,
                den: p.sample.duration_ns,
                scale: None,
            }
        }
    }

    /// The sink with one more sample of the last quantum.
    pub open spec fn with_sample(self, s: RawSample) -> MatrixView {
        if s.duration_ns == 0 {
            self
        } else {
            let t0 = match self.t0 {
                Some(t0) => t0,
                None => s.timestamp_ns,
            };
            let task = sample::task_text(s.task@);
            let begun = MatrixView { t0: Some(t0), ..self };
            let (named, syn) = begun.with_thread_id(s.tid, task);
            let opened = if syn as int == named.threads.len() + 1 {
                named.threads.push(ThreadView { task, tgid: s.pid, series: Seq::empty() })
            } else {
                named.threads
            };
            let point = Placed {
                rel_ts: if s.timestamp_ns >= t0 {
                    (s.timestamp_ns - t0) as u64
                } else {
                    0
                },
                quantum: (self.quanta.len() - 1) as usize,
                sample: s,
            };
            let thread = opened[syn - 1];
            MatrixView {
                threads: opened.update(
                    syn - 1,
                    ThreadView { series: with_rate(thread.series, s.event_id, point), ..thread },
                ),
                ..named
            }
        }
    }

    /// The sink with more samples of the last quantum.
    pub open spec fn with_samples(self, samples: Seq<RawSample>) -> MatrixView
        decreases samples.len(),
    {
        if samples.len() == 0 {
            self
        } else {
            self.with_samples(samples.drop_last()).with_sample(samples.last())
        }
    }

    /// The sink with one more quantum.
    pub open spec fn with_quantum(self, samples: Seq<RawSample>) -> MatrixView {
        MatrixView { quanta: self.quanta.push(samples), ..self }.with_samples(samples)
    }

    /// Validity: every synthetic thread has data, names are not given out twice, threads of the
    /// batch have IDs that were given out, an anchor comes with an instruction rate, and samples
    /// come from quanta taken in.
    pub open spec fn valid(self) -> bool {
        &&& self.threads.len() == self.names.len()
        &&& self.names.len() < u32::MAX
        &&& self.names.no_duplicates()
        &&& forall|tid: u32| #[trigger]
            self.synthetic.contains_key(tid) ==> 1 <= self.synthetic[tid] <= self.names.len()
        &&& self.event_to_batch.len() == self.event_names.len()
        &&& self.anchor is Some <==> self.ref_rate is Some
        &&& self.quanta.len() <= usize::MAX
        &&& forall|i: int|
            0 <= i < self.threads.len() ==> within((#[trigger] self.threads[i]).series, self.quanta.len())
    }
}

/// Whether all samples come from the first `n` quanta.
pub open spec fn within(series: Seq<SeriesView>, n: nat) -> bool {
    forall|j: int, k: int|
        0 <= j < series.len() && 0 <= k < series[j].1.len() ==> (#[trigger] series[j].1[k]).quantum
            < n
}

/// The batches of events once another batch begins.
pub open spec fn batches_with(
    event_to_batch: Seq<Option<u32>>,
    events: Seq<EventId>,
    batch_id: u32,
) -> Seq<Option<u32>>
    decreases events.len(),
{
    if events.len() == 0 {
        event_to_batch
    } else {
        let rest = batches_with(event_to_batch, events.drop_last(), batch_id);
        if events.last() < rest.len() {
            rest.update(events.last() as int, Some(batch_id))
        } else {
            rest
        }
    }
}

impl View for MatrixSink {
    type V = MatrixView;

    closed spec fn view(&self) -> MatrixView {
        MatrixView {
            dt_ns: self.dt_ns,
            event_names: self.event_names@.map_values(|s: String| s@),
            event_to_batch: self.event_to_batch@,
            quanta: self.quanta@.map_values(|q: Vec<RawSample>| q@),
            threads: self.threads@.map_values(|t: ThreadData| t@),
            names: self.names@.map_values(|n: NameIndex| (n.name@, n.ordinal)),
            batch_id: self.current_batch_id,
            batch_events: self.current_batch_events@,
            synthetic: self.batch_real_to_synthetic@,
            batch_tasks: self.batch_tasks@.map_values(|s: String| s@),
            t0: self.batch_t0,
            anchor: self.anchor_id,
            ref_rate: self.global_ref_rate,
        }
    }
}

proof fn lemma_name_position(s: Seq<(Seq<char>, u32)>, x: (Seq<char>, u32))
    ensures
        match name_position(s, x) {
            Some(i) => 0 <= i < s.len() && s[i] == x,
            None => !s.contains(x),
        },
    decreases s.len(),
{
    if s.len() > 0 && s.last() != x {
        lemma_name_position(s.drop_last(), x);
        if name_position(s, x) is None && s.contains(x) {
            let k = choose|k: int| 0 <= k < s.len() && s[k] == x;
            assert(s.drop_last()[k] == x);
        }
    }
}

proof fn lemma_count_bound(s: Seq<Seq<char>>, x: Seq<char>)
    ensures
        count_of(s, x) <= s.len(),
    decreases s.len(),
{
    if s.len() > 0 {
        lemma_count_bound(s.drop_last(), x);
    }
}

/// Giving out an ID keeps a sink valid, except that the thread may still lack its data.
proof fn lemma_with_thread_id(v: MatrixView, tid: u32, task: Seq<char>)
    requires
        v.valid(),
        v.names.len() < u32::MAX - 1,
    ensures
        ({
            let (w, syn) = v.with_thread_id(tid, task);
            &&& 1 <= syn <= w.names.len()
            &&& w.names.len() == v.names.len() || (w.names.len() == v.names.len() + 1 && syn
                == w.names.len())
            &&& w.names.no_duplicates()
            &&& w.synthetic.contains_key(tid)
            &&& w.synthetic[tid] == syn
            &&& forall|t: u32| #[trigger]
                w.synthetic.contains_key(t) ==> 1 <= w.synthetic[t] <= w.names.len()
        }),
{
    if !v.synthetic.contains_key(tid) {
        let key = (task, count_of(v.batch_tasks, task) as u32);
        lemma_name_position(v.names, key);
        let w = v.with_thread_id(tid, task).0;
        if name_position(v.names, key) is None {
            assert forall|i: int, j: int| 0 <= i < w.names.len() && 0 <= j < w.names.len() && i
                != j implies w.names[i] != w.names[j] by {
                if i == v.names.len() {
                    assert(v.names.contains(v.names[j]));
                } else if j == v.names.len() {
                    assert(v.names.contains(v.names[i]));
                }
            }
        }
    }
}

proof fn lemma_series_position(s: Seq<SeriesView>, event_id: EventId)
    ensures
        match series_position(s, event_id) {
            Some(i) => 0 <= i < s.len() && s[i].0 == event_id,
            None => forall|i: int| 0 <= i < s.len() ==> (#[trigger] s[i]).0 != event_id,
        },
    decreases s.len(),
{
    if s.len() > 0 && s.last().0 != event_id {
        lemma_series_position(s.drop_last(), event_id);
        if series_position(s, event_id) is None {
            assert forall|i: int| 0 <= i < s.len() implies (#[trigger] s[i]).0 != event_id by {
                if i < s.len() - 1 {
                    assert(s.drop_last()[i].0 != event_id);
                }
            }
        }
    }
}

proof fn lemma_within_rate(s: Seq<SeriesView>, event_id: EventId, point: Placed, n: nat)
    requires
        within(s, n),
        point.quantum < n,
    ensures
        within(with_rate(s, event_id, point), n),
{
    lemma_series_position(s, event_id);
    let t = with_rate(s, event_id, point);
    assert forall|j: int, k: int| 0 <= j < t.len() && 0 <= k < t[j].1.len() implies (
    #[trigger] t[j].1[k]).quantum < n by {
        if j < s.len() && k < s[j].1.len() {
            assert(s[j].1[k].quantum < n);
        }
    }
}

/// Taking in a sample keeps a sink valid and gives out at most one ID.
pub proof fn lemma_with_sample(v: MatrixView, s: RawSample)
    requires
        v.valid(),
        v.names.len() < u32::MAX - 1,
        v.quanta.len() > 0,
    ensures
        v.with_sample(s).valid(),
        v.with_sample(s).quanta == v.quanta,
        v.names.len() <= v.with_sample(s).names.len() <= v.names.len() + 1,
        v.with_sample(s).batch_tasks.len() <= v.batch_tasks.len() + 1,
{
    if s.duration_ns > 0 {
        let t0 = match v.t0 {
            Some(t0) => t0,
            None => s.timestamp_ns,
        };
        let begun = MatrixView { t0: Some(t0), ..v };
        let task = sample::task_text(s.task@);
        lemma_with_thread_id(begun, s.tid, task);
        let (named, syn) = begun.with_thread_id(s.tid, task);
        let after = v.with_sample(s);
        let at = syn - 1;
        let old_series = if at < v.threads.len() {
            v.threads[at].series
        } else {
            Seq::empty()
        };
        let point = Placed {
            rel_ts: if s.timestamp_ns >= t0 {
                (s.timestamp_ns - t0) as u64
            } else {
                0
            },
            quantum: (v.quanta.len() - 1) as usize,
            sample: s,
        };
        lemma_within_rate(old_series, s.event_id, point, v.quanta.len());
        assert(after.threads[at].series == with_rate(old_series, s.event_id, point));
        assert forall|i: int| 0 <= i < after.threads.len() implies within(
            (#[trigger] after.threads[i]).series,
            after.quanta.len(),
        ) by {
            if i != at {
                assert(after.threads[i] == v.threads[i]);
            }
        }
    }
}

/// Taking in samples keeps a sink valid.
pub proof fn lemma_with_samples(v: MatrixView, samples: Seq<RawSample>)
    requires
        v.valid(),
        v.names.len() + samples.len() < u32::MAX,
        v.quanta.len() > 0,
    ensures
        v.with_samples(samples).valid(),
        v.with_samples(samples).quanta == v.quanta,
        v.with_samples(samples).names.len() <= v.names.len() + samples.len(),
        v.with_samples(samples).batch_tasks.len() <= v.batch_tasks.len() + samples.len(),
    decreases samples.len(),
{
    if samples.len() > 0 {
        lemma_with_samples(v, samples.drop_last());
        lemma_with_sample(v.with_samples(samples.drop_last()), samples.last());
    }
}

/// The views of a list of series.
spec fn series_views(s: Seq<EventSeries>) -> Seq<SeriesView> {
    s.map_values(|s: EventSeries| (s.event_id, s.points@))
}

/// Adds a point to the series of an event.
fn add_rate(series: &mut Vec<EventSeries>, event_id: EventId, point: Placed)
    ensures
        series_views(final(series)@) == with_rate(series_views(old(series)@), event_id, point),
{
    let ghost views = series_views(series@);
    let mut n: usize = series.len();
    assert(views.take(n as int) =~= views);
    while n > 0
        invariant
            n <= series@.len(),
            *series == *old(series),
            views == series_views(series@),
            series_position(views, event_id) == series_position(views.take(n as int), event_id),
        decreases n,
    {
        assert(views.take(n as int).drop_last() =~= views.take(n - 1));
        if series[n - 1].event_id == event_id {
            let ghost before = series@;
            series[n - 1].points.push(point);
            assert(series@[n - 1].points@ == before[n - 1].points@.push(point));
            assert(series@[n - 1].event_id == event_id);
            assert(series_views(series@) =~= with_rate(views, event_id, point));
            return;
        }
        n = n - 1;
    }
    let mut points: Vec<Placed> = Vec::new();
    points.push(point);
    assert(points@ =~= seq![point]);
    series.push(EventSeries { event_id, points });
    assert(series_views(series@) =~= with_rate(views, event_id, point));
}

/// The positions, by time, of the samples of the anchor event that took any time.
pub open spec fn anchor_positions(samples: Seq<RawSample>, anchor: EventId, ts: u64) -> Seq<usize>
    decreases samples.len(),
{
    if samples.len() == 0 {
        Seq::empty()
    } else {
        let rest = anchor_positions(samples.drop_last(), anchor, ts);
        let a = samples.last();
        if a.event_id == anchor && a.duration_ns > 0 && a.timestamp_ns == ts {
            rest.push((samples.len() - 1) as usize)
        } else {
            rest
        }
    }
}

/// The count of the last of some samples that comes from the same record as `s`.
spec fn scan(samples: Seq<RawSample>, positions: Seq<usize>, s: RawSample) -> u64
    decreases positions.len(),
{
    if positions.len() == 0 {
        0
    } else if same_record(samples[positions.last() as int], s) {
        samples[positions.last() as int].count
    } else {
        scan(samples, positions.drop_last(), s)
    }
}

proof fn lemma_scan(samples: Seq<RawSample>, anchor: EventId, s: RawSample, n: int)
    requires
        0 <= n <= samples.len() <= usize::MAX,
    ensures
        anchor_count(samples.take(n), anchor, s) == scan(
            samples,
            anchor_positions(samples.take(n), anchor, s.timestamp_ns),
            s,
        ),
        forall|k: int|
            0 <= k < anchor_positions(samples.take(n), anchor, s.timestamp_ns).len() ==> (
            #[trigger] anchor_positions(samples.take(n), anchor, s.timestamp_ns)[k])
                < samples.len(),
    decreases n,
{
    if n > 0 {
        lemma_scan(samples, anchor, s, n - 1);
        assert(samples.take(n).drop_last() =~= samples.take(n - 1));
        let rest = anchor_positions(samples.take(n - 1), anchor, s.timestamp_ns);
        assert(rest.push((n - 1) as usize).drop_last() =~= rest);
    }
}

/// Whether a table holds, by time, the positions of the samples of the anchor event.
spec fn finds(table: Map<u64, Vec<usize>>, samples: Seq<RawSample>, anchor: EventId) -> bool {
    forall|ts: u64|
        (#[trigger] anchor_positions(samples, anchor, ts)) == (if table.contains_key(ts) {
            table[ts]@
        } else {
            Seq::empty()
        })
}

/// Finds the samples of the anchor event by time.
fn anchor_table(samples: &Vec<RawSample>, anchor: EventId) -> (r: HashMap<u64, Vec<usize>>)
    ensures
        finds(r@, samples@, anchor),
{
    let mut table: HashMap<u64, Vec<usize>> = HashMap::new();
    let mut i: usize = 0;
    assert(samples@.take(0) =~= Seq::empty());
    while i < samples.len()
        invariant
            i <= samples@.len(),
            forall|ts: u64|
                (#[trigger] anchor_positions(samples@.take(i as int), anchor, ts)) == (
                if table@.contains_key(ts) {
                    table@[ts]@
                } else {
                    Seq::empty()
                }),
        decreases samples@.len() - i,
    {
        let a = samples[i];
        let ghost before = table@;
        let ghost seen = samples@.take(i as int);
        let ghost next = samples@.take(i as int + 1);
        assert(next.drop_last() =~= seen);
        if a.event_id == anchor && a.duration_ns > 0 {
            let mut list: Vec<usize> = match table.remove(&a.timestamp_ns) {
                Some(list) => list,
                None => Vec::new(),
            };
            assert(list@ =~= anchor_positions(seen, anchor, a.timestamp_ns));
            list.push(i);
            table.insert(a.timestamp_ns, list);
        }
        assert forall|ts: u64|
            (#[trigger] anchor_positions(next, anchor, ts)) == (if table@.contains_key(ts) {
                table@[ts]@
            } else {
                Seq::empty()
            }) by {
            assert(anchor_positions(seen, anchor, ts) == (if before.contains_key(ts) {
                before[ts]@
            } else {
                Seq::empty()
            }));
        }
        i = i + 1;
    }
    assert(samples@.take(samples@.len() as int) =~= samples@);
    table
}

fn find_anchor_count(
    samples: &Vec<RawSample>,
    table: &HashMap<u64, Vec<usize>>,
    anchor: EventId,
    s: &RawSample,
) -> (r: u64)
    requires
        finds(table@, samples@, anchor),
    ensures
        r == anchor_count(samples@, anchor, *s),
{
    proof {
        assert(samples@.len() == samples.len());
        lemma_scan(samples@, anchor, *s, samples@.len() as int);
        assert(samples@.take(samples@.len() as int) =~= samples@);
    }
    let ghost all = anchor_positions(samples@, anchor, s.timestamp_ns);
    match table.get(&s.timestamp_ns) {
        None => 0,
        Some(list) => {
            let mut n: usize = list.len();
            assert(all.take(n as int) =~= all);
            while n > 0
                invariant
                    n <= list@.len(),
                    list@ == all,
                    forall|k: int| 0 <= k < all.len() ==> (#[trigger] all[k]) < samples@.len(),
                    scan(samples@, all, *s) == anchor_count(samples@, anchor, *s),
                    scan(samples@, all, *s) == scan(samples@, all.take(n as int), *s),
                decreases n,
            {
                assert(all.take(n as int).drop_last() =~= all.take(n - 1));
                let a = samples[list[n - 1]];
                if a.cpu_id == s.cpu_id && a.timestamp_ns == s.timestamp_ns && a.tid == s.tid {
                    return a.count;
                }
                n = n - 1;
            }
            0
        },
    }
}

impl MatrixSink {
    /// Validity.
    pub open spec fn wf(&self) -> bool {
        self@.valid()
    }

    /// A sink with time bins of `dt_ns`.
    pub fn new(event_names: Vec<String>, dt_ns: u64) -> (r: Self)
        ensures
            r.wf(),
            r@ == (MatrixView {
                dt_ns,
                event_names: event_names@.map_values(|s: String| s@),
                event_to_batch: Seq::new(event_names@.len(), |i: int| None::<u32>),
                quanta: Seq::empty(),
                threads: Seq::empty(),
                names: Seq::empty(),
                batch_id: 0,
                batch_events: Seq::empty(),
                synthetic: Map::empty(),
                batch_tasks: Seq::empty(),
                t0: None,
                anchor: None,
                ref_rate: None,
            }),
    {
        let mut event_to_batch: Vec<Option<u32>> = Vec::new();
        let mut i: usize = 0;
        while i < event_names.len()
            invariant
                i <= event_names@.len(),
                event_to_batch@ == Seq::new(i as nat, |i: int| None::<u32>),
            decreases event_names@.len() - i,
        {
            event_to_batch.push(None);
            i = i + 1;
            assert(event_to_batch@ =~= Seq::new(i as nat, |i: int| None::<u32>));
        }
        let ghost names = event_names@;
        let r = MatrixSink {
            dt_ns,
            event_names,
            event_to_batch,
            quanta: Vec::new(),
            threads: Vec::new(),
            names: Vec::new(),
            current_batch_id: 0,
            current_batch_events: Vec::new(),
            batch_real_to_synthetic: HashMap::new(),
            batch_tasks: Vec::new(),
            batch_t0: None,
            anchor_id: None,
            global_ref_rate: None,
        };
        assert(r@ =~= (MatrixView {
            dt_ns,
            event_names: names.map_values(|s: String| s@),
            event_to_batch: Seq::new(names.len(), |i: int| None::<u32>),
            quanta: Seq::empty(),
            threads: Seq::empty(),
            names: Seq::empty(),
            batch_id: 0,
            batch_events: Seq::empty(),
            synthetic: Map::empty(),
            batch_tasks: Seq::empty(),
            t0: None,
            anchor: None,
            ref_rate: None,
        }));
        r
    }

    /// Sets the event that rates are normalized by, and the instruction rate, as a bit pattern,
    /// that they are scaled by in the end.
    pub fn set_anchor(&mut self, anchor_id: EventId, global_ref_rate: u64)
        requires
            old(self).wf(),
        ensures
            final(self).wf(),
            final(self)@ == (MatrixView {
                anchor: Some(anchor_id),
                ref_rate: Some(global_ref_rate),
                ..old(self)@
            }),
    {
        self.anchor_id = Some(anchor_id);
        self.global_ref_rate = Some(global_ref_rate);
    }

    /// Begins a batch: its events are noted as measured by it, and threads and time start anew.
    pub fn begin_batch(&mut self, batch_id: u32, events: &Vec<EventId>)
        requires
            old(self).wf(),
        ensures
            final(self).wf(),
            final(self)@ == (MatrixView {
                batch_id,
                batch_events: events@,
                event_to_batch: batches_with(old(self)@.event_to_batch, events@, batch_id),
                synthetic: Map::empty(),
                batch_tasks: Seq::empty(),
                t0: None,
                ..old(self)@
            }),
    {
        self.current_batch_id = batch_id;
        self.current_batch_events = events.clone();
        let ghost start = self.event_to_batch@;
        let mut i: usize = 0;
        assert(events@.take(0) =~= Seq::empty());
        while i < events.len()
            invariant
                i <= events@.len(),
                self.event_to_batch@ == batches_with(start, events@.take(i as int), batch_id),
                self.event_to_batch@.len() == start.len(),
                self@ == (MatrixView {
                    batch_id,
                    batch_events: events@,
                    event_to_batch: self.event_to_batch@,
                    ..old(self)@
                }),
            decreases events@.len() - i,
        {
            assert(events@.take(i as int + 1).drop_last() =~= events@.take(i as int));
            let e = events[i] as usize;
            if e < self.event_to_batch.len() {
                self.event_to_batch.set(e, Some(batch_id));
            }
            i = i + 1;
        }
        assert(events@.take(events@.len() as int) =~= events@);
        self.batch_real_to_synthetic = HashMap::new();
        self.batch_tasks = Vec::new();
        self.batch_t0 = None;
        assert(self@.batch_tasks =~= Seq::empty());
    }

    fn count_task(&self, task: &str) -> (r: u32)
        requires
            self@.batch_tasks.len() < u32::MAX,
        ensures
            r == count_of(self@.batch_tasks, task@),
    {
        let ghost tasks = self@.batch_tasks;
        let mut n: u32 = 0;
        let mut i: usize = 0;
        assert(tasks.take(0) =~= Seq::empty());
        while i < self.batch_tasks.len()
            invariant
                i <= tasks.len(),
                tasks == self@.batch_tasks,
                tasks.len() < u32::MAX,
                n <= i,
                n == count_of(tasks.take(i as int), task@),
            decreases tasks.len() - i,
        {
            assert(tasks.take(i as int + 1).drop_last() =~= tasks.take(i as int));
            assert(tasks[i as int] == self.batch_tasks@[i as int]@);
            if same_text(self.batch_tasks[i].as_str(), task) {
                n = n + 1;
            }
            i = i + 1;
        }
        assert(tasks.take(tasks.len() as int) =~= tasks);
        n
    }

    fn find_name(&self, task: &str, ordinal: u32) -> (r: Option<usize>)
        ensures
            match r {
                Some(i) => name_position(self@.names, (task@, ordinal)) == Some(i as int) && i
                    < self@.names.len(),
                None => name_position(self@.names, (task@, ordinal)) is None,
            },
    {
        let ghost names = self@.names;
        let mut n: usize = self.names.len();
        assert(names.take(n as int) =~= names);
        while n > 0
            invariant
                n <= self.names@.len(),
                names == self@.names,
                name_position(names, (task@, ordinal)) == name_position(
                    names.take(n as int),
                    (task@, ordinal),
                ),
            decreases n,
        {
            assert(names.take(n as int).drop_last() =~= names.take(n - 1));
            assert(names[n - 1] == (self.names@[n - 1].name@, self.names@[n - 1].ordinal));
            if self.names[n - 1].ordinal == ordinal && same_text(
                self.names[n - 1].name.as_str(),
                task,
            ) {
                return Some(n - 1);
            }
            n = n - 1;
        }
        None
    }

    fn thread_id(&mut self, tid: u32, task: &String) -> (r: u32)
        requires
            old(self).wf(),
            old(self)@.names.len() < u32::MAX - 1,
            old(self)@.batch_tasks.len() < u32::MAX,
        ensures
            (final(self)@, r) == old(self)@.with_thread_id(tid, task@),
            final(self).threads == old(self).threads,
    {
        if let Some(syn) = self.batch_real_to_synthetic.get(&tid) {
            return *syn;
        }
        let ordinal = self.count_task(task.as_str());
        proof {
            lemma_count_bound(self@.batch_tasks, task@);
        }
        let syn: u32 = match self.find_name(task.as_str(), ordinal) {
            Some(i) => (i + 1) as u32,
            None => {
                self.names.push(NameIndex { name: task.clone(), ordinal });
                self.names.len() as u32
            },
        };
        self.batch_real_to_synthetic.insert(tid, syn);
        self.batch_tasks.push(task.clone());
        assert(self@ =~= old(self)@.with_thread_id(tid, task@).0);
        syn
    }

    fn take_sample(&mut self, s: &RawSample)
        requires
            old(self).wf(),
            old(self)@.names.len() < u32::MAX - 1,
            old(self)@.batch_tasks.len() < u32::MAX,
            old(self)@.quanta.len() > 0,
        ensures
            final(self).wf(),
            final(self)@ == old(self)@.with_sample(*s),
    {
        if s.duration_ns == 0 {
            return;
        }
        proof {
            lemma_with_sample(self@, *s);
        }
        let t0: u64 = match self.batch_t0 {
            Some(t0) => t0,
            None => s.timestamp_ns,
        };
        self.batch_t0 = Some(t0);
        let ghost begun = self@;
        let rel_ts: u64 = if s.timestamp_ns >= t0 {
            s.timestamp_ns - t0
        } else {
            0
        };
        let task = task_name(&s.task);
        let syn = self.thread_id(s.tid, &task);
        proof {
            lemma_with_thread_id(begun, s.tid, task@);
        }
        let ghost named = self@;
        if syn as usize == self.threads.len() + 1 {
            self.threads.push(
                ThreadData { task_name: task, tgid: s.pid, series: Vec::new() },
            );
            assert(self.threads@.last()@.series =~= Seq::empty());
            assert(self@.threads =~= named.threads.push(
                ThreadView { task: task@, tgid: s.pid, series: Seq::empty() },
            ));
        }
        let ghost opened = self@.threads;
        let point = Placed { rel_ts, quantum: self.quanta.len() - 1, sample: *s };
        let at: usize = syn as usize - 1;
        let ghost before = self.threads@;
        add_rate(&mut self.threads[at].series, s.event_id, point);
        proof {
            assert(series_views(self.threads@[at as int].series@) == with_rate(
                series_views(before[at as int].series@),
                s.event_id,
                point,
            ));
            let thread = opened[at as int];
            assert(self.threads@[at as int]@ == (ThreadView {
                series: with_rate(thread.series, s.event_id, point),
                ..thread
            }));
            assert(self@.threads =~= opened.update(
                at as int,
                ThreadView { series: with_rate(thread.series, s.event_id, point), ..thread },
            ));
            assert(self@ =~= old(self)@.with_sample(*s));
        }
    }

    /// Takes in the samples of a quantum. What they are divided by is settled in the end.
    pub fn emit(&mut self, samples: &Vec<RawSample>)
        requires
            old(self).wf(),
            old(self)@.quanta.len() < usize::MAX,
            old(self)@.names.len() + samples@.len() < u32::MAX,
            old(self)@.batch_tasks.len() + samples@.len() < u32::MAX,
        ensures
            final(self).wf(),
            final(self)@ == old(self)@.with_quantum(samples@),
    {
        let ghost start = MatrixView { quanta: old(self)@.quanta.push(samples@), ..old(self)@ };
        self.quanta.push(samples.clone());
        assert(self@ =~= start);
        assert forall|i: int| 0 <= i < start.threads.len() implies within(
            (#[trigger] start.threads[i]).series,
            start.quanta.len(),
        ) by {
            assert(within(old(self)@.threads[i].series, old(self)@.quanta.len()));
        }
        let mut i: usize = 0;
        assert(samples@.take(0) =~= Seq::empty());
        while i < samples.len()
            invariant
                i <= samples@.len(),
                start.valid(),
                start.quanta.len() > 0,
                self.wf(),
                start.names.len() + samples@.len() < u32::MAX,
                start.batch_tasks.len() + samples@.len() < u32::MAX,
                self@ == start.with_samples(samples@.take(i as int)),
            decreases samples@.len() - i,
        {
            assert(samples@.take(i as int + 1).drop_last() =~= samples@.take(i as int));
            proof {
                lemma_with_samples(start, samples@.take(i as int));
            }
            let s = samples[i];
            self.take_sample(&s);
            i = i + 1;
        }
        assert(samples@.take(samples@.len() as int) =~= samples@);
    }
}

/// One time bin of one event.
pub struct RowBin {
    /// Number of the bin.
    pub index: u64,
    /// The rates in the bin, in the order of the samples.
    pub points: Vec<MatrixPoint>,
}

/// The time bins of one event.
pub struct MatrixRow {
    /// The event.
    pub event_id: EventId,
    /// Its bins; bins without a rate are left out.
    pub bins: Vec<RowBin>,
}

/// The rates of one synthetic thread, binned.
pub struct ThreadMatrix {
    /// Synthetic thread ID.
    pub tid: u32,
    /// Task name.
    pub task_name: String,
    /// Process ID.
    pub tgid: u32,
    /// Number of time bins.
    pub n_timesteps: u64,
    /// One row per event measured.
    pub rows: Vec<MatrixRow>,
}

/// Times of points.
pub open spec fn times_of(points: Seq<Placed>) -> Seq<u64> {
    points.map_values(|p: Placed| p.rel_ts)
}

/// Whether a row holds exactly the rates of a series, binned.
pub open spec fn is_row(row: MatrixRow, series: SeriesView, dt: u64, v: MatrixView) -> bool {
    &&& row.event_id == series.0
    &&& forall|i: int, j: int|
        0 <= i < j < row.bins@.len() ==> (#[trigger] row.bins@[i]).index != (
        #[trigger] row.bins@[j]).index
    &&& forall|i: int|
        0 <= i < row.bins@.len() ==> (#[trigger] row.bins@[i]).points@.len() > 0
            && row.bins@[i].points@ == bins::positions_in(
            times_of(series.1),
            dt,
            row.bins@[i].index,
        ).map_values(|p: usize| v.rated(series.1[p as int]))
    &&& forall|b: u64|
        (#[trigger] bins::positions_in(times_of(series.1), dt, b)).len() > 0 ==> exists|i: int|
            0 <= i < row.bins@.len() && (#[trigger] row.bins@[i]).index == b
}

/// The latest time in some points; zero if there is none.
pub open spec fn latest(points: Seq<Placed>) -> u64
    decreases points.len(),
{
    if points.len() == 0 {
        0
    } else {
        let rest = latest(points.drop_last());
        if points.last().rel_ts > rest {
            points.last().rel_ts
        } else {
            rest
        }
    }
}

/// The latest time in some series.
pub open spec fn latest_of(series: Seq<SeriesView>) -> u64
    decreases series.len(),
{
    if series.len() == 0 {
        0
    } else {
        let rest = latest_of(series.drop_last());
        if latest(series.last().1) > rest {
            latest(series.last().1)
        } else {
            rest
        }
    }
}

/// The series of the events that have a name.
pub open spec fn named_series(series: Seq<SeriesView>, n_events: nat) -> Seq<SeriesView>
    decreases series.len(),
{
    if series.len() == 0 {
        Seq::empty()
    } else {
        let rest = named_series(series.drop_last(), n_events);
        if series.last().0 < n_events {
            rest.push(series.last())
        } else {
            rest
        }
    }
}

/// The bin width in use: at least one.
pub open spec fn bin_width(dt_ns: u64) -> u64 {
    if dt_ns == 0 {
        1
    } else {
        dt_ns
    }
}

/// Whether a matrix holds exactly the rates of a thread.
pub open spec fn is_thread_matrix(
    m: ThreadMatrix,
    tid: int,
    thread: ThreadView,
    dt: u64,
    v: MatrixView,
) -> bool {
    let series = named_series(thread.series, v.event_names.len());
    &&& m.tid == tid
    &&& m.task_name@ == thread.task
    &&& m.tgid == thread.tgid
    &&& m.n_timesteps == latest_of(thread.series) / dt + 1
    &&& m.rows@.len() == series.len()
    &&& forall|i: int| 0 <= i < series.len() ==> is_row(#[trigger] m.rows@[i], series[i], dt, v)
}

fn latest_time(points: &Vec<Placed>) -> (r: u64)
    ensures
        r == latest(points@),
{
    let mut max: u64 = 0;
    let mut i: usize = 0;
    assert(points@.take(0) =~= Seq::empty());
    while i < points.len()
        invariant
            i <= points@.len(),
            max == latest(points@.take(i as int)),
        decreases points@.len() - i,
    {
        assert(points@.take(i as int + 1).drop_last() =~= points@.take(i as int));
        if points[i].rel_ts > max {
            max = points[i].rel_ts;
        }
        i = i + 1;
    }
    assert(points@.take(points@.len() as int) =~= points@);
    max
}

impl MatrixSink {
    /// Whether `tables` finds the samples of the anchor, if there is one, in every quantum.
    spec fn tabled(&self, tables: Seq<HashMap<u64, Vec<usize>>>) -> bool {
        self@.anchor matches Some(anchor) ==> {
            &&& tables.len() == self@.quanta.len()
            &&& forall|q: int|
                0 <= q < tables.len() ==> finds(#[trigger] tables[q]@, self@.quanta[q], anchor)
        }
    }

    /// The rate of a sample.
    fn rate(&self, p: &Placed, tables: &Vec<HashMap<u64, Vec<usize>>>) -> (r: MatrixPoint)
        requires
            self.tabled(tables@),
            p.quantum < self@.quanta.len(),
        ensures
            r == self@.rated(*p),
    {
        let instructions: u64 = match self.anchor_id {
            Some(anchor) => if p.sample.event_id != anchor {
                let quantum = &self.quanta[p.quantum];
                assert(self@.quanta[p.quantum as int] == quantum@);
                assert(finds(tables@[p.quantum as int]@, quantum@, anchor));
                find_anchor_count(quantum, &tables[p.quantum], anchor, &p.sample)
            } else {
                0
            },
            None => 0,
        };
        if instructions > 0 {
            MatrixPoint {
                rel_ts: p.rel_ts,
                num: p.sample.count,
                den: instructions,
                scale: self.global_ref_rate,
            }
        } else {
            MatrixPoint {
                rel_ts: p.rel_ts,
                num: p.sample.count,
                den: p.sample.duration_ns,
                scale: None,
            }
        }
    }

    /// Finds the samples of the anchor in every quantum.
    fn make_tables(&self) -> (r: Vec<HashMap<u64, Vec<usize>>>)
        ensures
            self.tabled(r@),
    {
        let mut tables: Vec<HashMap<u64, Vec<usize>>> = Vec::new();
        if let Some(anchor) = self.anchor_id {
            let mut q: usize = 0;
            while q < self.quanta.len()
                invariant
                    q <= self.quanta@.len(),
                    tables@.len() == q,
                    self@.anchor == Some(anchor),
                    forall|k: int|
                        0 <= k < q ==> finds(#[trigger] tables@[k]@, self@.quanta[k], anchor),
                decreases self.quanta@.len() - q,
            {
                assert(self@.quanta[q as int] == self.quanta@[q as int]@);
                let table = anchor_table(&self.quanta[q], anchor);
                tables.push(table);
                q = q + 1;
            }
        }
        tables
    }

    fn make_row(&self, series: &EventSeries, dt: u64, tables: &Vec<HashMap<u64, Vec<usize>>>) -> (r:
        MatrixRow)
        requires
            dt > 0,
            self.tabled(tables@),
            forall|k: int|
                0 <= k < series.points@.len() ==> (#[trigger] series.points@[k]).quantum
                    < self@.quanta.len(),
        ensures
            is_row(r, (series.event_id, series.points@), dt, self@),
    {
        let mut times: Vec<u64> = Vec::new();
        let mut i: usize = 0;
        while i < series.points.len()
            invariant
                i <= series.points@.len(),
                times@ == times_of(series.points@.take(i as int)),
            decreases series.points@.len() - i,
        {
            times.push(series.points[i].rel_ts);
            i = i + 1;
            assert(times@ =~= times_of(series.points@.take(i as int)));
        }
        assert(series.points@.take(series.points@.len() as int) =~= series.points@);
        let found = bin_times(&times, dt);
        let mut row: Vec<RowBin> = Vec::new();
        let mut k: usize = 0;
        while k < found.len()
            invariant
                k <= found@.len(),
                dt > 0,
                self.tabled(tables@),
                forall|k: int|
                    0 <= k < series.points@.len() ==> (#[trigger] series.points@[k]).quantum
                        < self@.quanta.len(),
                times@ == times_of(series.points@),
                times@.len() <= usize::MAX,
                bins::is_binning(found@, times@, dt),
                row@.len() == k,
                forall|j: int|
                    0 <= j < k ==> (#[trigger] row@[j]).index == found@[j].index
                        && row@[j].points@.len() > 0 && row@[j].points@ == bins::positions_in(
                        times_of(series.points@),
                        dt,
                        row@[j].index,
                    ).map_values(|p: usize| self@.rated(series.points@[p as int])),
            decreases found@.len() - k,
        {
            let bin = &found[k];
            proof {
                bins::bins_hold_their_points(times@, dt, bin.index);
            }
            let ghost all = bins::positions_in(times_of(series.points@), dt, bin.index);
            let mut points: Vec<MatrixPoint> = Vec::new();
            let mut p: usize = 0;
            while p < bin.positions.len()
                invariant
                    p <= bin.positions@.len(),
                    self.tabled(tables@),
                    forall|k: int|
                        0 <= k < series.points@.len() ==> (#[trigger] series.points@[k]).quantum
                            < self@.quanta.len(),
                    bin.positions@ == all,
                    forall|q: int| 0 <= q < all.len() ==> (#[trigger] all[q]) < series.points@.len(),
                    points@ == all.take(p as int).map_values(|p: usize| self@.rated(series.points@[p as int])),
                decreases bin.positions@.len() - p,
            {
                points.push(self.rate(&series.points[bin.positions[p]], tables));
                p = p + 1;
                assert(points@ =~= all.take(p as int).map_values(
                    |p: usize| self@.rated(series.points@[p as int]),
                ));
            }
            assert(all.take(all.len() as int) =~= all);
            row.push(RowBin { index: bin.index, points });
            k = k + 1;
        }
        let r = MatrixRow { event_id: series.event_id, bins: row };
        proof {
            assert forall|i: int, j: int| 0 <= i < j < r.bins@.len() implies (
            #[trigger] r.bins@[i]).index != (#[trigger] r.bins@[j]).index by {
                assert(found@[i].index != found@[j].index);
            }
            assert forall|b: u64|
                (#[trigger] bins::positions_in(
                    times_of(series.points@),
                    dt,
                    b,
                )).len() > 0 implies exists|i: int|
                0 <= i < r.bins@.len() && (#[trigger] r.bins@[i]).index == b by {
                assert(bins::has_bin(found@, b));
                let i = choose|i: int| 0 <= i < found@.len() && (#[trigger] found@[i]).index == b;
                assert(r.bins@[i].index == b);
            }
        }
        r
    }

    fn make_thread_matrix(
        &self,
        tid: u32,
        thread: &ThreadData,
        dt: u64,
        tables: &Vec<HashMap<u64, Vec<usize>>>,
    ) -> (r: ThreadMatrix)
        requires
            dt > 0,
            self.tabled(tables@),
            within(thread@.series, self@.quanta.len()),
            latest_of(thread@.series) / dt < u64::MAX,
        ensures
            is_thread_matrix(r, tid as int, thread@, dt, self@),
    {
        let ghost views = series_views(thread.series@);
        assert(views == thread@.series);
        let mut max: u64 = 0;
        let mut rows: Vec<MatrixRow> = Vec::new();
        let mut i: usize = 0;
        assert(views.take(0) =~= Seq::empty());
        while i < thread.series.len()
            invariant
                i <= thread.series@.len(),
                dt > 0,
                self.tabled(tables@),
                within(views, self@.quanta.len()),
                views == series_views(thread.series@),
                max == latest_of(views.take(i as int)),
                rows@.len() == named_series(views.take(i as int), self@.event_names.len()).len(),
                forall|k: int|
                    0 <= k < rows@.len() ==> is_row(
                        #[trigger] rows@[k],
                        named_series(views.take(i as int), self@.event_names.len())[k],
                        dt,
                        self@,
                    ),
            decreases thread.series@.len() - i,
        {
            assert(views.take(i as int + 1).drop_last() =~= views.take(i as int));
            let s = &thread.series[i];
            assert(views[i as int] == (s.event_id, s.points@));
            let last = latest_time(&s.points);
            if last > max {
                max = last;
            }
            let ghost before = rows@;
            let ghost named = named_series(views.take(i as int), self@.event_names.len());
            if (s.event_id as u64) < self.event_names.len() as u64 {
                assert forall|k: int| 0 <= k < s.points@.len() implies (#[trigger] s.points@[k]).quantum
                    < self@.quanta.len() by {
                    assert(views[i as int].1[k].quantum < self@.quanta.len());
                }
                rows.push(self.make_row(s, dt, tables));
            }
            i = i + 1;
            let ghost after = named_series(views.take(i as int), self@.event_names.len());
            assert forall|k: int| 0 <= k < rows@.len() implies is_row(
                #[trigger] rows@[k],
                after[k],
                dt,
                self@,
            ) by {
                if k < before.len() {
                    assert(rows@[k] == before[k]);
                    assert(after[k] == named[k]);
                }
            }
        }
        assert(views.take(views.len() as int) =~= views);
        ThreadMatrix {
            tid,
            task_name: thread.task_name.clone(),
            tgid: thread.tgid,
            n_timesteps: max / dt + 1,
            rows,
        }
    }
}

impl MatrixSink {
    /// The width of a time bin in use.
    pub fn bin_width_ns(&self) -> (r: u64)
        ensures
            r == bin_width(self@.dt_ns),
    {
        if self.dt_ns == 0 {
            1
        } else {
            self.dt_ns
        }
    }

    /// The event names, by event ID.
    pub fn event_names(&self) -> (r: &Vec<String>)
        ensures
            r@.map_values(|s: String| s@) == self@.event_names,
    {
        &self.event_names
    }

    /// The batch that measured each event, by event ID.
    pub fn event_to_batch(&self) -> (r: &Vec<Option<u32>>)
        ensures
            r@ == self@.event_to_batch,
    {
        &self.event_to_batch
    }

    /// All that was collected, binned, one matrix per synthetic thread in order of their IDs. With
    /// an anchor, a sample of another event is divided by the instructions counted in the same
    /// record, if any, and scaled by the instruction rate, and otherwise divided by its duration.
    pub fn finish(&self) -> (r: Vec<ThreadMatrix>)
        requires
            self.wf(),
            forall|i: int|
                0 <= i < self@.threads.len() ==> latest_of((#[trigger] self@.threads[i]).series)
                    / bin_width(self@.dt_ns) < u64::MAX,
        ensures
            r@.len() == self@.threads.len(),
            forall|i: int|
                0 <= i < r@.len() ==> is_thread_matrix(
                    #[trigger] r@[i],
                    i + 1,
                    self@.threads[i],
                    bin_width(self@.dt_ns),
                    self@,
                ),
    {
        let dt = self.bin_width_ns();
        let tables = self.make_tables();
        let mut r: Vec<ThreadMatrix> = Vec::new();
        let mut i: usize = 0;
        while i < self.threads.len()
            invariant
                i <= self.threads@.len(),
                self.wf(),
                dt == bin_width(self@.dt_ns),
                forall|i: int|
                    0 <= i < self@.threads.len() ==> latest_of(
                        (#[trigger] self@.threads[i]).series,
                    ) / bin_width(self@.dt_ns) < u64::MAX,
                r@.len() == i,
                forall|k: int|
                    0 <= k < r@.len() ==> is_thread_matrix(
                        #[trigger] r@[k],
                        k + 1,
                        self@.threads[k],
                        bin_width(self@.dt_ns),
                        self@,
                    ),
                self.tabled(tables@),
            decreases self.threads@.len() - i,
        {
            assert(self@.threads[i as int] == self.threads@[i as int]@);
            assert(latest_of(self@.threads[i as int].series) / dt < u64::MAX);
            assert(within(self@.threads[i as int].series, self@.quanta.len()));
            let m = self.make_thread_matrix((i + 1) as u32, &self.threads[i], dt, &tables);
            r.push(m);
            i = i + 1;
        }
        r
    }
}

/// The same task name and rank stand for the same synthetic thread in every batch: a thread gets
/// an ID whose name is its task name with its rank among the threads of that name.
pub proof fn synthetic_ids_are_names(v: MatrixView, tid: u32, task: Seq<char>)
    requires
        v.valid(),
        v.names.len() < u32::MAX - 1,
        !v.synthetic.contains_key(tid),
    ensures
        ({
            let (w, syn) = v.with_thread_id(tid, task);
            w.names[syn - 1] == (task, count_of(v.batch_tasks, task) as u32)
                && w.names.no_duplicates() && v.names.is_prefix_of(w.names)
        }),
{
    lemma_with_thread_id(v, tid, task);
    lemma_name_position(v.names, (task, count_of(v.batch_tasks, task) as u32));
}

/// The sink with another anchor.
pub open spec fn anchored(v: MatrixView, anchor: Option<EventId>, rate: Option<u64>) -> MatrixView {
    MatrixView { anchor, ref_rate: rate, ..v }
}

proof fn lemma_anchored_samples(
    v: MatrixView,
    samples: Seq<RawSample>,
    anchor: Option<EventId>,
    rate: Option<u64>,
)
    ensures
        anchored(v.with_samples(samples), anchor, rate) == anchored(v, anchor, rate).with_samples(
            samples,
        ),
    decreases samples.len(),
{
    if samples.len() > 0 {
        lemma_anchored_samples(v, samples.drop_last(), anchor, rate);
    }
}

/// It makes no difference whether the anchor is set before a quantum is taken in or after it.
pub proof fn anchor_may_come_late(
    v: MatrixView,
    samples: Seq<RawSample>,
    anchor: Option<EventId>,
    rate: Option<u64>,
)
    ensures
        anchored(v.with_quantum(samples), anchor, rate) == anchored(v, anchor, rate).with_quantum(
            samples,
        ),
{
    lemma_anchored_samples(
        MatrixView { quanta: v.quanta.push(samples), ..v },
        samples,
        anchor,
        rate,
    );
}

/// A sample of another event than the anchor is divided by the anchor's count in its own record
/// where that is positive, and then scaled by the instruction rate; where it is not, the sample is
/// divided by its own duration, and not scaled.
pub proof fn rates_are_per_anchor(v: MatrixView, p: Placed, anchor: EventId)
    requires
        v.valid(),
        v.anchor == Some(anchor),
        p.sample.event_id != anchor,
    ensures
        v.rated(p).num == p.sample.count,
        anchor_count(v.quanta[p.quantum as int], anchor, p.sample) > 0 ==> v.rated(p).den
            == anchor_count(v.quanta[p.quantum as int], anchor, p.sample) && v.rated(p).scale is Some
            && v.rated(p).scale == v.ref_rate,
        anchor_count(v.quanta[p.quantum as int], anchor, p.sample) == 0 ==> v.rated(p).den
            == p.sample.duration_ns && v.rated(p).scale is None,
{
}

/// Samples of the anchor, and all samples where there is no anchor, are divided by their duration
/// and not scaled.
pub proof fn anchor_rates_are_per_nanosecond(v: MatrixView, p: Placed)
    requires
        v.anchor is None || v.anchor == Some(p.sample.event_id),
    ensures
        v.rated(p).num == p.sample.count,
        v.rated(p).den == p.sample.duration_ns,
        v.rated(p).scale is None,
{
}

proof fn lemma_latest(points: Seq<Placed>, i: int)
    requires
        0 <= i < points.len(),
    ensures
        points[i].rel_ts <= latest(points),
    decreases points.len(),
{
    if i < points.len() - 1 {
        lemma_latest(points.drop_last(), i);
    }
}

proof fn lemma_latest_of(series: Seq<SeriesView>, i: int)
    requires
        0 <= i < series.len(),
    ensures
        latest(series[i].1) <= latest_of(series),
    decreases series.len(),
{
    if i < series.len() - 1 {
        lemma_latest_of(series.drop_last(), i);
    }
}

proof fn lemma_named_series(series: Seq<SeriesView>, n_events: nat, i: int)
    requires
        0 <= i < named_series(series, n_events).len(),
    ensures
        series.contains(named_series(series, n_events)[i]),
        named_series(series, n_events)[i].0 < n_events,
    decreases series.len(),
{
    let front = series.drop_last();
    let rest = named_series(front, n_events);
    if i < rest.len() {
        lemma_named_series(front, n_events, i);
        let k = choose|k: int| 0 <= k < front.len() && front[k] == rest[i];
        assert(series[k] == rest[i]);
    } else {
        assert(series[series.len() - 1] == named_series(series, n_events)[i]);
    }
}

/// Every row of a matrix is that of an event with a name, and every bin lies within its time span.
pub proof fn bins_lie_within_the_matrix(
    m: ThreadMatrix,
    tid: int,
    thread: ThreadView,
    dt: u64,
    v: MatrixView,
    row: int,
    bin: int,
)
    requires
        dt > 0,
        is_thread_matrix(m, tid, thread, dt, v),
        0 <= row < m.rows@.len(),
        0 <= bin < m.rows@[row].bins@.len(),
        forall|i: int|
            0 <= i < thread.series.len() ==> (#[trigger] thread.series[i]).1.len() <= usize::MAX,
    ensures
        m.rows@[row].event_id < v.event_names.len(),
        m.rows@[row].bins@[bin].index < m.n_timesteps,
{
    let series = named_series(thread.series, v.event_names.len());
    assert(is_row(m.rows@[row], series[row], dt, v));
    lemma_named_series(thread.series, v.event_names.len(), row);
    let at = choose|k: int| 0 <= k < thread.series.len() && thread.series[k] == series[row];
    let points = series[row].1;
    assert(thread.series[at].1.len() <= usize::MAX);
    let b = m.rows@[row].bins@[bin];
    let found = bins::positions_in(times_of(points), dt, b.index);
    assert(b.points@.len() == found.len());
    bins::bins_hold_their_points(times_of(points), dt, b.index);
    let p = found[0] as int;
    assert(times_of(points)[p] / dt == b.index);
    lemma_latest(points, p);
    lemma_latest_of(thread.series, at);
    vstd::arithmetic::div_mod::lemma_div_is_ordered(
        points[p].rel_ts as int,
        latest_of(thread.series) as int,
        dt as int,
    );
}

/// The rank that a thread's name gets is the number of threads of that name seen before in the
/// batch.
pub proof fn ranks_count_earlier_threads(s: Seq<Seq<char>>, x: Seq<char>)
    ensures
        count_of(s, x) == s.filter(|t: Seq<char>| t == x).len(),
    decreases s.len(),
{
    reveal(Seq::filter);
    if s.len() > 0 {
        ranks_count_earlier_threads(s.drop_last(), x);
    }
}

/// A thread keeps the ID that it has in the batch. One without an ID gets that of its task name and
/// rank, if these were met before, in whatever batch, and else the next free one; no other thread's
/// ID changes.
pub proof fn ids_are_given_out_once(v: MatrixView, tid: u32, task: Seq<char>)
    requires
        v.valid(),
        v.names.len() < u32::MAX - 1,
    ensures
        ({
            let (w, id) = v.with_thread_id(tid, task);
            let rank = v.batch_tasks.filter(|t: Seq<char>| t == task).len() as u32;
            &&& w.synthetic == v.synthetic.insert(tid, id)
            &&& v.synthetic.contains_key(tid) ==> id == v.synthetic[tid] && w.names == v.names
                && w.batch_tasks == v.batch_tasks
            &&& !v.synthetic.contains_key(tid) ==> w.batch_tasks == v.batch_tasks.push(task)
            &&& !v.synthetic.contains_key(tid) ==> forall|i: int|
                0 <= i < v.names.len() && (#[trigger] v.names[i]) == (task, rank) ==> id == i + 1
                    && w.names == v.names
            &&& !v.synthetic.contains_key(tid) && !v.names.contains((task, rank)) ==> id
                == v.names.len() + 1 && w.names == v.names.push((task, rank))
        }),
{
    ranks_count_earlier_threads(v.batch_tasks, task);
    let key = (task, count_of(v.batch_tasks, task) as u32);
    lemma_name_position(v.names, key);
    if v.synthetic.contains_key(tid) {
        assert(v.synthetic.insert(tid, v.synthetic[tid]) =~= v.synthetic);
    } else {
        assert forall|i: int| 0 <= i < v.names.len() && (#[trigger] v.names[i])
            == key implies name_position(v.names, key) == Some(i) by {
            assert(v.names.contains(key));
        }
    }
}

/// A point is appended to the series of its event; an event without a series gets one behind the
/// others. The series of other events stay as they are.
pub proof fn points_go_to_their_events_series(
    s: Seq<SeriesView>,
    event_id: EventId,
    point: Placed,
)
    ensures
        forall|i: int|
            0 <= i < s.len() && (#[trigger] s[i]).0 == event_id && (forall|j: int|
                0 <= j < s.len() && j != i ==> (#[trigger] s[j]).0 != event_id) ==> with_rate(
                s,
                event_id,
                point,
            ) == s.update(i, (event_id, s[i].1.push(point))),
        (forall|j: int| 0 <= j < s.len() ==> (#[trigger] s[j]).0 != event_id) ==> with_rate(
            s,
            event_id,
            point,
        ) == s.push((event_id, seq![point])),
{
    lemma_series_position(s, event_id);
}

/// A sample without duration changes nothing. Another is added to the thread that its ID stands
/// for in the batch, under its event, at its time since the first sample of the batch; a thread met
/// for the first time is described by it, and no other thread is touched.
pub proof fn samples_go_to_their_thread(v: MatrixView, s: RawSample)
    requires
        v.valid(),
        v.names.len() < u32::MAX - 1,
        v.quanta.len() > 0,
    ensures
        s.duration_ns == 0 ==> v.with_sample(s) == v,
        s.duration_ns > 0 ==> ({
            let w = v.with_sample(s);
            let at = w.synthetic[s.tid] - 1;
            let t0 = if v.t0 is None {
                s.timestamp_ns
            } else {
                v.t0->0
            };
            let before = if at < v.threads.len() {
                v.threads[at]
            } else {
                ThreadView {
                    task: sample::task_text(s.task@),
                    tgid: s.pid,
                    series: Seq::empty(),
                }
            };
            let point = Placed {
                rel_ts: if t0 <= s.timestamp_ns {
                    (s.timestamp_ns - t0) as u64
                } else {
                    0
                },
                quantum: (v.quanta.len() - 1) as usize,
                sample: s,
            };
            &&& w.t0 == Some(t0)
            &&& w.synthetic.contains_key(s.tid)
            &&& 0 <= at < w.threads.len()
            &&& w.threads.len() == w.names.len()
            &&& w.threads[at].task == before.task
            &&& w.threads[at].tgid == before.tgid
            &&& w.threads[at].series == with_rate(before.series, s.event_id, point)
            &&& forall|j: int|
                0 <= j < v.threads.len() && j != at ==> #[trigger] w.threads[j] == v.threads[j]
            &&& w.event_to_batch == v.event_to_batch
            &&& w.quanta == v.quanta
        }),
{
    if s.duration_ns > 0 {
        let t0 = match v.t0 {
            Some(t0) => t0,
            None => s.timestamp_ns,
        };
        let begun = MatrixView { t0: Some(t0), ..v };
        lemma_with_thread_id(begun, s.tid, sample::task_text(s.task@));
    }
}

/// Samples are taken in one after the other.
pub proof fn samples_are_taken_in_order(v: MatrixView, a: Seq<RawSample>, b: Seq<RawSample>)
    ensures
        v.with_samples(a + b) == v.with_samples(a).with_samples(b),
        a.len() == 1 ==> v.with_samples(a) == v.with_sample(a[0]),
    decreases b.len(),
{
    if a.len() == 1 {
        reveal_with_fuel(MatrixView::with_samples, 2);
    }
    if b.len() == 0 {
        assert(a + b =~= a);
    } else {
        samples_are_taken_in_order(v, a, b.drop_last());
        assert((a + b).drop_last() =~= a + b.drop_last());
    }
}

/// The anchor's count for a sample is that of the last anchor sample that took time, on the same
/// CPU, at the same time, of the same thread; it is zero if there is none.
pub proof fn anchor_counts_are_of_the_same_record(
    samples: Seq<RawSample>,
    anchor: EventId,
    s: RawSample,
)
    ensures
        forall|i: int|
            0 <= i < samples.len() && is_anchor_of(#[trigger] samples[i], anchor, s) && (forall|
                j: int,
            |
                i < j < samples.len() ==> !is_anchor_of(#[trigger] samples[j], anchor, s))
                ==> anchor_count(samples, anchor, s) == samples[i].count,
        (forall|j: int|
            0 <= j < samples.len() ==> !is_anchor_of(#[trigger] samples[j], anchor, s))
            ==> anchor_count(samples, anchor, s) == 0,
    decreases samples.len(),
{
    if samples.len() > 0 {
        let front = samples.drop_last();
        let n = samples.len() - 1;
        anchor_counts_are_of_the_same_record(front, anchor, s);
        assert(forall|j: int| 0 <= j < front.len() ==> #[trigger] front[j] == samples[j]);
        if !is_anchor_of(samples[n], anchor, s) {
            assert forall|i: int|
                0 <= i < samples.len() && is_anchor_of(#[trigger] samples[i], anchor, s) && (forall|
                    j: int,
                |
                    i < j < samples.len() ==> !is_anchor_of(
                        #[trigger] samples[j],
                        anchor,
                        s,
                    )) implies anchor_count(samples, anchor, s) == samples[i].count by {
                assert(is_anchor_of(front[i], anchor, s));
                assert forall|j: int| i < j < front.len() implies !is_anchor_of(
                    #[trigger] front[j],
                    anchor,
                    s,
                ) by {
                    assert(!is_anchor_of(samples[j], anchor, s));
                }
            }
            if forall|j: int|
                0 <= j < samples.len() ==> !is_anchor_of(#[trigger] samples[j], anchor, s) {
                assert forall|j: int| 0 <= j < front.len() implies !is_anchor_of(
                    #[trigger] front[j],
                    anchor,
                    s,
                ) by {
                    assert(!is_anchor_of(samples[j], anchor, s));
                }
            }
        } else {
            assert forall|i: int|
                0 <= i < samples.len() && is_anchor_of(#[trigger] samples[i], anchor, s) && (forall|
                    j: int,
                |
                    i < j < samples.len() ==> !is_anchor_of(
                        #[trigger] samples[j],
                        anchor,
                        s,
                    )) implies anchor_count(samples, anchor, s) == samples[i].count by {
                assert(i == n);
            }
        }
    }
}

/// Whether `a` is a sample of the anchor from the record that `s` comes from.
pub open spec fn is_anchor_of(a: RawSample, anchor: EventId, s: RawSample) -> bool {
    &&& a.event_id == anchor
    &&& a.duration_ns > 0
    &&& a.cpu_id == s.cpu_id
    &&& a.timestamp_ns == s.timestamp_ns
    &&& a.tid == s.tid
}

/// When a batch begins, every event of it that has a name is noted as measured by it, and no other
/// event's batch changes.
pub proof fn events_are_noted_with_their_batch(
    event_to_batch: Seq<Option<u32>>,
    events: Seq<EventId>,
    batch_id: u32,
    id: EventId,
)
    requires
        id < event_to_batch.len(),
    ensures
        batches_with(event_to_batch, events, batch_id).len() == event_to_batch.len(),
        events.contains(id) ==> batches_with(event_to_batch, events, batch_id)[id as int] == Some(
            batch_id,
        ),
        !events.contains(id) ==> batches_with(event_to_batch, events, batch_id)[id as int]
            == event_to_batch[id as int],
    decreases events.len(),
{
    if events.len() > 0 {
        let front = events.drop_last();
        events_are_noted_with_their_batch(event_to_batch, front, batch_id, id);
        if front.contains(id) {
            let k = choose|k: int| 0 <= k < front.len() && front[k] == id;
            assert(events[k] == id);
        }
        if events.contains(id) && events.last() != id {
            let k = choose|k: int| 0 <= k < events.len() && events[k] == id;
            assert(front[k] == id);
        }
        assert(events[events.len() - 1] == events.last());
    }
}

proof fn lemma_latest_attained(points: Seq<Placed>)
    ensures
        latest(points) > 0 ==> exists|i: int|
            0 <= i < points.len() && (#[trigger] points[i]).rel_ts == latest(points),
    decreases points.len(),
{
    if points.len() > 0 {
        let front = points.drop_last();
        lemma_latest_attained(front);
        if points.last().rel_ts > latest(front) {
            assert(points[points.len() - 1].rel_ts == latest(points));
        } else if latest(points) > 0 {
            let i = choose|i: int|
                0 <= i < front.len() && (#[trigger] front[i]).rel_ts == latest(front);
            assert(points[i] == front[i]);
        }
    }
}

/// The time span of a thread reaches to the latest of all its samples, and not beyond.
pub proof fn the_span_reaches_to_the_latest_sample(series: Seq<SeriesView>)
    ensures
        forall|i: int, k: int|
            0 <= i < series.len() && 0 <= k < series[i].1.len() ==> (
            #[trigger] series[i].1[k]).rel_ts <= latest_of(series),
        latest_of(series) > 0 ==> exists|i: int, k: int|
            0 <= i < series.len() && 0 <= k < series[i].1.len() && (
            #[trigger] series[i].1[k]).rel_ts == latest_of(series),
    decreases series.len(),
{
    assert forall|i: int, k: int| 0 <= i < series.len() && 0 <= k < series[i].1.len() implies (
    #[trigger] series[i].1[k]).rel_ts <= latest_of(series) by {
        lemma_latest(series[i].1, k);
        lemma_latest_of(series, i);
    }
    if series.len() > 0 {
        let front = series.drop_last();
        let n = series.len() - 1;
        the_span_reaches_to_the_latest_sample(front);
        lemma_latest_attained(series[n].1);
        if latest(series[n].1) > latest_of(front) {
            let k = choose|k: int|
                0 <= k < series[n].1.len() && (#[trigger] series[n].1[k]).rel_ts == latest(
                    series[n].1,
                );
            assert(series[n].1[k].rel_ts == latest_of(series));
        } else if latest_of(series) > 0 {
            let (i, k) = choose|i: int, k: int|
                0 <= i < front.len() && 0 <= k < front[i].1.len() && (
                #[trigger] front[i].1[k]).rel_ts == latest_of(front);
            assert(series[i] == front[i]);
            assert(series[i].1[k].rel_ts == latest_of(series));
        }
    }
}

proof fn lemma_named_are_filtered(series: Seq<SeriesView>, n_events: nat)
    ensures
        named_series(series, n_events) == series.filter(|s: SeriesView| s.0 < n_events),
    decreases series.len(),
{
    reveal(Seq::filter);
    if series.len() > 0 {
        lemma_named_are_filtered(series.drop_last(), n_events);
    }
}

proof fn lemma_binned_points(points: Seq<Placed>, dt: u64, index: u64, v: MatrixView)
    requires
        points.len() <= usize::MAX,
        dt > 0,
    ensures
        bins::positions_in(times_of(points), dt, index).map_values(
            |p: usize| v.rated(points[p as int]),
        ) == points.filter(|p: Placed| p.rel_ts / dt == index).map_values(
            |p: Placed| v.rated(p),
        ),
    decreases points.len(),
{
    reveal(Seq::filter);
    let kept = points.filter(|p: Placed| p.rel_ts / dt == index);
    let all = bins::positions_in(times_of(points), dt, index);
    let out = all.map_values(|p: usize| v.rated(points[p as int]));
    if points.len() == 0 {
        assert(times_of(points).len() == 0);
        assert(out =~= kept.map_values(|p: Placed| v.rated(p)));
    } else {
        let front = points.drop_last();
        lemma_binned_points(front, dt, index, v);
        let rest = front.filter(|p: Placed| p.rel_ts / dt == index);
        assert(times_of(points).drop_last() =~= times_of(front));
        assert(times_of(points).last() == points.last().rel_ts);
        let before = bins::positions_in(times_of(front), dt, index);
        let old_out = before.map_values(|p: usize| v.rated(front[p as int]));
        bins::bins_hold_their_points(times_of(front), dt, index);
        assert forall|k: int| 0 <= k < before.len() implies out[k] == old_out[k] by {
            assert(before[k] < front.len());
            assert(all[k] == before[k]);
            assert(front[before[k] as int] == points[before[k] as int]);
        }
        if points.last().rel_ts / dt == index {
            assert(out =~= old_out.push(v.rated(points.last())));
            assert(kept.map_values(|p: Placed| v.rated(p)) =~= rest.map_values(
                |p: Placed| v.rated(p),
            ).push(v.rated(points.last())));
        } else {
            assert(out =~= old_out);
        }
    }
}

/// A thread's matrix has a row for each of its events that has a name, in the order in which they
/// were first seen, and its bins reach to its latest sample. A bin of a row holds the rates of the
/// event's samples whose time, divided by the width of a bin, is its number, in order; every sample
/// has a bin, and no number has two.
pub proof fn matrices_hold_all_samples_by_time(
    m: ThreadMatrix,
    tid: int,
    thread: ThreadView,
    dt: u64,
    v: MatrixView,
    row: int,
)
    requires
        dt > 0,
        is_thread_matrix(m, tid, thread, dt, v),
        0 <= row < m.rows@.len(),
        forall|i: int|
            0 <= i < thread.series.len() ==> (#[trigger] thread.series[i]).1.len() <= usize::MAX,
    ensures
        m.tid == tid,
        m.task_name@ == thread.task,
        m.tgid == thread.tgid,
        m.n_timesteps == latest_of(thread.series) / dt + 1,
        ({
            let named = thread.series.filter(|s: SeriesView| s.0 < v.event_names.len());
            let r = m.rows@[row];
            let points = named[row].1;
            &&& m.rows@.len() == named.len()
            &&& r.event_id == named[row].0
            &&& forall|b: int|
                0 <= b < r.bins@.len() ==> (#[trigger] r.bins@[b]).points@ == points.filter(
                    |p: Placed| p.rel_ts / dt == r.bins@[b].index,
                ).map_values(|p: Placed| v.rated(p)) && r.bins@[b].points@.len() > 0
            &&& forall|k: int|
                0 <= k < points.len() ==> has_bin(r, (#[trigger] points[k]).rel_ts / dt)
            &&& forall|a: int, b: int|
                0 <= a < r.bins@.len() && 0 <= b < r.bins@.len() && (#[trigger] r.bins@[a]).index
                    == (#[trigger] r.bins@[b]).index ==> a == b
        }),
{
    lemma_named_are_filtered(thread.series, v.event_names.len());
    let named = named_series(thread.series, v.event_names.len());
    lemma_named_series(thread.series, v.event_names.len(), row);
    let at = choose|k: int| 0 <= k < thread.series.len() && thread.series[k] == named[row];
    assert(thread.series[at].1.len() <= usize::MAX);
    let r = m.rows@[row];
    let points = named[row].1;
    assert(is_row(r, named[row], dt, v));
    assert forall|b: int| 0 <= b < r.bins@.len() implies (#[trigger] r.bins@[b]).points@
        == points.filter(|p: Placed| p.rel_ts / dt == r.bins@[b].index).map_values(
        |p: Placed| v.rated(p),
    ) && r.bins@[b].points@.len() > 0 by {
        lemma_binned_points(points, dt, r.bins@[b].index, v);
    }
    assert forall|k: int| 0 <= k < points.len() implies has_bin(
        r,
        (#[trigger] points[k]).rel_ts / dt,
    ) by {
        bins::every_point_is_binned(times_of(points), dt, k);
        assert(bins::positions_in(times_of(points), dt, points[k].rel_ts / dt).len() > 0);
    }
}

/// Whether a row has a bin of a number.
pub open spec fn has_bin(row: MatrixRow, index: u64) -> bool {
    exists|i: int| 0 <= i < row.bins@.len() && (#[trigger] row.bins@[i]).index == index
}

/// Bins are as wide as asked for, and a nanosecond wide if no width is.
pub proof fn bins_have_the_width_asked_for(dt_ns: u64)
    ensures
        dt_ns > 0 ==> bin_width(dt_ns) == dt_ns,
        bin_width(0) == 1,
{
}

} // verus!
