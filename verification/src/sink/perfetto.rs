//! Perfetto output: counter tracks per thread and event, from the current estimates.

use crate::perfetto::trace::{
    self, PerfettoWriter, RateEstimate, ThreadInfo, WriterView,
};
use crate::perfetto::reader;
use crate::quantum::Quantum;
use crate::sample::{self, task_name, RawSample};
use std::collections::HashMap;
use vstd::prelude::*;

verus! {

broadcast use vstd::std_specs::hash::group_hash_axioms;

/// Writes a snapshot of the estimates, at most once per output period.
pub struct PerfettoSink {
    writer: PerfettoWriter,
    thread_meta: HashMap<u32, ThreadInfo>,
    output_period_ns: u64,
    last_emit_ns: Option<u64>,
}

/// Model of thread metadata: process and task name.
pub type MetaView = Map<u32, (u32, Seq<char>)>;

/// The model of a table of thread metadata.
pub open spec fn meta_view(meta: Map<u32, ThreadInfo>) -> MetaView {
    meta.map_values(|info: ThreadInfo| (info.tgid, info.task@))
}

/// What samples tell of threads: the first sample of a thread counts, and the idle task, whose ID
/// is zero, is left out.
pub open spec fn meta_with(meta: MetaView, samples: Seq<RawSample>) -> MetaView
    decreases samples.len(),
{
    if samples.len() == 0 {
        meta
    } else {
        let rest = meta_with(meta, samples.drop_last());
        let s = samples.last();
        if s.tid == 0 || rest.contains_key(s.tid) {
            rest
        } else {
            rest.insert(s.tid, (s.pid, sample::task_text(s.task@)))
        }
    }
}

/// Notes the process and task name of the threads in `samples` that are not known yet.
pub fn learn_threads(meta: &mut HashMap<u32, ThreadInfo>, samples: &Vec<RawSample>)
    ensures
        meta_view(final(meta)@) == meta_with(meta_view(old(meta)@), samples@),
{
    let ghost start = meta_view(meta@);
    let mut i: usize = 0;
    assert(samples@.take(0) =~= Seq::empty());
    while i < samples.len()
        invariant
            i <= samples@.len(),
            meta_view(meta@) == meta_with(start, samples@.take(i as int)),
        decreases samples@.len() - i,
    {
        let s = samples[i];
        assert(samples@.take(i as int + 1).drop_last() =~= samples@.take(i as int));
        let ghost before = meta@;
        if s.tid != 0 {
            if !meta.contains_key(&s.tid) {
                let info = ThreadInfo { tgid: s.pid, task: task_name(&s.task) };
                meta.insert(s.tid, info);
                assert(meta_view(meta@) =~= meta_view(before).insert(
                    s.tid,
                    (s.pid, sample::task_text(s.task@)),
                ));
            }
        }
        i = i + 1;
    }
    assert(samples@.take(samples@.len() as int) =~= samples@);
}

/// Whether a snapshot is due at `now`, given when the last one was written.
pub open spec fn snapshot_due(last: Option<u64>, now: u64, period: u64) -> bool {
    match last {
        None => true,
        Some(last) => now - last >= period || (now < last && period == 0),
    }
}

/// Model of [`PerfettoSink`].
#[verifier::ext_equal]
pub struct PerfettoSinkView {
    /// What the writer has done.
    pub writer: WriterView,
    /// What is known of threads.
    pub meta: MetaView,
    /// Shortest time between snapshots; zero means every quantum.
    pub output_period_ns: u64,
    /// When the last snapshot was written.
    pub last_emit_ns: Option<u64>,
}

impl View for PerfettoSink {
    type V = PerfettoSinkView;

    closed spec fn view(&self) -> PerfettoSinkView {
        PerfettoSinkView {
            writer: self.writer@,
            meta: meta_view(self.thread_meta@),
            output_period_ns: self.output_period_ns,
            last_emit_ns: self.last_emit_ns,
        }
    }
}

impl PerfettoSink {
    /// Validity: that of the writer.
    pub closed spec fn wf(&self) -> bool {
        self.writer.wf()
    }

    /// The bytes handed out so far.
    pub closed spec fn handed_out(&self) -> Seq<u8> {
        self.writer.handed_out()
    }

    /// The bytes not handed out yet.
    pub closed spec fn pending_bytes(&self) -> Seq<u8> {
        self.writer.pending_bytes()
    }

    /// What validity says of the bytes and the packets.
    pub proof fn lemma_wf(&self)
        requires
            self.wf(),
        ensures
            self.handed_out() + self.pending_bytes() == trace::stream(self@.writer.log),
            trace::faithful(self@.writer.log),
            self@.writer.consistent(),
    {
        self.writer.lemma_wf();
    }

    /// The bytes handed out followed by those still pending are read as the samples written, for
    /// each event name and thread in order of time.
    pub proof fn bytes_read_back(&self)
        requires
            self.wf(),
            forall|i: int|
                0 <= i < self@.writer.log.len() ==> WriterView::encodes(
                    #[trigger] self@.writer.log[i],
                ),
            forall|i: int|
                0 <= i < self@.writer.log.len() ==> (#[trigger] self@.writer.log[i]).portable(),
        ensures
            ({
                let read = trace::trace_packets(self.handed_out() + self.pending_bytes(), 0);
                read is Ok && reader::rate_series(read->Ok_0) == reader::series_written(
                    self@.writer,
                )
            }),
    {
        self.writer.lemma_wf();
        reader::written_rates_read_back(self@.writer);
    }

    /// What is known of threads, in full.
    pub closed spec fn threads(&self) -> Map<u32, ThreadInfo> {
        self.thread_meta@
    }

    /// A sink that writes at most one snapshot per period.
    pub fn new(event_names: Vec<String>, output_period_ns: u64) -> (r: Self)
        ensures
            r.wf(),
            r@ == (PerfettoSinkView {
                writer: WriterView::fresh(event_names@.map_values(|s: String| s@)),
                meta: Map::empty(),
                output_period_ns,
                last_emit_ns: None,
            }),
            r.handed_out() == Seq::<u8>::empty(),
            r.pending_bytes() == Seq::<u8>::empty(),
    {
        let r = PerfettoSink {
            writer: PerfettoWriter::new(event_names),
            thread_meta: HashMap::new(),
            output_period_ns,
            last_emit_ns: None,
        };
        assert(r@.meta =~= Map::empty());
        r
    }

    /// Notes the threads of a quantum and, if a snapshot is due, writes the estimates as of its
    /// end.
    pub fn emit(&mut self, quantum: &Quantum, estimates: &Vec<RateEstimate>) -> (r: Result<
        (),
        protobuf::Error,
    >)
        requires
            old(self).wf(),
            old(self)@.writer.next_uuid + 3 * estimates@.len() <= u64::MAX,
        ensures
            final(self).wf(),
            final(self).handed_out() == old(self).handed_out(),
            final(self)@.meta == meta_with(old(self)@.meta, quantum@.samples),
            final(self)@.meta == meta_view(final(self).threads()),
            final(self)@.output_period_ns == old(self)@.output_period_ns,
            ({
                let now = quantum@.timestamp_ns;
                let points = trace::points_at(now, estimates@);
                let (after, fine) = old(self)@.writer.with_points(points, final(self).threads());
                if snapshot_due(old(self)@.last_emit_ns, now, old(self)@.output_period_ns) {
                    &&& final(self)@.writer == after
                    &&& final(self)@.last_emit_ns == Some(now)
                    &&& r is Ok <==> fine
                } else {
                    &&& final(self)@.writer == old(self)@.writer
                    &&& final(self)@.last_emit_ns == old(self)@.last_emit_ns
                    &&& r is Ok
                }
            }),
    {
        learn_threads(&mut self.thread_meta, quantum.samples());
        let now = quantum.timestamp_ns();
        let due = match self.last_emit_ns {
            None => true,
            Some(last) => if now >= last {
                now - last >= self.output_period_ns
            } else {
                self.output_period_ns == 0
            },
        };
        if !due {
            return Ok(());
        }
        self.last_emit_ns = Some(now);
        self.writer.emit_estimator_snapshot(now, estimates, &self.thread_meta)
    }

    /// Hands out the bytes that have gathered since the last call.
    pub fn take_bytes(&mut self) -> (r: Vec<u8>)
        requires
            old(self).wf(),
        ensures
            final(self).wf(),
            final(self)@ == old(self)@,
            r@ == old(self).pending_bytes(),
            final(self).handed_out() == old(self).handed_out() + r@,
            final(self).pending_bytes() == Seq::<u8>::empty(),
    {
        self.writer.take_bytes()
    }
}

/// Two snapshots in a row are at least a period apart, if there is one.
pub proof fn snapshots_keep_their_distance(last: u64, now: u64, period: u64)
    requires
        period > 0,
        snapshot_due(Some(last), now, period),
    ensures
        now - last >= period,
{
}

/// A snapshot is due exactly if none was written yet, or the period has passed since the last one.
pub proof fn snapshots_are_due_after_a_period(last: u64, now: u64, period: u64)
    ensures
        snapshot_due(None, now, period),
        last <= now ==> (snapshot_due(Some(last), now, period) <==> last + period <= now),
        now < last ==> (snapshot_due(Some(last), now, period) <==> period == 0),
{
}

/// Samples are taken in one after the other, and what is known of a thread stays as it is.
pub proof fn known_threads_stay(meta: MetaView, a: Seq<RawSample>, b: Seq<RawSample>)
    ensures
        meta_with(meta, a + b) == meta_with(meta_with(meta, a), b),
        forall|tid: u32| #[trigger]
            meta.contains_key(tid) ==> meta_with(meta, a).contains_key(tid) && meta_with(
                meta,
                a,
            )[tid] == meta[tid],
    decreases b.len(), a.len(),
{
    if b.len() > 0 {
        known_threads_stay(meta, a, b.drop_last());
        assert((a + b).drop_last() =~= a + b.drop_last());
    } else {
        assert(a + b =~= a);
        if a.len() > 0 {
            known_threads_stay(meta, a.drop_last(), b);
        }
    }
}

/// A thread becomes known by its first sample: by the process and the task name that this gives.
/// The idle task never does, nor does a thread without samples.
pub proof fn threads_are_learned_from_their_first_sample(
    meta: MetaView,
    samples: Seq<RawSample>,
    tid: u32,
)
    requires
        !meta.contains_key(tid),
    ensures
        forall|i: int|
            0 <= i < samples.len() && tid != 0 && (#[trigger] samples[i]).tid == tid && (forall|
                j: int,
            |
                0 <= j < i ==> (#[trigger] samples[j]).tid != tid) ==> meta_with(
                meta,
                samples,
            ).contains_key(tid) && meta_with(meta, samples)[tid] == (
                samples[i].pid,
                sample::task_text(samples[i].task@),
            ),
        tid == 0 || (forall|j: int| 0 <= j < samples.len() ==> (#[trigger] samples[j]).tid != tid)
            ==> !meta_with(meta, samples).contains_key(tid),
    decreases samples.len(),
{
    if samples.len() > 0 {
        let front = samples.drop_last();
        threads_are_learned_from_their_first_sample(meta, front, tid);
        let n = samples.len() - 1;
        assert(forall|j: int| 0 <= j < front.len() ==> #[trigger] front[j] == samples[j]);
        assert forall|i: int|
            0 <= i < samples.len() && tid != 0 && (#[trigger] samples[i]).tid == tid && (forall|
                j: int,
            |
                0 <= j < i ==> (#[trigger] samples[j]).tid != tid) implies meta_with(
            meta,
            samples,
        ).contains_key(tid) && meta_with(meta, samples)[tid] == (
            samples[i].pid,
            sample::task_text(samples[i].task@),
        ) by {
            if i < n {
                assert(front[i].tid == tid);
                assert forall|j: int| 0 <= j < i implies (#[trigger] front[j]).tid != tid by {
                    assert(samples[j].tid != tid);
                }
            } else {
                assert forall|j: int| 0 <= j < front.len() implies (#[trigger] front[j]).tid
                    != tid by {
                    assert(samples[j].tid != tid);
                }
            }
        }
        if forall|j: int| 0 <= j < samples.len() ==> (#[trigger] samples[j]).tid != tid {
            assert forall|j: int| 0 <= j < front.len() implies (#[trigger] front[j]).tid != tid by {
                assert(samples[j].tid != tid);
            }
            assert(samples[n].tid != tid);
        }
    }
}

} // verus!
