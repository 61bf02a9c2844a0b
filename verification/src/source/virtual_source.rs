//! Replaying recorded rates: which synthetic samples a simulated quantum consists of.

use crate::event::EventId;
use crate::order::{self, sort_order, Key};
use crate::sample::RawSample;
use crate::source::{self, count_changed, SwapStats};
use vstd::prelude::*;

verus! {

/// The recorded rates of one event on one thread.
pub struct TimedRates {
    /// The event.
    pub event_id: EventId,
    /// The thread; zero for data without threads.
    pub tid: u32,
    /// `(timestamp_ns, rate bits)` breakpoints in order of time.
    pub points: Vec<(u64, u64)>,
}

/// Per-event, per-thread time-varying rates for simulation.
pub struct TimeVaryingRates {
    /// One entry per event and thread.
    pub series: Vec<TimedRates>,
}

/// Whether breakpoints are in order of time.
pub open spec fn in_order(points: Seq<(u64, u64)>) -> bool {
    forall|i: int, j: int| 0 <= i <= j < points.len() ==> (#[trigger] points[i]).0 <= (
    #[trigger] points[j]).0
}

/// The rate at some time, as far as it can be told without arithmetic on rates.
#[derive(Clone, Copy)]
pub enum RateLookup {
    /// Nothing is recorded: the rate is zero.
    Zero,
    /// The bit pattern of a recorded rate holds.
    Held(u64),
    /// The rate lies between two breakpoints, in proportion to the time.
    Between {
        /// Time of the breakpoint before.
        t0: u64,
        /// Bit pattern of its rate.
        r0: u64,
        /// Time of the breakpoint after.
        t1: u64,
        /// Bit pattern of its rate.
        r1: u64,
    },
}

/// How many breakpoints are not later than a time.
pub open spec fn upto(points: Seq<(u64, u64)>, time_ns: u64) -> nat
    decreases points.len(),
{
    if points.len() == 0 {
        0
    } else {
        upto(points.drop_last(), time_ns) + if points.last().0 <= time_ns {
            1nat
        } else {
            0
        }
    }
}

/// The rate that breakpoints give at a time: the first and last are held before and after.
pub open spec fn lookup(points: Seq<(u64, u64)>, time_ns: u64) -> RateLookup {
    if points.len() == 0 {
        RateLookup::Zero
    } else if time_ns <= points[0].0 {
        RateLookup::Held(points[0].1)
    } else if time_ns >= points.last().0 {
        RateLookup::Held(points.last().1)
    } else {
        let i = upto(points, time_ns) as int;
        RateLookup::Between {
            t0: points[i - 1].0,
            r0: points[i - 1].1,
            t1: points[i].0,
            r1: points[i].1,
        }
    }
}

proof fn lemma_upto(points: Seq<(u64, u64)>, time_ns: u64, i: int)
    requires
        0 <= i <= points.len(),
        forall|j: int| 0 <= j < i ==> (#[trigger] points[j]).0 <= time_ns,
        forall|j: int| i <= j < points.len() ==> (#[trigger] points[j]).0 > time_ns,
    ensures
        upto(points, time_ns) == i,
    decreases points.len(),
{
    if points.len() > 0 {
        let front = points.drop_last();
        lemma_upto(
            front,
            time_ns,
            if i == points.len() {
                i - 1
            } else {
                i
            },
        );
    }
}

proof fn lemma_upto_exists(points: Seq<(u64, u64)>, time_ns: u64)
    requires
        in_order(points),
    ensures
        upto(points, time_ns) <= points.len(),
        forall|j: int| 0 <= j < upto(points, time_ns) ==> (#[trigger] points[j]).0 <= time_ns,
        forall|j: int|
            upto(points, time_ns) <= j < points.len() ==> (#[trigger] points[j]).0 > time_ns,
    decreases points.len(),
{
    if points.len() > 0 {
        let front = points.drop_last();
        assert forall|i: int, j: int| 0 <= i <= j < front.len() implies (#[trigger] front[i]).0 <= (
        #[trigger] front[j]).0 by {
            assert(front[i] == points[i] && front[j] == points[j]);
        }
        lemma_upto_exists(front, time_ns);
        let n = upto(front, time_ns) as int;
        if points.last().0 <= time_ns {
            if n < front.len() {
                assert(front[n].0 > time_ns);
                assert(points[n] == front[n]);
            }
        }
        assert forall|j: int| 0 <= j < upto(points, time_ns) implies (#[trigger] points[j]).0
            <= time_ns by {
            if j < n {
                assert(front[j] == points[j]);
            }
        }
        assert forall|j: int| upto(points, time_ns) <= j < points.len() implies (
        #[trigger] points[j]).0 > time_ns by {
            if j < front.len() {
                assert(front[j] == points[j]);
            }
        }
    }
}

/// Between two breakpoints, the times of both enclose the time asked for and differ.
pub proof fn breakpoints_enclose(points: Seq<(u64, u64)>, time_ns: u64)
    requires
        in_order(points),
    ensures
        match lookup(points, time_ns) {
            RateLookup::Between { t0, r0, t1, r1 } => t0 <= time_ns < t1 && points.contains(
                (t0, r0),
            ) && points.contains((t1, r1)),
            _ => true,
        },
{
    lemma_upto_exists(points, time_ns);
    if points.len() > 0 && points[0].0 < time_ns < points.last().0 {
        let i = upto(points, time_ns) as int;
        assert(0 < i < points.len()) by {
            if i == 0 {
                assert(points[0].0 > time_ns);
            }
            if i == points.len() {
                assert(points[points.len() - 1].0 <= time_ns);
            }
        }
        assert(points[i - 1].0 <= time_ns);
        assert(points.contains(points[i - 1]) && points.contains(points[i]));
    }
}

/// The last entry of an event and thread.
pub open spec fn entry(series: Seq<TimedRates>, event_id: EventId, tid: u32) -> Option<nat>
    decreases series.len(),
{
    if series.len() == 0 {
        None
    } else if series.last().event_id == event_id && series.last().tid == tid {
        Some((series.len() - 1) as nat)
    } else {
        entry(series.drop_last(), event_id, tid)
    }
}

/// The rate of an event on a thread at a time.
pub open spec fn rate_of(
    series: Seq<TimedRates>,
    event_id: EventId,
    tid: u32,
    time_ns: u64,
) -> RateLookup {
    match entry(series, event_id, tid) {
        Some(i) => lookup(series[i as int].points@, time_ns),
        None => RateLookup::Zero,
    }
}

impl TimeVaryingRates {
    /// Validity: each event and thread has one entry, with its breakpoints in order of time.
    pub open spec fn wf(self) -> bool {
        &&& forall|i: int, j: int|
            0 <= i < j < self.series@.len() ==> (#[trigger] self.series@[i]).event_id != (
            #[trigger] self.series@[j]).event_id || self.series@[i].tid != self.series@[j].tid
        &&& forall|i: int|
            0 <= i < self.series@.len() ==> in_order((#[trigger] self.series@[i]).points@)
    }

    /// The rate of an event on a thread at a time.
    pub fn rate_at(&self, event_id: EventId, tid: u32, time_ns: u64) -> (r: RateLookup)
        requires
            self.wf(),
        ensures
            r == rate_of(self.series@, event_id, tid, time_ns),
    {
        let mut found: Option<usize> = None;
        let mut i: usize = 0;
        while i < self.series.len()
            invariant
                i <= self.series@.len(),
                match found {
                    Some(at) => at < i && entry(self.series@.take(i as int), event_id, tid) == Some(
                        at as nat,
                    ),
                    None => entry(self.series@.take(i as int), event_id, tid) is None,
                },
            decreases self.series@.len() - i,
        {
            assert(self.series@.take(i as int + 1).drop_last() =~= self.series@.take(i as int));
            if self.series[i].event_id == event_id && self.series[i].tid == tid {
                found = Some(i);
            }
            i = i + 1;
        }
        assert(self.series@.take(i as int) =~= self.series@);
        match found {
            Some(at) => {
                assert(in_order(self.series@[at as int].points@));
                rate_between(&self.series[at].points, time_ns)
            },
            None => RateLookup::Zero,
        }
    }
}

/// The rate that breakpoints give at a time.
fn rate_between(points: &Vec<(u64, u64)>, time_ns: u64) -> (r: RateLookup)
    requires
        in_order(points@),
    ensures
        r == lookup(points@, time_ns),
{
    if points.len() == 0 {
        return RateLookup::Zero;
    }
    if time_ns <= points[0].0 {
        return RateLookup::Held(points[0].1);
    }
    let last = points[points.len() - 1];
    if time_ns >= last.0 {
        return RateLookup::Held(last.1);
    }
    let mut lo: usize = 0;
    let mut hi: usize = points.len();
    while lo < hi
        invariant
            in_order(points@),
            lo <= hi <= points@.len(),
            forall|j: int| 0 <= j < lo ==> (#[trigger] points@[j]).0 <= time_ns,
            forall|j: int| hi <= j < points@.len() ==> (#[trigger] points@[j]).0 > time_ns,
        decreases hi - lo,
    {
        let mid: usize = lo + (hi - lo) / 2;
        if points[mid].0 <= time_ns {
            lo = mid + 1;
        } else {
            hi = mid;
        }
    }
    proof {
        lemma_upto(points@, time_ns, lo as int);
        assert(points@[0].0 <= time_ns);
        assert(points@[points@.len() - 1].0 > time_ns);
    }
    let (t0, r0) = points[lo - 1];
    let (t1, r1) = points[lo];
    RateLookup::Between { t0, r0, t1, r1 }
}

/// The threads that an event has entries for, in the order of the entries.
pub open spec fn tids_of(series: Seq<TimedRates>, event_id: EventId) -> Seq<u32>
    decreases series.len(),
{
    if series.len() == 0 {
        Seq::empty()
    } else {
        let before = tids_of(series.drop_last(), event_id);
        if series.last().event_id == event_id {
            before.push(series.last().tid)
        } else {
            before
        }
    }
}

/// Sort keys of thread IDs.
pub open spec fn tid_keys(tids: Seq<u32>) -> Seq<Key> {
    tids.map_values(|tid: u32| (tid as u64, 0u64))
}

/// The threads that an event has entries for, in ascending order.
pub open spec fn sorted_tids(series: Seq<TimedRates>, event_id: EventId) -> Seq<u32> {
    order::arranged(tids_of(series, event_id), tid_keys(tids_of(series, event_id)))
}

fn tids_in_order(series: &Vec<TimedRates>, event_id: EventId) -> (r: Vec<u32>)
    ensures
        r@ == sorted_tids(series@, event_id),
{
    let mut tids: Vec<u32> = Vec::new();
    let mut keys: Vec<Key> = Vec::new();
    let mut i: usize = 0;
    assert(series@.take(0) =~= Seq::empty());
    assert(keys@ =~= tid_keys(tids@));
    while i < series.len()
        invariant
            i <= series@.len(),
            tids@ == tids_of(series@.take(i as int), event_id),
            keys@ == tid_keys(tids@),
        decreases series@.len() - i,
    {
        assert(series@.take(i as int + 1).drop_last() =~= series@.take(i as int));
        if series[i].event_id == event_id {
            let tid = series[i].tid;
            tids.push(tid);
            keys.push((tid as u64, 0));
            assert(keys@ =~= tid_keys(tids@));
        }
        i = i + 1;
    }
    assert(series@.take(i as int) =~= series@);
    let order = sort_order(&keys);
    proof {
        order::lemma_order_of(order@, keys@);
    }
    let mut out: Vec<u32> = Vec::new();
    i = 0;
    while i < order.len()
        invariant
            i <= order@.len(),
            order::is_order(order@, keys@),
            keys@.len() == tids@.len(),
            out@.len() == i,
            forall|k: int| 0 <= k < i ==> #[trigger] out@[k] == tids@[order@[k] as int],
        decreases order@.len() - i,
    {
        assert(order@[i as int] < keys@.len());
        out.push(tids[order[i]]);
        i = i + 1;
    }
    assert(out@ =~= sorted_tids(series@, event_id));
    out
}

/// A synthetic sample whose count is still to be drawn.
#[derive(Clone, Copy)]
pub struct PlannedSample {
    /// The event.
    pub event_id: EventId,
    /// The thread.
    pub tid: u32,
    /// Simulated time at which the sample interval starts, in nanoseconds.
    pub start_ns: u64,
    /// The rate at that time.
    pub rate: RateLookup,
}

/// Model of the parts of [`VirtualSampleSource`] that change or matter to a plan.
pub struct VirtualView {
    /// The recorded rates.
    pub series: Seq<TimedRates>,
    /// Events currently enabled.
    pub active_set: Seq<EventId>,
    /// Duration of each simulated quantum in nanoseconds.
    pub quantum_ns: u64,
    /// Duration of each sample interval in nanoseconds.
    pub sample_ns: u64,
    /// Simulated time at the start of the quantum.
    pub current_time_ns: u64,
    /// Number of counter slots.
    pub num_slots: usize,
}

impl VirtualView {
    /// How many samples a thread gives per quantum: as many as fit, and at least one.
    pub open spec fn samples_per_quantum(self) -> nat {
        if self.quantum_ns / self.sample_ns >= 1 {
            (self.quantum_ns / self.sample_ns) as nat
        } else {
            1
        }
    }

    /// Sample `i` of an event on a thread.
    pub open spec fn planned(self, event_id: EventId, tid: u32, i: int) -> PlannedSample {
        let start_ns = (self.current_time_ns + i * self.sample_ns) as u64;
        PlannedSample {
            event_id,
            tid,
            start_ns,
            rate: rate_of(self.series, event_id, tid, start_ns),
        }
    }

    /// The first `n` samples of an event on a thread.
    pub open spec fn thread_plan(self, event_id: EventId, tid: u32, n: nat) -> Seq<PlannedSample> {
        Seq::new(n, |i: int| self.planned(event_id, tid, i))
    }

    /// The samples of an event on some threads.
    pub open spec fn threads_plan(self, event_id: EventId, tids: Seq<u32>) -> Seq<PlannedSample>
        decreases tids.len(),
    {
        if tids.len() == 0 {
            Seq::empty()
        } else {
            self.threads_plan(event_id, tids.drop_last()) + self.thread_plan(
                event_id,
                tids.last(),
                self.samples_per_quantum(),
            )
        }
    }

    /// The samples of some events: event by event, thread by thread, in order of time.
    pub open spec fn plan(self, events: Seq<EventId>) -> Seq<PlannedSample>
        decreases events.len(),
    {
        if events.len() == 0 {
            Seq::empty()
        } else {
            self.plan(events.drop_last()) + self.threads_plan(
                events.last(),
                sorted_tids(self.series, events.last()),
            )
        }
    }

    /// Whether the simulated time of the current quantum fits.
    pub open spec fn time_fits(self) -> bool {
        &&& self.current_time_ns + self.quantum_ns <= u64::MAX
        &&& self.current_time_ns + self.sample_ns <= u64::MAX
    }
}

/// The task name of synthetic samples: `simulate`.
pub open spec fn simulated_task() -> Seq<u8> {
    seq![115u8, 105, 109, 117, 108, 97, 116, 101, 0, 0, 0, 0, 0, 0, 0, 0]
}

/// Whether `sample` is the planned one with a count.
pub open spec fn is_sample(
    sample: RawSample,
    planned: PlannedSample,
    sample_ns: u64,
    count: u64,
) -> bool {
    &&& sample.timestamp_ns == planned.start_ns + sample_ns
    &&& sample.duration_ns == sample_ns
    &&& sample.cpu_id == 0
    &&& sample.pid == 0
    &&& sample.tid == planned.tid
    &&& sample.event_id == planned.event_id
    &&& sample.count == count
    &&& sample.task@ == simulated_task()
}

/// Simulation-backed sample source. Drawing the counts from the planned rates is the caller's.
pub struct VirtualSampleSource {
    rates: TimeVaryingRates,
    active_set: Vec<EventId>,
    quantum_ns: u64,
    sample_ns: u64,
    current_time_ns: u64,
    num_slots: usize,
}

impl View for VirtualSampleSource {
    type V = VirtualView;

    closed spec fn view(&self) -> VirtualView {
        VirtualView {
            series: self.rates.series@,
            active_set: self.active_set@,
            quantum_ns: self.quantum_ns,
            sample_ns: self.sample_ns,
            current_time_ns: self.current_time_ns,
            num_slots: self.num_slots,
        }
    }
}

impl VirtualSampleSource {
    /// Validity: the rates are valid and sample intervals are not empty.
    pub closed spec fn wf(&self) -> bool {
        self.rates.wf() && self.sample_ns > 0
    }

    /// Starts at time zero with nothing enabled. A sample interval of zero becomes one.
    pub fn new(
        rates: TimeVaryingRates,
        quantum_ns: u64,
        sample_ns: u64,
        num_slots: usize,
    ) -> (r: Self)
        requires
            rates.wf(),
        ensures
            r.wf(),
            r@ == (VirtualView {
                series: rates.series@,
                active_set: Seq::empty(),
                quantum_ns,
                sample_ns: if sample_ns == 0 {
                    1
                } else {
                    sample_ns
                },
                current_time_ns: 0,
                num_slots,
            }),
    {
        let r = VirtualSampleSource {
            rates,
            active_set: Vec::new(),
            quantum_ns,
            sample_ns: if sample_ns == 0 {
                1
            } else {
                sample_ns
            },
            current_time_ns: 0,
            num_slots,
        };
        assert(r.active_set@ =~= Seq::empty());
        r
    }

    /// The samples that the current quantum consists of.
    pub fn plan(&self) -> (r: Vec<PlannedSample>)
        requires
            self.wf(),
            self@.time_fits(),
        ensures
            r@ == self@.plan(self@.active_set),
    {
        let n: u64 = if self.quantum_ns / self.sample_ns >= 1 {
            self.quantum_ns / self.sample_ns
        } else {
            1
        };
        let ghost v = self@;
        assert(n == v.samples_per_quantum());
        assert(n * self.sample_ns <= u64::MAX - self.current_time_ns) by {
            if self.quantum_ns / self.sample_ns >= 1 {
                vstd::arithmetic::div_mod::lemma_fundamental_div_mod(
                    self.quantum_ns as int,
                    self.sample_ns as int,
                );
                let q = self.quantum_ns as int;
                let s = self.sample_ns as int;
                assert(q / s * s == s * (q / s)) by (nonlinear_arith);
            }
        }
        let mut out: Vec<PlannedSample> = Vec::new();
        let mut e: usize = 0;
        assert(v.active_set.take(0) =~= Seq::empty());
        while e < self.active_set.len()
            invariant
                self.wf(),
                v == self@,
                n == v.samples_per_quantum(),
                n * self.sample_ns <= u64::MAX - self.current_time_ns,
                e <= v.active_set.len(),
                out@ == v.plan(v.active_set.take(e as int)),
            decreases v.active_set.len() - e,
        {
            assert(v.active_set.take(e as int + 1).drop_last() =~= v.active_set.take(e as int));
            let event_id = self.active_set[e];
            let tids = tids_in_order(&self.rates.series, event_id);
            let ghost start = out@;
            let mut t: usize = 0;
            assert(tids@.take(0) =~= Seq::empty());
            assert(start + v.threads_plan(event_id, tids@.take(0)) =~= start);
            while t < tids.len()
                invariant
                    self.wf(),
                    v == self@,
                    n == v.samples_per_quantum(),
                    n * self.sample_ns <= u64::MAX - self.current_time_ns,
                    t <= tids@.len(),
                    out@ == start + v.threads_plan(event_id, tids@.take(t as int)),
                decreases tids@.len() - t,
            {
                assert(tids@.take(t as int + 1).drop_last() =~= tids@.take(t as int));
                let tid = tids[t];
                let ghost done = out@;
                let mut i: u64 = 0;
                assert(done + v.thread_plan(event_id, tid, 0) =~= done);
                while i < n
                    invariant
                        self.wf(),
                        v == self@,
                        n * self.sample_ns <= u64::MAX - self.current_time_ns,
                        i <= n,
                        out@ == done + v.thread_plan(event_id, tid, i as nat),
                    decreases n - i,
                {
                    assert(i * self.sample_ns <= n * self.sample_ns) by (nonlinear_arith)
                        requires
                            i <= n,
                    ;
                    let start_ns = self.current_time_ns + i * self.sample_ns;
                    let rate = self.rates.rate_at(event_id, tid, start_ns);
                    out.push(PlannedSample { event_id, tid, start_ns, rate });
                    i = i + 1;
                    assert(out@ =~= done + v.thread_plan(event_id, tid, i as nat));
                }
                t = t + 1;
                assert(out@ =~= start + v.threads_plan(event_id, tids@.take(t as int)));
            }
            assert(tids@.take(t as int) =~= tids@);
            e = e + 1;
        }
        assert(v.active_set.take(e as int) =~= v.active_set);
        out
    }

    /// Completes the quantum: the planned samples with the counts drawn for them. Simulated time
    /// moves on by one quantum.
    pub fn collect(&mut self, plan: &Vec<PlannedSample>, counts: &Vec<u64>) -> (r: (
        Vec<RawSample>,
        u64,
    ))
        requires
            old(self).wf(),
            old(self)@.time_fits(),
            plan@ == old(self)@.plan(old(self)@.active_set),
            counts@.len() == plan@.len(),
        ensures
            final(self).wf(),
            final(self)@ == (VirtualView {
                current_time_ns: (old(self)@.current_time_ns + old(self)@.quantum_ns) as u64,
                ..old(self)@
            }),
            r.0@.len() == plan@.len(),
            forall|i: int|
                0 <= i < plan@.len() ==> is_sample(
                    #[trigger] r.0@[i],
                    plan@[i],
                    old(self)@.sample_ns,
                    counts@[i],
                ),
            r.1 == old(self)@.quantum_ns,
    {
        let mut out: Vec<RawSample> = Vec::new();
        let ghost v = self@;
        let task: [u8; 16] = [115, 105, 109, 117, 108, 97, 116, 101, 0, 0, 0, 0, 0, 0, 0, 0];
        assert(task@ =~= simulated_task());
        proof {
            lemma_plan_fits(v, v.active_set);
        }
        let mut i: usize = 0;
        while i < plan.len()
            invariant
                i <= plan@.len(),
                counts@.len() == plan@.len(),
                v == self@,
                task@ == simulated_task(),
                forall|k: int|
                    0 <= k < plan@.len() ==> (#[trigger] plan@[k]).start_ns + v.sample_ns
                        <= u64::MAX,
                out@.len() == i,
                forall|k: int|
                    0 <= k < i ==> is_sample(
                        #[trigger] out@[k],
                        plan@[k],
                        v.sample_ns,
                        counts@[k],
                    ),
            decreases plan@.len() - i,
        {
            let p = plan[i];
            assert(p == plan@[i as int]);
            out.push(
                RawSample {
                    timestamp_ns: p.start_ns + self.sample_ns,
                    duration_ns: self.sample_ns,
                    cpu_id: 0,
                    pid: 0,
                    tid: p.tid,
                    event_id: p.event_id,
                    count: counts[i],
                    task,
                },
            );
            i = i + 1;
        }
        self.current_time_ns = self.current_time_ns + self.quantum_ns;
        (out, self.quantum_ns)
    }

    /// Enables another set of events. Nothing is reconfigured, so only the number of changed slots
    /// is reported.
    pub fn apply_schedule(&mut self, old_set: &Vec<EventId>, new_set: &Vec<EventId>) -> (r:
        SwapStats)
        requires
            old(self).wf(),
        ensures
            final(self).wf(),
            final(self)@ == (VirtualView { active_set: new_set@, ..old(self)@ }),
            r.quiesce_ns == 0,
            r.reconfig_ns == 0,
            r.slots_changed == source::updates(old_set@, new_set@).len(),
    {
        let slots_changed = count_changed(old_set, new_set);
        self.active_set = new_set.clone();
        assert(self.active_set@ =~= new_set@);
        SwapStats { quiesce_ns: 0, reconfig_ns: 0, slots_changed }
    }

    /// Number of counter slots.
    pub fn num_slots(&self) -> (r: usize)
        ensures
            r == self@.num_slots,
    {
        self.num_slots
    }
}

proof fn lemma_span(v: VirtualView, i: int)
    requires
        v.sample_ns > 0,
        v.time_fits(),
        0 <= i < v.samples_per_quantum(),
    ensures
        v.current_time_ns + i * v.sample_ns + v.sample_ns <= u64::MAX,
        0 <= i * v.sample_ns,
{
    let q = v.quantum_ns as int;
    let s = v.sample_ns as int;
    let n = v.samples_per_quantum() as int;
    vstd::arithmetic::div_mod::lemma_fundamental_div_mod(q, s);
    assert(i * s + s <= n * s && 0 <= i * s) by (nonlinear_arith)
        requires
            0 <= i < n,
            s > 0,
    ;
    assert(n * s == s * n) by (nonlinear_arith);
}

proof fn lemma_threads_plan_fits(v: VirtualView, event_id: EventId, tids: Seq<u32>)
    requires
        v.sample_ns > 0,
        v.time_fits(),
    ensures
        forall|k: int|
            0 <= k < v.threads_plan(event_id, tids).len() ==> (#[trigger] v.threads_plan(
                event_id,
                tids,
            )[k]).start_ns + v.sample_ns <= u64::MAX,
    decreases tids.len(),
{
    if tids.len() > 0 {
        lemma_threads_plan_fits(v, event_id, tids.drop_last());
        let before = v.threads_plan(event_id, tids.drop_last());
        let all = v.threads_plan(event_id, tids);
        assert forall|k: int| 0 <= k < all.len() implies (#[trigger] all[k]).start_ns + v.sample_ns
            <= u64::MAX by {
            if k < before.len() {
                assert(all[k] == before[k]);
            } else {
                lemma_span(v, k - before.len());
            }
        }
    }
}

proof fn lemma_plan_fits(v: VirtualView, events: Seq<EventId>)
    requires
        v.sample_ns > 0,
        v.time_fits(),
    ensures
        forall|k: int|
            0 <= k < v.plan(events).len() ==> (#[trigger] v.plan(events)[k]).start_ns + v.sample_ns
                <= u64::MAX,
    decreases events.len(),
{
    if events.len() > 0 {
        lemma_plan_fits(v, events.drop_last());
        let tids = sorted_tids(v.series, events.last());
        lemma_threads_plan_fits(v, events.last(), tids);
        let before = v.plan(events.drop_last());
        let all = v.plan(events);
        assert forall|k: int| 0 <= k < all.len() implies (#[trigger] all[k]).start_ns + v.sample_ns
            <= u64::MAX by {
            if k < before.len() {
                assert(all[k] == before[k]);
            } else {
                assert(all[k] == v.threads_plan(events.last(), tids)[k - before.len()]);
            }
        }
    }
}

/// The samples of a thread follow one another without gap from the start of the quantum, and fill
/// it exactly where the sample interval divides it.
pub proof fn samples_tile_the_quantum(v: VirtualView, event_id: EventId, tid: u32, i: int)
    requires
        v.sample_ns > 0,
        v.time_fits(),
        0 <= i < v.samples_per_quantum(),
    ensures
        ({
            let plan = v.thread_plan(event_id, tid, v.samples_per_quantum());
            &&& plan[0].start_ns == v.current_time_ns
            &&& i + 1 < plan.len() ==> plan[i + 1].start_ns == plan[i].start_ns + v.sample_ns
            &&& v.quantum_ns > 0 && v.quantum_ns % v.sample_ns == 0 ==> plan.last().start_ns
                + v.sample_ns == v.current_time_ns + v.quantum_ns
        }),
{
    let n = v.samples_per_quantum() as int;
    let s = v.sample_ns as int;
    let q = v.quantum_ns as int;
    lemma_span(v, 0);
    lemma_span(v, i);
    lemma_span(v, n - 1);
    assert(0 * s == 0);
    if i + 1 < n {
        lemma_span(v, i + 1);
        assert((i + 1) * s == i * s + s) by (nonlinear_arith);
    }
    if q > 0 && q % s == 0 {
        vstd::arithmetic::div_mod::lemma_fundamental_div_mod(q, s);
        assert(q / s >= 1) by (nonlinear_arith)
            requires
                q == s * (q / s),
                q > 0,
                s > 0,
        ;
        assert((n - 1) * s + s == s * n) by (nonlinear_arith);
    }
}

/// The rate at a time is pinned by the breakpoints: up to the first one its rate holds, from the
/// last one on its rate holds, and between two neighbours the rate lies between those two.
pub proof fn rates_lie_between_neighbours(points: Seq<(u64, u64)>, time_ns: u64)
    requires
        in_order(points),
    ensures
        points.len() == 0 ==> lookup(points, time_ns) == RateLookup::Zero,
        points.len() > 0 && time_ns <= points[0].0 ==> lookup(points, time_ns) == RateLookup::Held(
            points[0].1,
        ),
        points.len() > 0 && points[0].0 < time_ns && points.last().0 <= time_ns ==> lookup(
            points,
            time_ns,
        ) == RateLookup::Held(points.last().1),
        forall|k: int, l: int|
            0 <= k && l == k + 1 && l < points.len() && points[0].0 < time_ns && (
            #[trigger] points[k]).0 <= time_ns < (#[trigger] points[l]).0 ==> lookup(
                points,
                time_ns,
            ) == (RateLookup::Between {
                t0: points[k].0,
                r0: points[k].1,
                t1: points[l].0,
                r1: points[l].1,
            }),
        points.len() > 0 && points[0].0 < time_ns < points.last().0 ==> exists|k: int, l: int|
            0 <= k && l == k + 1 && l < points.len() && (#[trigger] points[k]).0 <= time_ns < (
            #[trigger] points[l]).0,
{
    lemma_upto_exists(points, time_ns);
    assert forall|k: int, l: int|
        0 <= k && l == k + 1 && l < points.len() && points[0].0 < time_ns && (
        #[trigger] points[k]).0 <= time_ns < (#[trigger] points[l]).0 implies lookup(
        points,
        time_ns,
    ) == (RateLookup::Between {
        t0: points[k].0,
        r0: points[k].1,
        t1: points[l].0,
        r1: points[l].1,
    }) by {
        assert forall|j: int| 0 <= j < l implies (#[trigger] points[j]).0 <= time_ns by {
            assert(points[j].0 <= points[k].0);
        }
        assert forall|j: int| l <= j < points.len() implies (#[trigger] points[j]).0 > time_ns by {
            assert(points[l].0 <= points[j].0);
        }
        lemma_upto(points, time_ns, l);
        assert(points[l].0 <= points[points.len() - 1].0);
    }
    if points.len() > 0 && points[0].0 < time_ns < points.last().0 {
        let i = upto(points, time_ns) as int;
        if i == 0 {
            assert(points[0].0 > time_ns);
        }
        if i == points.len() {
            assert(points[points.len() - 1].0 <= time_ns);
        }
        assert(points[i - 1].0 <= time_ns && time_ns < points[i].0);
    }
}

proof fn lemma_entry(series: Seq<TimedRates>, event_id: EventId, tid: u32)
    ensures
        match entry(series, event_id, tid) {
            Some(i) => i < series.len() && series[i as int].event_id == event_id
                && series[i as int].tid == tid,
            None => forall|j: int|
                0 <= j < series.len() ==> (#[trigger] series[j]).event_id != event_id
                    || series[j].tid != tid,
        },
    decreases series.len(),
{
    if series.len() > 0 {
        let front = series.drop_last();
        lemma_entry(front, event_id, tid);
        if entry(series, event_id, tid) is None {
            assert forall|j: int| 0 <= j < series.len() implies (#[trigger] series[j]).event_id
                != event_id || series[j].tid != tid by {
                if j < front.len() {
                    assert(front[j] == series[j]);
                }
            }
        }
    }
}

/// The rate of an event on a thread is told by its own breakpoints, and by no others; an event and
/// thread without any has the rate zero.
pub proof fn rates_are_of_the_event_and_thread(
    rates: TimeVaryingRates,
    event_id: EventId,
    tid: u32,
    time_ns: u64,
    i: int,
)
    requires
        rates.wf(),
    ensures
        0 <= i < rates.series@.len() && rates.series@[i].event_id == event_id
            && rates.series@[i].tid == tid ==> rate_of(rates.series@, event_id, tid, time_ns)
            == lookup(rates.series@[i].points@, time_ns),
        (forall|j: int|
            0 <= j < rates.series@.len() ==> (#[trigger] rates.series@[j]).event_id != event_id
                || rates.series@[j].tid != tid) ==> rate_of(rates.series@, event_id, tid, time_ns)
            == RateLookup::Zero,
{
    let series = rates.series@;
    lemma_entry(series, event_id, tid);
    if 0 <= i < series.len() && series[i].event_id == event_id && series[i].tid == tid {
        let e = entry(series, event_id, tid)->0 as int;
        if e < i {
            assert(series[e].event_id != series[i].event_id || series[e].tid != series[i].tid);
        } else if i < e {
            assert(series[i].event_id != series[e].event_id || series[i].tid != series[e].tid);
        }
    }
}

proof fn lemma_tids_of(series: Seq<TimedRates>, event_id: EventId)
    ensures
        tids_of(series, event_id) == series.filter(
            |s: TimedRates| s.event_id == event_id,
        ).map_values(|s: TimedRates| s.tid),
    decreases series.len(),
{
    reveal(Seq::filter);
    let kept = series.filter(|s: TimedRates| s.event_id == event_id);
    if series.len() > 0 {
        let front = series.drop_last();
        lemma_tids_of(front, event_id);
        let rest = front.filter(|s: TimedRates| s.event_id == event_id);
        if series.last().event_id == event_id {
            assert(kept.map_values(|s: TimedRates| s.tid) =~= rest.map_values(
                |s: TimedRates| s.tid,
            ).push(series.last().tid));
        }
    } else {
        assert(kept.map_values(|s: TimedRates| s.tid) =~= Seq::<u32>::empty());
    }
}

/// The threads of an event are those that it has entries for, each as often, in ascending order.
pub proof fn threads_ascend(series: Seq<TimedRates>, event_id: EventId)
    requires
        series.len() <= usize::MAX,
    ensures
        sorted_tids(series, event_id).to_multiset() == series.filter(
            |s: TimedRates| s.event_id == event_id,
        ).map_values(|s: TimedRates| s.tid).to_multiset(),
        forall|i: int, j: int|
            0 <= i < j < sorted_tids(series, event_id).len() ==> (#[trigger] sorted_tids(
                series,
                event_id,
            )[i]) <= (#[trigger] sorted_tids(series, event_id)[j]),
        forall|k: int|
            0 <= k < series.len() && (#[trigger] series[k]).event_id == event_id ==> sorted_tids(
                series,
                event_id,
            ).contains(series[k].tid),
{
    broadcast use vstd::seq_lib::group_filter_ensures;

    lemma_tids_of(series, event_id);
    let tids = tids_of(series, event_id);
    let keys = tid_keys(tids);
    let kept = series.filter(|s: TimedRates| s.event_id == event_id);
    assert(kept.len() <= series.len());
    order::arranging_keeps_items(tids, keys);
    let out = sorted_tids(series, event_id);
    assert forall|i: int, j: int| 0 <= i < j < out.len() implies (#[trigger] out[i]) <= (
    #[trigger] out[j]) by {
        order::arranging_sorts_by_key(tids, keys, i, j);
    }
    assert forall|k: int| 0 <= k < series.len() && (#[trigger] series[k]).event_id
        == event_id implies out.contains(series[k].tid) by {
        assert(kept.contains(series[k]));
        let p = choose|p: int| 0 <= p < kept.len() && kept[p] == series[k];
        assert(tids[p] == series[k].tid);
        order::order_exists(keys);
        assert(order::order_of(keys).contains(p as usize));
        let q = choose|q: int|
            0 <= q < order::order_of(keys).len() && order::order_of(keys)[q] == p as usize;
        assert(out[q] == tids[p]);
    }
}

/// A thread gives as many samples per quantum as fit into it, and one where none fits.
pub proof fn samples_fit_the_quantum(v: VirtualView)
    requires
        v.sample_ns > 0,
    ensures
        v.sample_ns <= v.quantum_ns ==> v.samples_per_quantum() * v.sample_ns <= v.quantum_ns < (
        v.samples_per_quantum() + 1) * v.sample_ns,
        v.quantum_ns < v.sample_ns ==> v.samples_per_quantum() == 1,
{
    let q = v.quantum_ns as int;
    let s = v.sample_ns as int;
    vstd::arithmetic::div_mod::lemma_fundamental_div_mod(q, s);
    let n = q / s;
    assert(n * s == s * n && (n + 1) * s == s * n + s) by (nonlinear_arith);
    if s <= q {
        assert(n >= 1) by (nonlinear_arith)
            requires
                q == s * n + q % s,
                0 <= q % s < s,
                s <= q,
                s > 0,
        ;
    } else {
        assert(n == 0) by (nonlinear_arith)
            requires
                q == s * n + q % s,
                0 <= q % s < s,
                0 <= q < s,
        ;
    }
}

proof fn lemma_thread_part(v: VirtualView, event_id: EventId, tids: Seq<u32>, t: int) -> (at: int)
    requires
        0 <= t < tids.len(),
    ensures
        at == t * v.samples_per_quantum(),
        0 <= at,
        at + v.samples_per_quantum() <= v.threads_plan(event_id, tids).len(),
        v.threads_plan(event_id, tids).len() == tids.len() * v.samples_per_quantum(),
        forall|i: int|
            0 <= i < v.samples_per_quantum() ==> #[trigger] v.threads_plan(event_id, tids)[at + i]
                == v.planned(event_id, tids[t], i),
    decreases tids.len(),
{
    let n = v.samples_per_quantum();
    let before = v.threads_plan(event_id, tids.drop_last());
    lemma_threads_plan_len(v, event_id, tids.drop_last());
    lemma_threads_plan_len(v, event_id, tids);
    let all = v.threads_plan(event_id, tids);
    if t == tids.len() - 1 {
        let at = before.len() as int;
        assert forall|i: int| 0 <= i < n implies #[trigger] all[at + i] == v.planned(
            event_id,
            tids[t],
            i,
        ) by {}
        at
    } else {
        let at = lemma_thread_part(v, event_id, tids.drop_last(), t);
        assert forall|i: int| 0 <= i < n implies #[trigger] all[at + i] == v.planned(
            event_id,
            tids[t],
            i,
        ) by {
            assert(before[at + i] == v.planned(event_id, tids.drop_last()[t], i));
        }
        at
    }
}

proof fn lemma_threads_plan_len(v: VirtualView, event_id: EventId, tids: Seq<u32>)
    ensures
        v.threads_plan(event_id, tids).len() == tids.len() * v.samples_per_quantum(),
    decreases tids.len(),
{
    let n = v.samples_per_quantum() as int;
    if tids.len() > 0 {
        lemma_threads_plan_len(v, event_id, tids.drop_last());
        let k = tids.len() as int;
        assert((k - 1) * n + n == k * n) by (nonlinear_arith);
    } else {
        assert(0 * n == 0) by (nonlinear_arith);
    }
}

proof fn lemma_event_part(v: VirtualView, events: Seq<EventId>, e: int) -> (at: int)
    requires
        0 <= e < events.len(),
    ensures
        0 <= at,
        at == v.plan(events.take(e)).len(),
        at + v.threads_plan(events[e], sorted_tids(v.series, events[e])).len() <= v.plan(
            events,
        ).len(),
        v.plan(events).subrange(
            at,
            at + v.threads_plan(events[e], sorted_tids(v.series, events[e])).len(),
        ) == v.threads_plan(events[e], sorted_tids(v.series, events[e])),
    decreases events.len(),
{
    let front = events.drop_last();
    let before = v.plan(front);
    let part = v.threads_plan(events[e], sorted_tids(v.series, events[e]));
    let all = v.plan(events);
    if e == events.len() - 1 {
        let at = before.len() as int;
        assert(events.take(e) =~= front);
        assert(all.subrange(at, at + part.len()) =~= part);
        at
    } else {
        let at = lemma_event_part(v, front, e);
        assert(front.take(e) =~= events.take(e));
        assert(all.subrange(at, at + part.len()) =~= before.subrange(at, at + part.len()));
        at
    }
}

/// Every enabled event is sampled on every thread that it has rates for, over the whole quantum:
/// its samples stand together, in order of time, each for its event and thread, from its own start
/// on, with the rate that holds then. Returns where they begin.
pub proof fn every_thread_is_sampled(
    v: VirtualView,
    events: Seq<EventId>,
    e: int,
    s: int,
) -> (at: int)
    requires
        v.series.len() <= usize::MAX,
        v.sample_ns > 0,
        v.time_fits(),
        0 <= e < events.len(),
        0 <= s < v.series.len(),
        v.series[s].event_id == events[e],
    ensures
        0 <= at,
        at + v.samples_per_quantum() <= v.plan(events).len(),
        forall|i: int| #![trigger v.plan(events)[at + i]]
            0 <= i < v.samples_per_quantum() ==> ({
                let sample = v.plan(events)[at + i];
                &&& sample.event_id == events[e]
                &&& sample.tid == v.series[s].tid
                &&& sample.start_ns == v.current_time_ns + i * v.sample_ns
                &&& sample.rate == rate_of(v.series, events[e], v.series[s].tid, sample.start_ns)
            }),
{
    let tids = sorted_tids(v.series, events[e]);
    threads_ascend(v.series, events[e]);
    assert(tids.contains(v.series[s].tid));
    let t = choose|t: int| 0 <= t < tids.len() && tids[t] == v.series[s].tid;
    let from = lemma_event_part(v, events, e);
    let within = lemma_thread_part(v, events[e], tids, t);
    let part = v.threads_plan(events[e], tids);
    let all = v.plan(events);
    let n = v.samples_per_quantum();
    assert forall|i: int| #![trigger all[from + within + i]] 0 <= i < n implies ({
        let sample = all[from + within + i];
        &&& sample.event_id == events[e]
        &&& sample.tid == v.series[s].tid
        &&& sample.start_ns == v.current_time_ns + i * v.sample_ns
        &&& sample.rate == rate_of(v.series, events[e], v.series[s].tid, sample.start_ns)
    }) by {
        assert(all.subrange(from, from + part.len())[within + i] == part[within + i]);
        assert(part[within + i] == v.planned(events[e], tids[t], i));
        lemma_span(v, i);
    }
    from + within
}

/// The plan holds nothing else: as many samples as enabled events have threads, times the samples
/// of a thread; and each is of an enabled event, on a thread that it has rates for.
pub proof fn only_enabled_events_are_sampled(v: VirtualView, events: Seq<EventId>)
    requires
        v.series.len() <= usize::MAX,
    ensures
        v.plan(events).len() == events.fold_left(
            0int,
            |n: int, id: EventId|
                n + v.series.filter(|s: TimedRates| s.event_id == id).len()
                    * v.samples_per_quantum(),
        ),
        forall|k: int|
            0 <= k < v.plan(events).len() ==> events.contains((#[trigger] v.plan(
                events,
            )[k]).event_id) && v.series.filter(
                |s: TimedRates| s.event_id == v.plan(events)[k].event_id,
            ).map_values(|s: TimedRates| s.tid).contains(v.plan(events)[k].tid),
    decreases events.len(),
{
    if events.len() > 0 {
        let front = events.drop_last();
        only_enabled_events_are_sampled(v, front);
        let id = events.last();
        let tids = sorted_tids(v.series, id);
        threads_ascend(v.series, id);
        let kept = v.series.filter(|s: TimedRates| s.event_id == id);
        lemma_tids_of(v.series, id);
        lemma_threads_plan_len(v, id, tids);
        let before = v.plan(front);
        let part = v.threads_plan(id, tids);
        let all = v.plan(events);
        assert forall|k: int| 0 <= k < all.len() implies events.contains(
            (#[trigger] all[k]).event_id,
        ) && v.series.filter(|s: TimedRates| s.event_id == all[k].event_id).map_values(
            |s: TimedRates| s.tid,
        ).contains(all[k].tid) by {
            if k < before.len() {
                assert(all[k] == before[k]);
                let p = choose|p: int| 0 <= p < front.len() && front[p] == before[k].event_id;
                assert(events[p] == before[k].event_id);
            } else {
                assert(all[k] == part[k - before.len()]);
                lemma_threads_plan_of(v, id, tids, k - before.len());
                assert(events[events.len() - 1] == id);
                assert(tids.to_multiset().contains(all[k].tid)) by {
                    broadcast use vstd::seq_lib::group_to_multiset_ensures;

                }
                assert(kept.map_values(|s: TimedRates| s.tid).contains(all[k].tid)) by {
                    broadcast use vstd::seq_lib::group_to_multiset_ensures;

                }
            }
        }
    }
}

proof fn lemma_threads_plan_of(v: VirtualView, event_id: EventId, tids: Seq<u32>, k: int)
    requires
        0 <= k < v.threads_plan(event_id, tids).len(),
    ensures
        v.threads_plan(event_id, tids)[k].event_id == event_id,
        tids.contains(v.threads_plan(event_id, tids)[k].tid),
    decreases tids.len(),
{
    let before = v.threads_plan(event_id, tids.drop_last());
    if k < before.len() {
        lemma_threads_plan_of(v, event_id, tids.drop_last(), k);
        let t = choose|t: int|
            0 <= t < tids.drop_last().len() && tids.drop_last()[t] == before[k].tid;
        assert(tids[t] == before[k].tid);
    } else {
        assert(tids[tids.len() - 1] == v.threads_plan(event_id, tids)[k].tid);
    }
}

/// A sample that was drawn is the planned one with its count: it covers one sample interval from
/// the planned start on, and stands for the planned event and thread.
pub proof fn samples_are_as_planned(
    sample: RawSample,
    planned: PlannedSample,
    sample_ns: u64,
    count: u64,
)
    requires
        is_sample(sample, planned, sample_ns, count),
    ensures
        sample.timestamp_ns - sample.duration_ns == planned.start_ns,
        sample.duration_ns == sample_ns,
        sample.event_id == planned.event_id,
        sample.tid == planned.tid,
        sample.count == count,
        sample.cpu_id == 0,
        sample.pid == 0,
        sample.task@.take(8).map_values(|b: u8| b as char) == "simulate"@,
        forall|i: int| 8 <= i < 16 ==> #[trigger] sample.task@[i] == 0,
{
    reveal_strlit("simulate");
    assert(sample.task@.take(8).map_values(|b: u8| b as char) =~= "simulate"@);
}

} // verus!
