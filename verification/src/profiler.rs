//! The decisions of one profiling step: collect, estimate, schedule, emit.
//!
//! A step begins with the samples that were collected and ends with the scheduler's decision.
//! In between, every thread and event that was observed gets a measurement update, every other
//! known one a time update, and every known thread one step for correlated noise.

use crate::event::EventId;
use crate::quantum::{Quantum, QuantumView, ThreadAggregate};
use crate::sample::{RawSample, MAX_COUNTERS};
use crate::scheduler::ScheduleDecision;
use vstd::prelude::*;

verus! {

/// Main profiling orchestrator: the active set and the clock.
pub struct Profiler {
    active_set: Vec<EventId>,
    current_time_ns: u64,
}

/// Model of [`Profiler`].
pub struct ProfilerView {
    /// Events currently enabled.
    pub active_set: Seq<EventId>,
    /// Nanoseconds since profiling started.
    pub current_time_ns: u64,
}

impl View for Profiler {
    type V = ProfilerView;

    closed spec fn view(&self) -> ProfilerView {
        ProfilerView { active_set: self.active_set@, current_time_ns: self.current_time_ns }
    }
}

/// A thread and an event.
pub type EstimateKey = (u32, EventId);

/// Whether a thread and event was observed.
pub open spec fn is_observed(observed: Seq<ThreadAggregate>, key: EstimateKey) -> bool {
    exists|i: int| 0 <= i < observed.len() && (#[trigger] observed[i]).key() == key
}

/// The known keys that were not observed, in order.
pub open spec fn stale(keys: Seq<EstimateKey>, observed: Seq<ThreadAggregate>) -> Seq<EstimateKey>
    decreases keys.len(),
{
    if keys.len() == 0 {
        Seq::empty()
    } else {
        let before = stale(keys.drop_last(), observed);
        if is_observed(observed, keys.last()) {
            before
        } else {
            before.push(keys.last())
        }
    }
}

/// The threads of known keys, each once, in order of appearance.
pub open spec fn threads(keys: Seq<EstimateKey>) -> Seq<u32>
    decreases keys.len(),
{
    if keys.len() == 0 {
        Seq::empty()
    } else {
        let before = threads(keys.drop_last());
        if before.contains(keys.last().0) {
            before
        } else {
            before.push(keys.last().0)
        }
    }
}

impl Profiler {
    /// A profiler at time zero with nothing enabled.
    pub fn new() -> (r: Self)
        ensures
            r@ == (ProfilerView { active_set: Seq::empty(), current_time_ns: 0 }),
    {
        let r = Profiler { active_set: Vec::new(), current_time_ns: 0 };
        assert(r@.active_set =~= Seq::empty());
        r
    }

    /// Begins a step with the samples collected: the clock moves on, and the quantum ends now.
    pub fn begin_step(&mut self, samples: Vec<RawSample>, elapsed_ns: u64) -> (r: Quantum)
        requires
            old(self)@.current_time_ns + elapsed_ns <= u64::MAX,
        ensures
            final(self)@ == (ProfilerView {
                current_time_ns: (old(self)@.current_time_ns + elapsed_ns) as u64,
                ..old(self)@
            }),
            r@ == (QuantumView {
                samples: samples@,
                timestamp_ns: final(self)@.current_time_ns,
                elapsed_ns,
            }),
    {
        self.current_time_ns = self.current_time_ns + elapsed_ns;
        Quantum::new(samples, self.current_time_ns, elapsed_ns)
    }

    /// Ends a step with the scheduler's decision: its events are the active ones from now on.
    /// Returns the duration asked for, in milliseconds.
    pub fn end_step(&mut self, decision: ScheduleDecision) -> (r: Option<u64>)
        ensures
            final(self)@ == (ProfilerView {
                active_set: decision.active_events@,
                ..old(self)@
            }),
            r == decision.duration,
    {
        self.active_set = decision.active_events;
        decision.duration
    }

    /// Events currently enabled.
    pub fn active_set(&self) -> (r: &Vec<EventId>)
        ensures
            r@ == self@.active_set,
    {
        &self.active_set
    }

    /// Nanoseconds elapsed since profiling started.
    pub fn current_time_ns(&self) -> (r: u64)
        ensures
            r == self@.current_time_ns,
    {
        self.current_time_ns
    }
}

/// Whether the spread of some samples says anything; it takes two for that.
pub fn spread_counts(num_samples: u32) -> (r: bool)
    ensures
        r == (num_samples >= 2),
{
    num_samples >= 2
}

/// The known keys to be updated for the passage of time alone: those that were not observed.
pub fn stale_keys(keys: &Vec<EstimateKey>, observed: &Vec<ThreadAggregate>) -> (r: Vec<EstimateKey>)
    ensures
        r@ == stale(keys@, observed@),
{
    let mut out: Vec<EstimateKey> = Vec::new();
    let mut i: usize = 0;
    assert(keys@.take(0) =~= Seq::empty());
    while i < keys.len()
        invariant
            i <= keys@.len(),
            out@ == stale(keys@.take(i as int), observed@),
        decreases keys@.len() - i,
    {
        assert(keys@.take(i as int + 1).drop_last() =~= keys@.take(i as int));
        let (tid, event_id) = keys[i];
        let mut seen = false;
        let mut j: usize = 0;
        while j < observed.len()
            invariant
                i < keys@.len(),
                (tid, event_id) == keys@[i as int],
                j <= observed@.len(),
                seen == exists|k: int|
                    0 <= k < j && (#[trigger] observed@[k]).key() == keys@[i as int],
            decreases observed@.len() - j,
        {
            assert(observed@[j as int].key() == (
                observed@[j as int].tid,
                observed@[j as int].aggregate.event_id,
            ));
            if observed[j].tid == tid && observed[j].aggregate.event_id == event_id {
                seen = true;
            }
            j = j + 1;
        }
        if !seen {
            out.push((tid, event_id));
        }
        i = i + 1;
    }
    assert(keys@.take(i as int) =~= keys@);
    out
}

/// The threads that estimates are known of, each once.
pub fn active_tids(keys: &Vec<EstimateKey>) -> (r: Vec<u32>)
    ensures
        r@ == threads(keys@),
{
    let mut out: Vec<u32> = Vec::new();
    let mut i: usize = 0;
    assert(keys@.take(0) =~= Seq::empty());
    while i < keys.len()
        invariant
            i <= keys@.len(),
            out@ == threads(keys@.take(i as int)),
        decreases keys@.len() - i,
    {
        assert(keys@.take(i as int + 1).drop_last() =~= keys@.take(i as int));
        let tid = keys[i].0;
        let mut seen = false;
        let mut j: usize = 0;
        while j < out.len()
            invariant
                j <= out@.len(),
                seen == exists|k: int| 0 <= k < j && #[trigger] out@[k] == tid,
            decreases out@.len() - j,
        {
            if out[j] == tid {
                seen = true;
            }
            j = j + 1;
        }
        assert(seen == out@.contains(tid));
        if !seen {
            out.push(tid);
        }
        i = i + 1;
    }
    assert(keys@.take(i as int) =~= keys@);
    out
}

/// Number of counter slots that a scheduler may fill: those of the source, or of the hardware where
/// no source says.
pub fn slots_or_default(source_slots: Option<usize>) -> (r: usize)
    ensures
        r == match source_slots {
            Some(n) => n,
            None => MAX_COUNTERS,
        },
{
    match source_slots {
        Some(n) => n,
        None => MAX_COUNTERS,
    }
}

/// Every known thread and event is updated once per step: by measurement if it was observed, for
/// the passage of time if not.
pub proof fn every_key_is_updated_once(
    keys: Seq<EstimateKey>,
    observed: Seq<ThreadAggregate>,
    key: EstimateKey,
)
    requires
        keys.no_duplicates(),
    ensures
        stale(keys, observed).contains(key) <==> keys.contains(key) && !is_observed(observed, key),
        stale(keys, observed).no_duplicates(),
    decreases keys.len(),
{
    if keys.len() > 0 {
        let front = keys.drop_last();
        let last = keys.last();
        let before = stale(front, observed);
        let after = stale(keys, observed);
        every_key_is_updated_once(front, observed, key);
        every_key_is_updated_once(front, observed, last);
        assert(!front.contains(last)) by {
            if front.contains(last) {
                let i = choose|i: int| 0 <= i < front.len() && front[i] == last;
                assert(keys[i] == keys[keys.len() - 1]);
            }
        }
        if keys.contains(key) && key != last {
            let i = choose|i: int| 0 <= i < keys.len() && keys[i] == key;
            assert(front[i] == key);
        }
        if front.contains(key) {
            let i = choose|i: int| 0 <= i < front.len() && front[i] == key;
            assert(keys[i] == key);
        }
        if key == last {
            assert(keys[keys.len() - 1] == key);
        }
        if before.contains(key) {
            let i = choose|i: int| 0 <= i < before.len() && before[i] == key;
            assert(after[i] == key);
        }
        if after.contains(key) && key != last {
            let i = choose|i: int| 0 <= i < after.len() && after[i] == key;
            assert(before[i] == key);
        }
        if !is_observed(observed, last) {
            assert(after[before.len() as int] == last);
        }
    }
}

/// The keys updated for the passage of time alone are the known ones that nothing was observed of,
/// in their order.
pub proof fn unobserved_keys_keep_their_order(
    keys: Seq<EstimateKey>,
    observed: Seq<ThreadAggregate>,
)
    ensures
        stale(keys, observed) == keys.filter(
            |k: EstimateKey|
                !(exists|i: int|
                    0 <= i < observed.len() && (#[trigger] observed[i]).tid == k.0
                        && observed[i].aggregate.event_id == k.1),
        ),
    decreases keys.len(),
{
    reveal(Seq::filter);
    if keys.len() > 0 {
        unobserved_keys_keep_their_order(keys.drop_last(), observed);
        let k = keys.last();
        if is_observed(observed, k) {
            let i = choose|i: int| 0 <= i < observed.len() && (#[trigger] observed[i]).key() == k;
            assert(observed[i].tid == k.0 && observed[i].aggregate.event_id == k.1);
        }
        if exists|i: int|
            0 <= i < observed.len() && (#[trigger] observed[i]).tid == k.0
                && observed[i].aggregate.event_id == k.1 {
            let i = choose|i: int|
                0 <= i < observed.len() && (#[trigger] observed[i]).tid == k.0
                    && observed[i].aggregate.event_id == k.1;
            assert(observed[i].key() == k);
        }
    }
}

/// Whether a thread has a key.
pub open spec fn has_thread(keys: Seq<EstimateKey>, tid: u32) -> bool {
    exists|i: int| 0 <= i < keys.len() && (#[trigger] keys[i]).0 == tid
}

/// Every thread that has a key is listed, once, and no other thread is. The threads of the keys
/// known so far stand first, however many keys follow.
pub proof fn every_thread_is_listed_once(keys: Seq<EstimateKey>, n: int)
    requires
        0 <= n <= keys.len(),
    ensures
        threads(keys).no_duplicates(),
        forall|tid: u32| #[trigger] threads(keys).contains(tid) <==> has_thread(keys, tid),
        threads(keys.take(n)).is_prefix_of(threads(keys)),
    decreases keys.len(),
{
    if keys.len() > 0 {
        let front = keys.drop_last();
        let before = threads(front);
        let all = threads(keys);
        let m = if n < keys.len() {
            n
        } else {
            keys.len() - 1
        };
        every_thread_is_listed_once(front, m);
        assert forall|tid: u32| #[trigger] all.contains(tid) <==> has_thread(keys, tid) by {
            assert(before.contains(tid) <==> has_thread(front, tid));
            if has_thread(front, tid) {
                let i = choose|i: int| 0 <= i < front.len() && (#[trigger] front[i]).0 == tid;
                assert(keys[i].0 == tid);
                let k = choose|k: int| 0 <= k < before.len() && before[k] == tid;
                assert(all[k] == tid);
            }
            if has_thread(keys, tid) && !has_thread(front, tid) {
                let i = choose|i: int| 0 <= i < keys.len() && (#[trigger] keys[i]).0 == tid;
                assert(i < front.len() ==> front[i].0 == tid);
                assert(keys.last().0 == tid);
                assert(all[before.len() as int] == tid);
            }
            if all.contains(tid) && !before.contains(tid) {
                let k = choose|k: int| 0 <= k < all.len() && all[k] == tid;
                assert(k < before.len() ==> before[k] == tid);
                assert(keys[keys.len() - 1].0 == tid);
            }
        }
        if n < keys.len() {
            assert(front.take(n) =~= keys.take(n));
            assert(before.is_prefix_of(all));
        } else {
            assert(keys.take(n) =~= keys);
        }
    } else {
        assert(keys.take(n) =~= keys);
    }
}

} // verus!
