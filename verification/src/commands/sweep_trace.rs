//! Rewriting the rates of a sweep: synthetic thread IDs, and rates relative to the anchor event.

use crate::commands::evaluate;
use crate::commands::remap::{self, assign_synthetic_tids, SweepThread, SweepThreadView};
use crate::commands::sweep::{self, BatchThread};
use crate::event::EventId;
use crate::perfetto::packet::PacketView;
use crate::perfetto::reader::{read_rate_timeseries, RateSeries, RateTimeSeries};
use crate::perfetto::trace::{self, ThreadInfo, TraceError, TraceFault};
use crate::sink::perfetto as threads_sink;
use crate::state::{self, positive};
use crate::text::same_text;
use std::collections::HashMap;
use vstd::prelude::*;

verus! {

broadcast use vstd::std_specs::hash::group_hash_axioms;

/// One rate of a rewritten trace.
#[derive(Clone, Copy)]
pub struct RemappedPoint {
    /// When the rate was taken, in nanoseconds.
    pub timestamp_ns: u64,
    /// Bit pattern of the rate.
    pub rate: u64,
    /// Bit pattern of the anchor rate that the rate is to be taken relative to; `None` where the
    /// rate stays as it is.
    pub anchor_rate: Option<u64>,
}

/// The rates of one event on one thread of a rewritten trace.
pub struct RemappedSeries {
    /// The event.
    pub event_id: EventId,
    /// The synthetic thread ID.
    pub tid: u32,
    /// The rates.
    pub points: Vec<RemappedPoint>,
}

impl RemappedSeries {
    /// The event and thread of the series.
    pub open spec fn key(self) -> (EventId, u32) {
        (self.event_id, self.tid)
    }
}

/// A rewritten trace.
pub struct RemappedTrace {
    /// The rates of each event and thread.
    pub series: Vec<RemappedSeries>,
    /// What is known of each synthetic thread.
    pub thread_meta: HashMap<u32, ThreadInfo>,
}

/// The last position of a name.
pub open spec fn last_index(names: Seq<String>, name: Seq<char>) -> Option<nat>
    decreases names.len(),
{
    if names.len() == 0 {
        None
    } else if names.last()@ == name {
        Some((names.len() - 1) as nat)
    } else {
        last_index(names.drop_last(), name)
    }
}

/// The synthetic ID of a thread: that of the first batch which the thread appears in.
pub open spec fn synthetic_of(threads: Seq<SweepThreadView>, tid: u32) -> Option<u32>
    decreases threads.len(),
{
    if threads.len() == 0 {
        None
    } else {
        match synthetic_of(threads.drop_last(), tid) {
            Some(id) => Some(id),
            None => if threads.last().real_tid == tid {
                Some(threads.last().synthetic_tid)
            } else {
                None
            },
        }
    }
}

/// What is known of each synthetic thread: what the first thread with its ID says.
pub open spec fn meta_of(threads: Seq<SweepThreadView>) -> Map<u32, (u32, Seq<char>)>
    decreases threads.len(),
{
    if threads.len() == 0 {
        Map::empty()
    } else {
        let before = meta_of(threads.drop_last());
        let t = threads.last();
        if before.contains_key(t.synthetic_tid) {
            before
        } else {
            before.insert(t.synthetic_tid, (t.tgid, t.task))
        }
    }
}

/// The last series of an event on a thread.
pub open spec fn last_series(list: Seq<RateSeries>, name: Seq<char>, tid: u32) -> Option<nat>
    decreases list.len(),
{
    if list.len() == 0 {
        None
    } else if list.last().key() == (name, tid) {
        Some((list.len() - 1) as nat)
    } else {
        last_series(list.drop_last(), name, tid)
    }
}

/// The rate at each time; the last one where several have the same time.
pub open spec fn rate_at_times(points: Seq<(u64, u64)>) -> Map<u64, u64>
    decreases points.len(),
{
    if points.len() == 0 {
        Map::empty()
    } else {
        rate_at_times(points.drop_last()).insert(points.last().0, points.last().1)
    }
}

/// The anchor's rate on a thread at each time.
pub open spec fn anchor_rates(list: Seq<RateSeries>, anchor: Seq<char>, tid: u32) -> Map<u64, u64> {
    match last_series(list, anchor, tid) {
        Some(i) => rate_at_times(list[i as int].points@),
        None => Map::empty(),
    }
}

/// A rate of an event other than the anchor, beside the anchor's rate at the same time if that is
/// above zero; the anchor's own rates stay alone.
pub open spec fn remapped_point(
    point: (u64, u64),
    is_anchor: bool,
    anchors: Map<u64, u64>,
) -> RemappedPoint {
    RemappedPoint {
        timestamp_ns: point.0,
        rate: point.1,
        anchor_rate: if !is_anchor && anchors.contains_key(point.0) && state::is_positive(
            anchors[point.0],
        ) {
            Some(anchors[point.0])
        } else {
            None
        },
    }
}

/// The rewritten rates of a series.
pub open spec fn remapped_points(
    s: RateSeries,
    list: Seq<RateSeries>,
    anchor: Seq<char>,
) -> Seq<RemappedPoint> {
    Seq::new(
        s.points@.len(),
        |i: int|
            remapped_point(
                s.points@[i],
                s.event_name@ == anchor,
                anchor_rates(list, anchor, s.tid),
            ),
    )
}

/// Where a series goes: the ID of its event and the synthetic ID of its thread, if both are known.
pub open spec fn target(
    s: RateSeries,
    names: Seq<String>,
    threads: Seq<SweepThreadView>,
) -> Option<(EventId, u32)> {
    match (last_index(names, s.event_name@), synthetic_of(threads, s.tid)) {
        (Some(e), Some(t)) => Some((e as EventId, t)),
        _ => None,
    }
}

/// What goes to one event and thread from the first `n` series, in order.
pub open spec fn gathered(
    list: Seq<RateSeries>,
    n: nat,
    names: Seq<String>,
    threads: Seq<SweepThreadView>,
    anchor: Seq<char>,
    key: (EventId, u32),
) -> Seq<RemappedPoint>
    decreases n,
{
    if n == 0 {
        Seq::empty()
    } else {
        let before = gathered(list, (n - 1) as nat, names, threads, anchor, key);
        let s = list[n - 1];
        if target(s, names, threads) == Some(key) {
            before + remapped_points(s, list, anchor)
        } else {
            before
        }
    }
}

/// Whether one of the first `n` series goes to an event and thread.
pub open spec fn is_target(
    list: Seq<RateSeries>,
    n: nat,
    names: Seq<String>,
    threads: Seq<SweepThreadView>,
    key: (EventId, u32),
) -> bool {
    exists|i: int| 0 <= i < n && target(#[trigger] list[i], names, threads) == Some(key)
}

/// Whether there is a rewritten series for an event and thread.
pub open spec fn has_key(r: Seq<RemappedSeries>, key: (EventId, u32)) -> bool {
    exists|g: int| 0 <= g < r.len() && (#[trigger] r[g]).key() == key
}

/// Whether `r` holds what goes to each event and thread from the first `n` series: one entry for
/// each event and thread that any of them goes to.
pub open spec fn is_remapping(
    r: Seq<RemappedSeries>,
    list: Seq<RateSeries>,
    n: nat,
    names: Seq<String>,
    threads: Seq<SweepThreadView>,
    anchor: Seq<char>,
) -> bool {
    &&& forall|g: int, h: int|
        0 <= g < h < r.len() ==> (#[trigger] r[g]).key() != (#[trigger] r[h]).key()
    &&& forall|g: int|
        0 <= g < r.len() ==> (#[trigger] r[g]).points@ == gathered(
            list,
            n,
            names,
            threads,
            anchor,
            r[g].key(),
        )
    &&& forall|key: (EventId, u32)|
        has_key(r, key) <==> #[trigger] is_target(list, n, names, threads, key)
}

fn event_index(names: &Vec<String>, name: &str) -> (r: Option<EventId>)
    requires
        names@.len() <= u32::MAX,
    ensures
        match r {
            Some(id) => last_index(names@, name@) == Some(id as nat),
            None => last_index(names@, name@) is None,
        },
{
    let mut found: Option<EventId> = None;
    let mut i: usize = 0;
    while i < names.len()
        invariant
            i <= names@.len() <= u32::MAX,
            match found {
                Some(id) => last_index(names@.take(i as int), name@) == Some(id as nat),
                None => last_index(names@.take(i as int), name@) is None,
            },
        decreases names@.len() - i,
    {
        assert(names@.take(i as int + 1).drop_last() =~= names@.take(i as int));
        if same_text(names[i].as_str(), name) {
            found = Some(i as EventId);
        }
        i = i + 1;
    }
    assert(names@.take(i as int) =~= names@);
    found
}

/// The synthetic ID of each thread.
fn synthetic_ids(threads: &Vec<SweepThread>) -> (r: HashMap<u32, u32>)
    ensures
        forall|tid: u32|
            synthetic_of(remap::ids_view(threads@), tid) == if #[trigger] r@.contains_key(tid) {
                Some(r@[tid])
            } else {
                None
            },
{
    let ghost all = remap::ids_view(threads@);
    let mut r: HashMap<u32, u32> = HashMap::new();
    let mut i: usize = 0;
    assert(all.take(0) =~= Seq::empty());
    while i < threads.len()
        invariant
            all == remap::ids_view(threads@),
            i <= threads@.len(),
            forall|tid: u32|
                synthetic_of(all.take(i as int), tid) == if #[trigger] r@.contains_key(tid) {
                    Some(r@[tid])
                } else {
                    None
                },
        decreases threads@.len() - i,
    {
        assert(all.take(i as int + 1).drop_last() =~= all.take(i as int));
        let t = &threads[i];
        assert(all.take(i as int + 1).last() == t@);
        if !r.contains_key(&t.real_tid) {
            r.insert(t.real_tid, t.synthetic_tid);
        }
        i = i + 1;
    }
    assert(all.take(i as int) =~= all);
    r
}

/// What is known of each synthetic thread.
fn thread_meta(threads: &Vec<SweepThread>) -> (r: HashMap<u32, ThreadInfo>)
    ensures
        threads_sink::meta_view(r@) == meta_of(remap::ids_view(threads@)),
{
    let ghost all = remap::ids_view(threads@);
    let mut r: HashMap<u32, ThreadInfo> = HashMap::new();
    let mut i: usize = 0;
    assert(all.take(0) =~= Seq::empty());
    assert(threads_sink::meta_view(r@) =~= meta_of(all.take(0)));
    while i < threads.len()
        invariant
            all == remap::ids_view(threads@),
            i <= threads@.len(),
            threads_sink::meta_view(r@) == meta_of(all.take(i as int)),
        decreases threads@.len() - i,
    {
        assert(all.take(i as int + 1).drop_last() =~= all.take(i as int));
        let t = &threads[i];
        assert(all.take(i as int + 1).last() == t@);
        let ghost before = r@;
        assert(threads_sink::meta_view(before).contains_key(t.synthetic_tid)
            == before.contains_key(t.synthetic_tid));
        if !r.contains_key(&t.synthetic_tid) {
            r.insert(t.synthetic_tid, ThreadInfo { tgid: t.tgid, task: t.task.clone() });
            assert(threads_sink::meta_view(r@) =~= threads_sink::meta_view(before).insert(
                t.synthetic_tid,
                (t.tgid, t.task@),
            ));
        }
        i = i + 1;
    }
    assert(all.take(i as int) =~= all);
    r
}

fn rates_at_times(points: &Vec<(u64, u64)>) -> (r: HashMap<u64, u64>)
    ensures
        r@ == rate_at_times(points@),
{
    let mut r: HashMap<u64, u64> = HashMap::new();
    let mut i: usize = 0;
    assert(points@.take(0) =~= Seq::empty());
    while i < points.len()
        invariant
            i <= points@.len(),
            r@ == rate_at_times(points@.take(i as int)),
        decreases points@.len() - i,
    {
        assert(points@.take(i as int + 1).drop_last() =~= points@.take(i as int));
        r.insert(points[i].0, points[i].1);
        i = i + 1;
    }
    assert(points@.take(i as int) =~= points@);
    r
}

fn anchor_rates_of(list: &Vec<RateSeries>, anchor: &str, tid: u32) -> (r: HashMap<u64, u64>)
    ensures
        r@ == anchor_rates(list@, anchor@, tid),
{
    let mut found: Option<usize> = None;
    let mut i: usize = 0;
    while i < list.len()
        invariant
            i <= list@.len(),
            match found {
                Some(at) => at < i && last_series(list@.take(i as int), anchor@, tid) == Some(
                    at as nat,
                ),
                None => last_series(list@.take(i as int), anchor@, tid) is None,
            },
        decreases list@.len() - i,
    {
        assert(list@.take(i as int + 1).drop_last() =~= list@.take(i as int));
        if list[i].tid == tid && same_text(list[i].event_name.as_str(), anchor) {
            found = Some(i);
        }
        i = i + 1;
    }
    assert(list@.take(i as int) =~= list@);
    match found {
        Some(at) => rates_at_times(&list[at].points),
        None => HashMap::new(),
    }
}

/// Appends the rewritten rates of a series.
fn append_points(
    out: &mut Vec<RemappedPoint>,
    s: &RateSeries,
    list: &Vec<RateSeries>,
    anchor: &str,
)
    ensures
        final(out)@ == old(out)@ + remapped_points(*s, list@, anchor@),
{
    let ghost start = out@;
    let is_anchor = same_text(s.event_name.as_str(), anchor);
    let anchors = anchor_rates_of(list, anchor, s.tid);
    let ghost all = remapped_points(*s, list@, anchor@);
    let mut i: usize = 0;
    assert(start + all.take(0) =~= start);
    while i < s.points.len()
        invariant
            i <= s.points@.len(),
            is_anchor == (s.event_name@ == anchor@),
            anchors@ == anchor_rates(list@, anchor@, s.tid),
            all == remapped_points(*s, list@, anchor@),
            out@ == start + all.take(i as int),
        decreases s.points@.len() - i,
    {
        let (t, rate) = s.points[i];
        let anchor_rate: Option<u64> = if is_anchor {
            None
        } else {
            match anchors.get(&t) {
                Some(a) => if positive(*a) {
                    Some(*a)
                } else {
                    None
                },
                None => None,
            }
        };
        out.push(RemappedPoint { timestamp_ns: t, rate, anchor_rate });
        i = i + 1;
        assert(out@ =~= start + all.take(i as int));
    }
    assert(all.take(i as int) =~= all);
}

/// Rewrites series: each goes to the ID of its event and the synthetic ID of its thread; those of
/// unknown events and threads are dropped.
pub fn remap_series(
    list: &Vec<RateSeries>,
    threads: &Vec<SweepThread>,
    event_names: &Vec<String>,
    anchor: &str,
) -> (r: Vec<RemappedSeries>)
    requires
        event_names@.len() <= u32::MAX,
    ensures
        is_remapping(
            r@,
            list@,
            list@.len(),
            event_names@,
            remap::ids_view(threads@),
            anchor@,
        ),
{
    let ghost ids = remap::ids_view(threads@);
    let known = synthetic_ids(threads);
    let mut r: Vec<RemappedSeries> = Vec::new();
    let mut i: usize = 0;
    while i < list.len()
        invariant
            i <= list@.len(),
            event_names@.len() <= u32::MAX,
            ids == remap::ids_view(threads@),
            forall|tid: u32|
                synthetic_of(ids, tid) == if #[trigger] known@.contains_key(tid) {
                    Some(known@[tid])
                } else {
                    None
                },
            is_remapping(r@, list@, i as nat, event_names@, ids, anchor@),
        decreases list@.len() - i,
    {
        let s = &list[i];
        let ghost before = r@;
        let ghost n = i as nat;
        let event_id = event_index(event_names, s.event_name.as_str());
        assert(synthetic_of(ids, s.tid) == if known@.contains_key(s.tid) {
            Some(known@[s.tid])
        } else {
            None
        });
        let tid: Option<u32> = match known.get(&s.tid) {
            Some(t) => Some(*t),
            None => None,
        };
        if let (Some(event_id), Some(tid)) = (event_id, tid) {
            let ghost key = (event_id, tid);
            assert(target(*s, event_names@, ids) == Some(key));
            let mut slot: usize = 0;
            while slot < r.len() && !(r[slot].event_id == event_id && r[slot].tid == tid)
                invariant
                    r@ == before,
                    key == (event_id, tid),
                    slot <= r@.len(),
                    forall|g: int| 0 <= g < slot ==> (#[trigger] r@[g]).key() != key,
                decreases r@.len() - slot,
            {
                slot = slot + 1;
            }
            if slot == r.len() {
                r.push(RemappedSeries { event_id, tid, points: Vec::new() });
                assert(!has_key(before, key));
                assert(!is_target(list@, n, event_names@, ids, key));
                proof {
                    lemma_nothing_gathered(list@, n, event_names@, ids, anchor@, key);
                }
            }
            assert(r@[slot as int].key() == key);
            assert(r@[slot as int].points@ =~= gathered(
                list@,
                n,
                event_names@,
                ids,
                anchor@,
                key,
            ));
            append_points(&mut r[slot].points, s, list, anchor);
            assert forall|g: int| 0 <= g < r@.len() && g != slot implies #[trigger] r@[g]
                == before[g] && r@[g].key() != key by {}
            assert forall|k: (EventId, u32)|
                has_key(r@, k) <==> #[trigger] is_target(list@, n + 1, event_names@, ids, k) by {
                assert(has_key(before, k) <==> is_target(list@, n, event_names@, ids, k));
                if has_key(before, k) {
                    let g = choose|g: int| 0 <= g < before.len() && (#[trigger] before[g]).key() == k;
                    assert(r@[g].key() == k);
                }
                if k == key {
                    assert(target(list@[n as int], event_names@, ids) == Some(k));
                }
                if has_key(r@, k) && k != key {
                    let g = choose|g: int| 0 <= g < r@.len() && (#[trigger] r@[g]).key() == k;
                    assert(before[g].key() == k);
                }
                if is_target(list@, n, event_names@, ids, k) {
                    let j = choose|j: int|
                        0 <= j < n && target(#[trigger] list@[j], event_names@, ids) == Some(k);
                    assert(is_target(list@, n + 1, event_names@, ids, k));
                }
                if is_target(list@, n + 1, event_names@, ids, k) && k != key {
                    let j = choose|j: int|
                        0 <= j < n + 1 && target(#[trigger] list@[j], event_names@, ids) == Some(k);
                    assert(j < n);
                    assert(is_target(list@, n, event_names@, ids, k));
                }
            }
        } else {
            assert(target(*s, event_names@, ids) is None);
            assert forall|k: (EventId, u32)|
                has_key(r@, k) <==> #[trigger] is_target(list@, n + 1, event_names@, ids, k) by {
                assert(has_key(before, k) <==> is_target(list@, n, event_names@, ids, k));
                if is_target(list@, n + 1, event_names@, ids, k) {
                    let j = choose|j: int|
                        0 <= j < n + 1 && target(#[trigger] list@[j], event_names@, ids) == Some(k);
                    assert(j < n);
                    assert(is_target(list@, n, event_names@, ids, k));
                }
                if is_target(list@, n, event_names@, ids, k) {
                    let j = choose|j: int|
                        0 <= j < n && target(#[trigger] list@[j], event_names@, ids) == Some(k);
                    assert(is_target(list@, n + 1, event_names@, ids, k));
                }
            }
        }
        i = i + 1;
    }
    r
}

proof fn lemma_nothing_gathered(
    list: Seq<RateSeries>,
    n: nat,
    names: Seq<String>,
    threads: Seq<SweepThreadView>,
    anchor: Seq<char>,
    key: (EventId, u32),
)
    requires
        !is_target(list, n, names, threads, key),
    ensures
        gathered(list, n, names, threads, anchor, key) == Seq::<RemappedPoint>::empty(),
    decreases n,
{
    if n > 0 {
        assert(target(list[n - 1], names, threads) != Some(key));
        assert(!is_target(list, (n - 1) as nat, names, threads, key)) by {
            if is_target(list, (n - 1) as nat, names, threads, key) {
                let i = choose|i: int|
                    0 <= i < n - 1 && target(#[trigger] list[i], names, threads) == Some(key);
                assert(is_target(list, n, names, threads, key));
            }
        }
        lemma_nothing_gathered(list, (n - 1) as nat, names, threads, anchor, key);
    }
}

/// Reads the trace of a sweep and rewrites it.
pub fn remap_sweep_tids(
    trace: &[u8],
    batches: &Vec<Vec<BatchThread>>,
    event_names: &Vec<String>,
    anchor: &str,
) -> (r: Result<RemappedTrace, TraceError>)
    requires
        event_names@.len() <= u32::MAX,
        remap::total_threads(sweep::batches_view(batches@)) < u32::MAX,
    ensures
        match r {
            Ok(out) => trace::trace_packets(trace@, 0) is Ok && ({
                let views = sweep::batches_view(batches@);
                let threads = remap::all_with_ids(remap::key_table(views), views);
                &&& threads_sink::meta_view(out.thread_meta@) == meta_of(threads)
                &&& exists|list: RateTimeSeries| #[trigger]
                    evaluate::is_series_of(list, trace::trace_packets(trace@, 0)->Ok_0) && is_remapping(
                        out.series@,
                        list.series@,
                        list.series@.len(),
                        event_names@,
                        threads,
                        anchor@,
                    )
            }),
            Err(e) => trace::trace_packets(trace@, 0) == Err::<Seq<PacketView>, TraceFault>(e@),
        },
{
    let list = match read_rate_timeseries(trace) {
        Ok(list) => list,
        Err(e) => {
            return Err(e);
        },
    };
    let threads = assign_synthetic_tids(batches);
    let series = remap_series(&list.series, &threads, event_names, anchor);
    let thread_meta = thread_meta(&threads);
    assert(evaluate::is_series_of(list, trace::trace_packets(trace@, 0)->Ok_0));
    Ok(RemappedTrace { series, thread_meta })
}

/// The index of a name is that of its last occurrence; a name that does not occur has none.
pub proof fn names_are_found_by_index(names: Seq<String>, name: Seq<char>, i: int)
    requires
        0 <= i < names.len(),
    ensures
        names[i]@ == name && (forall|j: int| i < j < names.len() ==> (#[trigger] names[j])@ != name)
            <==> last_index(names, name) == Some(i as nat),
        last_index(names, name) is None ==> names[i]@ != name,
    decreases names.len(),
{
    let front = names.drop_last();
    if names.last()@ == name {
        assert(names[names.len() - 1]@ == name);
    } else {
        if i < front.len() {
            names_are_found_by_index(front, name, i);
            assert(front[i] == names[i]);
            assert forall|j: int| i < j < front.len() && names[i]@ == name && (forall|k: int|
                i < k < names.len() ==> (#[trigger] names[k])@ != name) implies (
            #[trigger] front[j])@ != name by {
                assert(front[j] == names[j]);
            }
            if last_index(front, name) == Some(i as nat) {
                assert forall|j: int| i < j < names.len() implies (#[trigger] names[j])@
                    != name by {
                    if j < front.len() {
                        assert(front[j]@ != name);
                    }
                }
            }
        } else {
            lemma_last_index_bound(front, name);
        }
    }
}

proof fn lemma_last_index_bound(names: Seq<String>, name: Seq<char>)
    ensures
        match last_index(names, name) {
            Some(i) => i < names.len() && names[i as int]@ == name,
            None => true,
        },
    decreases names.len(),
{
    if names.len() > 0 && names.last()@ != name {
        lemma_last_index_bound(names.drop_last(), name);
    }
}

/// A thread has the synthetic ID that the first entry with its ID gives; a thread without an entry
/// has none.
pub proof fn threads_keep_their_first_id(threads: Seq<SweepThreadView>, tid: u32, i: int)
    requires
        0 <= i < threads.len(),
    ensures
        threads[i].real_tid == tid && (forall|j: int|
            0 <= j < i ==> (#[trigger] threads[j]).real_tid != tid) ==> synthetic_of(threads, tid)
            == Some(threads[i].synthetic_tid),
        (forall|j: int| 0 <= j < threads.len() ==> (#[trigger] threads[j]).real_tid != tid)
            <==> synthetic_of(threads, tid) is None,
    decreases threads.len(),
{
    let front = threads.drop_last();
    lemma_synthetic_of(front, tid);
    if i < front.len() {
        threads_keep_their_first_id(front, tid, i);
        assert(front[i] == threads[i]);
        assert forall|j: int| 0 <= j < i && (forall|k: int|
            0 <= k < i ==> (#[trigger] threads[k]).real_tid != tid) implies (
        #[trigger] front[j]).real_tid != tid by {
            assert(front[j] == threads[j]);
        }
    } else if forall|j: int| 0 <= j < i ==> (#[trigger] threads[j]).real_tid != tid {
        assert forall|j: int| 0 <= j < front.len() implies (#[trigger] front[j]).real_tid
            != tid by {
            assert(front[j] == threads[j]);
        }
    }
    lemma_synthetic_of(threads, tid);
}

proof fn lemma_synthetic_of(threads: Seq<SweepThreadView>, tid: u32)
    ensures
        (forall|j: int| 0 <= j < threads.len() ==> (#[trigger] threads[j]).real_tid != tid)
            <==> synthetic_of(threads, tid) is None,
    decreases threads.len(),
{
    if threads.len() > 0 {
        let front = threads.drop_last();
        lemma_synthetic_of(front, tid);
        if forall|j: int| 0 <= j < threads.len() ==> (#[trigger] threads[j]).real_tid != tid {
            assert forall|j: int| 0 <= j < front.len() implies (#[trigger] front[j]).real_tid
                != tid by {
                assert(front[j] == threads[j]);
            }
            assert(threads[threads.len() - 1].real_tid != tid);
        }
        if synthetic_of(threads, tid) is None {
            assert forall|j: int| 0 <= j < threads.len() implies (#[trigger] threads[j]).real_tid
                != tid by {
                if j < front.len() {
                    assert(front[j] == threads[j]);
                }
            }
        }
    }
}

/// A synthetic thread belongs to the process, and has the name, that the first entry with its ID
/// gives; nothing is known of an ID without an entry.
pub proof fn threads_are_described_by_their_first_entry(
    threads: Seq<SweepThreadView>,
    id: u32,
    i: int,
)
    requires
        0 <= i < threads.len(),
    ensures
        threads[i].synthetic_tid == id && (forall|j: int|
            0 <= j < i ==> (#[trigger] threads[j]).synthetic_tid != id) ==> meta_of(
            threads,
        ).contains_key(id) && meta_of(threads)[id] == (threads[i].tgid, threads[i].task),
        (exists|j: int| 0 <= j < threads.len() && (#[trigger] threads[j]).synthetic_tid == id)
            <==> meta_of(threads).contains_key(id),
    decreases threads.len(),
{
    let front = threads.drop_last();
    lemma_described(front, id);
    lemma_described(threads, id);
    if i < front.len() {
        threads_are_described_by_their_first_entry(front, id, i);
        assert(front[i] == threads[i]);
        assert forall|j: int| 0 <= j < i && (forall|k: int|
            0 <= k < i ==> (#[trigger] threads[k]).synthetic_tid != id) implies (
        #[trigger] front[j]).synthetic_tid != id by {
            assert(front[j] == threads[j]);
        }
    } else if forall|j: int| 0 <= j < i ==> (#[trigger] threads[j]).synthetic_tid != id {
        assert forall|j: int| 0 <= j < front.len() implies (#[trigger] front[j]).synthetic_tid
            != id by {
            assert(front[j] == threads[j]);
        }
    }
}

proof fn lemma_described(threads: Seq<SweepThreadView>, id: u32)
    ensures
        (exists|j: int| 0 <= j < threads.len() && (#[trigger] threads[j]).synthetic_tid == id)
            <==> meta_of(threads).contains_key(id),
    decreases threads.len(),
{
    if threads.len() > 0 {
        let front = threads.drop_last();
        lemma_described(front, id);
        if meta_of(threads).contains_key(id) {
            if meta_of(front).contains_key(id) {
                let j = choose|j: int|
                    0 <= j < front.len() && (#[trigger] front[j]).synthetic_tid == id;
                assert(threads[j].synthetic_tid == id);
            } else {
                assert(threads[threads.len() - 1].synthetic_tid == id);
            }
        }
        if exists|j: int| 0 <= j < threads.len() && (#[trigger] threads[j]).synthetic_tid == id {
            let j = choose|j: int|
                0 <= j < threads.len() && (#[trigger] threads[j]).synthetic_tid == id;
            if j < front.len() {
                assert(front[j].synthetic_tid == id);
            }
        }
    }
}

/// Whether the anchor has a rate at a time on a thread, and which: that of its last series there,
/// and of the last point of that series at that time.
pub open spec fn anchor_rate_is(
    list: Seq<RateSeries>,
    anchor: Seq<char>,
    tid: u32,
    at: u64,
    rate: u64,
) -> bool {
    exists|j: int, k: int|
        0 <= j < list.len() && 0 <= k < list[j].points@.len() && (#[trigger] list[j].points@[k])
            == (at, rate) && list[j].event_name@ == anchor && list[j].tid == tid && (forall|l: int|
            j < l < list.len() ==> (#[trigger] list[l]).event_name@ != anchor || list[l].tid != tid)
            && (forall|m: int|
            k < m < list[j].points@.len() ==> (#[trigger] list[j].points@[m]).0 != at)
}

proof fn lemma_rate_at_times(points: Seq<(u64, u64)>, at: u64)
    ensures
        rate_at_times(points).contains_key(at) <==> exists|k: int|
            0 <= k < points.len() && (#[trigger] points[k]).0 == at,
        rate_at_times(points).contains_key(at) ==> exists|k: int|
            0 <= k < points.len() && (#[trigger] points[k]) == (at, rate_at_times(points)[at]) && (
            forall|m: int| k < m < points.len() ==> (#[trigger] points[m]).0 != at),
    decreases points.len(),
{
    if points.len() > 0 {
        let front = points.drop_last();
        lemma_rate_at_times(front, at);
        if points.last().0 == at {
            assert(points[points.len() - 1].0 == at);
        } else {
            if rate_at_times(points).contains_key(at) {
                let k = choose|k: int|
                    0 <= k < front.len() && (#[trigger] front[k]) == (at, rate_at_times(front)[at])
                        && (forall|m: int|
                        k < m < front.len() ==> (#[trigger] front[m]).0 != at);
                assert(points[k] == (at, rate_at_times(points)[at]));
                assert forall|m: int| k < m < points.len() implies (#[trigger] points[m]).0
                    != at by {
                    if m < front.len() {
                        assert(front[m] == points[m]);
                    }
                }
            }
            if exists|k: int| 0 <= k < points.len() && (#[trigger] points[k]).0 == at {
                let k = choose|k: int| 0 <= k < points.len() && (#[trigger] points[k]).0 == at;
                assert(front[k].0 == at);
            }
        }
    }
}

proof fn lemma_last_series(list: Seq<RateSeries>, name: Seq<char>, tid: u32)
    ensures
        match last_series(list, name, tid) {
            Some(j) => j < list.len() && list[j as int].key() == (name, tid) && (forall|l: int|
                j < l < list.len() ==> (#[trigger] list[l]).key() != (name, tid)),
            None => forall|l: int|
                0 <= l < list.len() ==> (#[trigger] list[l]).key() != (name, tid),
        },
    decreases list.len(),
{
    if list.len() > 0 {
        let front = list.drop_last();
        lemma_last_series(front, name, tid);
        if list.last().key() != (name, tid) {
            assert forall|l: int|
                0 <= l < list.len() && (last_series(front, name, tid) matches Some(j) ==> j
                    < l) implies (#[trigger] list[l]).key() != (name, tid) by {
                if l < front.len() {
                    assert(front[l] == list[l]);
                }
            }
        }
    }
}

/// A rate of an event other than the anchor comes with the anchor's rate on the same thread at
/// the same time, wherever that is above zero; it comes alone only where the anchor has no rate
/// above zero there. The anchor's own rates come alone. Time and rate are kept.
pub proof fn rates_come_with_the_anchors(
    s: RateSeries,
    list: Seq<RateSeries>,
    anchor: Seq<char>,
    i: int,
)
    requires
        0 <= i < s.points@.len(),
    ensures
        ({
            let out = remapped_points(s, list, anchor);
            &&& out.len() == s.points@.len()
            &&& out[i].timestamp_ns == s.points@[i].0
            &&& out[i].rate == s.points@[i].1
            &&& s.event_name@ == anchor ==> out[i].anchor_rate is None
            &&& s.event_name@ != anchor ==> forall|a: u64|
                out[i].anchor_rate == Some(a) <==> 0 < a <= 0x7FF0_0000_0000_0000
                    && #[trigger] anchor_rate_is(list, anchor, s.tid, s.points@[i].0, a)
        }),
{
    let at = s.points@[i].0;
    let out = remapped_points(s, list, anchor);
    lemma_last_series(list, anchor, s.tid);
    assert forall|a: u64| s.event_name@ != anchor implies (out[i].anchor_rate == Some(a) <==> 0 < a
        <= 0x7FF0_0000_0000_0000 && #[trigger] anchor_rate_is(list, anchor, s.tid, at, a)) by {
        match last_series(list, anchor, s.tid) {
            Some(j) => {
                let j = j as int;
                let points = list[j].points@;
                lemma_rate_at_times(points, at);
                assert forall|l: int| j < l < list.len() implies (#[trigger] list[l]).event_name@
                    != anchor || list[l].tid != s.tid by {
                    assert(list[l].key() != (anchor, s.tid));
                }
                if rate_at_times(points).contains_key(at) {
                    let k = choose|k: int|
                        0 <= k < points.len() && (#[trigger] points[k]) == (
                            at,
                            rate_at_times(points)[at],
                        ) && (forall|m: int|
                            k < m < points.len() ==> (#[trigger] points[m]).0 != at);
                    assert(list[j].points@[k] == (at, rate_at_times(points)[at]));
                    assert(anchor_rate_is(list, anchor, s.tid, at, rate_at_times(points)[at]));
                }
                if anchor_rate_is(list, anchor, s.tid, at, a) {
                    let (j2, k2) = choose|j2: int, k2: int|
                        0 <= j2 < list.len() && 0 <= k2 < list[j2].points@.len() && (
                        #[trigger] list[j2].points@[k2]) == (at, a) && list[j2].event_name@
                            == anchor && list[j2].tid == s.tid && (forall|l: int|
                            j2 < l < list.len() ==> (#[trigger] list[l]).event_name@ != anchor
                                || list[l].tid != s.tid) && (forall|m: int|
                            k2 < m < list[j2].points@.len() ==> (#[trigger] list[j2].points@[m]).0
                                != at);
                    assert(list[j2].key() == (anchor, s.tid));
                    assert(list[j].key() == (anchor, s.tid));
                    assert(j2 == j);
                    assert(points[k2].0 == at);
                    let k = choose|k: int|
                        0 <= k < points.len() && (#[trigger] points[k]) == (
                            at,
                            rate_at_times(points)[at],
                        ) && (forall|m: int|
                            k < m < points.len() ==> (#[trigger] points[m]).0 != at);
                    assert(points[k].0 == at);
                    assert(list[j].points@[k].0 == at);
                    assert(k == k2);
                }
            },
            None => {
                if anchor_rate_is(list, anchor, s.tid, at, a) {
                    let (j2, k2) = choose|j2: int, k2: int|
                        0 <= j2 < list.len() && 0 <= k2 < list[j2].points@.len() && (
                        #[trigger] list[j2].points@[k2]) == (at, a) && list[j2].event_name@
                            == anchor && list[j2].tid == s.tid && (forall|l: int|
                            j2 < l < list.len() ==> (#[trigger] list[l]).event_name@ != anchor
                                || list[l].tid != s.tid) && (forall|m: int|
                            k2 < m < list[j2].points@.len() ==> (#[trigger] list[j2].points@[m]).0
                                != at);
                    assert(list[j2].key() == (anchor, s.tid));
                }
            },
        }
    }
}

/// Where the anchor has one series on the thread, with one point at the time of a rate of another
/// event, and that point's rate is above zero, the rewritten rate comes with it.
pub proof fn the_anchors_rate_is_found(
    s: RateSeries,
    list: Seq<RateSeries>,
    anchor: Seq<char>,
    i: int,
    j: int,
    k: int,
)
    requires
        0 <= i < s.points@.len(),
        s.event_name@ != anchor,
        0 <= j < list.len(),
        list[j].event_name@ == anchor,
        list[j].tid == s.tid,
        forall|l: int|
            0 <= l < list.len() && l != j ==> (#[trigger] list[l]).event_name@ != anchor
                || list[l].tid != s.tid,
        0 <= k < list[j].points@.len(),
        list[j].points@[k].0 == s.points@[i].0,
        0 < list[j].points@[k].1 <= 0x7FF0_0000_0000_0000,
        forall|m: int|
            0 <= m < list[j].points@.len() && m != k ==> (#[trigger] list[j].points@[m]).0
                != s.points@[i].0,
    ensures
        remapped_points(s, list, anchor)[i].anchor_rate == Some(list[j].points@[k].1),
{
    rates_come_with_the_anchors(s, list, anchor, i);
    assert(list[j].points@[k] == (s.points@[i].0, list[j].points@[k].1));
    assert(anchor_rate_is(list, anchor, s.tid, s.points@[i].0, list[j].points@[k].1));
}

/// Where a series of the trace is found again: its event is the last with its name, its thread the
/// first entry with its ID.
pub open spec fn leads_to(
    s: RateSeries,
    names: Seq<String>,
    threads: Seq<SweepThreadView>,
    e: int,
    t: int,
) -> bool {
    &&& 0 <= e < names.len()
    &&& names[e]@ == s.event_name@
    &&& forall|j: int| e < j < names.len() ==> (#[trigger] names[j])@ != s.event_name@
    &&& 0 <= t < threads.len()
    &&& threads[t].real_tid == s.tid
    &&& forall|j: int| 0 <= j < t ==> (#[trigger] threads[j]).real_tid != s.tid
}

proof fn lemma_leads_to(
    s: RateSeries,
    names: Seq<String>,
    threads: Seq<SweepThreadView>,
    e: int,
    t: int,
)
    requires
        names.len() <= u32::MAX,
        leads_to(s, names, threads, e, t),
    ensures
        target(s, names, threads) == Some((e as EventId, threads[t].synthetic_tid)),
{
    names_are_found_by_index(names, s.event_name@, e);
    threads_keep_their_first_id(threads, s.tid, t);
}

/// A series whose event is not listed, or whose thread is not, goes nowhere.
pub proof fn unknown_series_are_dropped(
    s: RateSeries,
    names: Seq<String>,
    threads: Seq<SweepThreadView>,
)
    ensures
        (forall|j: int| 0 <= j < names.len() ==> (#[trigger] names[j])@ != s.event_name@) || (
        forall|j: int| 0 <= j < threads.len() ==> (#[trigger] threads[j]).real_tid != s.tid)
            <==> target(s, names, threads) is None,
{
    lemma_synthetic_of(threads, s.tid);
    lemma_last_index_bound(names, s.event_name@);
    if last_index(names, s.event_name@) is None {
        assert forall|j: int| 0 <= j < names.len() implies (#[trigger] names[j])@
            != s.event_name@ by {
            names_are_found_by_index(names, s.event_name@, j);
        }
    }
}

proof fn lemma_gathered_part(
    list: Seq<RateSeries>,
    n: nat,
    names: Seq<String>,
    threads: Seq<SweepThreadView>,
    anchor: Seq<char>,
    key: (EventId, u32),
    i: int,
) -> (from: int)
    requires
        n <= list.len(),
        0 <= i < n,
        target(list[i], names, threads) == Some(key),
    ensures
        0 <= from,
        from + list[i].points@.len() <= gathered(list, n, names, threads, anchor, key).len(),
        gathered(list, n, names, threads, anchor, key).subrange(
            from,
            from + list[i].points@.len(),
        ) == remapped_points(list[i], list, anchor),
        from == gathered(list, i as nat, names, threads, anchor, key).len(),
    decreases n,
{
    let all = gathered(list, n, names, threads, anchor, key);
    let before = gathered(list, (n - 1) as nat, names, threads, anchor, key);
    let len = list[i].points@.len();
    if i == n - 1 {
        let from = before.len() as int;
        assert(all.subrange(from, from + len) =~= remapped_points(list[i], list, anchor));
        from
    } else {
        let from = lemma_gathered_part(list, (n - 1) as nat, names, threads, anchor, key, i);
        assert(all.subrange(from, from + len) =~= before.subrange(from, from + len));
        from
    }
}

proof fn lemma_gathered_grows(
    list: Seq<RateSeries>,
    m: nat,
    n: nat,
    names: Seq<String>,
    threads: Seq<SweepThreadView>,
    anchor: Seq<char>,
    key: (EventId, u32),
)
    requires
        m <= n <= list.len(),
    ensures
        gathered(list, m, names, threads, anchor, key).len() <= gathered(
            list,
            n,
            names,
            threads,
            anchor,
            key,
        ).len(),
    decreases n,
{
    if m < n {
        lemma_gathered_grows(list, m, (n - 1) as nat, names, threads, anchor, key);
    }
}

/// Every series whose event and thread are known is found again, whole and in its order, in the
/// rewritten series of its event and of the thread's synthetic ID. Returns the position of that
/// series, and where in it the rates begin.
pub proof fn known_series_are_kept(
    r: Seq<RemappedSeries>,
    list: Seq<RateSeries>,
    names: Seq<String>,
    threads: Seq<SweepThreadView>,
    anchor: Seq<char>,
    i: int,
    e: int,
    t: int,
) -> (at: (int, int))
    requires
        names.len() <= u32::MAX,
        is_remapping(r, list, list.len(), names, threads, anchor),
        0 <= i < list.len(),
        leads_to(list[i], names, threads, e, t),
    ensures
        0 <= at.0 < r.len(),
        r[at.0].event_id == e,
        r[at.0].tid == threads[t].synthetic_tid,
        0 <= at.1,
        at.1 + list[i].points@.len() <= r[at.0].points@.len(),
        forall|p: int|
            0 <= p < list[i].points@.len() ==> #[trigger] r[at.0].points@[at.1 + p]
                == remapped_points(list[i], list, anchor)[p],
{
    lemma_leads_to(list[i], names, threads, e, t);
    let key = (e as EventId, threads[t].synthetic_tid);
    assert(is_target(list, list.len(), names, threads, key));
    assert(has_key(r, key));
    let g = choose|g: int| 0 <= g < r.len() && (#[trigger] r[g]).key() == key;
    let from = lemma_gathered_part(list, list.len(), names, threads, anchor, key, i);
    let all = gathered(list, list.len(), names, threads, anchor, key);
    let part = all.subrange(from, from + list[i].points@.len());
    assert forall|p: int| 0 <= p < list[i].points@.len() implies #[trigger] r[g].points@[from + p]
        == remapped_points(list[i], list, anchor)[p] by {
        assert(part[p] == all[from + p]);
    }
    (g, from)
}

/// Two series that go to the same event and thread stay in the order of the trace.
pub proof fn series_stay_in_order(
    list: Seq<RateSeries>,
    names: Seq<String>,
    threads: Seq<SweepThreadView>,
    anchor: Seq<char>,
    i: int,
    j: int,
    e: int,
    t: int,
    u: int,
) -> (at: (int, int))
    requires
        names.len() <= u32::MAX,
        0 <= i < j < list.len(),
        leads_to(list[i], names, threads, e, t),
        leads_to(list[j], names, threads, e, u),
        threads[t].synthetic_tid == threads[u].synthetic_tid,
    ensures
        ({
            let key = (e as EventId, threads[t].synthetic_tid);
            let all = gathered(list, list.len(), names, threads, anchor, key);
            &&& 0 <= at.0
            &&& at.0 + list[i].points@.len() <= at.1
            &&& at.1 + list[j].points@.len() <= all.len()
            &&& all.subrange(at.0, at.0 + list[i].points@.len()) == remapped_points(
                list[i],
                list,
                anchor,
            )
            &&& all.subrange(at.1, at.1 + list[j].points@.len()) == remapped_points(
                list[j],
                list,
                anchor,
            )
        }),
{
    lemma_leads_to(list[i], names, threads, e, t);
    lemma_leads_to(list[j], names, threads, e, u);
    let key = (e as EventId, threads[t].synthetic_tid);
    let a = lemma_gathered_part(list, list.len(), names, threads, anchor, key, i);
    let b = lemma_gathered_part(list, list.len(), names, threads, anchor, key, j);
    lemma_gathered_grows(list, (i + 1) as nat, j as nat, names, threads, anchor, key);
    (a, b)
}

proof fn lemma_gathered_from(
    list: Seq<RateSeries>,
    n: nat,
    names: Seq<String>,
    threads: Seq<SweepThreadView>,
    anchor: Seq<char>,
    key: (EventId, u32),
    q: int,
) -> (at: (int, int))
    requires
        n <= list.len(),
        0 <= q < gathered(list, n, names, threads, anchor, key).len(),
    ensures
        0 <= at.0 < n,
        target(list[at.0], names, threads) == Some(key),
        0 <= at.1 < list[at.0].points@.len(),
        gathered(list, n, names, threads, anchor, key)[q] == remapped_points(
            list[at.0],
            list,
            anchor,
        )[at.1],
    decreases n,
{
    let before = gathered(list, (n - 1) as nat, names, threads, anchor, key);
    if q < before.len() {
        lemma_gathered_from(list, (n - 1) as nat, names, threads, anchor, key, q)
    } else {
        (n - 1, q - before.len())
    }
}

/// Every rate of a rewritten trace is a rate of the trace: one of the event with that ID, on a
/// thread with that synthetic ID. Returns the series and the point.
pub proof fn rewritten_rates_are_rates_of_the_trace(
    r: Seq<RemappedSeries>,
    list: Seq<RateSeries>,
    names: Seq<String>,
    threads: Seq<SweepThreadView>,
    anchor: Seq<char>,
    g: int,
    q: int,
) -> (at: (int, int))
    requires
        names.len() <= u32::MAX,
        is_remapping(r, list, list.len(), names, threads, anchor),
        0 <= g < r.len(),
        0 <= q < r[g].points@.len(),
    ensures
        0 <= at.0 < list.len(),
        0 <= at.1 < list[at.0].points@.len(),
        r[g].points@[q] == remapped_points(list[at.0], list, anchor)[at.1],
        r[g].event_id < names.len(),
        names[r[g].event_id as int]@ == list[at.0].event_name@,
        exists|t: int|
            0 <= t < threads.len() && (#[trigger] threads[t]).real_tid == list[at.0].tid
                && threads[t].synthetic_tid == r[g].tid,
{
    let key = r[g].key();
    let at = lemma_gathered_from(list, list.len(), names, threads, anchor, key, q);
    lemma_last_index_bound(names, list[at.0].event_name@);
    let tid = list[at.0].tid;
    lemma_first_entry(threads, tid);
    let t = choose|t: int|
        0 <= t < threads.len() && (#[trigger] threads[t]).real_tid == tid
            && threads[t].synthetic_tid == synthetic_of(threads, tid)->0;
    assert(threads[t].synthetic_tid == r[g].tid);
    at
}

proof fn lemma_first_entry(threads: Seq<SweepThreadView>, tid: u32)
    requires
        synthetic_of(threads, tid) is Some,
    ensures
        exists|t: int|
            0 <= t < threads.len() && (#[trigger] threads[t]).real_tid == tid
                && threads[t].synthetic_tid == synthetic_of(threads, tid)->0,
    decreases threads.len(),
{
    let front = threads.drop_last();
    if synthetic_of(front, tid) is Some {
        lemma_first_entry(front, tid);
        let t = choose|t: int|
            0 <= t < front.len() && (#[trigger] front[t]).real_tid == tid
                && front[t].synthetic_tid == synthetic_of(front, tid)->0;
        assert(threads[t] == front[t]);
    } else {
        assert(threads[threads.len() - 1].real_tid == tid);
    }
}

/// An event and thread that one series alone goes to gets exactly its rates: as many, in its
/// order. No event and thread has two rewritten series.
pub proof fn a_single_series_is_rewritten_point_by_point(
    r: Seq<RemappedSeries>,
    list: Seq<RateSeries>,
    names: Seq<String>,
    threads: Seq<SweepThreadView>,
    anchor: Seq<char>,
    i: int,
    e: int,
    t: int,
    g: int,
)
    requires
        names.len() <= u32::MAX,
        is_remapping(r, list, list.len(), names, threads, anchor),
        0 <= i < list.len(),
        leads_to(list[i], names, threads, e, t),
        forall|j: int, u: int|
            0 <= j < list.len() && j != i && 0 <= u < threads.len() && (
            #[trigger] threads[u]).real_tid == (#[trigger] list[j]).tid && list[j].event_name@
                == list[i].event_name@ ==> threads[u].synthetic_tid != threads[t].synthetic_tid,
        0 <= g < r.len(),
        r[g].event_id == e,
        r[g].tid == threads[t].synthetic_tid,
    ensures
        r[g].points@.len() == list[i].points@.len(),
        forall|p: int|
            0 <= p < list[i].points@.len() ==> #[trigger] r[g].points@[p] == remapped_points(
                list[i],
                list,
                anchor,
            )[p],
        forall|h: int|
            0 <= h < r.len() && h != g ==> (#[trigger] r[h]).event_id != e || r[h].tid
                != threads[t].synthetic_tid,
{
    lemma_leads_to(list[i], names, threads, e, t);
    let key = (e as EventId, threads[t].synthetic_tid);
    assert forall|j: int| 0 <= j < list.len() && j != i implies target(
        #[trigger] list[j],
        names,
        threads,
    ) != Some(key) by {
        if target(list[j], names, threads) == Some(key) {
            lemma_last_index_bound(names, list[j].event_name@);
            assert(names[e]@ == list[j].event_name@);
            lemma_first_entry(threads, list[j].tid);
            let u = choose|u: int|
                0 <= u < threads.len() && (#[trigger] threads[u]).real_tid == list[j].tid
                    && threads[u].synthetic_tid == synthetic_of(threads, list[j].tid)->0;
            assert(threads[u].synthetic_tid == threads[t].synthetic_tid);
        }
    }
    lemma_gathered_alone(list, list.len(), names, threads, anchor, key, i);
    assert(r[g].key() == key);
    assert forall|h: int| 0 <= h < r.len() && h != g implies (#[trigger] r[h]).event_id != e
        || r[h].tid != threads[t].synthetic_tid by {
        if h < g {
            assert(r[h].key() != r[g].key());
        } else {
            assert(r[g].key() != r[h].key());
        }
    }
}

proof fn lemma_gathered_alone(
    list: Seq<RateSeries>,
    n: nat,
    names: Seq<String>,
    threads: Seq<SweepThreadView>,
    anchor: Seq<char>,
    key: (EventId, u32),
    i: int,
)
    requires
        n <= list.len(),
        0 <= i < list.len(),
        target(list[i], names, threads) == Some(key),
        forall|j: int|
            0 <= j < list.len() && j != i ==> target(#[trigger] list[j], names, threads) != Some(
                key,
            ),
    ensures
        gathered(list, n, names, threads, anchor, key) == if i < n {
            remapped_points(list[i], list, anchor)
        } else {
            Seq::empty()
        },
    decreases n,
{
    if n > 0 {
        lemma_gathered_alone(list, (n - 1) as nat, names, threads, anchor, key, i);
        if i == n - 1 {
            let before = gathered(list, (n - 1) as nat, names, threads, anchor, key);
            assert(before + remapped_points(list[i], list, anchor) =~= remapped_points(
                list[i],
                list,
                anchor,
            ));
        } else {
            assert(target(list[n - 1], names, threads) != Some(key));
        }
    }
}

} // verus!
