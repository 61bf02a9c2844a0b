//! Reading rate time-series out of a Perfetto trace.

use crate::order::{self, sort_order, Key};
use crate::perfetto::packet::{CounterValue, Packet, PacketView};
use crate::perfetto::trace::{
    self, read_trace_packets, PerfettoWriter, RatePoint, RawSeries, ThreadInfo, TraceError,
    TraceFault, WriterView,
};
use crate::text::{self, same_text, strip_suffix};
use std::collections::HashMap;
use vstd::prelude::*;

verus! {

broadcast use vstd::std_specs::hash::group_hash_axioms;

/// The time-series of one event on one thread.
pub struct RateSeries {
    /// Event name.
    pub event_name: String,
    /// Thread ID; zero when the thread is unknown.
    pub tid: u32,
    /// `(timestamp_ns, rate bits)` samples in order of time.
    pub points: Vec<(u64, u64)>,
}

/// Per-event, per-thread time-series of rates decoded from a trace.
pub struct RateTimeSeries {
    /// One entry per event and thread.
    pub series: Vec<RateSeries>,
}

/// An event name and a thread ID.
pub type SeriesKey = (Seq<char>, u32);

impl RateSeries {
    /// The event and thread of the series.
    pub open spec fn key(self) -> SeriesKey {
        (self.event_name@, self.tid)
    }
}

impl RateTimeSeries {
    /// Validity: no event and thread has two entries.
    pub open spec fn wf(self) -> bool {
        forall|i: int, j: int|
            0 <= i < j < self.series@.len() ==> (#[trigger] self.series@[i]).key() != (
            #[trigger] self.series@[j]).key()
    }

    /// The position of an entry; negative when there is none.
    pub open spec fn position(self, key: SeriesKey) -> int {
        if exists|i: int| 0 <= i < self.series@.len() && (#[trigger] self.series@[i]).key() == key {
            choose|i: int| 0 <= i < self.series@.len() && (#[trigger] self.series@[i]).key() == key
        } else {
            -1
        }
    }
}

impl View for RateTimeSeries {
    type V = Map<SeriesKey, Seq<(u64, u64)>>;

    open spec fn view(&self) -> Map<SeriesKey, Seq<(u64, u64)>> {
        Map::new(
            |key: SeriesKey| self.position(key) >= 0,
            |key: SeriesKey| self.series@[self.position(key)].points@,
        )
    }
}

/// The thread of a track: that of the last thread description with this identifier.
pub open spec fn tid_of(packets: Seq<PacketView>, track: u64) -> Option<u32>
    decreases packets.len(),
{
    if packets.len() == 0 {
        None
    } else {
        match packets.last() {
            PacketView::Track { uuid, name, tid: Some(tid), parent_uuid } if uuid == track => Some(
                tid,
            ),
            _ => tid_of(packets.drop_last(), track),
        }
    }
}

/// The event name and parent of a counter track: those of the last description with this
/// identifier whose name is an event name followed by `suffix`.
pub open spec fn named_track(packets: Seq<PacketView>, suffix: Seq<char>, track: u64) -> Option<
    (Seq<char>, Option<u64>),
>
    decreases packets.len(),
{
    if packets.len() == 0 {
        None
    } else {
        match packets.last() {
            PacketView::Track { uuid, name, tid, parent_uuid } if uuid == track
                && text::without_suffix(name, suffix) is Some => Some(
                (text::without_suffix(name, suffix)->0, parent_uuid),
            ),
            _ => named_track(packets.drop_last(), suffix, track),
        }
    }
}

/// The event and thread that the values of a track belong to. A track with the suffix whose parent
/// is no thread track counts for thread zero; values of other tracks belong to none.
pub open spec fn key_of(packets: Seq<PacketView>, suffix: Seq<char>, track: u64) -> Option<
    SeriesKey,
> {
    match named_track(packets, suffix, track) {
        None => None,
        Some((name, None)) => Some((name, 0)),
        Some((name, Some(parent))) => match tid_of(packets, parent) {
            Some(tid) => Some((name, tid)),
            None => Some((name, 0)),
        },
    }
}

/// The points of an event and thread among `values`, in order.
pub open spec fn points_of(
    packets: Seq<PacketView>,
    suffix: Seq<char>,
    values: Seq<CounterValue>,
    key: SeriesKey,
) -> Seq<(u64, u64)>
    decreases values.len(),
{
    if values.len() == 0 {
        Seq::empty()
    } else {
        let rest = points_of(packets, suffix, values.drop_last(), key);
        let last = values.last();
        if key_of(packets, suffix, last.track_uuid) == Some(key) {
            rest.push((last.timestamp_ns, last.value))
        } else {
            rest
        }
    }
}

/// Sort keys of samples: their timestamps.
pub open spec fn sample_keys(points: Seq<(u64, u64)>) -> Seq<Key> {
    points.map_values(|p: (u64, u64)| (p.0, 0u64))
}

/// Samples in order of time; samples of one time stay in the order given.
pub open spec fn by_time(points: Seq<(u64, u64)>) -> Seq<(u64, u64)> {
    order::arranged(points, sample_keys(points))
}

/// The time-series of the tracks with a suffix in a list of packets.
pub open spec fn series_named(packets: Seq<PacketView>, suffix: Seq<char>) -> Map<
    SeriesKey,
    Seq<(u64, u64)>,
> {
    Map::new(
        |key: SeriesKey| points_of(packets, suffix, trace::values_of(packets), key).len() > 0,
        |key: SeriesKey| by_time(points_of(packets, suffix, trace::values_of(packets), key)),
    )
}

/// The rate time-series in a list of packets.
pub open spec fn rate_series(packets: Seq<PacketView>) -> Map<SeriesKey, Seq<(u64, u64)>> {
    series_named(packets, "/rate"@)
}

/// The uncertainty time-series in a list of packets.
pub open spec fn uncertainty_series(packets: Seq<PacketView>) -> Map<SeriesKey, Seq<(u64, u64)>> {
    series_named(packets, "/uncertainty"@)
}

/// The event name and parent of a counter track.
struct NamedTrack {
    event_name: String,
    parent_uuid: Option<u64>,
}

/// What the track descriptions of a trace say.
struct Tracks {
    tids: HashMap<u64, u32>,
    named: HashMap<u64, NamedTrack>,
}

impl Tracks {
    spec fn tid_agrees(self, packets: Seq<PacketView>, u: u64) -> bool {
        match tid_of(packets, u) {
            Some(tid) => self.tids@.contains_key(u) && self.tids@[u] == tid,
            None => !self.tids@.contains_key(u),
        }
    }

    spec fn name_agrees(self, packets: Seq<PacketView>, suffix: Seq<char>, u: u64) -> bool {
        match named_track(packets, suffix, u) {
            Some((name, parent)) => self.named@.contains_key(u) && self.named@[u].event_name@
                == name && self.named@[u].parent_uuid == parent,
            None => !self.named@.contains_key(u),
        }
    }

    spec fn describes(self, packets: Seq<PacketView>, suffix: Seq<char>) -> bool {
        forall|u: u64| #[trigger]
            self.tid_agrees(packets, u) && self.name_agrees(packets, suffix, u)
    }
}

fn scan_tracks(packets: &Vec<Packet>, suffix: &str) -> (r: Tracks)
    ensures
        r.describes(trace::packet_views(packets@), suffix@),
{
    let mut r = Tracks { tids: HashMap::new(), named: HashMap::new() };
    let ghost views = trace::packet_views(packets@);
    let mut i: usize = 0;
    while i < packets.len()
        invariant
            i <= packets@.len(),
            views == trace::packet_views(packets@),
            r.describes(views.take(i as int), suffix@),
        decreases packets@.len() - i,
    {
        assert(views.take(i as int + 1).drop_last() =~= views.take(i as int));
        assert(views.take(i as int + 1).last() == packets@[i as int]@);
        let ghost before = r;
        if let Packet::Track { uuid, name, tid, parent_uuid } = &packets[i] {
            if let Some(tid) = tid {
                r.tids.insert(*uuid, *tid);
            }
            if let Some(event_name) = strip_suffix(name.as_str(), suffix) {
                r.named.insert(*uuid, NamedTrack { event_name, parent_uuid: *parent_uuid });
            }
        }
        i = i + 1;
        assert forall|u: u64| #[trigger]
            r.tid_agrees(views.take(i as int), u) && r.name_agrees(
            views.take(i as int),
            suffix@,
            u,
        ) by {
            assert(before.tid_agrees(views.take(i - 1), u));
        }
    }
    assert(views.take(views.len() as int) =~= views);
    r
}

/// Whether `series` holds the points of `values`, in the order of `values`.
spec fn collected(
    series: Seq<RateSeries>,
    packets: Seq<PacketView>,
    suffix: Seq<char>,
    values: Seq<CounterValue>,
) -> bool {
    &&& forall|i: int, j: int|
        0 <= i < j < series.len() ==> (#[trigger] series[i]).key() != (#[trigger] series[j]).key()
    &&& forall|i: int|
        0 <= i < series.len() ==> (#[trigger] series[i]).points@ == points_of(
            packets,
            suffix,
            values,
            series[i].key(),
        ) && series[i].points@.len() > 0
    &&& forall|key: SeriesKey|
        (#[trigger] points_of(packets, suffix, values, key)).len() > 0 ==> has_key(series, key)
}

spec fn has_key(series: Seq<RateSeries>, key: SeriesKey) -> bool {
    exists|i: int| 0 <= i < series.len() && (#[trigger] series[i]).key() == key
}

fn find_series(series: &Vec<RateSeries>, name: &str, tid: u32) -> (r: Option<usize>)
    ensures
        match r {
            Some(i) => i < series@.len() && series@[i as int].key() == (name@, tid),
            None => !has_key(series@, (name@, tid)),
        },
{
    let mut i: usize = 0;
    while i < series.len()
        invariant
            i <= series@.len(),
            forall|j: int| 0 <= j < i ==> (#[trigger] series@[j]).key() != (name@, tid),
        decreases series@.len() - i,
    {
        if series[i].tid == tid && same_text(series[i].event_name.as_str(), name) {
            return Some(i);
        }
        i = i + 1;
    }
    None
}

impl Tracks {
    /// The thread that a counter track belongs to.
    fn thread_of(&self, parent_uuid: Option<u64>) -> (r: u32)
        ensures
            r == (match parent_uuid {
                None => 0,
                Some(parent) => if self.tids@.contains_key(parent) {
                    self.tids@[parent]
                } else {
                    0
                },
            }),
    {
        match parent_uuid {
            None => 0,
            Some(parent) => match self.tids.get(&parent) {
                Some(tid) => *tid,
                None => 0,
            },
        }
    }
}

proof fn lemma_collect_skip(
    series: Seq<RateSeries>,
    packets: Seq<PacketView>,
    suffix: Seq<char>,
    values: Seq<CounterValue>,
    value: CounterValue,
)
    requires
        collected(series, packets, suffix, values),
        key_of(packets, suffix, value.track_uuid) is None,
    ensures
        collected(series, packets, suffix, values.push(value)),
{
    assert(values.push(value).drop_last() =~= values);
    assert forall|key: SeriesKey|
        (#[trigger] points_of(packets, suffix, values.push(value), key)).len() > 0 implies has_key(
        series,
        key,
    ) by {
        assert(points_of(packets, suffix, values, key).len() > 0);
    }
}

proof fn lemma_collect_push(
    series: Seq<RateSeries>,
    next: Seq<RateSeries>,
    slot: int,
    packets: Seq<PacketView>,
    suffix: Seq<char>,
    values: Seq<CounterValue>,
    value: CounterValue,
)
    requires
        collected(series, packets, suffix, values),
        0 <= slot < next.len(),
        next.len() == series.len() || (next.len() == series.len() + 1 && slot == series.len()),
        forall|i: int| 0 <= i < series.len() && i != slot ==> #[trigger] next[i] == series[i],
        key_of(packets, suffix, value.track_uuid) == Some(next[slot].key()),
        slot < series.len() ==> next[slot].key() == series[slot].key() && next[slot].points@
            == series[slot].points@.push((value.timestamp_ns, value.value)),
        slot == series.len() ==> !has_key(series, next[slot].key()) && next[slot].points@ == seq![
            (value.timestamp_ns, value.value),
        ],
    ensures
        collected(next, packets, suffix, values.push(value)),
{
    let after = values.push(value);
    assert(after.drop_last() =~= values);
    let own = next[slot].key();
    assert forall|i: int, j: int| 0 <= i < j < next.len() implies (#[trigger] next[i]).key() != (
    #[trigger] next[j]).key() by {
        if i < series.len() && j < series.len() {
            assert(series[i].key() != series[j].key());
        } else {
            assert(series[i].key() == next[i].key());
        }
    }
    assert forall|i: int| 0 <= i < next.len() implies (#[trigger] next[i]).points@ == points_of(
        packets,
        suffix,
        after,
        next[i].key(),
    ) && next[i].points@.len() > 0 by {
        if i == slot && slot == series.len() {
            assert(points_of(packets, suffix, values, own).len() == 0);
            assert(points_of(packets, suffix, after, own) =~= seq![(value.timestamp_ns, value.value)]);
        } else {
            assert(series[i].key() == next[i].key());
            if i != slot {
                assert(next[i].key() != own);
            }
        }
    }
    assert forall|key: SeriesKey|
        (#[trigger] points_of(packets, suffix, after, key)).len() > 0 implies has_key(next, key) by {
        if key == own {
            assert(next[slot].key() == key);
        } else {
            assert(points_of(packets, suffix, values, key).len() > 0);
            let i = choose|i: int| 0 <= i < series.len() && (#[trigger] series[i]).key() == key;
            assert(next[i].key() == key);
        }
    }
}

fn collect_points(packets: &Vec<Packet>, tracks: &Tracks, Ghost(suffix): Ghost<Seq<char>>) -> (r: Vec<
    RateSeries,
>)
    requires
        tracks.describes(trace::packet_views(packets@), suffix),
    ensures
        collected(
            r@,
            trace::packet_views(packets@),
            suffix,
            trace::values_of(trace::packet_views(packets@)),
        ),
{
    let ghost views = trace::packet_views(packets@);
    let mut series: Vec<RateSeries> = Vec::new();
    let mut slots: HashMap<u64, usize> = HashMap::new();
    let mut i: usize = 0;
    assert(views.take(0) =~= Seq::empty());
    while i < packets.len()
        invariant
            i <= packets@.len(),
            views == trace::packet_views(packets@),
            tracks.describes(views, suffix),
            collected(series@, views, suffix, trace::values_of(views.take(i as int))),
            forall|u: u64| #[trigger]
                slots@.contains_key(u) ==> slots@[u] < series@.len() && key_of(views, suffix, u) == Some(
                    series@[slots@[u] as int].key(),
                ),
        decreases packets@.len() - i,
    {
        let ghost values = trace::values_of(views.take(i as int));
        let ghost before = series@;
        assert(views.take(i as int + 1).drop_last() =~= views.take(i as int));
        assert(views.take(i as int + 1).last() == packets@[i as int]@);
        if let Packet::Value(value) = &packets[i] {
            let track = value.track_uuid;
            assert(tracks.tid_agrees(views, track));
            let known: Option<usize> = match slots.get(&track) {
                Some(slot) => Some(*slot),
                None => match tracks.named.get(&track) {
                    None => None,
                    Some(named) => {
                        assert(named.parent_uuid matches Some(p) ==> tracks.tid_agrees(views, p));
                        let tid = tracks.thread_of(named.parent_uuid);
                        assert(key_of(views, suffix, track) == Some((named.event_name@, tid)));
                        match find_series(&series, named.event_name.as_str(), tid) {
                            Some(slot) => Some(slot),
                            None => {
                                let slot = series.len();
                                series.push(
                                    RateSeries {
                                        event_name: named.event_name.clone(),
                                        tid,
                                        points: Vec::new(),
                                    },
                                );
                                Some(slot)
                            },
                        }
                    },
                },
            };
            match known {
                None => {
                    proof {
                        lemma_collect_skip(series@, views, suffix, values, *value);
                    }
                },
                Some(slot) => {
                    slots.insert(track, slot);
                    let ghost mid = series@;
                    series[slot].points.push((value.timestamp_ns, value.value));
                    assert(mid[slot as int].points@.push((value.timestamp_ns, value.value))
                        == series@[slot as int].points@);
                    assert(series@[slot as int].key() == mid[slot as int].key());
                    proof {
                        if slot == before.len() {
                            assert(series@[slot as int].points@ =~= seq![
                                (value.timestamp_ns, value.value),
                            ]);
                        }
                        lemma_collect_push(
                            before,
                            series@,
                            slot as int,
                            views,
                            suffix,
                            values,
                            *value,
                        );
                    }
                },
            }
        }
        i = i + 1;
    }
    assert(views.take(views.len() as int) =~= views);
    series
}

/// Sorts samples by time, keeping the order of samples of one time.
pub fn sort_samples(points: &Vec<(u64, u64)>) -> (r: Vec<(u64, u64)>)
    ensures
        r@ == by_time(points@),
{
    let mut keys: Vec<Key> = Vec::new();
    let mut i: usize = 0;
    while i < points.len()
        invariant
            i <= points@.len(),
            keys@ == sample_keys(points@.take(i as int)),
        decreases points@.len() - i,
    {
        keys.push((points[i].0, 0));
        i = i + 1;
        assert(keys@ =~= sample_keys(points@.take(i as int)));
    }
    assert(points@.take(points@.len() as int) =~= points@);
    let order = sort_order(&keys);
    let mut sorted: Vec<(u64, u64)> = Vec::new();
    let mut j: usize = 0;
    while j < order.len()
        invariant
            j <= order@.len(),
            keys@ == sample_keys(points@),
            order::is_order(order@, keys@),
            order@ == order::order_of(keys@),
            sorted@ == by_time(points@).take(j as int),
        decreases order@.len() - j,
    {
        sorted.push(points[order[j]]);
        j = j + 1;
        assert(sorted@ =~= by_time(points@).take(j as int));
    }
    assert(sorted@ =~= by_time(points@));
    sorted
}

/// Extracts the per-thread time-series of counter tracks named `{event_name}{suffix}` from a list
/// of packets. The parent of a track is followed to a thread track to find the thread. If there is
/// no such parent the thread is `0`. Tracks with other names are ignored.
fn extract_series(packets: &Vec<Packet>, suffix: &str) -> (r: RateTimeSeries)
    ensures
        r.wf(),
        r@ == series_named(trace::packet_views(packets@), suffix@),
{
    let ghost views = trace::packet_views(packets@);
    let ghost values = trace::values_of(views);
    let tracks = scan_tracks(packets, suffix);
    let raw = collect_points(packets, &tracks, Ghost(suffix@));
    let mut series: Vec<RateSeries> = Vec::new();
    let mut i: usize = 0;
    while i < raw.len()
        invariant
            i <= raw@.len(),
            series@.len() == i,
            forall|j: int|
                0 <= j < i ==> (#[trigger] series@[j]).key() == raw@[j].key() && series@[j].points@
                    == by_time(raw@[j].points@),
        decreases raw@.len() - i,
    {
        series.push(
            RateSeries {
                event_name: raw[i].event_name.clone(),
                tid: raw[i].tid,
                points: sort_samples(&raw[i].points),
            },
        );
        i = i + 1;
    }
    let r = RateTimeSeries { series };
    proof {
        assert forall|i: int, j: int| 0 <= i < j < r.series@.len() implies (
        #[trigger] r.series@[i]).key() != (#[trigger] r.series@[j]).key() by {
            assert(raw@[i].key() != raw@[j].key());
        }
        assert forall|key: SeriesKey| #[trigger] r@.contains_key(key) == series_named(
            views,
            suffix@,
        ).contains_key(key) && (r@.contains_key(key) ==> r@[key] == series_named(
            views,
            suffix@,
        )[key]) by {
            let p = r.position(key);
            if r@.contains_key(key) {
                assert(r.series@[p].key() == key);
                assert(raw@[p].key() == key);
            }
            if series_named(views, suffix@).contains_key(key) {
                assert(points_of(views, suffix@, values, key).len() > 0);
                let q = choose|q: int| 0 <= q < raw@.len() && (#[trigger] raw@[q]).key() == key;
                assert(r.series@[q].key() == key);
            }
        }
        assert(r@ =~= series_named(views, suffix@));
    }
    r
}

/// Extracts the per-thread rate time-series: those of tracks named `{event_name}/rate`.
pub fn extract_rate_series(packets: &Vec<Packet>) -> (r: RateTimeSeries)
    ensures
        r.wf(),
        r@ == rate_series(trace::packet_views(packets@)),
{
    extract_series(packets, "/rate")
}

/// Extracts the per-thread uncertainty time-series: those of tracks named
/// `{event_name}/uncertainty`.
pub fn extract_uncertainty_series(packets: &Vec<Packet>) -> (r: RateTimeSeries)
    ensures
        r.wf(),
        r@ == uncertainty_series(trace::packet_views(packets@)),
{
    extract_series(packets, "/uncertainty")
}

/// Parses a trace and extracts its per-thread rate time-series.
pub fn read_rate_timeseries(data: &[u8]) -> (r: Result<RateTimeSeries, TraceError>)
    ensures
        match r {
            Ok(series) => series.wf() && trace::trace_packets(data@, 0) is Ok && series@
                == rate_series(trace::trace_packets(data@, 0)->Ok_0),
            Err(e) => trace::trace_packets(data@, 0) == Err::<Seq<PacketView>, TraceFault>(e@),
        },
{
    match read_trace_packets(data) {
        Ok(packets) => Ok(extract_rate_series(&packets)),
        Err(e) => Err(e),
    }
}

/// Whether a packet describes the track `track`.
spec fn on_track(p: PacketView, track: u64) -> bool {
    p matches PacketView::Track { uuid, name, tid, parent_uuid } && uuid == track
}

/// A track that is described once is what that description says.
proof fn lemma_single_description(packets: Seq<PacketView>, i: int, track: u64)
    requires
        0 <= i < packets.len(),
        on_track(packets[i], track),
        forall|j: int| 0 <= j < packets.len() && j != i ==> !on_track(#[trigger] packets[j], track),
    ensures
        match packets[i] {
            PacketView::Track { uuid, name, tid, parent_uuid } => tid_of(packets, track) == tid
                && named_track(packets, "/rate"@, track) == match text::without_suffix(name, "/rate"@) {
                Some(front) => Some((front, parent_uuid)),
                None => None,
            },
            _ => true,
        },
    decreases packets.len(),
{
    let rest = packets.drop_last();
    assert forall|j: int| 0 <= j < rest.len() implies rest[j] == packets[j] by {}
    if i < rest.len() {
        lemma_single_description(rest, i, track);
        assert(!on_track(packets[packets.len() - 1], track));
    } else {
        lemma_no_description(rest, track);
    }
}

proof fn lemma_no_description(packets: Seq<PacketView>, track: u64)
    requires
        forall|j: int| 0 <= j < packets.len() ==> !on_track(#[trigger] packets[j], track),
    ensures
        tid_of(packets, track) is None,
        named_track(packets, "/rate"@, track) is None,
    decreases packets.len(),
{
    if packets.len() > 0 {
        assert(!on_track(packets[packets.len() - 1], track));
        lemma_no_description(packets.drop_last(), track);
    }
}

/// The description of a track is found in what a consistent writer wrote.
proof fn lemma_written_track(w: WriterView, i: int)
    requires
        w.consistent(),
        0 <= i < w.log.len(),
        w.log[i] is Track,
    ensures
        ({
            let packets = trace::packets_of(w.log);
            let track = w.log[i]->Track_0;
            tid_of(packets, track.uuid) == track.packet()->tid && named_track(packets, "/rate"@, track.uuid)
                == match text::without_suffix(track.name, "/rate"@) {
                Some(front) => Some((front, track.parent_uuid)),
                None => None,
            }
        }),
{
    let packets = trace::packets_of(w.log);
    let track = w.log[i]->Track_0;
    assert(packets[i] == w.log[i].packet());
    assert forall|j: int| 0 <= j < packets.len() && j != i implies !on_track(
        #[trigger] packets[j],
        track.uuid,
    ) by {
        assert(packets[j] == w.log[j].packet());
        if w.log[j] is Track {
            if i < j {
                assert(w.log[i]->Track_0.uuid < w.log[j]->Track_0.uuid);
            } else {
                assert(w.log[j]->Track_0.uuid < w.log[i]->Track_0.uuid);
            }
        }
    }
    lemma_single_description(packets, i, track.uuid);
}

/// The values on a counter track are read as those of its event and thread.
proof fn lemma_counter_key(w: WriterView, key: (u32, u32))
    requires
        w.consistent(),
        w.counters.contains_key(key),
    ensures
        key_of(trace::packets_of(w.log), "/rate"@, w.counters[key]) == Some((w.event_name(key.1), key.0)),
{
    let i = choose|i: int| w.counter_at(i, key);
    lemma_written_track(w, i);
    text::lemma_without_suffix(w.event_name(key.1), "/rate"@);
    let t = choose|t: int| w.thread_at(t, key.0);
    lemma_written_track(w, t);
}

/// The samples of an event and thread among points written, in the order written.
pub open spec fn written(w: WriterView, points: Seq<RatePoint>, key: SeriesKey) -> Seq<(u64, u64)>
    decreases points.len(),
{
    if points.len() == 0 {
        Seq::empty()
    } else {
        let rest = written(w, points.drop_last(), key);
        let last = points.last();
        if (w.event_name(last.event_id), last.tid) == key {
            rest.push((last.timestamp_ns, last.rate))
        } else {
            rest
        }
    }
}

proof fn lemma_written_points(w: WriterView, n: int, key: SeriesKey)
    requires
        w.consistent(),
        0 <= n <= w.samples.len(),
    ensures
        points_of(
            trace::packets_of(w.log),
            "/rate"@,
            trace::values_of(trace::packets_of(w.log)).take(n),
            key,
        ) == written(w, w.samples.take(n), key),
    decreases n,
{
    let values = trace::values_of(trace::packets_of(w.log));
    if n > 0 {
        lemma_written_points(w, n - 1, key);
        assert(values.take(n).drop_last() =~= values.take(n - 1));
        assert(w.samples.take(n).drop_last() =~= w.samples.take(n - 1));
        let point = w.samples[n - 1];
        assert(values[n - 1] == w.value_of(point));
        lemma_counter_key(w, (point.tid, point.event_id));
    }
}

/// The samples written, for each event name and thread in order of time.
pub open spec fn series_written(w: WriterView) -> Map<SeriesKey, Seq<(u64, u64)>> {
    Map::new(
        |key: SeriesKey| written(w, w.samples, key).len() > 0,
        |key: SeriesKey| by_time(written(w, w.samples, key)),
    )
}

/// Reading a written trace: what a writer has written is read back, for each event name and
/// thread, as the samples written for it, in order of time.
pub proof fn written_rates_read_back(w: WriterView)
    requires
        w.consistent(),
        trace::faithful(w.log),
        forall|i: int| 0 <= i < w.log.len() ==> WriterView::encodes(#[trigger] w.log[i]),
        forall|i: int| 0 <= i < w.log.len() ==> (#[trigger] w.log[i]).portable(),
    ensures
        trace::trace_packets(trace::stream(w.log), 0) is Ok,
        rate_series(trace::trace_packets(trace::stream(w.log), 0)->Ok_0) == series_written(w),
{
    trace::stream_reads_back(w.log);
    let packets = trace::packets_of(w.log);
    let values = trace::values_of(packets);
    assert forall|key: SeriesKey| #[trigger] points_of(packets, "/rate"@, values, key) == written(
        w,
        w.samples,
        key,
    ) by {
        lemma_written_points(w, w.samples.len() as int, key);
        assert(values.take(values.len() as int) =~= values);
        assert(w.samples.take(w.samples.len() as int) =~= w.samples);
    }
    assert(rate_series(packets) =~= series_written(w));
}

/// What a writer handed out is read back: the bytes that it handed out, and those that it still
/// holds, are read as the samples written. Once nothing is pending, what was handed out is the
/// whole trace.
pub proof fn handed_out_rates_read_back(writer: PerfettoWriter)
    requires
        writer.wf(),
        forall|i: int|
            0 <= i < writer@.log.len() ==> WriterView::encodes(#[trigger] writer@.log[i]),
        forall|i: int| 0 <= i < writer@.log.len() ==> (#[trigger] writer@.log[i]).portable(),
    ensures
        ({
            let read = trace::trace_packets(writer.handed_out() + writer.pending_bytes(), 0);
            read is Ok && rate_series(read->Ok_0) == series_written(writer@)
        }),
        writer.pending_bytes() == Seq::<u8>::empty() ==> {
            let read = trace::trace_packets(writer.handed_out(), 0);
            read is Ok && rate_series(read->Ok_0) == series_written(writer@)
        },
{
    writer.lemma_wf();
    written_rates_read_back(writer@);
    assert(writer.handed_out() + Seq::<u8>::empty() =~= writer.handed_out());
}

/// The samples of an event and thread among points, in order, if the thread is known.
spec fn picked(
    w: WriterView,
    points: Seq<RatePoint>,
    meta: Map<u32, ThreadInfo>,
    key: SeriesKey,
) -> Seq<(u64, u64)> {
    written(w, trace::known_points(points, meta), key)
}

/// Whether a point is a sample of an event and thread, and the thread is known.
spec fn picks(w: WriterView, p: RatePoint, meta: Map<u32, ThreadInfo>, key: SeriesKey) -> bool {
    meta.contains_key(p.tid) && (w.event_name(p.event_id), p.tid) == key
}

proof fn lemma_picked_step(
    w: WriterView,
    points: Seq<RatePoint>,
    meta: Map<u32, ThreadInfo>,
    key: SeriesKey,
)
    requires
        points.len() > 0,
    ensures
        picked(w, points, meta, key) == if picks(w, points.last(), meta, key) {
            picked(w, points.drop_last(), meta, key).push(
                (points.last().timestamp_ns, points.last().rate),
            )
        } else {
            picked(w, points.drop_last(), meta, key)
        },
{
    let known = trace::known_points(points, meta);
    if meta.contains_key(points.last().tid) {
        assert(known.drop_last() =~= trace::known_points(points.drop_last(), meta));
    }
}

proof fn lemma_picked_concat(
    w: WriterView,
    a: Seq<RatePoint>,
    b: Seq<RatePoint>,
    meta: Map<u32, ThreadInfo>,
    key: SeriesKey,
)
    ensures
        picked(w, a + b, meta, key) == picked(w, a, meta, key) + picked(w, b, meta, key),
    decreases b.len(),
{
    if b.len() == 0 {
        assert(a + b =~= a);
        assert(picked(w, b, meta, key) =~= Seq::empty());
        assert(picked(w, a, meta, key) + Seq::<(u64, u64)>::empty() =~= picked(w, a, meta, key));
    } else {
        assert((a + b).drop_last() =~= a + b.drop_last());
        lemma_picked_concat(w, a, b.drop_last(), meta, key);
        lemma_picked_step(w, a + b, meta, key);
        lemma_picked_step(w, b, meta, key);
        assert(picked(w, a + b, meta, key) =~= picked(w, a, meta, key) + picked(w, b, meta, key));
    }
}

proof fn lemma_picked_without(
    w: WriterView,
    points: Seq<RatePoint>,
    meta: Map<u32, ThreadInfo>,
    key: SeriesKey,
    n: int,
)
    requires
        0 <= n < points.len(),
    ensures
        picked(w, points, meta, key).to_multiset() == if picks(w, points[n], meta, key) {
            picked(w, points.remove(n), meta, key).to_multiset().insert(
                (points[n].timestamp_ns, points[n].rate),
            )
        } else {
            picked(w, points.remove(n), meta, key).to_multiset()
        },
    decreases points.len(),
{
    broadcast use vstd::seq_lib::group_to_multiset_ensures;

    lemma_picked_step(w, points, meta, key);
    if n == points.len() - 1 {
        assert(points.remove(n) =~= points.drop_last());
    } else {
        let front = points.drop_last();
        lemma_picked_without(w, front, meta, key, n);
        assert(points.remove(n).drop_last() =~= front.remove(n));
        assert(points.remove(n).last() == points.last());
        lemma_picked_step(w, points.remove(n), meta, key);
        assert(picked(w, points, meta, key).to_multiset() =~= if picks(w, points[n], meta, key) {
            picked(w, points.remove(n), meta, key).to_multiset().insert(
                (points[n].timestamp_ns, points[n].rate),
            )
        } else {
            picked(w, points.remove(n), meta, key).to_multiset()
        });
    }
}

proof fn lemma_picked_permuted(
    w: WriterView,
    a: Seq<RatePoint>,
    b: Seq<RatePoint>,
    meta: Map<u32, ThreadInfo>,
    key: SeriesKey,
)
    requires
        a.to_multiset() == b.to_multiset(),
    ensures
        picked(w, a, meta, key).to_multiset() == picked(w, b, meta, key).to_multiset(),
    decreases a.len(),
{
    broadcast use vstd::seq_lib::group_to_multiset_ensures;

    assert(a.to_multiset().len() == a.len() && b.to_multiset().len() == b.len());
    if a.len() == 0 {
        assert(a =~= b);
    } else {
        let last = a.last();
        assert(a[a.len() - 1] == last);
        assert(a.contains(last));
        assert(b.to_multiset().count(last) > 0);
        assert(b.contains(last));
        let n = choose|n: int| 0 <= n < b.len() && b[n] == last;
        assert(a.remove(a.len() - 1) =~= a.drop_last());
        assert(a.drop_last().to_multiset() =~= b.remove(n).to_multiset());
        lemma_picked_permuted(w, a.drop_last(), b.remove(n), meta, key);
        lemma_picked_without(w, a, meta, key, a.len() - 1);
        lemma_picked_without(w, b, meta, key, n);
    }
}

/// Whether no event and thread has two series, and every event has a name of its own.
pub open spec fn separate(series: Seq<RawSeries>, names: Seq<Seq<char>>) -> bool {
    &&& names.no_duplicates()
    &&& forall|i: int| 0 <= i < series.len() ==> (#[trigger] series[i]).event_id < names.len()
    &&& forall|i: int, j: int|
        0 <= i < j < series.len() ==> ((#[trigger] series[i]).event_id, series[i].tid) != ((
        #[trigger] series[j]).event_id, series[j].tid)
}

/// The event name and thread of a series.
pub open spec fn name_and_thread(one: RawSeries, names: Seq<Seq<char>>) -> SeriesKey {
    (names[one.event_id as int], one.tid)
}

proof fn lemma_series_points(
    w: WriterView,
    one: RawSeries,
    n: int,
    meta: Map<u32, ThreadInfo>,
    key: SeriesKey,
)
    requires
        0 <= n <= one.points@.len(),
    ensures
        picked(w, one.rate_points().take(n), meta, key) == if meta.contains_key(one.tid) && (
            w.event_name(one.event_id),
            one.tid,
        ) == key {
            one.points@.take(n)
        } else {
            Seq::empty()
        },
    decreases n,
{
    let points = one.rate_points();
    if n == 0 {
        assert(points.take(0) =~= Seq::empty());
        assert(one.points@.take(0) =~= Seq::empty());
        assert(picked(w, points.take(0), meta, key) =~= Seq::empty());
    } else {
        lemma_series_points(w, one, n - 1, meta, key);
        assert(points.take(n).drop_last() =~= points.take(n - 1));
        assert(points.take(n).last() == points[n - 1]);
        lemma_picked_step(w, points.take(n), meta, key);
        assert(one.points@.take(n) =~= one.points@.take(n - 1).push(one.points@[n - 1]));
    }
}

proof fn lemma_all_picked(
    w: WriterView,
    series: Seq<RawSeries>,
    meta: Map<u32, ThreadInfo>,
    key: SeriesKey,
)
    requires
        separate(series, w.event_names),
    ensures
        forall|i: int|
            0 <= i < series.len() && name_and_thread(#[trigger] series[i], w.event_names) == key
                && meta.contains_key(key.1) ==> picked(w, trace::all_points(series), meta, key)
                == series[i].points@,
        (!meta.contains_key(key.1) || forall|i: int|
            0 <= i < series.len() ==> name_and_thread(#[trigger] series[i], w.event_names) != key)
            ==> picked(w, trace::all_points(series), meta, key) == Seq::<(u64, u64)>::empty(),
    decreases series.len(),
{
    let names = w.event_names;
    let empty = Seq::<(u64, u64)>::empty();
    if series.len() == 0 {
        assert(picked(w, trace::all_points(series), meta, key) =~= empty);
    } else {
        let front = series.drop_last();
        let last = series.last();
        let n = series.len() - 1;
        assert(separate(front, names)) by {
            assert forall|i: int, j: int| 0 <= i < j < front.len() implies ((
            #[trigger] front[i]).event_id, front[i].tid) != ((#[trigger] front[j]).event_id, front[j].tid) by {
                assert((series[i].event_id, series[i].tid) != (series[j].event_id, series[j].tid));
            }
            assert forall|i: int| 0 <= i < front.len() implies (#[trigger] front[i]).event_id
                < names.len() by {
                assert(series[i].event_id < names.len());
            }
        }
        lemma_all_picked(w, front, meta, key);
        lemma_picked_concat(w, trace::all_points(front), last.rate_points(), meta, key);
        lemma_series_points(w, last, last.points@.len() as int, meta, key);
        assert(last.rate_points().take(last.points@.len() as int) =~= last.rate_points());
        assert(last.points@.take(last.points@.len() as int) =~= last.points@);
        assert(series[n].event_id < names.len());
        let before = picked(w, trace::all_points(front), meta, key);
        assert(before + empty =~= before);
        assert(empty + last.points@ =~= last.points@);
        if name_and_thread(last, names) == key {
            assert forall|i: int| 0 <= i < front.len() implies name_and_thread(
                #[trigger] front[i],
                names,
            ) != key by {
                assert((series[i].event_id, series[i].tid) != (series[n].event_id, series[n].tid));
                assert(series[i].event_id < names.len());
            }
        }
        assert forall|i: int|
            0 <= i < series.len() && name_and_thread(#[trigger] series[i], names) == key
                && meta.contains_key(key.1) implies picked(w, trace::all_points(series), meta, key)
            == series[i].points@ by {
            if i < n {
                assert(name_and_thread(front[i], names) == key);
                assert(name_and_thread(last, names) != key);
            }
        }
        if !meta.contains_key(key.1) || forall|i: int|
            0 <= i < series.len() ==> name_and_thread(#[trigger] series[i], names) != key {
            if meta.contains_key(key.1) {
                assert(name_and_thread(series[n], names) != key);
                assert forall|i: int| 0 <= i < front.len() implies name_and_thread(
                    #[trigger] front[i],
                    names,
                ) != key by {
                    assert(name_and_thread(series[i], names) != key);
                }
            }
            assert(before == empty);
        }
    }
}

/// Whether samples are in order of time.
pub open spec fn timely(points: Seq<(u64, u64)>) -> bool {
    forall|i: int, j: int| 0 <= i < j < points.len() ==> (#[trigger] points[i]).0 <= (
    #[trigger] points[j]).0
}

/// Ordering samples by time keeps them all and puts them in order.
pub proof fn by_time_is_sorted(points: Seq<(u64, u64)>)
    requires
        points.len() <= usize::MAX,
    ensures
        timely(by_time(points)),
        by_time(points).to_multiset() == points.to_multiset(),
{
    let keys = sample_keys(points);
    order::order_exists(keys);
    order::arranging_keeps_items(points, keys);
    let order = order::order_of(keys);
    let out = by_time(points);
    assert forall|i: int, j: int| 0 <= i < j < out.len() implies (#[trigger] out[i]).0 <= (
    #[trigger] out[j]).0 by {
        assert(out[i] == points[order[i] as int]);
        assert(out[j] == points[order[j] as int]);
        assert(order::goes_before(
            keys[order[i] as int],
            order[i] as int,
            keys[order[j] as int],
            order[j] as int,
        ));
    }
}

/// Reading collected time-series back from a fresh trace: an event and thread is found exactly
/// where the thread is known and the series is not empty, and then with the samples of that
/// series, rates bit by bit, in order of time. Series of unknown threads are missing.
pub proof fn raw_series_read_back(
    names: Seq<Seq<char>>,
    series: Seq<RawSeries>,
    meta: Map<u32, ThreadInfo>,
)
    requires
        separate(series, names),
        trace::all_points(series).len() <= usize::MAX,
        trace::THREAD_UUID_BASE + 3 * trace::all_points(series).len() <= u64::MAX,
        ({
            let (w, fine) = WriterView::fresh(names).with_points(
                trace::in_time_order(trace::all_points(series)),
                meta,
            );
            &&& fine
            &&& trace::faithful(w.log)
            &&& forall|i: int| 0 <= i < w.log.len() ==> (#[trigger] w.log[i]).portable()
        }),
    ensures
        ({
            let w = WriterView::fresh(names).with_points(
                trace::in_time_order(trace::all_points(series)),
                meta,
            ).0;
            let read = trace::trace_packets(trace::stream(w.log), 0);
            &&& read is Ok
            &&& forall|i: int|
                0 <= i < series.len() && meta.contains_key((#[trigger] series[i]).tid)
                    && series[i].points@.len() > 0 ==> {
                    let key = name_and_thread(series[i], names);
                    let found = rate_series(read->Ok_0);
                    &&& found.contains_key(key)
                    &&& timely(found[key])
                    &&& found[key].to_multiset() == series[i].points@.to_multiset()
                }
            &&& forall|key: SeriesKey| #[trigger]
                rate_series(read->Ok_0).contains_key(key) ==> meta.contains_key(key.1)
                    && exists|i: int|
                    0 <= i < series.len() && name_and_thread(#[trigger] series[i], names) == key
                        && series[i].points@.len() > 0
        }),
{
    broadcast use vstd::seq_lib::group_to_multiset_ensures;

    let all = trace::all_points(series);
    let sorted = trace::in_time_order(all);
    let fresh = WriterView::fresh(names);
    let w = fresh.with_points(sorted, meta).0;
    assert(trace::values_of(trace::packets_of(fresh.log)) =~= fresh.samples.map_values(
        |p: RatePoint| fresh.value_of(p),
    ));
    assert(fresh.consistent());
    trace::lemma_with_points(fresh, sorted, meta);
    trace::success_means_encoded(fresh, sorted, meta);
    trace::known_points_are_written(fresh, sorted, meta);
    written_rates_read_back(w);
    order::arranging_keeps_items(all, trace::time_keys(all));
    assert(w.samples =~= trace::known_points(sorted, meta));
    assert forall|key: SeriesKey| #[trigger] written(w, w.samples, key).to_multiset() == picked(
        w,
        all,
        meta,
        key,
    ).to_multiset() by {
        lemma_picked_permuted(w, sorted, all, meta, key);
    }
    let found = series_written(w);
    assert forall|i: int|
        0 <= i < series.len() && meta.contains_key((#[trigger] series[i]).tid)
            && series[i].points@.len() > 0 implies {
        let key = name_and_thread(series[i], names);
        &&& found.contains_key(key)
        &&& timely(found[key])
        &&& found[key].to_multiset() == series[i].points@.to_multiset()
    } by {
        let key = name_and_thread(series[i], names);
        lemma_all_picked(w, series, meta, key);
        let points = written(w, w.samples, key);
        assert(points.to_multiset() == series[i].points@.to_multiset());
        assert(points.to_multiset().len() == points.len());
        assert(series[i].points@.to_multiset().len() == series[i].points@.len());
        assert(series[i].points@.len() == series[i].points.len());
        by_time_is_sorted(points);
    }
    assert forall|key: SeriesKey| #[trigger] found.contains_key(key) implies meta.contains_key(
        key.1,
    ) && exists|i: int|
        0 <= i < series.len() && name_and_thread(#[trigger] series[i], names) == key
            && series[i].points@.len() > 0 by {
        lemma_all_picked(w, series, meta, key);
        let points = written(w, w.samples, key);
        assert(points.to_multiset().len() == points.len());
        assert(picked(w, all, meta, key).to_multiset().len() == picked(w, all, meta, key).len());
        assert(picked(w, all, meta, key).len() > 0);
        let i = choose|i: int|
            0 <= i < series.len() && name_and_thread(#[trigger] series[i], names) == key;
        assert(picked(w, all, meta, key) == series[i].points@);
    }
}

/// Whether `later` is `packets` with every counter value moved on by `d` in time.
pub open spec fn is_later(later: Seq<PacketView>, packets: Seq<PacketView>, d: u64) -> bool {
    &&& later.len() == packets.len()
    &&& forall|i: int| 0 <= i < packets.len() ==> is_later_packet(#[trigger] later[i], packets[i], d)
}

/// Whether `later` is the packet `p`, moved on by `d` in time if it is a counter value.
pub open spec fn is_later_packet(later: PacketView, p: PacketView, d: u64) -> bool {
    match p {
        PacketView::Value(v) => v.timestamp_ns + d <= u64::MAX && later == PacketView::Value(
            CounterValue { timestamp_ns: (v.timestamp_ns + d) as u64, ..v },
        ),
        _ => later == p,
    }
}

/// Samples moved on by `d` in time.
pub open spec fn moved_on(points: Seq<(u64, u64)>, d: u64) -> Seq<(u64, u64)> {
    points.map_values(|p: (u64, u64)| ((p.0 + d) as u64, p.1))
}

proof fn lemma_later_front(later: Seq<PacketView>, packets: Seq<PacketView>, d: u64)
    requires
        is_later(later, packets, d),
        packets.len() > 0,
    ensures
        is_later(later.drop_last(), packets.drop_last(), d),
        is_later_packet(later.last(), packets.last(), d),
{
    assert forall|i: int| 0 <= i < packets.len() - 1 implies is_later_packet(
        #[trigger] later.drop_last()[i],
        packets.drop_last()[i],
        d,
    ) by {
        assert(is_later_packet(later[i], packets[i], d));
    }
    assert(is_later_packet(later[packets.len() - 1], packets[packets.len() - 1], d));
}

proof fn lemma_later_tracks(
    later: Seq<PacketView>,
    packets: Seq<PacketView>,
    d: u64,
    suffix: Seq<char>,
    track: u64,
)
    requires
        is_later(later, packets, d),
    ensures
        tid_of(later, track) == tid_of(packets, track),
        named_track(later, suffix, track) == named_track(packets, suffix, track),
    decreases packets.len(),
{
    if packets.len() > 0 {
        lemma_later_front(later, packets, d);
        lemma_later_tracks(later.drop_last(), packets.drop_last(), d, suffix, track);
    }
}

proof fn lemma_later_key(
    later: Seq<PacketView>,
    packets: Seq<PacketView>,
    d: u64,
    suffix: Seq<char>,
    track: u64,
)
    requires
        is_later(later, packets, d),
    ensures
        key_of(later, suffix, track) == key_of(packets, suffix, track),
{
    lemma_later_tracks(later, packets, d, suffix, track);
    if let Some((name, Some(parent))) = named_track(packets, suffix, track) {
        lemma_later_tracks(later, packets, d, suffix, parent);
    }
}

proof fn lemma_later_points(
    later: Seq<PacketView>,
    packets: Seq<PacketView>,
    d: u64,
    suffix: Seq<char>,
    key: SeriesKey,
    n: int,
)
    requires
        is_later(later, packets, d),
        0 <= n <= packets.len(),
    ensures
        ({
            let points = points_of(packets, suffix, trace::values_of(packets.take(n)), key);
            &&& points_of(later, suffix, trace::values_of(later.take(n)), key) == moved_on(points, d)
            &&& forall|i: int| 0 <= i < points.len() ==> (#[trigger] points[i]).0 + d <= u64::MAX
        }),
    decreases n,
{
    if n == 0 {
        assert(later.take(0) =~= Seq::empty());
        assert(packets.take(0) =~= Seq::empty());
        assert(moved_on(Seq::empty(), d) =~= Seq::empty());
    } else {
        lemma_later_points(later, packets, d, suffix, key, n - 1);
        assert(later.take(n).drop_last() =~= later.take(n - 1));
        assert(packets.take(n).drop_last() =~= packets.take(n - 1));
        assert(is_later_packet(later[n - 1], packets[n - 1], d));
        let before = points_of(packets, suffix, trace::values_of(packets.take(n - 1)), key);
        if let PacketView::Value(v) = packets[n - 1] {
            lemma_later_key(later, packets, d, suffix, v.track_uuid);
            assert(trace::values_of(packets.take(n)).drop_last() =~= trace::values_of(
                packets.take(n - 1),
            ));
            assert(trace::values_of(later.take(n)).drop_last() =~= trace::values_of(
                later.take(n - 1),
            ));
            assert(moved_on(before.push((v.timestamp_ns, v.value)), d) =~= moved_on(before, d).push(
                ((v.timestamp_ns + d) as u64, v.value),
            ));
        }
    }
}

proof fn lemma_by_time_moved_on(points: Seq<(u64, u64)>, d: u64)
    requires
        points.len() <= usize::MAX,
        forall|i: int| 0 <= i < points.len() ==> (#[trigger] points[i]).0 + d <= u64::MAX,
    ensures
        by_time(moved_on(points, d)) == moved_on(by_time(points), d),
{
    let keys = sample_keys(points);
    let other = sample_keys(moved_on(points, d));
    order::order_exists(keys);
    let order = order::order_of(keys);
    assert forall|k: int| 0 <= k < points.len() implies #[trigger] other[k] == (
        (keys[k].0 + d) as u64,
        0u64,
    ) && keys[k].0 + d <= u64::MAX && keys[k].1 == 0 by {
        assert(points[k].0 + d <= u64::MAX);
    }
    assert forall|i: int, j: int| 0 <= i < j < order.len() implies order::goes_before(
        other[#[trigger] order[i] as int],
        order[i] as int,
        other[#[trigger] order[j] as int],
        order[j] as int,
    ) by {
        assert(order::goes_before(
            keys[order[i] as int],
            order[i] as int,
            keys[order[j] as int],
            order[j] as int,
        ));
    }
    assert(order::is_order(order, other));
    order::lemma_order_of(order, other);
    assert(by_time(moved_on(points, d)) =~= moved_on(by_time(points), d));
}

/// A trace whose counter values are all the same time later is read as the same series, all of
/// their samples that much later.
pub proof fn later_traces_read_as_later_series(
    later: Seq<PacketView>,
    packets: Seq<PacketView>,
    d: u64,
    suffix: Seq<char>,
    key: SeriesKey,
)
    requires
        is_later(later, packets, d),
        packets.len() <= usize::MAX,
    ensures
        series_named(later, suffix).contains_key(key) <==> series_named(
            packets,
            suffix,
        ).contains_key(key),
        series_named(packets, suffix).contains_key(key) ==> series_named(later, suffix)[key]
            == moved_on(series_named(packets, suffix)[key], d),
{
    let n = packets.len() as int;
    lemma_later_points(later, packets, d, suffix, key, n);
    assert(packets.take(n) =~= packets);
    assert(later.take(n) =~= later);
    let points = points_of(packets, suffix, trace::values_of(packets), key);
    lemma_points_len(packets, suffix, trace::values_of(packets), key);
    lemma_values_len(packets);
    lemma_by_time_moved_on(points, d);
}

proof fn lemma_points_len(
    packets: Seq<PacketView>,
    suffix: Seq<char>,
    values: Seq<CounterValue>,
    key: SeriesKey,
)
    ensures
        points_of(packets, suffix, values, key).len() <= values.len(),
    decreases values.len(),
{
    if values.len() > 0 {
        lemma_points_len(packets, suffix, values.drop_last(), key);
    }
}

proof fn lemma_values_len(packets: Seq<PacketView>)
    ensures
        trace::values_of(packets).len() <= packets.len(),
    decreases packets.len(),
{
    if packets.len() > 0 {
        lemma_values_len(packets.drop_last());
    }
}

/// Whether a packet says which thread a track is of.
pub open spec fn tells_thread(p: PacketView, track: u64, thread: u32) -> bool {
    p matches PacketView::Track { uuid, name, tid, parent_uuid } && uuid == track && tid == Some(
        thread,
    )
}

/// Whether a packet names a track after an event, and says what it lies below.
pub open spec fn tells_event(
    p: PacketView,
    track: u64,
    suffix: Seq<char>,
    event: Seq<char>,
    parent: Option<u64>,
) -> bool {
    p matches PacketView::Track { uuid, name, tid, parent_uuid } && uuid == track && name == event
        + suffix && parent_uuid == parent
}

/// Where several packets say which thread a track is of, the last counts.
pub proof fn the_last_thread_told_counts(
    packets: Seq<PacketView>,
    track: u64,
    i: int,
    thread: u32,
)
    requires
        0 <= i < packets.len(),
        tells_thread(packets[i], track, thread),
        forall|j: int, other: u32|
            i < j < packets.len() ==> !#[trigger] tells_thread(packets[j], track, other),
    ensures
        tid_of(packets, track) == Some(thread),
    decreases packets.len(),
{
    let rest = packets.drop_last();
    if i < rest.len() {
        assert forall|j: int, other: u32| i < j < rest.len() implies !#[trigger] tells_thread(
            rest[j],
            track,
            other,
        ) by {
            assert(rest[j] == packets[j]);
        }
        the_last_thread_told_counts(rest, track, i, thread);
        if let PacketView::Track { uuid, name, tid: Some(other), parent_uuid } = packets.last() {
            assert(!tells_thread(packets[packets.len() - 1], track, other));
        }
    }
}

/// A thread that no packet tells is unknown; one that is known is told by some packet. Returns
/// the position of that packet.
pub proof fn known_threads_are_told(packets: Seq<PacketView>, track: u64) -> (i: int)
    requires
        tid_of(packets, track) is Some,
    ensures
        0 <= i < packets.len(),
        tells_thread(packets[i], track, tid_of(packets, track)->0),
    decreases packets.len(),
{
    match packets.last() {
        PacketView::Track { uuid, name, tid: Some(tid), parent_uuid } if uuid == track => {
            packets.len() - 1
        },
        _ => known_threads_are_told(packets.drop_last(), track),
    }
}

/// Where several packets name a track after an event, the last counts.
pub proof fn the_last_event_told_counts(
    packets: Seq<PacketView>,
    track: u64,
    suffix: Seq<char>,
    i: int,
    event: Seq<char>,
    parent: Option<u64>,
)
    requires
        0 <= i < packets.len(),
        tells_event(packets[i], track, suffix, event, parent),
        forall|j: int, other: Seq<char>, above: Option<u64>|
            i < j < packets.len() ==> !#[trigger] tells_event(
                packets[j],
                track,
                suffix,
                other,
                above,
            ),
    ensures
        named_track(packets, suffix, track) == Some((event, parent)),
    decreases packets.len(),
{
    let rest = packets.drop_last();
    text::lemma_without_suffix(event, suffix);
    if i < rest.len() {
        assert forall|j: int, other: Seq<char>, above: Option<u64>|
            i < j < rest.len() implies !#[trigger] tells_event(
            rest[j],
            track,
            suffix,
            other,
            above,
        ) by {
            assert(rest[j] == packets[j]);
        }
        the_last_event_told_counts(rest, track, suffix, i, event, parent);
        if let PacketView::Track { uuid, name, tid, parent_uuid } = packets.last() {
            if let Some(front) = text::without_suffix(name, suffix) {
                assert(name =~= front + suffix);
                assert(!tells_event(
                    packets[packets.len() - 1],
                    track,
                    suffix,
                    front,
                    parent_uuid,
                ));
            }
        }
    }
}

/// The event of a track is named by some packet. Returns the position of that packet.
pub proof fn known_events_are_told(packets: Seq<PacketView>, track: u64, suffix: Seq<char>) -> (i:
    int)
    requires
        named_track(packets, suffix, track) is Some,
    ensures
        0 <= i < packets.len(),
        named_track(packets, suffix, track) matches Some((event, parent)) && tells_event(
            packets[i],
            track,
            suffix,
            event,
            parent,
        ),
    decreases packets.len(),
{
    match packets.last() {
        PacketView::Track { uuid, name, tid, parent_uuid } if uuid == track
            && text::without_suffix(name, suffix) is Some => {
            assert(name =~= text::without_suffix(name, suffix)->0 + suffix);
            packets.len() - 1
        },
        _ => known_events_are_told(packets.drop_last(), track, suffix),
    }
}

/// The values of a track are of the event that the track is named after, and of the thread of the
/// track that it lies below: of none, written as zero, where that is not known.
pub proof fn values_are_of_the_thread_above(
    packets: Seq<PacketView>,
    suffix: Seq<char>,
    track: u64,
)
    ensures
        key_of(packets, suffix, track) is Some <==> named_track(packets, suffix, track) is Some,
        key_of(packets, suffix, track) matches Some((event, thread)) ==> {
            let (name, parent) = named_track(packets, suffix, track)->0;
            &&& event == name
            &&& parent is Some && tid_of(packets, parent->0) is Some ==> Some(thread) == tid_of(
                packets,
                parent->0,
            )
            &&& parent is None || tid_of(packets, parent->0) is None ==> thread == 0
        },
{
}

/// The points of an event and thread are the values of its tracks, all of them, in order.
pub proof fn every_value_is_a_point(
    packets: Seq<PacketView>,
    suffix: Seq<char>,
    values: Seq<CounterValue>,
    key: SeriesKey,
)
    ensures
        points_of(packets, suffix, values, key) == values.filter(
            |v: CounterValue| key_of(packets, suffix, v.track_uuid) == Some(key),
        ).map_values(|v: CounterValue| (v.timestamp_ns, v.value)),
    decreases values.len(),
{
    reveal(Seq::filter);
    let kept = values.filter(
        |v: CounterValue| key_of(packets, suffix, v.track_uuid) == Some(key),
    );
    if values.len() > 0 {
        every_value_is_a_point(packets, suffix, values.drop_last(), key);
    }
    assert(points_of(packets, suffix, values, key) =~= kept.map_values(
        |v: CounterValue| (v.timestamp_ns, v.value),
    ));
}

/// The samples of an event and thread are those of the points with its name and thread, all of
/// them, in order.
pub proof fn every_point_is_a_sample(w: WriterView, points: Seq<RatePoint>, key: SeriesKey)
    ensures
        written(w, points, key) == points.filter(
            |p: RatePoint| w.event_name(p.event_id) == key.0 && p.tid == key.1,
        ).map_values(|p: RatePoint| (p.timestamp_ns, p.rate)),
    decreases points.len(),
{
    reveal(Seq::filter);
    let kept = points.filter(|p: RatePoint| w.event_name(p.event_id) == key.0 && p.tid == key.1);
    if points.len() > 0 {
        every_point_is_a_sample(w, points.drop_last(), key);
    }
    assert(written(w, points, key) =~= kept.map_values(|p: RatePoint| (p.timestamp_ns, p.rate)));
}

/// Of two samples in order of time the earlier comes first, and of two of one time the one that
/// came first. Returns where the two were.
pub proof fn samples_of_one_time_keep_their_order(points: Seq<(u64, u64)>, i: int, j: int) -> (at: (
    int,
    int,
))
    requires
        points.len() <= usize::MAX,
        0 <= i < j < points.len(),
    ensures
        0 <= at.0 < points.len(),
        0 <= at.1 < points.len(),
        by_time(points).len() == points.len(),
        by_time(points)[i] == points[at.0],
        by_time(points)[j] == points[at.1],
        points[at.0].0 <= points[at.1].0,
        points[at.0].0 == points[at.1].0 ==> at.0 < at.1,
{
    let keys = sample_keys(points);
    order::arranging_keeps_items(points, keys);
    order::arranging_sorts_by_key(points, keys, i, j);
    (order::order_of(keys)[i] as int, order::order_of(keys)[j] as int)
}

} // verus!
