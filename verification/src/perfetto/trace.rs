//! Perfetto traces: writing counter samples, and splitting a trace into its packets.

use crate::order::{self, sort_order, Key};
use crate::perfetto::packet::{
    self, decode_packet, encode_track, encode_value, Content, CounterValue, Packet, PacketView,
    Track, TrackKind, TrackKindView, TrackView,
};
use crate::perfetto::wire::{self, read_frame, write_frame, FrontFrame, FrontFrameView};
use crate::text::{self, decimal_text, joined, owned, push_decimal, push_hex_byte};
use std::collections::HashMap;
use vstd::prelude::*;
use vstd::slice::*;

verus! {

broadcast use vstd::std_specs::hash::group_hash_axioms;

/// Why a trace cannot be read.
pub enum TraceError {
    /// A byte other than the packet tag where a packet should begin.
    UnexpectedTag { byte: u8, offset: usize },
    /// The data ends inside a packet length.
    TruncatedVarint,
    /// A packet length reaches beyond the end of the data.
    PacketBeyondEnd,
    /// The bytes of a packet do not decode.
    Malformed(protobuf::Error),
}

/// Model of [`TraceError`].
pub enum TraceFault {
    UnexpectedTag { byte: u8, offset: nat },
    TruncatedVarint,
    PacketBeyondEnd,
    Malformed,
}

impl View for TraceError {
    type V = TraceFault;

    open spec fn view(&self) -> TraceFault {
        match self {
            TraceError::UnexpectedTag { byte, offset } => TraceFault::UnexpectedTag {
                byte: *byte,
                offset: *offset as nat,
            },
            TraceError::TruncatedVarint => TraceFault::TruncatedVarint,
            TraceError::PacketBeyondEnd => TraceFault::PacketBeyondEnd,
            TraceError::Malformed(_) => TraceFault::Malformed,
        }
    }
}

impl TraceError {
    /// The message for the user; `None` when the protobuf error speaks for itself.
    pub fn message(&self) -> (r: Option<String>)
        ensures
            match self@ {
                TraceFault::UnexpectedTag { byte, offset } => r is Some && (r->0)@
                    == "Unexpected tag byte 0x"@ + text::hex_byte(byte) + " at offset "@ + text::decimal(
                    offset,
                ),
                TraceFault::TruncatedVarint => r is Some && (r->0)@
                    == "Truncated varint in trace file"@,
                TraceFault::PacketBeyondEnd => r is Some && (r->0)@
                    == "Packet extends beyond end of file"@,
                TraceFault::Malformed => r is None,
            },
    {
        match self {
            TraceError::UnexpectedTag { byte, offset } => {
                let mut s = owned("Unexpected tag byte 0x");
                push_hex_byte(&mut s, *byte);
                s.append(" at offset ");
                push_decimal(&mut s, *offset as u64);
                Some(s)
            },
            TraceError::TruncatedVarint => Some(owned("Truncated varint in trace file")),
            TraceError::PacketBeyondEnd => Some(owned("Packet extends beyond end of file")),
            TraceError::Malformed(_) => None,
        }
    }
}

/// The packets of a trace, in order, or the first thing that is wrong with it. `base` is the
/// offset at which `data` stands in the whole trace.
pub open spec fn trace_packets(data: Seq<u8>, base: nat) -> Result<Seq<PacketView>, TraceFault>
    decreases data.len(),
{
    if data.len() == 0 {
        Ok(Seq::empty())
    } else {
        match wire::front_frame(data) {
            FrontFrameView::BadTag => Err(
                TraceFault::UnexpectedTag { byte: data[0], offset: base },
            ),
            FrontFrameView::TruncatedVarint => Err(TraceFault::TruncatedVarint),
            FrontFrameView::BeyondEnd => Err(TraceFault::PacketBeyondEnd),
            FrontFrameView::Payload { start, end } => match packet::decoded_packet(
                data.subrange(start as int, end as int),
            ) {
                None => Err(TraceFault::Malformed),
                Some(packet) => match trace_packets(data.skip(end as int), base + end) {
                    Ok(rest) => Ok(seq![packet] + rest),
                    Err(e) => Err(e),
                },
            },
        }
    }
}

/// The views of a list of packets.
pub open spec fn packet_views(packets: Seq<Packet>) -> Seq<PacketView> {
    packets.map_values(|p: Packet| p@)
}

/// Splits a trace into its packets: each is the tag byte `0x0A`, a varint length, and that many
/// bytes of an encoded packet.
pub fn read_trace_packets(data: &[u8]) -> (r: Result<Vec<Packet>, TraceError>)
    ensures
        match r {
            Ok(packets) => trace_packets(data@, 0) == Ok::<Seq<PacketView>, TraceFault>(
                packet_views(packets@),
            ),
            Err(e) => trace_packets(data@, 0) == Err::<Seq<PacketView>, TraceFault>(e@),
        },
{
    let mut packets: Vec<Packet> = Vec::new();
    let mut pos: usize = 0;
    assert(data@.skip(0) =~= data@);
    assert(packet_views(packets@) =~= Seq::<PacketView>::empty());
    proof {
        if let Ok(all) = trace_packets(data@, 0) {
            assert(Seq::<PacketView>::empty() + all =~= all);
        }
    }
    while pos < data.len()
        invariant
            pos <= data@.len(),
            match trace_packets(data@.skip(pos as int), pos as nat) {
                Ok(rest) => trace_packets(data@, 0) == Ok::<Seq<PacketView>, TraceFault>(
                    packet_views(packets@) + rest,
                ),
                Err(e) => trace_packets(data@, 0) == Err::<Seq<PacketView>, TraceFault>(e),
            },
        decreases data@.len() - pos,
    {
        let ghost rest = data@.skip(pos as int);
        let ghost before = packets@;
        let (start, end) = match read_frame(data, pos) {
            FrontFrame::BadTag => {
                return Err(TraceError::UnexpectedTag { byte: data[pos], offset: pos });
            },
            FrontFrame::TruncatedVarint => {
                return Err(TraceError::TruncatedVarint);
            },
            FrontFrame::BeyondEnd => {
                return Err(TraceError::PacketBeyondEnd);
            },
            FrontFrame::Payload { start, end } => (start, end),
        };
        let bytes = slice_subrange(data, pos + start, pos + end);
        assert(bytes@ =~= rest.subrange(start as int, end as int));
        let packet = match decode_packet(bytes) {
            Ok(packet) => packet,
            Err(e) => {
                return Err(TraceError::Malformed(e));
            },
        };
        assert(rest.skip(end as int) =~= data@.skip(pos + end));
        packets.push(packet);
        proof {
            if let Ok(tail) = trace_packets(data@.skip(pos + end), (pos + end) as nat) {
                assert(packet_views(before) + (seq![packet@] + tail) =~= packet_views(packets@)
                    + tail);
            }
        }
        pos = pos + end;
    }
    assert(data@.skip(pos as int) =~= Seq::<u8>::empty());
    assert(packet_views(packets@) + Seq::<PacketView>::empty() =~= packet_views(packets@));
    Ok(packets)
}

/// Whatever follows a readable trace is read as if it stood alone, further on.
pub proof fn lemma_trace_append(a: Seq<u8>, b: Seq<u8>, base: nat)
    requires
        trace_packets(a, base) is Ok,
    ensures
        trace_packets(a + b, base) == match trace_packets(b, base + a.len()) {
            Ok(rest) => Ok::<Seq<PacketView>, TraceFault>(trace_packets(a, base)->Ok_0 + rest),
            Err(e) => Err(e),
        },
    decreases a.len(),
{
    if a.len() == 0 {
        assert(a + b =~= b);
        if let Ok(rest) = trace_packets(b, base + a.len()) {
            assert(Seq::<PacketView>::empty() + rest =~= rest);
        }
    } else {
        wire::lemma_front_frame_prefix(a, b);
        let (start, end) = match wire::front_frame(a) {
            FrontFrameView::Payload { start, end } => (start, end),
            _ => (0, 0),
        };
        let packet = packet::decoded_packet(a.subrange(start as int, end as int))->0;
        let tail = a.skip(end as int);
        assert((a + b).subrange(start as int, end as int) =~= a.subrange(start as int, end as int));
        assert((a + b).skip(end as int) =~= tail + b);
        lemma_trace_append(tail, b, base + end);
        assert(base + end + tail.len() == base + a.len());
        if let Ok(rest) = trace_packets(b, base + a.len()) {
            let inner = trace_packets(tail, base + end)->Ok_0;
            assert(seq![packet] + (inner + rest) =~= (seq![packet] + inner) + rest);
        }
    }
}

/// The first identifier given to a track.
pub const THREAD_UUID_BASE: u64 = 1_000_000;

/// The packet sequence that all packets belong to.
pub const SEQUENCE_ID: u32 = 1;

/// What is known of a thread besides its ID.
pub struct ThreadInfo {
    /// ID of the process that the thread belongs to.
    pub tgid: u32,
    /// Task name.
    pub task: String,
}

/// One rate of one event on one thread at one time.
#[derive(Clone, Copy)]
pub struct RatePoint {
    /// When the rate was taken, in nanoseconds.
    pub timestamp_ns: u64,
    /// The thread.
    pub tid: u32,
    /// The event.
    pub event_id: u32,
    /// Bit pattern of the rate.
    pub rate: u64,
}

/// The bytes of a list of packets; a packet that cannot be encoded leaves none.
pub open spec fn stream(log: Seq<Content>) -> Seq<u8>
    decreases log.len(),
{
    if log.len() == 0 {
        Seq::empty()
    } else {
        stream(log.drop_last()) + match packet::encoded_packet(log.last(), SEQUENCE_ID) {
            Some(bytes) => wire::frame(bytes),
            None => Seq::empty(),
        }
    }
}

/// The counter values among a list of packets, in order.
pub open spec fn values_of(packets: Seq<PacketView>) -> Seq<CounterValue>
    decreases packets.len(),
{
    if packets.len() == 0 {
        Seq::empty()
    } else {
        let rest = values_of(packets.drop_last());
        match packets.last() {
            PacketView::Value(value) => rest.push(value),
            _ => rest,
        }
    }
}

/// What a reader keeps of each packet.
pub open spec fn packets_of(log: Seq<Content>) -> Seq<PacketView> {
    log.map_values(|c: Content| c.packet())
}

/// What a trace writer has done so far.
#[verifier::ext_equal]
pub struct WriterView {
    /// Event names, by event ID.
    pub event_names: Seq<Seq<char>>,
    /// The identifier of the next track.
    pub next_uuid: u64,
    /// Process tracks, by thread group ID.
    pub processes: Map<u32, u64>,
    /// Thread tracks, by thread ID.
    pub threads: Map<u32, u64>,
    /// Counter tracks, by thread ID and event ID.
    pub counters: Map<(u32, u32), u64>,
    /// The packets handed to the encoder, in order.
    pub log: Seq<Content>,
    /// The points written, in order.
    pub samples: Seq<RatePoint>,
}

impl WriterView {
    /// A writer that has written nothing.
    pub open spec fn fresh(event_names: Seq<Seq<char>>) -> WriterView {
        WriterView {
            event_names,
            next_uuid: THREAD_UUID_BASE,
            processes: Map::empty(),
            threads: Map::empty(),
            counters: Map::empty(),
            log: Seq::empty(),
            samples: Seq::empty(),
        }
    }

    /// The name of an event; `unknown` when there is none with that ID.
    pub open spec fn event_name(self, event_id: u32) -> Seq<char> {
        if event_id < self.event_names.len() {
            self.event_names[event_id as int]
        } else {
            "unknown"@
        }
    }

    /// The description of a process track.
    pub open spec fn process_track(uuid: u64, tgid: u32, name: Seq<char>) -> TrackView {
        TrackView { uuid, name, parent_uuid: None, kind: TrackKindView::Process { pid: tgid } }
    }

    /// The description of a thread track.
    pub open spec fn thread_track(
        uuid: u64,
        tgid: u32,
        tid: u32,
        task: Seq<char>,
        parent: u64,
    ) -> TrackView {
        TrackView {
            uuid,
            name: task,
            parent_uuid: Some(parent),
            kind: TrackKindView::Thread { pid: tgid, tid },
        }
    }

    /// The description of a counter track.
    pub open spec fn counter_track(self, uuid: u64, event_id: u32, parent: u64) -> TrackView {
        TrackView {
            uuid,
            name: self.event_name(event_id) + "/rate"@,
            parent_uuid: Some(parent),
            kind: TrackKindView::Counter { unit: Some("events/ns"@) },
        }
    }

    /// Whether a packet can be encoded.
    pub open spec fn encodes(content: Content) -> bool {
        packet::encoded_packet(content, SEQUENCE_ID) is Some
    }

    /// The writer once the process has a track, and that track; `None` when its description could
    /// not be encoded.
    pub open spec fn with_process(self, tgid: u32, name: Seq<char>) -> (WriterView, Option<u64>) {
        if self.processes.contains_key(tgid) {
            (self, Some(self.processes[tgid]))
        } else {
            let uuid = self.next_uuid;
            let content = Content::Track(Self::process_track(uuid, tgid, name));
            (
                WriterView {
                    next_uuid: (uuid + 1) as u64,
                    processes: self.processes.insert(tgid, uuid),
                    log: self.log.push(content),
                    ..self
                },
                if Self::encodes(content) {
                    Some(uuid)
                } else {
                    None
                },
            )
        }
    }

    /// The name given to the process of a thread: the thread's task name if it is the main
    /// thread, the decimal process ID otherwise.
    pub open spec fn process_name(tgid: u32, tid: u32, task: Seq<char>) -> Seq<char> {
        if tid == tgid {
            task
        } else {
            text::decimal(tgid as nat)
        }
    }

    /// The writer once the thread has a track, and that track.
    pub open spec fn with_thread(self, tgid: u32, tid: u32, task: Seq<char>) -> (
        WriterView,
        Option<u64>,
    ) {
        if self.threads.contains_key(tid) {
            (self, Some(self.threads[tid]))
        } else {
            let (w, parent) = self.with_process(tgid, Self::process_name(tgid, tid, task));
            match parent {
                None => (w, None),
                Some(parent) => {
                    let uuid = w.next_uuid;
                    let content = Content::Track(
                        Self::thread_track(uuid, tgid, tid, task, parent),
                    );
                    (
                        WriterView {
                            next_uuid: (uuid + 1) as u64,
                            threads: w.threads.insert(tid, uuid),
                            log: w.log.push(content),
                            ..w
                        },
                        if Self::encodes(content) {
                            Some(uuid)
                        } else {
                            None
                        },
                    )
                },
            }
        }
    }

    /// The writer once the event has a counter track on the thread, and that track.
    pub open spec fn with_counter(self, tid: u32, event_id: u32, thread_uuid: u64) -> (
        WriterView,
        Option<u64>,
    ) {
        if self.counters.contains_key((tid, event_id)) {
            (self, Some(self.counters[(tid, event_id)]))
        } else {
            let uuid = self.next_uuid;
            let content = Content::Track(self.counter_track(uuid, event_id, thread_uuid));
            (
                WriterView {
                    next_uuid: (uuid + 1) as u64,
                    counters: self.counters.insert((tid, event_id), uuid),
                    log: self.log.push(content),
                    ..self
                },
                if Self::encodes(content) {
                    Some(uuid)
                } else {
                    None
                },
            )
        }
    }

    /// The writer once a point is written, its tracks being described first where they are new;
    /// and whether every packet could be encoded. A point of an unknown thread is passed over.
    pub open spec fn with_point(self, point: RatePoint, meta: Map<u32, ThreadInfo>) -> (
        WriterView,
        bool,
    ) {
        if !meta.contains_key(point.tid) {
            (self, true)
        } else {
            let info = meta[point.tid];
            let (w1, thread) = self.with_thread(info.tgid, point.tid, info.task@);
            if thread is None {
                (w1, false)
            } else {
                let (w2, counter) = w1.with_counter(point.tid, point.event_id, thread->0);
                if counter is None {
                    (w2, false)
                } else {
                    let content = Content::Value(
                        CounterValue {
                            timestamp_ns: point.timestamp_ns,
                            track_uuid: counter->0,
                            value: point.rate,
                        },
                    );
                    (
                        WriterView {
                            log: w2.log.push(content),
                            samples: w2.samples.push(point),
                            ..w2
                        },
                        Self::encodes(content),
                    )
                }
            }
        }
    }

    /// The writer once a list of points is written in order, stopping at the first packet that
    /// cannot be encoded; and whether there was none such.
    pub open spec fn with_points(self, points: Seq<RatePoint>, meta: Map<u32, ThreadInfo>) -> (
        WriterView,
        bool,
    )
        decreases points.len(),
    {
        if points.len() == 0 {
            (self, true)
        } else {
            let (w, fine) = self.with_points(points.drop_last(), meta);
            if fine {
                w.with_point(points.last(), meta)
            } else {
                (w, false)
            }
        }
    }
}

/// Whether a packet describes the track `uuid`.
pub open spec fn is_track(content: Content, uuid: u64) -> bool {
    content matches Content::Track(track) && track.uuid == uuid
}

impl WriterView {
    /// Whether the `i`-th packet describes the track of process `tgid`.
    pub open spec fn process_at(self, i: int, tgid: u32) -> bool {
        &&& 0 <= i < self.log.len()
        &&& self.log[i] matches Content::Track(track) && track.uuid == self.processes[tgid]
            && track.parent_uuid is None && track.kind == (TrackKindView::Process { pid: tgid })
    }

    /// Whether the `i`-th packet describes the track of thread `tid`.
    pub open spec fn thread_at(self, i: int, tid: u32) -> bool {
        &&& 0 <= i < self.log.len()
        &&& self.log[i] matches Content::Track(track) && track.uuid == self.threads[tid] && (
        track.kind matches TrackKindView::Thread { pid, tid: own } && own == tid
            && self.processes.contains_key(pid) && track.parent_uuid == Some(self.processes[pid]))
    }

    /// Whether the `i`-th packet describes the counter track of an event on a thread.
    pub open spec fn counter_at(self, i: int, key: (u32, u32)) -> bool {
        &&& 0 <= i < self.log.len()
        &&& self.threads.contains_key(key.0)
        &&& self.log[i] == Content::Track(
            self.counter_track(self.counters[key], key.1, self.threads[key.0]),
        )
    }

    /// The value packet of a point.
    pub open spec fn value_of(self, point: RatePoint) -> CounterValue {
        CounterValue {
            timestamp_ns: point.timestamp_ns,
            track_uuid: self.counters[(point.tid, point.event_id)],
            value: point.rate,
        }
    }

    /// What holds of every trace writer: tracks have ascending identifiers, so no two share one;
    /// every process, thread and counter track has been described, each below its parent and
    /// after it; and the value packets are those of the points written, each on the track of its
    /// thread and event.
    pub open spec fn consistent(self) -> bool {
        &&& forall|i: int|
            0 <= i < self.log.len() && self.log[i] is Track ==> THREAD_UUID_BASE <= (
            #[trigger] self.log[i])->Track_0.uuid < self.next_uuid
        &&& forall|i: int, j: int|
            0 <= i < j < self.log.len() && self.log[i] is Track && self.log[j] is Track ==> (
            #[trigger] self.log[i])->Track_0.uuid < (#[trigger] self.log[j])->Track_0.uuid
        &&& forall|j: int|
            0 <= j < self.log.len() && self.log[j] is Track && (
            #[trigger] self.log[j])->Track_0.parent_uuid is Some ==> exists|i: int|
                0 <= i < j && is_track(
                    #[trigger] self.log[i],
                    self.log[j]->Track_0.parent_uuid->0,
                )
        &&& forall|j: int|
            0 <= j < self.log.len() && self.log[j] is Value ==> exists|i: int|
                0 <= i < j && is_track(
                    #[trigger] self.log[i],
                    (#[trigger] self.log[j])->Value_0.track_uuid,
                )
        &&& forall|tgid: u32| #[trigger]
            self.processes.contains_key(tgid) ==> exists|i: int| self.process_at(i, tgid)
        &&& forall|tid: u32| #[trigger]
            self.threads.contains_key(tid) ==> exists|i: int| self.thread_at(i, tid)
        &&& forall|key: (u32, u32)| #[trigger]
            self.counters.contains_key(key) ==> exists|i: int| self.counter_at(i, key)
        &&& forall|a: (u32, u32), b: (u32, u32)|
            self.counters.contains_key(a) && self.counters.contains_key(b) && a != b
                ==> #[trigger] self.counters[a] != #[trigger] self.counters[b]
        &&& forall|i: int|
            0 <= i < self.samples.len() ==> self.counters.contains_key(
                ((#[trigger] self.samples[i]).tid, self.samples[i].event_id),
            )
        &&& values_of(packets_of(self.log)) == self.samples.map_values(
            |p: RatePoint| self.value_of(p),
        )
    }
}

/// What is true of a writer stays true when it describes a new track below a described one.
proof fn lemma_describe(
    w: WriterView,
    next: WriterView,
    track: TrackView,
)
    requires
        w.consistent(),
        w.next_uuid < u64::MAX,
        track.uuid == w.next_uuid,
        next.next_uuid == w.next_uuid + 1,
        next.event_names == w.event_names,
        next.log == w.log.push(Content::Track(track)),
        next.samples == w.samples,
        w.processes.submap_of(next.processes),
        w.threads.submap_of(next.threads),
        w.counters.submap_of(next.counters),
        track.parent_uuid matches Some(p) ==> exists|i: int|
            0 <= i < w.log.len() && is_track(#[trigger] w.log[i], p),
        THREAD_UUID_BASE <= w.next_uuid,
        forall|tgid: u32| #[trigger]
            next.processes.contains_key(tgid) && !w.processes.contains_key(tgid)
                ==> next.process_at(w.log.len() as int, tgid),
        forall|tid: u32| #[trigger]
            next.threads.contains_key(tid) && !w.threads.contains_key(tid) ==> next.thread_at(
                w.log.len() as int,
                tid,
            ),
        forall|key: (u32, u32)| #[trigger]
            next.counters.contains_key(key) && !w.counters.contains_key(key) ==> next.counter_at(
                w.log.len() as int,
                key,
            ),
        forall|a: (u32, u32), b: (u32, u32)| #[trigger]
            next.counters.contains_key(a) && #[trigger] next.counters.contains_key(b)
                && !w.counters.contains_key(a) && !w.counters.contains_key(b) ==> a == b,
    ensures
        next.consistent(),
{
    let n = w.log.len() as int;
    assert forall|i: int| 0 <= i < n implies next.log[i] == w.log[i] by {}
    assert forall|j: int|
        0 <= j < next.log.len() && next.log[j] is Track && (
        #[trigger] next.log[j])->Track_0.parent_uuid is Some implies exists|i: int|
        0 <= i < j && is_track(#[trigger] next.log[i], next.log[j]->Track_0.parent_uuid->0) by {
        if j < n {
            assert(w.log[j] is Track);
            let i = choose|i: int|
                0 <= i < j && is_track(#[trigger] w.log[i], w.log[j]->Track_0.parent_uuid->0);
            assert(is_track(next.log[i], next.log[j]->Track_0.parent_uuid->0));
        } else {
            let i = choose|i: int|
                0 <= i < w.log.len() && is_track(#[trigger] w.log[i], track.parent_uuid->0);
            assert(is_track(next.log[i], next.log[j]->Track_0.parent_uuid->0));
        }
    }
    assert forall|j: int| 0 <= j < next.log.len() && next.log[j] is Value implies exists|i: int|
        0 <= i < j && is_track(
            #[trigger] next.log[i],
            (#[trigger] next.log[j])->Value_0.track_uuid,
        ) by {
        assert(w.log[j] is Value);
        let i = choose|i: int|
            0 <= i < j && is_track(#[trigger] w.log[i], w.log[j]->Value_0.track_uuid);
        assert(is_track(next.log[i], next.log[j]->Value_0.track_uuid));
    }
    assert forall|tgid: u32| #[trigger] next.processes.contains_key(tgid) implies exists|i: int|
        next.process_at(i, tgid) by {
        if w.processes.contains_key(tgid) {
            let i = choose|i: int| w.process_at(i, tgid);
            assert(next.process_at(i, tgid));
        }
    }
    assert forall|tid: u32| #[trigger] next.threads.contains_key(tid) implies exists|i: int|
        next.thread_at(i, tid) by {
        if w.threads.contains_key(tid) {
            let i = choose|i: int| w.thread_at(i, tid);
            assert(next.threads.dom().contains(tid));
            match w.log[i]->Track_0.kind {
                TrackKindView::Thread { pid, tid: _ } => {
                    assert(next.processes.dom().contains(pid));
                },
                _ => {},
            }
            assert(next.thread_at(i, tid));
        }
    }
    assert forall|key: (u32, u32)| #[trigger] next.counters.contains_key(key) implies exists|i: int|
        next.counter_at(i, key) by {
        if w.counters.contains_key(key) {
            let i = choose|i: int| w.counter_at(i, key);
            assert(next.threads.dom().contains(key.0));
            assert(next.counters.dom().contains(key));
            assert(next.counter_at(i, key));
        }
    }
    assert forall|a: (u32, u32), b: (u32, u32)|
        next.counters.contains_key(a) && next.counters.contains_key(b) && a
            != b implies #[trigger] next.counters[a] != #[trigger] next.counters[b] by {
        if w.counters.contains_key(a) {
            assert(next.counters.dom().contains(a));
            let i = choose|i: int| w.counter_at(i, a);
            assert(w.log[i]->Track_0.uuid < w.next_uuid);
        }
        if w.counters.contains_key(b) {
            assert(next.counters.dom().contains(b));
            let i = choose|i: int| w.counter_at(i, b);
            assert(w.log[i]->Track_0.uuid < w.next_uuid);
        }
        if w.counters.contains_key(a) && w.counters.contains_key(b) {
            assert(w.counters[a] != w.counters[b]);
        }
    }
    assert(packets_of(next.log).drop_last() =~= packets_of(w.log));
    assert(packets_of(next.log).last() == track.packet());
    assert(next.samples.map_values(|p: RatePoint| next.value_of(p)) =~= w.samples.map_values(
        |p: RatePoint| w.value_of(p),
    )) by {
        assert forall|i: int| 0 <= i < w.samples.len() implies next.value_of(w.samples[i])
            == w.value_of(w.samples[i]) by {
            assert(w.counters.contains_key((w.samples[i].tid, w.samples[i].event_id)));
            assert(next.counters.dom().contains((w.samples[i].tid, w.samples[i].event_id)));
        }
    }
}

proof fn lemma_with_process(w: WriterView, tgid: u32, name: Seq<char>)
    requires
        w.consistent(),
        THREAD_UUID_BASE <= w.next_uuid < u64::MAX,
    ensures
        w.with_process(tgid, name).0.consistent(),
        w.next_uuid <= w.with_process(tgid, name).0.next_uuid <= w.next_uuid + 1,
        w.with_process(tgid, name).0.processes.contains_key(tgid),
        w.with_process(tgid, name).1 matches Some(u) ==> u == w.with_process(
            tgid,
            name,
        ).0.processes[tgid],
{
    if !w.processes.contains_key(tgid) {
        let next = w.with_process(tgid, name).0;
        let track = WriterView::process_track(w.next_uuid, tgid, name);
        lemma_describe(w, next, track);
    }
}

proof fn lemma_with_thread(w: WriterView, tgid: u32, tid: u32, task: Seq<char>)
    requires
        w.consistent(),
        THREAD_UUID_BASE <= w.next_uuid <= u64::MAX - 2,
    ensures
        w.with_thread(tgid, tid, task).0.consistent(),
        w.next_uuid <= w.with_thread(tgid, tid, task).0.next_uuid <= w.next_uuid + 2,
        w.with_thread(tgid, tid, task).1 matches Some(u) ==> w.with_thread(
            tgid,
            tid,
            task,
        ).0.threads.contains_key(tid) && u == w.with_thread(tgid, tid, task).0.threads[tid],
{
    if !w.threads.contains_key(tid) {
        let name = WriterView::process_name(tgid, tid, task);
        lemma_with_process(w, tgid, name);
        let (mid, parent) = w.with_process(tgid, name);
        if let Some(parent) = parent {
            let next = w.with_thread(tgid, tid, task).0;
            let i = choose|i: int| mid.process_at(i, tgid);
            assert(is_track(mid.log[i], parent));
            let track = WriterView::thread_track(mid.next_uuid, tgid, tid, task, parent);
            lemma_describe(mid, next, track);
        }
    }
}

proof fn lemma_with_counter(w: WriterView, tid: u32, event_id: u32)
    requires
        w.consistent(),
        w.threads.contains_key(tid),
        THREAD_UUID_BASE <= w.next_uuid < u64::MAX,
    ensures
        w.with_counter(tid, event_id, w.threads[tid]).0.consistent(),
        w.next_uuid <= w.with_counter(tid, event_id, w.threads[tid]).0.next_uuid <= w.next_uuid + 1,
        w.with_counter(tid, event_id, w.threads[tid]).1 matches Some(u) ==> w.with_counter(
            tid,
            event_id,
            w.threads[tid],
        ).0.counters.contains_key((tid, event_id)) && u == w.with_counter(
            tid,
            event_id,
            w.threads[tid],
        ).0.counters[(tid, event_id)],
{
    if !w.counters.contains_key((tid, event_id)) {
        let next = w.with_counter(tid, event_id, w.threads[tid]).0;
        let i = choose|i: int| w.thread_at(i, tid);
        assert(is_track(w.log[i], w.threads[tid]));
        let track = w.counter_track(w.next_uuid, event_id, w.threads[tid]);
        assert(next.counter_at(w.log.len() as int, (tid, event_id)));
        lemma_describe(w, next, track);
    }
}

/// Writing a point keeps a writer consistent and uses at most three new identifiers.
pub proof fn lemma_with_point(w: WriterView, point: RatePoint, meta: Map<u32, ThreadInfo>)
    requires
        w.consistent(),
        THREAD_UUID_BASE <= w.next_uuid <= u64::MAX - 3,
    ensures
        w.with_point(point, meta).0.consistent(),
        w.next_uuid <= w.with_point(point, meta).0.next_uuid <= w.next_uuid + 3,
{
    if meta.contains_key(point.tid) {
        let info = meta[point.tid];
        lemma_with_thread(w, info.tgid, point.tid, info.task@);
        let (w1, thread) = w.with_thread(info.tgid, point.tid, info.task@);
        if thread is Some {
            lemma_with_counter(w1, point.tid, point.event_id);
            let (w2, counter) = w1.with_counter(point.tid, point.event_id, thread->0);
            if counter is Some {
                let next = w.with_point(point, meta).0;
                let value = w2.value_of(point);
                lemma_value(w2, next, point);
            }
        }
    }
}

proof fn lemma_value(w: WriterView, next: WriterView, point: RatePoint)
    requires
        w.consistent(),
        w.counters.contains_key((point.tid, point.event_id)),
        next == (WriterView {
            log: w.log.push(Content::Value(w.value_of(point))),
            samples: w.samples.push(point),
            ..w
        }),
    ensures
        next.consistent(),
{
    let n = w.log.len() as int;
    let key = (point.tid, point.event_id);
    assert forall|i: int| 0 <= i < n implies next.log[i] == w.log[i] by {}
    assert forall|j: int|
        0 <= j < next.log.len() && next.log[j] is Track && (
        #[trigger] next.log[j])->Track_0.parent_uuid is Some implies exists|i: int|
        0 <= i < j && is_track(#[trigger] next.log[i], next.log[j]->Track_0.parent_uuid->0) by {
        assert(w.log[j] is Track);
        let i = choose|i: int|
            0 <= i < j && is_track(#[trigger] w.log[i], w.log[j]->Track_0.parent_uuid->0);
        assert(is_track(next.log[i], next.log[j]->Track_0.parent_uuid->0));
    }
    assert forall|j: int| 0 <= j < next.log.len() && next.log[j] is Value implies exists|i: int|
        0 <= i < j && is_track(
            #[trigger] next.log[i],
            (#[trigger] next.log[j])->Value_0.track_uuid,
        ) by {
        if j < n {
            assert(w.log[j] is Value);
            let i = choose|i: int|
                0 <= i < j && is_track(#[trigger] w.log[i], w.log[j]->Value_0.track_uuid);
            assert(is_track(next.log[i], next.log[j]->Value_0.track_uuid));
        } else {
            let i = choose|i: int| w.counter_at(i, key);
            assert(is_track(next.log[i], next.log[j]->Value_0.track_uuid));
        }
    }
    assert forall|tgid: u32| #[trigger] next.processes.contains_key(tgid) implies exists|i: int|
        next.process_at(i, tgid) by {
        let i = choose|i: int| w.process_at(i, tgid);
        assert(next.process_at(i, tgid));
    }
    assert forall|tid: u32| #[trigger] next.threads.contains_key(tid) implies exists|i: int|
        next.thread_at(i, tid) by {
        let i = choose|i: int| w.thread_at(i, tid);
        assert(next.thread_at(i, tid));
    }
    assert forall|k: (u32, u32)| #[trigger] next.counters.contains_key(k) implies exists|i: int|
        next.counter_at(i, k) by {
        let i = choose|i: int| w.counter_at(i, k);
        assert(next.counter_at(i, k));
    }
    assert(packets_of(next.log).drop_last() =~= packets_of(w.log));
    assert(packets_of(next.log).last() == PacketView::Value(w.value_of(point)));
    assert(values_of(packets_of(next.log)) =~= next.samples.map_values(
        |p: RatePoint| next.value_of(p),
    ));
}

/// Writing points keeps a writer consistent.
pub proof fn lemma_with_points(w: WriterView, points: Seq<RatePoint>, meta: Map<u32, ThreadInfo>)
    requires
        w.consistent(),
        THREAD_UUID_BASE <= w.next_uuid <= u64::MAX - 3 * points.len(),
    ensures
        w.with_points(points, meta).0.consistent(),
        w.next_uuid <= w.with_points(points, meta).0.next_uuid <= w.next_uuid + 3 * points.len(),
    decreases points.len(),
{
    if points.len() > 0 {
        lemma_with_points(w, points.drop_last(), meta);
        let (mid, fine) = w.with_points(points.drop_last(), meta);
        if fine {
            lemma_with_point(mid, points.last(), meta);
        }
    }
}

/// Whether the bytes of every packet that was encoded fit a container, and decoding gives back
/// every portable one.
pub open spec fn faithful(log: Seq<Content>) -> bool {
    forall|i: int|
        0 <= i < log.len() && WriterView::encodes(#[trigger] log[i]) ==> {
            let bytes = packet::encoded_packet(log[i], SEQUENCE_ID)->0;
            bytes.len() <= u64::MAX && (log[i].portable() ==> packet::decoded_packet(bytes) == Some(
                log[i].packet(),
            ))
        }
}

/// The key under which the counter track of an event on a thread is kept.
pub open spec fn pair_key(key: (u32, u32)) -> u64 {
    (key.0 * 0x1_0000_0000 + key.1) as u64
}

/// The current rate of an event on a thread.
#[derive(Clone, Copy)]
pub struct RateEstimate {
    /// The thread.
    pub tid: u32,
    /// The event.
    pub event_id: u32,
    /// Bit pattern of the rate.
    pub rate: u64,
}

/// The estimates as points at one time.
pub open spec fn points_at(timestamp_ns: u64, estimates: Seq<RateEstimate>) -> Seq<RatePoint> {
    estimates.map_values(
        |e: RateEstimate|
            RatePoint { timestamp_ns, tid: e.tid, event_id: e.event_id, rate: e.rate },
    )
}

/// A time-series of rates of one event on one thread.
pub struct RawSeries {
    /// The event.
    pub event_id: u32,
    /// The thread.
    pub tid: u32,
    /// `(timestamp_ns, rate bits)` samples.
    pub points: Vec<(u64, u64)>,
}

impl RawSeries {
    /// The series as points.
    pub open spec fn rate_points(self) -> Seq<RatePoint> {
        self.points@.map_values(
            |p: (u64, u64)|
                RatePoint {
                    timestamp_ns: p.0,
                    tid: self.tid,
                    event_id: self.event_id,
                    rate: p.1,
                },
        )
    }
}

/// All points of several series, one series after the other.
pub open spec fn all_points(series: Seq<RawSeries>) -> Seq<RatePoint>
    decreases series.len(),
{
    if series.len() == 0 {
        Seq::empty()
    } else {
        all_points(series.drop_last()) + series.last().rate_points()
    }
}

/// Sort keys of points: their timestamps.
pub open spec fn time_keys(points: Seq<RatePoint>) -> Seq<Key> {
    points.map_values(|p: RatePoint| (p.timestamp_ns, 0u64))
}

/// Points in order of time; points of one time stay in the order given.
pub open spec fn in_time_order(points: Seq<RatePoint>) -> Seq<RatePoint> {
    order::arranged(points, time_keys(points))
}

/// Writes a Perfetto trace with one rate counter track per thread and event.
///
/// The bytes written form a valid `.perfetto-trace`: a sequence of length-prefixed packets. They
/// gather in the writer until [`PerfettoWriter::take_bytes`] hands them out.
pub struct PerfettoWriter {
    pending: Vec<u8>,
    event_names: Vec<String>,
    next_thread_uuid: u64,
    process_uuids: HashMap<u32, u64>,
    thread_uuids: HashMap<u32, u64>,
    thread_counter_uuids: HashMap<u64, u64>,
    taken: Ghost<Seq<u8>>,
    log: Ghost<Seq<Content>>,
    samples: Ghost<Seq<RatePoint>>,
}

impl View for PerfettoWriter {
    type V = WriterView;

    closed spec fn view(&self) -> WriterView {
        WriterView {
            event_names: self.event_names@.map_values(|s: String| s@),
            next_uuid: self.next_thread_uuid,
            processes: self.process_uuids@,
            threads: self.thread_uuids@,
            counters: Map::new(
                |key: (u32, u32)| self.thread_counter_uuids@.contains_key(pair_key(key)),
                |key: (u32, u32)| self.thread_counter_uuids@[pair_key(key)],
            ),
            log: self.log@,
            samples: self.samples@,
        }
    }
}

impl PerfettoWriter {
    /// The bytes handed out so far.
    pub closed spec fn handed_out(&self) -> Seq<u8> {
        self.taken@
    }

    /// The bytes not handed out yet.
    pub closed spec fn pending_bytes(&self) -> Seq<u8> {
        self.pending@
    }

    /// All bytes written so far, handed out or not.
    pub open spec fn bytes(&self) -> Seq<u8> {
        self.handed_out() + self.pending_bytes()
    }

    spec fn framed(&self) -> bool {
        &&& self.bytes() == stream(self@.log)
        &&& faithful(self@.log)
        &&& THREAD_UUID_BASE <= self@.next_uuid
    }

    /// Validity: the bytes are those of the packets written, and the packets make sense.
    pub closed spec fn wf(&self) -> bool {
        self.framed() && self@.consistent()
    }

    /// What validity says of the bytes and the packets.
    pub proof fn lemma_wf(&self)
        requires
            self.wf(),
        ensures
            self.handed_out() + self.pending_bytes() == stream(self@.log),
            faithful(self@.log),
            self@.consistent(),
    {
    }

    /// Nothing is lost between writing and handing out: the bytes handed out followed by those
    /// still pending are read as the packets written, in order.
    pub proof fn bytes_read_back(&self)
        requires
            self.wf(),
            forall|i: int|
                0 <= i < self@.log.len() ==> WriterView::encodes(#[trigger] self@.log[i]),
            forall|i: int| 0 <= i < self@.log.len() ==> (#[trigger] self@.log[i]).portable(),
        ensures
            trace_packets(self.handed_out() + self.pending_bytes(), 0) == Ok::<
                Seq<PacketView>,
                TraceFault,
            >(packets_of(self@.log)),
    {
        stream_reads_back(self@.log);
    }

    /// A writer that labels counter tracks with `event_names`.
    pub fn new(event_names: Vec<String>) -> (r: Self)
        ensures
            r.wf(),
            r@ == WriterView::fresh(event_names@.map_values(|s: String| s@)),
            r.handed_out() == Seq::<u8>::empty(),
            r.pending_bytes() == Seq::<u8>::empty(),
    {
        let r = PerfettoWriter {
            pending: Vec::new(),
            event_names,
            next_thread_uuid: THREAD_UUID_BASE,
            process_uuids: HashMap::new(),
            thread_uuids: HashMap::new(),
            thread_counter_uuids: HashMap::new(),
            taken: Ghost(Seq::empty()),
            log: Ghost(Seq::empty()),
            samples: Ghost(Seq::empty()),
        };
        assert(r@ =~= WriterView::fresh(event_names@.map_values(|s: String| s@)));
        assert(r.bytes() =~= Seq::<u8>::empty());
        assert(values_of(packets_of(r@.log)) =~= r@.samples.map_values(
            |p: RatePoint| r@.value_of(p),
        ));
        r
    }

    /// Appends a packet to the trace, or only notes that it could not be encoded.
    fn write_trace_packet(
        &mut self,
        encoded: Result<Vec<u8>, protobuf::Error>,
        content: Ghost<Content>,
    ) -> (r: Result<(), protobuf::Error>)
        requires
            old(self).framed(),
            match encoded {
                Ok(bytes) => packet::encoded_packet(content@, SEQUENCE_ID) == Some(bytes@) && (
                content@.portable() ==> packet::decoded_packet(bytes@) == Some(content@.packet())),
                Err(_) => packet::encoded_packet(content@, SEQUENCE_ID) is None,
            },
        ensures
            final(self).framed(),
            final(self).handed_out() == old(self).handed_out(),
            final(self)@ == (WriterView { log: old(self)@.log.push(content@), ..old(self)@ }),
            r is Ok <==> WriterView::encodes(content@),
    {
        let ghost before = self.log@;
        proof {
            self.log@ = self.log@.push(content@);
            assert(self.log@.drop_last() =~= before);
        }
        let r = match encoded {
            Ok(bytes) => {
                assert(bytes@.len() == bytes.len());
                write_frame(&mut self.pending, &bytes);
                Ok(())
            },
            Err(e) => Err(e),
        };
        assert(self.bytes() =~= stream(self.log@));
        assert(faithful(self@.log)) by {
            assert forall|i: int|
                0 <= i < self@.log.len() && WriterView::encodes(
                    #[trigger] self@.log[i],
                ) implies {
                let bytes = packet::encoded_packet(self@.log[i], SEQUENCE_ID)->0;
                bytes.len() <= u64::MAX && (self@.log[i].portable() ==> packet::decoded_packet(
                    bytes,
                ) == Some(self@.log[i].packet()))
            } by {
                if i < before.len() {
                    assert(self@.log[i] == before[i]);
                }
            }
        }
        assert(self@ =~= (WriterView { log: old(self)@.log.push(content@), ..old(self)@ }));
        r
    }
}

impl PerfettoWriter {
    /// The track of a process, described on first use.
    fn ensure_process_track(&mut self, tgid: u32, name: &str) -> (r: Result<u64, protobuf::Error>)
        requires
            old(self).framed(),
            old(self)@.next_uuid < u64::MAX,
        ensures
            final(self).framed(),
            final(self).handed_out() == old(self).handed_out(),
            final(self)@ == old(self)@.with_process(tgid, name@).0,
            match r {
                Ok(uuid) => old(self)@.with_process(tgid, name@).1 == Some(uuid),
                Err(_) => old(self)@.with_process(tgid, name@).1 is None,
            },
    {
        if let Some(uuid) = self.process_uuids.get(&tgid) {
            return Ok(*uuid);
        }
        let uuid = self.next_thread_uuid;
        self.next_thread_uuid = uuid + 1;
        self.process_uuids.insert(tgid, uuid);
        let track = Track {
            uuid,
            name: owned(name),
            parent_uuid: None,
            kind: TrackKind::Process { pid: tgid },
        };
        assert(track@ == WriterView::process_track(uuid, tgid, name@));
        assert(self.framed());
        let written = self.write_trace_packet(
            encode_track(&track, SEQUENCE_ID),
            Ghost(Content::Track(track@)),
        );
        assert(self@ =~= old(self)@.with_process(tgid, name@).0);
        match written {
            Ok(()) => Ok(uuid),
            Err(e) => Err(e),
        }
    }

    /// The track of a thread, described on first use below that of its process.
    ///
    /// The process takes the task name only from its main thread; otherwise it is named by its
    /// number, so that it does not carry the name of an arbitrary worker thread.
    fn ensure_thread_track(&mut self, tgid: u32, tid: u32, task: &str) -> (r: Result<
        u64,
        protobuf::Error,
    >)
        requires
            old(self).framed(),
            old(self)@.next_uuid <= u64::MAX - 2,
        ensures
            final(self).framed(),
            final(self).handed_out() == old(self).handed_out(),
            final(self)@ == old(self)@.with_thread(tgid, tid, task@).0,
            match r {
                Ok(uuid) => old(self)@.with_thread(tgid, tid, task@).1 == Some(uuid),
                Err(_) => old(self)@.with_thread(tgid, tid, task@).1 is None,
            },
    {
        if let Some(uuid) = self.thread_uuids.get(&tid) {
            return Ok(*uuid);
        }
        let process_name = if tid == tgid {
            owned(task)
        } else {
            decimal_text(tgid as u64)
        };
        let process_uuid = match self.ensure_process_track(tgid, process_name.as_str()) {
            Ok(uuid) => uuid,
            Err(e) => {
                return Err(e);
            },
        };
        let uuid = self.next_thread_uuid;
        self.next_thread_uuid = uuid + 1;
        self.thread_uuids.insert(tid, uuid);
        let track = Track {
            uuid,
            name: owned(task),
            parent_uuid: Some(process_uuid),
            kind: TrackKind::Thread { pid: tgid, tid },
        };
        assert(track@ == WriterView::thread_track(uuid, tgid, tid, task@, process_uuid));
        assert(self.framed());
        let written = self.write_trace_packet(
            encode_track(&track, SEQUENCE_ID),
            Ghost(Content::Track(track@)),
        );
        assert(self@ =~= old(self)@.with_thread(tgid, tid, task@).0);
        match written {
            Ok(()) => Ok(uuid),
            Err(e) => Err(e),
        }
    }

    /// The rate counter track of an event on a thread, described on first use.
    fn ensure_thread_counter_tracks(&mut self, tid: u32, event_id: u32, thread_uuid: u64) -> (r:
        Result<u64, protobuf::Error>)
        requires
            old(self).framed(),
            old(self)@.next_uuid < u64::MAX,
        ensures
            final(self).framed(),
            final(self).handed_out() == old(self).handed_out(),
            final(self)@ == old(self)@.with_counter(tid, event_id, thread_uuid).0,
            match r {
                Ok(uuid) => old(self)@.with_counter(tid, event_id, thread_uuid).1 == Some(uuid),
                Err(_) => old(self)@.with_counter(tid, event_id, thread_uuid).1 is None,
            },
    {
        let key: u64 = tid as u64 * 0x1_0000_0000 + event_id as u64;
        assert(key == pair_key((tid, event_id)));
        if let Some(uuid) = self.thread_counter_uuids.get(&key) {
            return Ok(*uuid);
        }
        let uuid = self.next_thread_uuid;
        self.next_thread_uuid = uuid + 1;
        self.thread_counter_uuids.insert(key, uuid);
        assert(forall|other: (u32, u32)| #[trigger]
            pair_key(other) == key ==> other == (tid, event_id));
        let name = if (event_id as u64) < self.event_names.len() as u64 {
            joined(self.event_names[event_id as usize].as_str(), "/rate")
        } else {
            joined("unknown", "/rate")
        };
        let track = Track {
            uuid,
            name,
            parent_uuid: Some(thread_uuid),
            kind: TrackKind::Counter { unit: Some(owned("events/ns")) },
        };
        assert(track@ == old(self)@.counter_track(uuid, event_id, thread_uuid));
        assert(self.framed());
        let written = self.write_trace_packet(
            encode_track(&track, SEQUENCE_ID),
            Ghost(Content::Track(track@)),
        );
        assert(self@ =~= old(self)@.with_counter(tid, event_id, thread_uuid).0);
        match written {
            Ok(()) => Ok(uuid),
            Err(e) => Err(e),
        }
    }

    /// Writes one point, with the tracks it needs.
    fn write_point(&mut self, point: RatePoint, thread_meta: &HashMap<u32, ThreadInfo>) -> (r:
        Result<(), protobuf::Error>)
        requires
            old(self).wf(),
            old(self)@.next_uuid <= u64::MAX - 3,
        ensures
            final(self).wf(),
            final(self).handed_out() == old(self).handed_out(),
            final(self)@ == old(self)@.with_point(point, thread_meta@).0,
            r is Ok <==> old(self)@.with_point(point, thread_meta@).1,
    {
        proof {
            lemma_with_point(self@, point, thread_meta@);
        }
        let info = match thread_meta.get(&point.tid) {
            Some(info) => info,
            None => {
                return Ok(());
            },
        };
        proof {
            lemma_with_thread(self@, info.tgid, point.tid, info.task@);
        }
        let thread_uuid = match self.ensure_thread_track(
            info.tgid,
            point.tid,
            info.task.as_str(),
        ) {
            Ok(uuid) => uuid,
            Err(e) => {
                return Err(e);
            },
        };
        let counter = match self.ensure_thread_counter_tracks(
            point.tid,
            point.event_id,
            thread_uuid,
        ) {
            Ok(uuid) => uuid,
            Err(e) => {
                return Err(e);
            },
        };
        let value = CounterValue {
            timestamp_ns: point.timestamp_ns,
            track_uuid: counter,
            value: point.rate,
        };
        proof {
            self.samples@ = self.samples@.push(point);
        }
        assert(self.framed());
        let r = self.write_trace_packet(
            encode_value(value, SEQUENCE_ID),
            Ghost(Content::Value(value)),
        );
        assert(self@ =~= old(self)@.with_point(point, thread_meta@).0);
        r
    }

    fn write_points(&mut self, points: &Vec<RatePoint>, thread_meta: &HashMap<u32, ThreadInfo>) -> (
    r: Result<(), protobuf::Error>)
        requires
            old(self).wf(),
            old(self)@.next_uuid + 3 * points@.len() <= u64::MAX,
        ensures
            final(self).wf(),
            final(self).handed_out() == old(self).handed_out(),
            final(self)@ == old(self)@.with_points(points@, thread_meta@).0,
            r is Ok <==> old(self)@.with_points(points@, thread_meta@).1,
    {
        let mut i: usize = 0;
        while i < points.len()
            invariant
                i <= points@.len(),
                self.wf(),
                old(self).wf(),
                self.handed_out() == old(self).handed_out(),
                old(self)@.next_uuid + 3 * points@.len() <= u64::MAX,
                old(self)@.with_points(points@.take(i as int), thread_meta@) == (self@, true),
            decreases points@.len() - i,
        {
            assert(points@.take(i as int + 1).drop_last() =~= points@.take(i as int));
            proof {
                lemma_with_points(old(self)@, points@.take(i as int), thread_meta@);
            }
            let r = self.write_point(points[i], thread_meta);
            if let Err(e) = r {
                proof {
                    lemma_points_stop(old(self)@, points@, thread_meta@, i as int + 1);
                }
                return Err(e);
            }
            i = i + 1;
        }
        assert(points@.take(points@.len() as int) =~= points@);
        Ok(())
    }

    /// Emits one counter packet per estimate at the given time. `thread_meta` says of each thread
    /// what its process and task name are, so that the tracks can be described; an estimate of a
    /// thread that is not in it is skipped.
    pub fn emit_estimator_snapshot(
        &mut self,
        timestamp_ns: u64,
        estimates: &Vec<RateEstimate>,
        thread_meta: &HashMap<u32, ThreadInfo>,
    ) -> (r: Result<(), protobuf::Error>)
        requires
            old(self).wf(),
            old(self)@.next_uuid + 3 * estimates@.len() <= u64::MAX,
        ensures
            final(self).wf(),
            final(self).handed_out() == old(self).handed_out(),
            ({
                let points = points_at(timestamp_ns, estimates@);
                let (after, fine) = old(self)@.with_points(points, thread_meta@);
                final(self)@ == after && (r is Ok <==> fine)
            }),
    {
        let mut points: Vec<RatePoint> = Vec::new();
        let mut i: usize = 0;
        while i < estimates.len()
            invariant
                i <= estimates@.len(),
                points@ == points_at(timestamp_ns, estimates@.take(i as int)),
            decreases estimates@.len() - i,
        {
            let e = estimates[i];
            points.push(
                RatePoint { timestamp_ns, tid: e.tid, event_id: e.event_id, rate: e.rate },
            );
            i = i + 1;
            assert(points@ =~= points_at(timestamp_ns, estimates@.take(i as int)));
        }
        assert(estimates@.take(estimates@.len() as int) =~= estimates@);
        self.write_points(&points, thread_meta)
    }

    /// Writes collected time-series as counter packets in order of time, describing tracks by
    /// `thread_meta`.
    pub fn write_raw_series(
        &mut self,
        series: &Vec<RawSeries>,
        thread_meta: &HashMap<u32, ThreadInfo>,
    ) -> (r: Result<(), protobuf::Error>)
        requires
            old(self).wf(),
            old(self)@.next_uuid + 3 * all_points(series@).len() <= u64::MAX,
        ensures
            final(self).wf(),
            final(self).handed_out() == old(self).handed_out(),
            ({
                let points = in_time_order(all_points(series@));
                let (after, fine) = old(self)@.with_points(points, thread_meta@);
                final(self)@ == after && (r is Ok <==> fine)
            }),
    {
        let points = gather_points(series);
        let mut keys: Vec<Key> = Vec::new();
        let mut i: usize = 0;
        while i < points.len()
            invariant
                i <= points@.len(),
                keys@ == time_keys(points@.take(i as int)),
            decreases points@.len() - i,
        {
            keys.push((points[i].timestamp_ns, 0));
            i = i + 1;
            assert(keys@ =~= time_keys(points@.take(i as int)));
        }
        assert(points@.take(points@.len() as int) =~= points@);
        let order = sort_order(&keys);
        let mut sorted: Vec<RatePoint> = Vec::new();
        let mut j: usize = 0;
        while j < order.len()
            invariant
                j <= order@.len(),
                keys@ == time_keys(points@),
                order::is_order(order@, keys@),
                order@ == order::order_of(keys@),
                sorted@ == in_time_order(points@).take(j as int),
            decreases order@.len() - j,
        {
            sorted.push(points[order[j]]);
            j = j + 1;
            assert(sorted@ =~= in_time_order(points@).take(j as int));
        }
        assert(sorted@ =~= in_time_order(points@));
        self.write_points(&sorted, thread_meta)
    }

    /// Hands out the bytes that have gathered since the last call.
    pub fn take_bytes(&mut self) -> (r: Vec<u8>)
        requires
            old(self).wf(),
        ensures
            final(self).wf(),
            final(self)@ == old(self)@,
            r@ == old(self).pending_bytes(),
            final(self).handed_out() == old(self).handed_out() + r@,
            final(self).pending_bytes() == Seq::<u8>::empty(),
    {
        let mut r: Vec<u8> = Vec::new();
        std::mem::swap(&mut r, &mut self.pending);
        proof {
            self.taken@ = self.taken@ + r@;
        }
        assert(self.bytes() =~= old(self).bytes());
        r
    }
}

/// Once a packet could not be encoded, nothing further is written.
proof fn lemma_points_stop(
    w: WriterView,
    points: Seq<RatePoint>,
    meta: Map<u32, ThreadInfo>,
    n: int,
)
    requires
        0 <= n <= points.len(),
        !w.with_points(points.take(n), meta).1,
    ensures
        w.with_points(points, meta) == (w.with_points(points.take(n), meta).0, false),
    decreases points.len(),
{
    if n == points.len() {
        assert(points.take(n) =~= points);
    } else {
        assert(points.drop_last().take(n) =~= points.take(n));
        lemma_points_stop(w, points.drop_last(), meta, n);
    }
}

fn gather_points(series: &Vec<RawSeries>) -> (r: Vec<RatePoint>)
    ensures
        r@ == all_points(series@),
{
    let mut r: Vec<RatePoint> = Vec::new();
    let mut i: usize = 0;
    while i < series.len()
        invariant
            i <= series@.len(),
            r@ == all_points(series@.take(i as int)),
        decreases series@.len() - i,
    {
        let one = &series[i];
        let ghost before = r@;
        let mut j: usize = 0;
        while j < one.points.len()
            invariant
                j <= one.points@.len(),
                r@ == before + one.rate_points().take(j as int),
            decreases one.points@.len() - j,
        {
            let (timestamp_ns, rate) = one.points[j];
            r.push(RatePoint { timestamp_ns, tid: one.tid, event_id: one.event_id, rate });
            j = j + 1;
            assert(r@ =~= before + one.rate_points().take(j as int));
        }
        assert(one.rate_points().take(j as int) =~= one.rate_points());
        i = i + 1;
        assert(series@.take(i as int).drop_last() =~= series@.take(i - 1));
    }
    assert(series@.take(series@.len() as int) =~= series@);
    r
}

/// Reading what was written: the bytes of portable packets are read back as those packets.
pub proof fn stream_reads_back(log: Seq<Content>)
    requires
        faithful(log),
        forall|i: int| 0 <= i < log.len() ==> WriterView::encodes(#[trigger] log[i]),
        forall|i: int| 0 <= i < log.len() ==> (#[trigger] log[i]).portable(),
    ensures
        trace_packets(stream(log), 0) == Ok::<Seq<PacketView>, TraceFault>(packets_of(log)),
    decreases log.len(),
{
    if log.len() == 0 {
        assert(packets_of(log) =~= Seq::empty());
    } else {
        let front = log.drop_last();
        assert forall|i: int| 0 <= i < front.len() implies front[i] == log[i] by {}
        stream_reads_back(front);
        let last = log[log.len() - 1];
        let bytes = packet::encoded_packet(last, SEQUENCE_ID)->0;
        let frame = wire::frame(bytes);
        let base = stream(front).len();
        wire::frame_round_trip(bytes, Seq::empty());
        assert(frame + Seq::<u8>::empty() =~= frame);
        assert(frame.skip(frame.len() as int) =~= Seq::<u8>::empty());
        assert(trace_packets(Seq::<u8>::empty(), base + frame.len()) == Ok::<
            Seq<PacketView>,
            TraceFault,
        >(Seq::empty()));
        assert(seq![last.packet()] + Seq::<PacketView>::empty() =~= seq![last.packet()]);
        assert(trace_packets(frame, base) == Ok::<Seq<PacketView>, TraceFault>(
            seq![last.packet()],
        ));
        lemma_trace_append(stream(front), frame, 0);
        assert(packets_of(front) + seq![last.packet()] =~= packets_of(log));
    }
}

/// No two of the tracks that a writer has given out share an identifier, whether of processes,
/// threads or counters.
pub proof fn tracks_are_distinct(w: WriterView)
    requires
        w.consistent(),
    ensures
        forall|a: u32, b: u32|
            w.processes.contains_key(a) && w.processes.contains_key(b) && a != b
                ==> #[trigger] w.processes[a] != #[trigger] w.processes[b],
        forall|a: u32, b: u32|
            w.threads.contains_key(a) && w.threads.contains_key(b) && a != b
                ==> #[trigger] w.threads[a] != #[trigger] w.threads[b],
        forall|a: (u32, u32), b: (u32, u32)|
            w.counters.contains_key(a) && w.counters.contains_key(b) && a != b
                ==> #[trigger] w.counters[a] != #[trigger] w.counters[b],
        forall|a: u32, b: u32|
            w.processes.contains_key(a) && w.threads.contains_key(b)
                ==> #[trigger] w.processes[a] != #[trigger] w.threads[b],
        forall|a: u32, b: (u32, u32)|
            w.processes.contains_key(a) && w.counters.contains_key(b)
                ==> #[trigger] w.processes[a] != #[trigger] w.counters[b],
        forall|a: u32, b: (u32, u32)|
            w.threads.contains_key(a) && w.counters.contains_key(b)
                ==> #[trigger] w.threads[a] != #[trigger] w.counters[b],
{
    assert forall|i: int, j: int|
        0 <= i < w.log.len() && 0 <= j < w.log.len() && (#[trigger] w.log[i]) is Track && (
        #[trigger] w.log[j]) is Track && w.log[i]->Track_0.uuid == w.log[j]->Track_0.uuid implies i
        == j by {
        if i < j {
            assert(w.log[i]->Track_0.uuid < w.log[j]->Track_0.uuid);
        } else if j < i {
            assert(w.log[j]->Track_0.uuid < w.log[i]->Track_0.uuid);
        }
    }
    let pi = |a: u32| choose|i: int| w.process_at(i, a);
    let ti = |a: u32| choose|i: int| w.thread_at(i, a);
    let ci = |a: (u32, u32)| choose|i: int| w.counter_at(i, a);
    assert forall|a: u32| w.processes.contains_key(a) implies w.process_at(#[trigger] pi(a), a) by {}
    assert forall|a: u32| w.threads.contains_key(a) implies w.thread_at(#[trigger] ti(a), a) by {}
    assert forall|a: (u32, u32)| w.counters.contains_key(a) implies w.counter_at(
        #[trigger] ci(a),
        a,
    ) by {}
    assert forall|a: u32, b: u32|
        w.processes.contains_key(a) && w.processes.contains_key(b) && a
            != b implies #[trigger] w.processes[a] != #[trigger] w.processes[b] by {
        assert(w.process_at(pi(a), a) && w.process_at(pi(b), b));
    }
    assert forall|a: u32, b: u32|
        w.threads.contains_key(a) && w.threads.contains_key(b) && a
            != b implies #[trigger] w.threads[a] != #[trigger] w.threads[b] by {
        assert(w.thread_at(ti(a), a) && w.thread_at(ti(b), b));
    }
    assert forall|a: u32, b: u32|
        w.processes.contains_key(a) && w.threads.contains_key(
            b,
        ) implies #[trigger] w.processes[a] != #[trigger] w.threads[b] by {
        assert(w.process_at(pi(a), a) && w.thread_at(ti(b), b));
    }
    assert forall|a: u32, b: (u32, u32)|
        w.processes.contains_key(a) && w.counters.contains_key(
            b,
        ) implies #[trigger] w.processes[a] != #[trigger] w.counters[b] by {
        assert(w.process_at(pi(a), a) && w.counter_at(ci(b), b));
    }
    assert forall|a: u32, b: (u32, u32)|
        w.threads.contains_key(a) && w.counters.contains_key(
            b,
        ) implies #[trigger] w.threads[a] != #[trigger] w.counters[b] by {
        assert(w.thread_at(ti(a), a) && w.counter_at(ci(b), b));
    }
}

/// A track keeps its identifier for good: writing more points only adds tracks.
pub proof fn tracks_are_stable(w: WriterView, points: Seq<RatePoint>, meta: Map<u32, ThreadInfo>)
    ensures
        w.processes.submap_of(w.with_points(points, meta).0.processes),
        w.threads.submap_of(w.with_points(points, meta).0.threads),
        w.counters.submap_of(w.with_points(points, meta).0.counters),
        w.log.is_prefix_of(w.with_points(points, meta).0.log),
    decreases points.len(),
{
    if points.len() > 0 {
        tracks_are_stable(w, points.drop_last(), meta);
        let mid = w.with_points(points.drop_last(), meta).0;
        let next = w.with_points(points, meta).0;
        assert(mid.log.is_prefix_of(next.log));
        assert forall|k: u32| w.processes.dom().contains(k) implies #[trigger] next.processes.dom().contains(
        k) && next.processes[k] == w.processes[k] by {
            assert(mid.processes.dom().contains(k));
        }
        assert forall|k: u32| w.threads.dom().contains(k) implies #[trigger] next.threads.dom().contains(
        k) && next.threads[k] == w.threads[k] by {
            assert(mid.threads.dom().contains(k));
        }
        assert forall|k: (u32, u32)|
            w.counters.dom().contains(k) implies #[trigger] next.counters.dom().contains(k)
            && next.counters[k] == w.counters[k] by {
            assert(mid.counters.dom().contains(k));
        }
    }
}

/// The points whose thread is known, in order.
pub open spec fn known_points(points: Seq<RatePoint>, meta: Map<u32, ThreadInfo>) -> Seq<RatePoint>
    decreases points.len(),
{
    if points.len() == 0 {
        Seq::empty()
    } else {
        let rest = known_points(points.drop_last(), meta);
        if meta.contains_key(points.last().tid) {
            rest.push(points.last())
        } else {
            rest
        }
    }
}

/// Nothing else is lost: when every packet could be encoded, all points of known threads have
/// been written, in order.
pub proof fn known_points_are_written(
    w: WriterView,
    points: Seq<RatePoint>,
    meta: Map<u32, ThreadInfo>,
)
    requires
        w.with_points(points, meta).1,
    ensures
        w.with_points(points, meta).0.samples == w.samples + known_points(points, meta),
    decreases points.len(),
{
    if points.len() > 0 {
        known_points_are_written(w, points.drop_last(), meta);
    }
    assert(w.with_points(points, meta).0.samples =~= w.samples + known_points(points, meta));
}

/// Where writing points succeeds, every packet of the trace has been encoded.
pub proof fn success_means_encoded(
    w: WriterView,
    points: Seq<RatePoint>,
    meta: Map<u32, ThreadInfo>,
)
    requires
        w.with_points(points, meta).1,
        forall|i: int| 0 <= i < w.log.len() ==> WriterView::encodes(#[trigger] w.log[i]),
    ensures
        ({
            let log = w.with_points(points, meta).0.log;
            forall|i: int| 0 <= i < log.len() ==> WriterView::encodes(#[trigger] log[i])
        }),
        w.with_points(points, meta).0.event_names == w.event_names,
    decreases points.len(),
{
    if points.len() > 0 {
        success_means_encoded(w, points.drop_last(), meta);
    }
}

/// The points written are those of known threads, in order.
pub proof fn points_of_known_threads_are_kept(points: Seq<RatePoint>, meta: Map<u32, ThreadInfo>)
    ensures
        known_points(points, meta) == points.filter(|p: RatePoint| meta.contains_key(p.tid)),
    decreases points.len(),
{
    reveal(Seq::filter);
    if points.len() > 0 {
        points_of_known_threads_are_kept(points.drop_last(), meta);
    }
}

/// The counter values of a trace are those of its value packets, in order.
pub proof fn values_are_those_of_value_packets(packets: Seq<PacketView>)
    ensures
        values_of(packets) == packets.filter(|p: PacketView| p is Value).map_values(
            |p: PacketView| p->Value_0,
        ),
    decreases packets.len(),
{
    reveal(Seq::filter);
    let kept = packets.filter(|p: PacketView| p is Value);
    if packets.len() > 0 {
        values_are_those_of_value_packets(packets.drop_last());
    }
    assert(values_of(packets) =~= kept.map_values(|p: PacketView| p->Value_0));
}

/// The bytes of packets follow one another, each packet in a frame of its own.
pub proof fn streams_join(a: Seq<Content>, b: Seq<Content>)
    ensures
        stream(a + b) == stream(a) + stream(b),
        a.len() == 1 && packet::encoded_packet(a[0], SEQUENCE_ID) is Some ==> stream(a)
            == wire::frame(packet::encoded_packet(a[0], SEQUENCE_ID)->0),
    decreases b.len(),
{
    if a.len() == 1 {
        reveal_with_fuel(stream, 2);
        if let Some(bytes) = packet::encoded_packet(a[0], SEQUENCE_ID) {
            assert(stream(a) =~= wire::frame(bytes));
        }
    }
    if b.len() == 0 {
        assert(a + b =~= a);
        assert(stream(a) + stream(b) =~= stream(a));
    } else {
        streams_join(a, b.drop_last());
        assert((a + b).drop_last() =~= a + b.drop_last());
        assert((a + b).last() == b.last());
        assert(stream(a + b) =~= stream(a) + stream(b));
    }
}

/// A snapshot holds one point per estimate, in order, all at its time.
pub proof fn snapshots_hold_every_estimate(
    timestamp_ns: u64,
    estimates: Seq<RateEstimate>,
    i: int,
)
    requires
        0 <= i < estimates.len(),
    ensures
        ({
            let points = points_at(timestamp_ns, estimates);
            &&& points.len() == estimates.len()
            &&& points[i].timestamp_ns == timestamp_ns
            &&& points[i].tid == estimates[i].tid
            &&& points[i].event_id == estimates[i].event_id
            &&& points[i].rate == estimates[i].rate
        }),
{
}

/// Every sample of every series becomes a point, of its event and thread, at its time, with its
/// rate; series after series, and nothing else does. Returns where the points of a series begin.
pub proof fn series_become_points(series: Seq<RawSeries>, s: int) -> (at: int)
    requires
        0 <= s < series.len(),
    ensures
        all_points(series).len() == series.fold_left(
            0int,
            |n: int, one: RawSeries| n + one.points@.len(),
        ),
        at == series.take(s).fold_left(0int, |n: int, one: RawSeries| n + one.points@.len()),
        0 <= at,
        at + series[s].points@.len() <= all_points(series).len(),
        forall|k: int| #![trigger all_points(series)[at + k]]
            0 <= k < series[s].points@.len() ==> ({
                let p = all_points(series)[at + k];
                &&& p.event_id == series[s].event_id
                &&& p.tid == series[s].tid
                &&& p.timestamp_ns == series[s].points@[k].0
                &&& p.rate == series[s].points@[k].1
            }),
    decreases series.len(),
{
    let front = series.drop_last();
    lemma_all_points_len(series);
    lemma_all_points_len(front);
    let before = all_points(front);
    let all = all_points(series);
    if s == series.len() - 1 {
        assert(series.take(s) =~= front);
        let at = before.len() as int;
        assert forall|k: int| #![trigger all[at + k]] 0 <= k < series[s].points@.len() implies ({
            let p = all[at + k];
            &&& p.event_id == series[s].event_id
            &&& p.tid == series[s].tid
            &&& p.timestamp_ns == series[s].points@[k].0
            &&& p.rate == series[s].points@[k].1
        }) by {
            assert(all[at + k] == series[s].rate_points()[k]);
        }
        at
    } else {
        let at = series_become_points(front, s);
        assert(front.take(s) =~= series.take(s));
        assert forall|k: int| #![trigger all[at + k]] 0 <= k < series[s].points@.len() implies ({
            let p = all[at + k];
            &&& p.event_id == series[s].event_id
            &&& p.tid == series[s].tid
            &&& p.timestamp_ns == series[s].points@[k].0
            &&& p.rate == series[s].points@[k].1
        }) by {
            assert(all[at + k] == before[at + k]);
            assert(front[s] == series[s]);
        }
        at
    }
}

proof fn lemma_all_points_len(series: Seq<RawSeries>)
    ensures
        all_points(series).len() == series.fold_left(
            0int,
            |n: int, one: RawSeries| n + one.points@.len(),
        ),
    decreases series.len(),
{
    if series.len() > 0 {
        lemma_all_points_len(series.drop_last());
    }
}

/// Points in order of time are the points given, the earlier before the later, and those of one
/// time in the order given.
pub proof fn time_order_is_stable(points: Seq<RatePoint>, i: int, j: int) -> (at: (int, int))
    requires
        points.len() <= usize::MAX,
        0 <= i < j < points.len(),
    ensures
        in_time_order(points).len() == points.len(),
        in_time_order(points).to_multiset() == points.to_multiset(),
        0 <= at.0 < points.len(),
        0 <= at.1 < points.len(),
        in_time_order(points)[i] == points[at.0],
        in_time_order(points)[j] == points[at.1],
        points[at.0].timestamp_ns <= points[at.1].timestamp_ns,
        points[at.0].timestamp_ns == points[at.1].timestamp_ns ==> at.0 < at.1,
{
    let keys = time_keys(points);
    order::arranging_keeps_items(points, keys);
    order::arranging_sorts_by_key(points, keys, i, j);
    (order::order_of(keys)[i] as int, order::order_of(keys)[j] as int)
}

/// Writing a point of a known thread adds its value, and before it the description of every track
/// that is new: of the process, named after its main thread if that is the one met and after its
/// number otherwise; of the thread, below its process, with its task name; and of the counter,
/// below the thread, with the name of the event. A point of an unknown thread adds nothing.
pub proof fn points_are_written_below_their_tracks(
    w: WriterView,
    point: RatePoint,
    meta: Map<u32, ThreadInfo>,
)
    requires
        w.with_point(point, meta).1,
        w.next_uuid <= u64::MAX - 3,
    ensures
        !meta.contains_key(point.tid) ==> w.with_point(point, meta).0 == w,
        meta.contains_key(point.tid) ==> ({
            let info = meta[point.tid];
            let after = w.with_point(point, meta).0;
            let new_thread = !w.threads.contains_key(point.tid);
            let new_process = new_thread && !w.processes.contains_key(info.tgid);
            let new_counter = !w.counters.contains_key((point.tid, point.event_id));
            let process = if new_process {
                w.next_uuid
            } else {
                w.processes[info.tgid]
            };
            let thread = if !new_thread {
                w.threads[point.tid]
            } else if new_process {
                (w.next_uuid + 1) as u64
            } else {
                w.next_uuid
            };
            let counter = if !new_counter {
                w.counters[(point.tid, point.event_id)]
            } else if new_process {
                (w.next_uuid + 2) as u64
            } else if new_thread {
                (w.next_uuid + 1) as u64
            } else {
                w.next_uuid
            };
            &&& after.samples == w.samples.push(point)
            &&& after.log == w.log + (if new_process {
                seq![
                    Content::Track(
                        TrackView {
                            uuid: process,
                            name: if point.tid == info.tgid {
                                info.task@
                            } else {
                                text::decimal(info.tgid as nat)
                            },
                            parent_uuid: None,
                            kind: TrackKindView::Process { pid: info.tgid },
                        },
                    ),
                ]
            } else {
                Seq::empty()
            }) + (if new_thread {
                seq![
                    Content::Track(
                        TrackView {
                            uuid: thread,
                            name: info.task@,
                            parent_uuid: Some(process),
                            kind: TrackKindView::Thread { pid: info.tgid, tid: point.tid },
                        },
                    ),
                ]
            } else {
                Seq::empty()
            }) + (if new_counter {
                seq![
                    Content::Track(
                        TrackView {
                            uuid: counter,
                            name: if point.event_id < w.event_names.len() {
                                w.event_names[point.event_id as int] + "/rate"@
                            } else {
                                "unknown"@ + "/rate"@
                            },
                            parent_uuid: Some(thread),
                            kind: TrackKindView::Counter { unit: Some("events/ns"@) },
                        },
                    ),
                ]
            } else {
                Seq::empty()
            }) + seq![
                Content::Value(
                    CounterValue {
                        timestamp_ns: point.timestamp_ns,
                        track_uuid: counter,
                        value: point.rate,
                    },
                ),
            ]
        }),
{
}

/// Points are written one after the other, as far as all can be encoded.
pub proof fn points_are_written_in_order(
    w: WriterView,
    a: Seq<RatePoint>,
    b: Seq<RatePoint>,
    meta: Map<u32, ThreadInfo>,
)
    ensures
        w.with_points(a, meta).1 ==> w.with_points(a + b, meta) == w.with_points(
            a,
            meta,
        ).0.with_points(b, meta),
        !w.with_points(a, meta).1 ==> w.with_points(a + b, meta) == w.with_points(a, meta),
        a.len() == 1 ==> w.with_points(a, meta) == w.with_point(a[0], meta),
    decreases b.len(),
{
    if a.len() == 1 {
        reveal_with_fuel(WriterView::with_points, 2);
    }
    if b.len() == 0 {
        assert(a + b =~= a);
    } else {
        points_are_written_in_order(w, a, b.drop_last(), meta);
        assert((a + b).drop_last() =~= a + b.drop_last());
    }
}

/// A byte other than the tag where a packet should begin is an error that names the byte and its
/// offset; so is a length that does not end, and a packet longer than what is left.
pub proof fn broken_traces_are_refused(data: Seq<u8>, base: nat)
    requires
        data.len() > 0,
    ensures
        data[0] != 0x0A ==> trace_packets(data, base) == Err::<Seq<PacketView>, TraceFault>(
            TraceFault::UnexpectedTag { byte: data[0], offset: base },
        ),
        data[0] == 0x0A && wire::varint_at(data.skip(1)) is None ==> trace_packets(data, base)
            == Err::<Seq<PacketView>, TraceFault>(TraceFault::TruncatedVarint),
        data[0] == 0x0A ==> (wire::varint_at(data.skip(1)) matches Some((len, used)) ==> 1 + used
            + len > data.len() ==> trace_packets(data, base) == Err::<Seq<PacketView>, TraceFault>(
            TraceFault::PacketBeyondEnd,
        )),
        data[0] == 0x0A ==> (wire::varint_at(data.skip(1)) matches Some((len, used)) ==> 1 + used
            + len <= data.len() && packet::decoded_packet(
            data.subrange(1 + used as int, 1 + used as int + len as int),
        ) is None ==> trace_packets(data, base) == Err::<Seq<PacketView>, TraceFault>(
            TraceFault::Malformed,
        )),
{
}

} // verus!
