//! Trace packets as plain values, and their protobuf encoding.

use perfetto_protos::counter_descriptor::CounterDescriptor;
use perfetto_protos::process_descriptor::ProcessDescriptor;
use perfetto_protos::thread_descriptor::ThreadDescriptor;
use perfetto_protos::trace_packet::TracePacket;
use perfetto_protos::track_descriptor::TrackDescriptor;
use perfetto_protos::track_event::track_event::Type;
use perfetto_protos::track_event::TrackEvent;
use protobuf::{CodedInputStream, Message, MessageField};
use vstd::prelude::*;
use vstd::utf8::*;

verus! {

/// The error type of the `protobuf` crate, carried through unopened.
#[verifier::external_type_specification]
#[verifier::external_body]
pub struct ExProtobufError(protobuf::Error);

/// What a track stands for.
pub enum TrackKind {
    /// A process, by its thread group ID.
    Process { pid: u32 },
    /// A thread of a process.
    Thread { pid: u32, tid: u32 },
    /// A counter, with the unit of its values if they have one.
    Counter { unit: Option<String> },
}

/// A track to be described in a trace.
pub struct Track {
    /// Identifier of the track.
    pub uuid: u64,
    /// Display name; also the process or thread name.
    pub name: String,
    /// The track this one hangs below, if any.
    pub parent_uuid: Option<u64>,
    /// What the track stands for.
    pub kind: TrackKind,
}

/// Model of [`TrackKind`].
#[verifier::ext_equal]
pub enum TrackKindView {
    Process { pid: u32 },
    Thread { pid: u32, tid: u32 },
    Counter { unit: Option<Seq<char>> },
}

/// Model of [`Track`].
#[verifier::ext_equal]
pub struct TrackView {
    pub uuid: u64,
    pub name: Seq<char>,
    pub parent_uuid: Option<u64>,
    pub kind: TrackKindView,
}

/// The model of a unit.
pub open spec fn unit_view(unit: Option<String>) -> Option<Seq<char>> {
    match unit {
        Some(unit) => Some(unit@),
        None => None,
    }
}

impl View for TrackKind {
    type V = TrackKindView;

    open spec fn view(&self) -> TrackKindView {
        match self {
            TrackKind::Process { pid } => TrackKindView::Process { pid: *pid },
            TrackKind::Thread { pid, tid } => TrackKindView::Thread { pid: *pid, tid: *tid },
            TrackKind::Counter { unit } => TrackKindView::Counter { unit: unit_view(*unit) },
        }
    }
}

impl View for Track {
    type V = TrackView;

    open spec fn view(&self) -> TrackView {
        TrackView {
            uuid: self.uuid,
            name: self.name@,
            parent_uuid: self.parent_uuid,
            kind: self.kind@,
        }
    }
}

/// One value of one counter track.
#[derive(Clone, Copy)]
pub struct CounterValue {
    /// When the value was taken, in nanoseconds.
    pub timestamp_ns: u64,
    /// The counter track it belongs to.
    pub track_uuid: u64,
    /// Bit pattern of the double-precision value.
    pub value: u64,
}

/// What a trace reader keeps of a packet.
pub enum Packet {
    /// A track description: its name, its thread ID if it is a thread track, and its parent.
    Track { uuid: u64, name: String, tid: Option<u32>, parent_uuid: Option<u64> },
    /// A value of a counter track.
    Value(CounterValue),
    /// Anything else.
    Other,
}

/// Model of [`Packet`].
#[verifier::ext_equal]
pub enum PacketView {
    Track { uuid: u64, name: Seq<char>, tid: Option<u32>, parent_uuid: Option<u64> },
    Value(CounterValue),
    Other,
}

impl View for Packet {
    type V = PacketView;

    open spec fn view(&self) -> PacketView {
        match self {
            Packet::Track { uuid, name, tid, parent_uuid } => PacketView::Track {
                uuid: *uuid,
                name: name@,
                tid: *tid,
                parent_uuid: *parent_uuid,
            },
            Packet::Value(v) => PacketView::Value(*v),
            Packet::Other => PacketView::Other,
        }
    }
}

impl TrackView {
    /// What a reader keeps of this track's description.
    pub open spec fn packet(self) -> PacketView {
        PacketView::Track {
            uuid: self.uuid,
            name: self.name,
            tid: match self.kind {
                TrackKindView::Thread { pid, tid } => Some(tid),
                _ => None,
            },
            parent_uuid: self.parent_uuid,
        }
    }
}

/// Whether a bit pattern is that of a number or an infinity, not of a NaN.
pub open spec fn not_nan(bits: u64) -> bool {
    bits % 0x8000_0000_0000_0000 <= 0x7FF0_0000_0000_0000
}

/// Whether a text takes at most 2^28 bytes.
pub open spec fn moderate(text: Seq<char>) -> bool {
    encode_utf8(text).len() <= 0x1000_0000
}

/// What a trace packet is made from.
#[verifier::ext_equal]
pub enum Content {
    Track(TrackView),
    Value(CounterValue),
}

impl Content {
    /// What a reader keeps of the packet.
    pub open spec fn packet(self) -> PacketView {
        match self {
            Content::Track(track) => track.packet(),
            Content::Value(value) => PacketView::Value(value),
        }
    }

    /// Packets that survive encoding unchanged: no text of more than 2^28 bytes, no NaN.
    pub open spec fn portable(self) -> bool {
        match self {
            Content::Track(track) => moderate(track.name) && match track.kind {
                TrackKindView::Counter { unit: Some(unit) } => moderate(unit),
                _ => true,
            },
            Content::Value(value) => not_nan(value.value),
        }
    }
}

/// What decoding a packet's bytes gives; `None` when the bytes are malformed.
pub uninterp spec fn decoded_packet(bytes: Seq<u8>) -> Option<PacketView>;

/// The bytes of a packet; `None` when encoding fails.
pub uninterp spec fn encoded_packet(content: Content, sequence_id: u32) -> Option<Seq<u8>>;

/// Calls `TracePacket::parse_from_bytes` and reads off the fields that a reader keeps. The
/// outcome is a function of the bytes alone.
#[verifier::external_body]
pub(crate) fn decode_packet(bytes: &[u8]) -> (r: Result<Packet, protobuf::Error>)
    ensures
        match r {
            Ok(p) => decoded_packet(bytes@) == Some(p@),
            Err(_) => decoded_packet(bytes@) is None,
        },
{
    let packet = TracePacket::parse_from_bytes(bytes)?;
    Ok(if packet.has_track_descriptor() {
        let desc = packet.track_descriptor();
        let (uuid, name) = (desc.uuid(), desc.name().to_string());
        let tid = desc.thread.as_ref().map(|t| t.tid() as u32);
        Packet::Track { uuid, name, tid, parent_uuid: desc.parent_uuid }
    } else if packet.has_track_event() {
        let (timestamp_ns, event) = (packet.timestamp(), packet.track_event());
        let value = event.double_counter_value().to_bits();
        Packet::Value(CounterValue { timestamp_ns, track_uuid: event.track_uuid(), value })
    } else {
        Packet::Other
    })
}

/// Calls `TracePacket::write_to_bytes` on the description of a process track. The outcome is a
/// function of the arguments alone, and decoding the bytes gives the packet back unless its name
/// is enormous.
#[verifier::external_body]
fn encode_process(
    uuid: u64,
    name: &String,
    parent_uuid: Option<u64>,
    pid: u32,
    sequence_id: u32,
) -> (r: Result<Vec<u8>, protobuf::Error>)
    ensures
        ({
            let content = Content::Track(
                TrackView { uuid, name: name@, parent_uuid, kind: TrackKindView::Process { pid } },
            );
            match r {
                Ok(bytes) => encoded_packet(content, sequence_id) == Some(bytes@) && (
                content.portable() ==> decoded_packet(bytes@) == Some(content.packet())),
                Err(_) => encoded_packet(content, sequence_id) is None,
            }
        }),
{
    let mut process = ProcessDescriptor::new();
    process.set_pid(pid as i32);
    process.set_process_name(name.clone());
    let mut desc = TrackDescriptor::new();
    desc.set_uuid(uuid);
    desc.set_name(name.clone());
    desc.parent_uuid = parent_uuid;
    desc.process = MessageField::some(process);
    let mut packet = TracePacket::new();
    packet.set_track_descriptor(desc);
    packet.set_trusted_packet_sequence_id(sequence_id);
    packet.write_to_bytes()
}

/// Calls `TracePacket::write_to_bytes` on the description of a thread track. The outcome is a
/// function of the arguments alone, and decoding the bytes gives the packet back unless its name
/// is enormous.
#[verifier::external_body]
fn encode_thread(
    uuid: u64,
    name: &String,
    parent_uuid: Option<u64>,
    pid: u32,
    tid: u32,
    sequence_id: u32,
) -> (r: Result<Vec<u8>, protobuf::Error>)
    ensures
        ({
            let content = Content::Track(
                TrackView { uuid, name: name@, parent_uuid, kind: TrackKindView::Thread { pid, tid } },
            );
            match r {
                Ok(bytes) => encoded_packet(content, sequence_id) == Some(bytes@) && (
                content.portable() ==> decoded_packet(bytes@) == Some(content.packet())),
                Err(_) => encoded_packet(content, sequence_id) is None,
            }
        }),
{
    let mut thread = ThreadDescriptor::new();
    thread.set_pid(pid as i32);
    thread.set_tid(tid as i32);
    thread.set_thread_name(name.clone());
    let mut desc = TrackDescriptor::new();
    desc.set_uuid(uuid);
    desc.set_name(name.clone());
    desc.parent_uuid = parent_uuid;
    desc.thread = MessageField::some(thread);
    let mut packet = TracePacket::new();
    packet.set_track_descriptor(desc);
    packet.set_trusted_packet_sequence_id(sequence_id);
    packet.write_to_bytes()
}

/// Calls `TracePacket::write_to_bytes` on the description of a counter track. The outcome is a
/// function of the arguments alone, and decoding the bytes gives the packet back unless its name
/// or unit is enormous.
#[verifier::external_body]
fn encode_counter(
    uuid: u64,
    name: &String,
    parent_uuid: Option<u64>,
    unit: &Option<String>,
    sequence_id: u32,
) -> (r: Result<Vec<u8>, protobuf::Error>)
    ensures
        ({
            let content = Content::Track(
                TrackView {
                    uuid,
                    name: name@,
                    parent_uuid,
                    kind: TrackKindView::Counter { unit: unit_view(*unit) },
                },
            );
            match r {
                Ok(bytes) => encoded_packet(content, sequence_id) == Some(bytes@) && (
                content.portable() ==> decoded_packet(bytes@) == Some(content.packet())),
                Err(_) => encoded_packet(content, sequence_id) is None,
            }
        }),
{
    let mut counter = CounterDescriptor::new();
    counter.unit_name = unit.clone();
    let mut desc = TrackDescriptor::new();
    desc.set_uuid(uuid);
    desc.set_name(name.clone());
    desc.parent_uuid = parent_uuid;
    desc.counter = MessageField::some(counter);
    let mut packet = TracePacket::new();
    packet.set_track_descriptor(desc);
    packet.set_trusted_packet_sequence_id(sequence_id);
    packet.write_to_bytes()
}

/// The bytes of the packet that describes `track`.
pub(crate) fn encode_track(track: &Track, sequence_id: u32) -> (r: Result<Vec<u8>, protobuf::Error>)
    ensures
        ({
            let content = Content::Track(track@);
            match r {
                Ok(bytes) => encoded_packet(content, sequence_id) == Some(bytes@) && (
                content.portable() ==> decoded_packet(bytes@) == Some(content.packet())),
                Err(_) => encoded_packet(content, sequence_id) is None,
            }
        }),
{
    match &track.kind {
        TrackKind::Process { pid } => encode_process(
            track.uuid,
            &track.name,
            track.parent_uuid,
            *pid,
            sequence_id,
        ),
        TrackKind::Thread { pid, tid } => encode_thread(
            track.uuid,
            &track.name,
            track.parent_uuid,
            *pid,
            *tid,
            sequence_id,
        ),
        TrackKind::Counter { unit } => encode_counter(
            track.uuid,
            &track.name,
            track.parent_uuid,
            unit,
            sequence_id,
        ),
    }
}

/// Calls `TracePacket::write_to_bytes` on a packet with a counter value. The outcome is a
/// function of the value and the sequence number alone, and decoding the bytes of a value that is
/// no NaN gives back that value.
#[verifier::external_body]
pub(crate) fn encode_value(value: CounterValue, sequence_id: u32) -> (r: Result<
    Vec<u8>,
    protobuf::Error,
>)
    ensures
        ({
            let content = Content::Value(value);
            match r {
                Ok(bytes) => encoded_packet(content, sequence_id) == Some(bytes@) && (
                content.portable() ==> decoded_packet(bytes@) == Some(content.packet())),
                Err(_) => encoded_packet(content, sequence_id) is None,
            }
        }),
{
    let mut event = TrackEvent::new();
    event.set_type(Type::TYPE_COUNTER);
    event.set_track_uuid(value.track_uuid);
    let double = CodedInputStream::from_bytes(&value.value.to_le_bytes()).read_double()?;
    event.set_double_counter_value(double);
    let mut packet = TracePacket::new();
    packet.set_timestamp(value.timestamp_ns);
    packet.set_trusted_packet_sequence_id(sequence_id);
    packet.set_track_event(event);
    packet.write_to_bytes()
}

} // verus!
