//! Writing one rate track and one uncertainty track per event, without threads.

use crate::perfetto::packet::{
    self, encode_track, encode_value, Content, CounterValue, PacketView, Track, TrackKind,
    TrackKindView, TrackView,
};
use crate::perfetto::reader::{self, SeriesKey};
use crate::perfetto::trace::{self, WriterView, SEQUENCE_ID};
use crate::perfetto::wire::write_frame;
use crate::text::{self, joined, owned};
use vstd::prelude::*;

verus! {

/// First track identifier, away from zero: that is the implicit global track.
pub const UUID_BASE: u64 = 1000;

/// Identifier of the rate track of an event.
pub open spec fn rate_track(event_id: u32) -> u64 {
    (UUID_BASE + event_id * 2) as u64
}

/// Identifier of the uncertainty track of an event.
pub open spec fn uncertainty_track(event_id: u32) -> u64 {
    (UUID_BASE + event_id * 2 + 1) as u64
}

/// Identifier of the rate track of an event.
pub fn rate_uuid(event_id: u32) -> (r: u64)
    ensures
        r == rate_track(event_id),
{
    UUID_BASE + (event_id as u64) * 2
}

/// Identifier of the uncertainty track of an event.
pub fn uncertainty_uuid(event_id: u32) -> (r: u64)
    ensures
        r == uncertainty_track(event_id),
{
    UUID_BASE + (event_id as u64) * 2 + 1
}

/// No two tracks share an identifier, and none has that of the global track.
pub proof fn track_ids_are_distinct(a: u32, b: u32)
    ensures
        rate_track(a) != uncertainty_track(b),
        a != b ==> rate_track(a) != rate_track(b) && uncertainty_track(a) != uncertainty_track(b),
        rate_track(a) != 0 && uncertainty_track(a) != 0,
{
}

/// The state of one virtual counter. Rate and uncertainty are bit patterns of double-precision
/// numbers.
#[derive(Clone, Copy)]
pub struct CounterState {
    /// Estimated rate.
    pub rate: u64,
    /// Uncertainty of the estimate.
    pub uncertainty: u64,
    /// Number of samples behind the estimate.
    pub sample_count: u64,
}

impl CounterState {
    /// Whether the counter was never observed: rate zero of either sign, uncertainty one, no
    /// samples.
    pub open spec fn is_default(self) -> bool {
        &&& self.rate == 0 || self.rate == 0x8000_0000_0000_0000
        &&& self.uncertainty == 0x3FF0_0000_0000_0000
        &&& self.sample_count == 0
    }
}

/// The description of the rate track of an event.
pub open spec fn rate_description(event_id: u32, name: Seq<char>) -> TrackView {
    TrackView {
        uuid: rate_track(event_id),
        name: name + "/rate"@,
        parent_uuid: None,
        kind: TrackKindView::Counter { unit: Some("events/ns"@) },
    }
}

/// The description of the uncertainty track of an event.
pub open spec fn uncertainty_description(event_id: u32, name: Seq<char>) -> TrackView {
    TrackView {
        uuid: uncertainty_track(event_id),
        name: name + "/uncertainty"@,
        parent_uuid: None,
        kind: TrackKindView::Counter { unit: None },
    }
}

/// The descriptions of the tracks of the first `n` events.
pub open spec fn descriptions(names: Seq<Seq<char>>, n: nat) -> Seq<Content>
    decreases n,
{
    if n == 0 {
        Seq::empty()
    } else {
        descriptions(names, (n - 1) as nat).push(
            Content::Track(rate_description((n - 1) as u32, names[n - 1])),
        ).push(Content::Track(uncertainty_description((n - 1) as u32, names[n - 1])))
    }
}

/// The values of the first `n` counters at a time, passing over those never observed.
pub open spec fn step_values(
    timestamp_ns: u64,
    counters: Seq<CounterState>,
    n: nat,
) -> Seq<Content>
    decreases n,
{
    if n == 0 {
        Seq::empty()
    } else {
        let before = step_values(timestamp_ns, counters, (n - 1) as nat);
        let c = counters[n - 1];
        let id = (n - 1) as u32;
        if c.is_default() {
            before
        } else {
            before.push(
                Content::Value(
                    CounterValue { timestamp_ns, track_uuid: rate_track(id), value: c.rate },
                ),
            ).push(
                Content::Value(
                    CounterValue {
                        timestamp_ns,
                        track_uuid: uncertainty_track(id),
                        value: c.uncertainty,
                    },
                ),
            )
        }
    }
}

/// A log with more packets written, up to the first that cannot be encoded; and whether there was
/// none such.
pub open spec fn with_all(log: Seq<Content>, more: Seq<Content>) -> (Seq<Content>, bool)
    decreases more.len(),
{
    if more.len() == 0 {
        (log, true)
    } else {
        let (before, fine) = with_all(log, more.drop_last());
        if fine {
            (before.push(more.last()), WriterView::encodes(more.last()))
        } else {
            (before, false)
        }
    }
}

proof fn lemma_with_all_step(log: Seq<Content>, more: Seq<Content>, next: Content)
    ensures
        with_all(log, more).1 ==> with_all(log, more.push(next)) == (
            with_all(log, more).0.push(next),
            WriterView::encodes(next),
        ),
        !with_all(log, more).1 ==> with_all(log, more.push(next)) == with_all(log, more),
{
    assert(more.push(next).drop_last() =~= more);
}

/// Writes rate and uncertainty tracks. The bytes gather in the writer until
/// [`PerfettoWriter::take_bytes`] hands them out.
pub struct PerfettoWriter {
    pending: Vec<u8>,
    event_names: Vec<String>,
    taken: Ghost<Seq<u8>>,
    log: Ghost<Seq<Content>>,
}

impl PerfettoWriter {
    /// The packets written so far.
    pub closed spec fn log(&self) -> Seq<Content> {
        self.log@
    }

    /// The names of the events.
    pub closed spec fn names(&self) -> Seq<Seq<char>> {
        self.event_names@.map_values(|s: String| s@)
    }

    /// The bytes handed out so far.
    pub closed spec fn handed_out(&self) -> Seq<u8> {
        self.taken@
    }

    /// The bytes not handed out yet.
    pub closed spec fn pending_bytes(&self) -> Seq<u8> {
        self.pending@
    }

    /// All bytes written so far, handed out or not.
    pub open spec fn bytes(&self) -> Seq<u8> {
        self.handed_out() + self.pending_bytes()
    }

    /// Validity: the bytes are those of the packets written.
    pub closed spec fn wf(&self) -> bool {
        self.bytes() == trace::stream(self.log()) && trace::faithful(self.log())
    }

    /// What validity says of the bytes.
    pub proof fn lemma_wf(&self)
        requires
            self.wf(),
        ensures
            self.handed_out() + self.pending_bytes() == trace::stream(self.log()),
            trace::faithful(self.log()),
    {
    }

    /// Nothing is lost between writing and handing out: the bytes handed out followed by those
    /// still pending are read as the packets written, in order.
    pub proof fn bytes_read_back(&self)
        requires
            self.wf(),
            forall|i: int|
                0 <= i < self.log().len() ==> WriterView::encodes(#[trigger] self.log()[i]),
            forall|i: int| 0 <= i < self.log().len() ==> (#[trigger] self.log()[i]).portable(),
        ensures
            trace::trace_packets(self.handed_out() + self.pending_bytes(), 0) == Ok::<
                Seq<PacketView>,
                trace::TraceFault,
            >(trace::packets_of(self.log())),
    {
        trace::stream_reads_back(self.log());
    }

    /// A writer that labels tracks with `event_names`.
    pub fn new(event_names: Vec<String>) -> (r: Self)
        ensures
            r.wf(),
            r.log() == Seq::<Content>::empty(),
            r.names() == event_names@.map_values(|s: String| s@),
            r.handed_out() == Seq::<u8>::empty(),
            r.pending_bytes() == Seq::<u8>::empty(),
    {
        let r = PerfettoWriter {
            pending: Vec::new(),
            event_names,
            taken: Ghost(Seq::empty()),
            log: Ghost(Seq::empty()),
        };
        assert(r.bytes() =~= Seq::<u8>::empty());
        r
    }

    /// Appends a packet to the trace, or only notes that it could not be encoded.
    fn write_trace_packet(
        &mut self,
        encoded: Result<Vec<u8>, protobuf::Error>,
        content: Ghost<Content>,
    ) -> (r: Result<(), protobuf::Error>)
        requires
            old(self).wf(),
            match encoded {
                Ok(bytes) => packet::encoded_packet(content@, SEQUENCE_ID) == Some(bytes@) && (
                content@.portable() ==> packet::decoded_packet(bytes@) == Some(content@.packet())),
                Err(_) => packet::encoded_packet(content@, SEQUENCE_ID) is None,
            },
        ensures
            final(self).wf(),
            final(self).handed_out() == old(self).handed_out(),
            final(self).log() == old(self).log().push(content@),
            final(self).names() == old(self).names(),
            r is Ok <==> WriterView::encodes(content@),
    {
        let ghost before = self.log@;
        proof {
            self.log@ = self.log@.push(content@);
            assert(self.log@.drop_last() =~= before);
        }
        let r = match encoded {
            Ok(bytes) => {
                assert(bytes@.len() == bytes.len());
                write_frame(&mut self.pending, &bytes);
                Ok(())
            },
            Err(e) => Err(e),
        };
        assert(self.bytes() =~= trace::stream(self.log@));
        assert forall|i: int|
            0 <= i < self.log@.len() && WriterView::encodes(#[trigger] self.log@[i]) implies {
            let bytes = packet::encoded_packet(self.log@[i], SEQUENCE_ID)->0;
            bytes.len() <= u64::MAX && (self.log@[i].portable() ==> packet::decoded_packet(bytes)
                == Some(self.log@[i].packet()))
        } by {
            if i < before.len() {
                assert(self.log@[i] == before[i]);
            }
        }
        r
    }

    fn write_track(&mut self, track: &Track) -> (r: Result<(), protobuf::Error>)
        requires
            old(self).wf(),
        ensures
            final(self).wf(),
            final(self).handed_out() == old(self).handed_out(),
            final(self).log() == old(self).log().push(Content::Track(track@)),
            final(self).names() == old(self).names(),
            r is Ok <==> WriterView::encodes(Content::Track(track@)),
    {
        self.write_trace_packet(
            encode_track(track, SEQUENCE_ID),
            Ghost(Content::Track(track@)),
        )
    }

    fn write_value(&mut self, timestamp_ns: u64, track_uuid: u64, value: u64) -> (r: Result<
        (),
        protobuf::Error,
    >)
        requires
            old(self).wf(),
        ensures
            final(self).wf(),
            final(self).handed_out() == old(self).handed_out(),
            final(self).names() == old(self).names(),
            ({
                let content = Content::Value(CounterValue { timestamp_ns, track_uuid, value });
                final(self).log() == old(self).log().push(content) && (r is Ok
                    <==> WriterView::encodes(content))
            }),
    {
        let v = CounterValue { timestamp_ns, track_uuid, value };
        self.write_trace_packet(encode_value(v, SEQUENCE_ID), Ghost(Content::Value(v)))
    }

    /// Describes the rate and uncertainty tracks of every event.
    pub fn register_tracks(&mut self) -> (r: Result<(), protobuf::Error>)
        requires
            old(self).wf(),
            old(self).names().len() <= u32::MAX,
        ensures
            final(self).wf(),
            final(self).handed_out() == old(self).handed_out(),
            final(self).names() == old(self).names(),
            ({
                let (log, fine) = with_all(
                    old(self).log(),
                    descriptions(old(self).names(), old(self).names().len()),
                );
                final(self).log() == log && (r is Ok <==> fine)
            }),
    {
        let ghost start = self.log();
        let ghost names = self.names();
        let n: usize = self.event_names.len();
        let mut i: usize = 0;
        while i < n
            invariant
                i <= n,
                n == names.len(),
                n <= u32::MAX,
                self.wf(),
                self.handed_out() == old(self).handed_out(),
                self.names() == names,
                start == old(self).log(),
                names == old(self).names(),
                with_all(start, descriptions(names, i as nat)) == (self.log(), true),
            decreases n - i,
        {
            let ghost done = descriptions(names, i as nat);
            let id = i as u32;
            let rate = Track {
                uuid: rate_uuid(id),
                name: joined(self.event_names[i].as_str(), "/rate"),
                parent_uuid: None,
                kind: TrackKind::Counter { unit: Some(owned("events/ns")) },
            };
            let uncertainty = Track {
                uuid: uncertainty_uuid(id),
                name: joined(self.event_names[i].as_str(), "/uncertainty"),
                parent_uuid: None,
                kind: TrackKind::Counter { unit: None },
            };
            assert(names[i as int] == self.event_names@[i as int]@);
            let ghost first = Content::Track(rate@);
            let ghost second = Content::Track(uncertainty@);
            proof {
                lemma_with_all_step(start, done, first);
                lemma_with_all_step(start, done.push(first), second);
                assert(rate@ == rate_description(id, names[i as int]));
                assert(uncertainty@ == uncertainty_description(id, names[i as int]));
                assert(descriptions(names, i as nat + 1) == done.push(first).push(second));
            }
            if let Err(e) = self.write_track(&rate) {
                proof {
                    lemma_descriptions_stop(start, names, i as nat + 1);
                }
                return Err(e);
            }
            if let Err(e) = self.write_track(&uncertainty) {
                proof {
                    lemma_descriptions_stop(start, names, i as nat + 1);
                }
                return Err(e);
            }
            i = i + 1;
        }
        Ok(())
    }

    /// Writes the values of all counters that were ever observed.
    pub fn emit_step(&mut self, timestamp_ns: u64, counters: &Vec<CounterState>) -> (r: Result<
        (),
        protobuf::Error,
    >)
        requires
            old(self).wf(),
            counters@.len() <= u32::MAX,
        ensures
            final(self).wf(),
            final(self).handed_out() == old(self).handed_out(),
            final(self).names() == old(self).names(),
            ({
                let (log, fine) = with_all(
                    old(self).log(),
                    step_values(timestamp_ns, counters@, counters@.len()),
                );
                final(self).log() == log && (r is Ok <==> fine)
            }),
    {
        let ghost start = self.log();
        let mut i: usize = 0;
        while i < counters.len()
            invariant
                i <= counters@.len() <= u32::MAX,
                self.wf(),
                self.handed_out() == old(self).handed_out(),
                self.names() == old(self).names(),
                start == old(self).log(),
                with_all(start, step_values(timestamp_ns, counters@, i as nat)) == (
                    self.log(),
                    true,
                ),
            decreases counters@.len() - i,
        {
            let ghost done = step_values(timestamp_ns, counters@, i as nat);
            let c = counters[i];
            let is_default = (c.rate == 0 || c.rate == 0x8000_0000_0000_0000) && c.uncertainty
                == 0x3FF0_0000_0000_0000 && c.sample_count == 0;
            if !is_default {
                let id = i as u32;
                let ghost first = Content::Value(
                    CounterValue { timestamp_ns, track_uuid: rate_track(id), value: c.rate },
                );
                let ghost second = Content::Value(
                    CounterValue {
                        timestamp_ns,
                        track_uuid: uncertainty_track(id),
                        value: c.uncertainty,
                    },
                );
                proof {
                    lemma_with_all_step(start, done, first);
                    lemma_with_all_step(start, done.push(first), second);
                    assert(step_values(timestamp_ns, counters@, i as nat + 1) == done.push(
                        first,
                    ).push(second));
                }
                if let Err(e) = self.write_value(timestamp_ns, rate_uuid(id), c.rate) {
                    proof {
                        lemma_values_stop(start, timestamp_ns, counters@, i as nat + 1);
                    }
                    return Err(e);
                }
                if let Err(e) = self.write_value(timestamp_ns, uncertainty_uuid(id), c.uncertainty) {
                    proof {
                        lemma_values_stop(start, timestamp_ns, counters@, i as nat + 1);
                    }
                    return Err(e);
                }
            }
            i = i + 1;
        }
        Ok(())
    }

    /// Hands out the bytes written since the last call.
    pub fn take_bytes(&mut self) -> (r: Vec<u8>)
        requires
            old(self).wf(),
        ensures
            final(self).wf(),
            final(self).log() == old(self).log(),
            final(self).names() == old(self).names(),
            r@ == old(self).pending_bytes(),
            final(self).handed_out() == old(self).handed_out() + r@,
            final(self).pending_bytes() == Seq::<u8>::empty(),
    {
        let mut out: Vec<u8> = Vec::new();
        std::mem::swap(&mut out, &mut self.pending);
        proof {
            self.taken@ = self.taken@ + out@;
        }
        assert(self.bytes() =~= old(self).bytes());
        out
    }
}

/// Once a packet could not be encoded, no later description changes anything.
proof fn lemma_descriptions_stop(log: Seq<Content>, names: Seq<Seq<char>>, n: nat)
    requires
        n <= names.len(),
        !with_all(log, descriptions(names, n)).1,
    ensures
        with_all(log, descriptions(names, names.len())) == with_all(log, descriptions(names, n)),
    decreases names.len() - n,
{
    if n < names.len() {
        let done = descriptions(names, n);
        let first = Content::Track(rate_description(n as u32, names[n as int]));
        let second = Content::Track(uncertainty_description(n as u32, names[n as int]));
        lemma_with_all_step(log, done, first);
        lemma_with_all_step(log, done.push(first), second);
        assert(descriptions(names, n + 1) == done.push(first).push(second));
        lemma_descriptions_stop(log, names, n + 1);
    }
}

/// Once a packet could not be encoded, no later value changes anything.
proof fn lemma_values_stop(
    log: Seq<Content>,
    timestamp_ns: u64,
    counters: Seq<CounterState>,
    n: nat,
)
    requires
        n <= counters.len(),
        !with_all(log, step_values(timestamp_ns, counters, n)).1,
    ensures
        with_all(log, step_values(timestamp_ns, counters, counters.len())) == with_all(
            log,
            step_values(timestamp_ns, counters, n),
        ),
    decreases counters.len() - n,
{
    if n < counters.len() {
        let done = step_values(timestamp_ns, counters, n);
        let c = counters[n as int];
        if !c.is_default() {
            let first = Content::Value(
                CounterValue { timestamp_ns, track_uuid: rate_track(n as u32), value: c.rate },
            );
            let second = Content::Value(
                CounterValue {
                    timestamp_ns,
                    track_uuid: uncertainty_track(n as u32),
                    value: c.uncertainty,
                },
            );
            lemma_with_all_step(log, done, first);
            lemma_with_all_step(log, done.push(first), second);
            assert(step_values(timestamp_ns, counters, n + 1) == done.push(first).push(second));
        }
        lemma_values_stop(log, timestamp_ns, counters, n + 1);
    }
}

/// Packets that can all be encoded are written one after the other.
pub proof fn all_encoded_are_written(log: Seq<Content>, more: Seq<Content>)
    requires
        with_all(log, more).1,
    ensures
        with_all(log, more).0 == log + more,
    decreases more.len(),
{
    if more.len() > 0 {
        all_encoded_are_written(log, more.drop_last());
        assert((log + more.drop_last()).push(more.last()) =~= log + more);
    } else {
        assert(log + more =~= log);
    }
}

/// The rate or the uncertainty track of an event.
pub open spec fn track_of(event_id: u32, rates: bool) -> u64 {
    if rates {
        rate_track(event_id)
    } else {
        uncertainty_track(event_id)
    }
}

/// What the names of rate or uncertainty tracks end in.
pub open spec fn suffix_of(rates: bool) -> Seq<char> {
    if rates {
        "/rate"@
    } else {
        "/uncertainty"@
    }
}

/// Whether a track is the one of an event with this name, on no thread.
pub open spec fn is_track_of(
    names: Seq<Seq<char>>,
    track: u64,
    rates: bool,
    key: SeriesKey,
) -> bool {
    exists|e: u32|
        e < names.len() && #[trigger] track_of(e, rates) == track && key == (names[e as int], 0u32)
}

/// The rates or the uncertainties of events with a name among values written, in the order
/// written.
pub open spec fn written(
    names: Seq<Seq<char>>,
    values: Seq<CounterValue>,
    rates: bool,
    key: SeriesKey,
) -> Seq<(u64, u64)>
    decreases values.len(),
{
    if values.len() == 0 {
        Seq::empty()
    } else {
        let rest = written(names, values.drop_last(), rates, key);
        let last = values.last();
        if is_track_of(names, last.track_uuid, rates, key) {
            rest.push((last.timestamp_ns, last.value))
        } else {
            rest
        }
    }
}

/// Values as packets.
pub open spec fn as_content(values: Seq<CounterValue>) -> Seq<Content> {
    values.map_values(|v: CounterValue| Content::Value(v))
}

proof fn lemma_suffixes(name: Seq<char>)
    ensures
        text::without_suffix(name + "/rate"@, suffix_of(true)) == Some(name),
        text::without_suffix(name + "/rate"@, suffix_of(false)) is None,
        text::without_suffix(name + "/uncertainty"@, suffix_of(false)) == Some(name),
        text::without_suffix(name + "/uncertainty"@, suffix_of(true)) is None,
{
    reveal_strlit("/rate");
    reveal_strlit("/uncertainty");
    text::lemma_without_suffix(name, "/rate"@);
    text::lemma_without_suffix(name, "/uncertainty"@);
    let (a, b) = (name + "/rate"@, name + "/uncertainty"@);
    assert(a[a.len() - 1] == 'e');
    assert(b[b.len() - 1] == 'y');
    if "/uncertainty"@.is_suffix_of(a) {
        assert(a.subrange(a.len() - 12, a.len() as int)[11] == 'y');
    }
    if "/rate"@.is_suffix_of(b) {
        assert(b.subrange(b.len() - 5, b.len() as int)[4] == 'e');
    }
}

/// What a reader makes of the identifier of a track once the tracks are described.
proof fn lemma_described(names: Seq<Seq<char>>, n: nat, track: u64, rates: bool)
    requires
        n <= names.len() <= u32::MAX,
    ensures
        match reader::named_track(
            trace::packets_of(descriptions(names, n)),
            suffix_of(rates),
            track,
        ) {
            Some((name, parent)) => parent is None && exists|e: u32|
                e < n && #[trigger] track_of(e, rates) == track && name == names[e as int],
            None => forall|e: u32| e < n ==> #[trigger] track_of(e, rates) != track,
        },
        trace::values_of(trace::packets_of(descriptions(names, n))) == Seq::<CounterValue>::empty(),
    decreases n,
{
    reveal_with_fuel(reader::named_track, 3);
    reveal_with_fuel(trace::values_of, 3);
    let packets = trace::packets_of(descriptions(names, n));
    if n > 0 {
        let m = (n - 1) as nat;
        let id = m as u32;
        lemma_described(names, m, track, rates);
        lemma_suffixes(names[m as int]);
        let before = trace::packets_of(descriptions(names, m));
        let middle = packets.drop_last();
        assert(middle.drop_last() =~= before);
        assert(packets.last() == uncertainty_description(id, names[m as int]).packet());
        assert(middle.last() == rate_description(id, names[m as int]).packet());
        track_ids_are_distinct(id, id);
        if track_of(id, rates) == track {
            assert(reader::named_track(packets, suffix_of(rates), track) == Some(
                (names[m as int], None::<u64>),
            ));
        } else {
            assert(reader::named_track(packets, suffix_of(rates), track) == reader::named_track(
                before,
                suffix_of(rates),
                track,
            ));
            assert forall|e: u32| e < n && reader::named_track(before, suffix_of(rates), track) is None
                implies #[trigger] track_of(e, rates) != track by {
                if e < m {
                    assert(track_of(e, rates) != track);
                }
            }
        }
    } else {
        assert(packets =~= Seq::empty());
    }
}

/// Values change nothing of what a reader makes of the identifier of a track.
proof fn lemma_values_describe_nothing(
    front: Seq<PacketView>,
    values: Seq<CounterValue>,
    suffix: Seq<char>,
    track: u64,
)
    ensures
        reader::named_track(
            front + trace::packets_of(as_content(values)),
            suffix,
            track,
        ) == reader::named_track(front, suffix, track),
        trace::values_of(front + trace::packets_of(as_content(values))) == trace::values_of(front)
            + values,
    decreases values.len(),
{
    let packets = front + trace::packets_of(as_content(values));
    if values.len() > 0 {
        let rest = values.drop_last();
        lemma_values_describe_nothing(front, rest, suffix, track);
        assert(packets.drop_last() =~= front + trace::packets_of(as_content(rest)));
        assert(packets.last() == PacketView::Value(values.last()));
        assert((trace::values_of(front) + rest).push(values.last()) =~= trace::values_of(front)
            + values);
    } else {
        assert(packets =~= front);
        assert(trace::values_of(front) + values =~= trace::values_of(front));
    }
}

proof fn lemma_points_written(
    names: Seq<Seq<char>>,
    packets: Seq<PacketView>,
    values: Seq<CounterValue>,
    rates: bool,
    key: SeriesKey,
)
    requires
        forall|track: u64|
            (#[trigger] reader::key_of(packets, suffix_of(rates), track) == Some(key))
                <==> is_track_of(names, track, rates, key),
    ensures
        reader::points_of(packets, suffix_of(rates), values, key) == written(
            names,
            values,
            rates,
            key,
        ),
    decreases values.len(),
{
    if values.len() > 0 {
        lemma_points_written(names, packets, values.drop_last(), rates, key);
        let track = values.last().track_uuid;
        assert((reader::key_of(packets, suffix_of(rates), track) == Some(key)) <==> is_track_of(
            names,
            track,
            rates,
            key,
        ));
    }
}

/// Reading a written trace: what was written for an event once its tracks were described is read
/// back under its name, the rates as rates and the uncertainties as uncertainties, in order of
/// time. Events of one name are read as one.
pub proof fn written_counters_read_back(names: Seq<Seq<char>>, values: Seq<CounterValue>)
    requires
        names.len() <= u32::MAX,
        ({
            let log = descriptions(names, names.len()) + as_content(values);
            &&& trace::faithful(log)
            &&& forall|i: int| 0 <= i < log.len() ==> WriterView::encodes(#[trigger] log[i])
            &&& forall|i: int| 0 <= i < log.len() ==> (#[trigger] log[i]).portable()
        }),
    ensures
        ({
            let log = descriptions(names, names.len()) + as_content(values);
            let read = trace::trace_packets(trace::stream(log), 0);
            &&& read is Ok
            &&& reader::rate_series(read->Ok_0) == Map::new(
                |key: SeriesKey| written(names, values, true, key).len() > 0,
                |key: SeriesKey| reader::by_time(written(names, values, true, key)),
            )
            &&& reader::uncertainty_series(read->Ok_0) == Map::new(
                |key: SeriesKey| written(names, values, false, key).len() > 0,
                |key: SeriesKey| reader::by_time(written(names, values, false, key)),
            )
        }),
{
    let described = descriptions(names, names.len());
    let log = described + as_content(values);
    trace::stream_reads_back(log);
    let packets = trace::packets_of(log);
    let front = trace::packets_of(described);
    assert(packets =~= front + trace::packets_of(as_content(values)));
    lemma_described(names, names.len(), 0, true);
    lemma_values_describe_nothing(front, values, Seq::empty(), 0);
    assert(trace::values_of(packets) =~= values);
    assert forall|rates: bool, key: SeriesKey| #[trigger]
        written(names, values, rates, key) == reader::points_of(
            packets,
            suffix_of(rates),
            values,
            key,
        ) by {
        assert forall|track: u64|
            (#[trigger] reader::key_of(packets, suffix_of(rates), track) == Some(key))
                <==> is_track_of(names, track, rates, key) by {
            lemma_described(names, names.len(), track, rates);
            lemma_values_describe_nothing(front, values, suffix_of(rates), track);
            if is_track_of(names, track, rates, key) {
                let e = choose|e: u32|
                    e < names.len() && #[trigger] track_of(e, rates) == track && key == (
                        names[e as int],
                        0u32,
                    );
                let (name, parent) = reader::named_track(front, suffix_of(rates), track)->0;
                let d = choose|d: u32|
                    d < names.len() && #[trigger] track_of(d, rates) == track && name
                        == names[d as int];
                track_ids_are_distinct(d, e);
            }
        }
        lemma_points_written(names, packets, values, rates, key);
    }
    assert(reader::rate_series(packets) =~= Map::new(
        |key: SeriesKey| written(names, values, true, key).len() > 0,
        |key: SeriesKey| reader::by_time(written(names, values, true, key)),
    ));
    assert(reader::uncertainty_series(packets) =~= Map::new(
        |key: SeriesKey| written(names, values, false, key).len() > 0,
        |key: SeriesKey| reader::by_time(written(names, values, false, key)),
    ));
}

/// Every event has two descriptions, of its rate and behind it of its uncertainty, in order of
/// the events; each is named after the event, on a track of its own, and rates have their unit.
pub proof fn every_event_is_described_twice(names: Seq<Seq<char>>, n: nat, e: int)
    requires
        n <= names.len(),
        n <= u32::MAX,
        0 <= e < n,
    ensures
        descriptions(names, n).len() == 2 * n,
        descriptions(names, n)[2 * e] == Content::Track(
            TrackView {
                uuid: (1000 + 2 * e) as u64,
                name: names[e] + "/rate"@,
                parent_uuid: None,
                kind: TrackKindView::Counter { unit: Some("events/ns"@) },
            },
        ),
        descriptions(names, n)[2 * e + 1] == Content::Track(
            TrackView {
                uuid: (1001 + 2 * e) as u64,
                name: names[e] + "/uncertainty"@,
                parent_uuid: None,
                kind: TrackKindView::Counter { unit: None },
            },
        ),
    decreases n,
{
    if e < n - 1 {
        every_event_is_described_twice(names, (n - 1) as nat, e);
    } else if n > 1 {
        every_event_is_described_twice(names, (n - 1) as nat, 0);
    } else {
        reveal_with_fuel(descriptions, 2);
    }
}

/// The values of a step are the rates and uncertainties of the counters that were observed, in
/// order of the events, each behind its rate; a counter counts as observed once it has samples,
/// or a rate other than zero, or an uncertainty other than one.
pub proof fn observed_counters_are_written(
    timestamp_ns: u64,
    counters: Seq<CounterState>,
    n: nat,
)
    requires
        n < counters.len(),
        n < u32::MAX,
    ensures
        step_values(timestamp_ns, counters, 0).len() == 0,
        step_values(timestamp_ns, counters, n).is_prefix_of(
            step_values(timestamp_ns, counters, n + 1),
        ),
        ({
            let c = counters[n as int];
            let added = step_values(timestamp_ns, counters, n + 1).skip(
                step_values(timestamp_ns, counters, n).len() as int,
            );
            let rate = Content::Value(
                CounterValue { timestamp_ns, track_uuid: (1000 + 2 * n) as u64, value: c.rate },
            );
            let uncertainty = Content::Value(
                CounterValue {
                    timestamp_ns,
                    track_uuid: (1001 + 2 * n) as u64,
                    value: c.uncertainty,
                },
            );
            &&& c.sample_count > 0 ==> added == seq![rate, uncertainty]
            &&& c.rate != 0 && c.rate != 0x8000_0000_0000_0000 ==> added == seq![
                rate,
                uncertainty,
            ]
            &&& c.uncertainty != 0x3FF0_0000_0000_0000 ==> added == seq![rate, uncertainty]
            &&& c.sample_count == 0 && (c.rate == 0 || c.rate == 0x8000_0000_0000_0000)
                && c.uncertainty == 0x3FF0_0000_0000_0000 ==> added.len() == 0
        }),
{
    let c = counters[n as int];
    let before = step_values(timestamp_ns, counters, n);
    let after = step_values(timestamp_ns, counters, n + 1);
    if !c.is_default() {
        let rate = Content::Value(
            CounterValue { timestamp_ns, track_uuid: (1000 + 2 * n) as u64, value: c.rate },
        );
        let uncertainty = Content::Value(
            CounterValue {
                timestamp_ns,
                track_uuid: (1001 + 2 * n) as u64,
                value: c.uncertainty,
            },
        );
        assert(after =~= before + seq![rate, uncertainty]);
    } else {
        assert(after == before);
    }
    assert(after.skip(before.len() as int) =~= if c.is_default() {
        Seq::empty()
    } else {
        seq![after[before.len() as int], after[before.len() as int + 1]]
    });
}

/// Packets are written in order; the first that cannot be encoded is the last to be noted, and
/// without such a one all are.
pub proof fn writing_stops_at_the_first_failure(log: Seq<Content>, more: Seq<Content>)
    ensures
        with_all(log, more).1 <==> forall|i: int|
            0 <= i < more.len() ==> WriterView::encodes(#[trigger] more[i]),
        forall|i: int|
            #![trigger more.take(i + 1)]
            0 <= i < more.len() && !WriterView::encodes(more[i]) && (forall|j: int|
                0 <= j < i ==> WriterView::encodes(#[trigger] more[j])) ==> with_all(log, more).0
                == log + more.take(i + 1),
    decreases more.len(),
{
    if more.len() > 0 {
        let front = more.drop_last();
        writing_stops_at_the_first_failure(log, front);
        assert(forall|i: int| 0 <= i < front.len() ==> front[i] == more[i]);
        if with_all(log, more).1 {
            assert forall|i: int| 0 <= i < more.len() implies WriterView::encodes(
                #[trigger] more[i],
            ) by {
                if i < front.len() {
                    assert(WriterView::encodes(front[i]));
                }
            }
        }
        assert forall|i: int|
            #![trigger more.take(i + 1)]
            0 <= i < more.len() && !WriterView::encodes(more[i]) && (forall|j: int|
                0 <= j < i ==> WriterView::encodes(#[trigger] more[j])) implies with_all(
            log,
            more,
        ).0 == log + more.take(i + 1) by {
            if i < front.len() {
                assert(front.take(i + 1) =~= more.take(i + 1));
                assert(!WriterView::encodes(front[i]));
            } else {
                assert(with_all(log, front).1);
                all_encoded_are_written(log, front);
                assert((log + front).push(more.last()) =~= log + more.take(i + 1));
            }
        }
    }
}

/// The samples of an event name are the values on the tracks of that name, all of them, in order.
pub proof fn every_value_is_a_sample(
    names: Seq<Seq<char>>,
    values: Seq<CounterValue>,
    rates: bool,
    key: SeriesKey,
)
    ensures
        written(names, values, rates, key) == values.filter(
            |v: CounterValue| is_track_of(names, v.track_uuid, rates, key),
        ).map_values(|v: CounterValue| (v.timestamp_ns, v.value)),
    decreases values.len(),
{
    reveal(Seq::filter);
    let kept = values.filter(|v: CounterValue| is_track_of(names, v.track_uuid, rates, key));
    if values.len() > 0 {
        every_value_is_a_sample(names, values.drop_last(), rates, key);
    }
    assert(written(names, values, rates, key) =~= kept.map_values(
        |v: CounterValue| (v.timestamp_ns, v.value),
    ));
}

/// The tracks of an event are numbered from a thousand on, rates on even numbers and uncertainties
/// on the odd ones behind them.
pub proof fn tracks_are_numbered_in_pairs(e: u32)
    ensures
        rate_track(e) == 1000 + 2 * e,
        uncertainty_track(e) == rate_track(e) + 1,
        track_of(e, true) == rate_track(e),
        track_of(e, false) == uncertainty_track(e),
        suffix_of(true) == "/rate"@,
        suffix_of(false) == "/uncertainty"@,
{
}

} // verus!
