use saccade::perfetto::packet::Packet;
use saccade::perfetto::reader::{
    extract_rate_series, extract_uncertainty_series, read_rate_timeseries, sort_samples,
};
use saccade::perfetto::trace::{
    read_trace_packets, PerfettoWriter, RateEstimate, RawSeries, ThreadInfo, TraceError,
};
use saccade::perfetto::wire::{read_varint, write_varint};
use saccade::perfetto_trace::{
    rate_uuid, uncertainty_uuid, CounterState, PerfettoWriter as CounterWriter,
};
use std::collections::HashMap;

fn meta() -> HashMap<u32, ThreadInfo> {
    let mut m = HashMap::new();
    m.insert(
        100,
        ThreadInfo {
            tgid: 100,
            task: "main".to_string(),
        },
    );
    m.insert(
        101,
        ThreadInfo {
            tgid: 100,
            task: "worker".to_string(),
        },
    );
    m
}

fn names() -> Vec<String> {
    vec!["cycles".to_string(), "instructions".to_string()]
}

fn rate(tid: u32, event_id: u32, rate: f64) -> RateEstimate {
    RateEstimate {
        tid,
        event_id,
        rate: rate.to_bits(),
    }
}

#[test]
fn what_is_written_is_read_back() {
    let mut w = PerfettoWriter::new(names());
    let m = meta();
    assert!(w
        .emit_estimator_snapshot(10, &vec![rate(100, 0, 1.5), rate(101, 1, -0.25)], &m)
        .is_ok());
    assert!(w
        .emit_estimator_snapshot(20, &vec![rate(100, 0, 2.5)], &m)
        .is_ok());
    let bytes = w.take_bytes();
    assert!(w.take_bytes().is_empty());
    let read = read_rate_timeseries(&bytes).ok().unwrap();
    assert_eq!(read.series.len(), 2);
    for s in &read.series {
        let points: Vec<(u64, f64)> = s
            .points
            .iter()
            .map(|&(t, r)| (t, f64::from_bits(r)))
            .collect();
        if s.tid == 100 {
            assert_eq!(s.event_name, "cycles");
            assert_eq!(points, vec![(10, 1.5), (20, 2.5)]);
        } else {
            assert_eq!(s.tid, 101);
            assert_eq!(s.event_name, "instructions");
            assert_eq!(points, vec![(10, -0.25)]);
        }
    }
}

#[test]
fn threads_of_unknown_processes_are_left_out() {
    let mut w = PerfettoWriter::new(names());
    assert!(w
        .emit_estimator_snapshot(10, &vec![rate(7, 0, 1.0)], &meta())
        .is_ok());
    assert!(w.take_bytes().is_empty());
}

#[test]
fn raw_series_are_written_in_order_of_time() {
    let mut w = PerfettoWriter::new(names());
    let raw = vec![
        RawSeries {
            event_id: 0,
            tid: 100,
            points: vec![(30, 3f64.to_bits()), (10, 1f64.to_bits())],
        },
        RawSeries {
            event_id: 1,
            tid: 100,
            points: vec![(20, 2f64.to_bits())],
        },
    ];
    assert!(w.write_raw_series(&raw, &meta()).is_ok());
    let packets = read_trace_packets(&w.take_bytes()).ok().unwrap();
    let times: Vec<u64> = packets
        .iter()
        .filter_map(|p| match p {
            Packet::Value(v) => Some(v.timestamp_ns),
            _ => None,
        })
        .collect();
    assert_eq!(times, vec![10, 20, 30]);
    let series = extract_rate_series(&packets);
    assert_eq!(series.series.len(), 2);
}

#[test]
fn tracks_hang_below_their_process() {
    let mut w = PerfettoWriter::new(names());
    assert!(w
        .emit_estimator_snapshot(1, &vec![rate(101, 0, 1.0), rate(100, 0, 1.0)], &meta())
        .is_ok());
    let packets = read_trace_packets(&w.take_bytes()).ok().unwrap();
    let mut tracks: Vec<(u64, String, Option<u32>, Option<u64>)> = Vec::new();
    for p in packets {
        if let Packet::Track {
            uuid,
            name,
            tid,
            parent_uuid,
        } = p
        {
            tracks.push((uuid, name, tid, parent_uuid));
        }
    }
    assert_eq!(tracks.len(), 5);
    assert_eq!(tracks[0].1, "100");
    assert!(tracks[0].3.is_none());
    assert_eq!(tracks[1].1, "worker");
    assert_eq!(tracks[1].2, Some(101));
    assert_eq!(tracks[1].3, Some(tracks[0].0));
    assert_eq!(tracks[2].1, "cycles/rate");
    assert_eq!(tracks[2].3, Some(tracks[1].0));
    let mut ids: Vec<u64> = tracks.iter().map(|t| t.0).collect();
    ids.sort();
    ids.dedup();
    assert_eq!(ids.len(), 5);
}

#[test]
fn broken_traces_are_refused() {
    assert!(read_trace_packets(&[]).ok().unwrap().is_empty());
    let bad_tag = read_trace_packets(&[0x12, 0x00]).err().unwrap();
    assert_eq!(
        bad_tag.message().unwrap(),
        "Unexpected tag byte 0x12 at offset 0"
    );
    let short = read_trace_packets(&[0x0A, 0x05, 0x00]).err().unwrap();
    assert_eq!(short.message().unwrap(), "Packet extends beyond end of file");
    let cut = read_trace_packets(&[0x0A, 0x80]).err().unwrap();
    assert_eq!(cut.message().unwrap(), "Truncated varint in trace file");
    let garbage = read_trace_packets(&[0x0A, 0x02, 0xFF, 0xFF]).err().unwrap();
    assert!(matches!(garbage, TraceError::Malformed(_)));
    assert!(garbage.message().is_none());
}

#[test]
fn varints_round_trip() {
    for value in [0u64, 1, 127, 128, 300, 1 << 35, u64::MAX] {
        let mut out = Vec::new();
        write_varint(&mut out, value);
        let (read, used) = read_varint(&out).unwrap();
        assert_eq!(read, value);
        assert_eq!(used, out.len());
    }
    let mut out = Vec::new();
    write_varint(&mut out, 300);
    assert_eq!(out, vec![0xAC, 0x02]);
    assert!(read_varint(&[]).is_none());
    assert!(read_varint(&[0x80]).is_none());
}

#[test]
fn samples_are_sorted_by_time_and_stay_in_order() {
    let points = vec![(5, 1), (2, 2), (5, 3), (1, 4)];
    assert_eq!(
        sort_samples(&points),
        vec![(1, 4), (2, 2), (5, 1), (5, 3)]
    );
}

#[test]
fn counter_tracks_come_in_pairs() {
    assert_eq!(rate_uuid(0), 1000);
    assert_eq!(uncertainty_uuid(0), 1001);
    assert_eq!(rate_uuid(u32::MAX), 1000 + 2 * u32::MAX as u64);
    let mut w = CounterWriter::new(names());
    assert!(w.register_tracks().is_ok());
    let counters = vec![
        CounterState {
            rate: 0.5f64.to_bits(),
            uncertainty: 0.25f64.to_bits(),
            sample_count: 3,
        },
        CounterState {
            rate: 0f64.to_bits(),
            uncertainty: 1f64.to_bits(),
            sample_count: 0,
        },
    ];
    assert!(w.emit_step(77, &counters).is_ok());
    let bytes = w.take_bytes();
    let packets = read_trace_packets(&bytes).ok().unwrap();
    assert_eq!(packets.len(), 6);
    match &packets[3] {
        Packet::Track { uuid, name, .. } => {
            assert_eq!(*uuid, 1003);
            assert_eq!(name, "instructions/uncertainty");
        }
        _ => panic!("no track"),
    }
    match &packets[4] {
        Packet::Value(v) => {
            assert_eq!(v.timestamp_ns, 77);
            assert_eq!(v.track_uuid, 1000);
            assert_eq!(f64::from_bits(v.value), 0.5);
        }
        _ => panic!("no value"),
    }
    match &packets[5] {
        Packet::Value(v) => assert_eq!(v.track_uuid, 1001),
        _ => panic!("no value"),
    }
    let has_unit = bytes.windows(9).filter(|w| *w == b"events/ns").count();
    assert_eq!(has_unit, 2);
    let series = read_rate_timeseries(&bytes).ok().unwrap();
    assert_eq!(series.series.len(), 1);
    assert_eq!(series.series[0].tid, 0);
    let uncertainty = extract_uncertainty_series(&packets);
    assert_eq!(uncertainty.series.len(), 1);
    assert_eq!(uncertainty.series[0].event_name, "cycles");
    assert_eq!(uncertainty.series[0].points, vec![(77, 0.25f64.to_bits())]);
}

#[test]
fn raw_series_are_read_back_where_the_thread_is_known() {
    let mut w = PerfettoWriter::new(names());
    let raw = |event_id: u32, tid: u32, points: &[(u64, f64)]| RawSeries {
        event_id,
        tid,
        points: points.iter().map(|&(t, r)| (t, r.to_bits())).collect(),
    };
    let all = vec![
        raw(0, 100, &[(30, 0.1), (10, -0.0), (20, 1e-300)]),
        raw(1, 101, &[(5, 2.0)]),
        raw(1, 100, &[]),
        raw(0, 7, &[(1, 1.0)]),
    ];
    assert!(w.write_raw_series(&all, &meta()).is_ok());
    let read = read_rate_timeseries(&w.take_bytes()).ok().unwrap();
    assert_eq!(read.series.len(), 2);
    let of = |name: &str, tid: u32| {
        read.series
            .iter()
            .find(|s| s.event_name == name && s.tid == tid)
            .map(|s| s.points.clone())
    };
    assert_eq!(
        of("cycles", 100).unwrap(),
        vec![
            (10, (-0.0f64).to_bits()),
            (20, 1e-300f64.to_bits()),
            (30, 0.1f64.to_bits()),
        ]
    );
    assert_eq!(of("instructions", 101).unwrap(), vec![(5, 2f64.to_bits())]);
    assert!(of("instructions", 100).is_none());
    assert!(of("cycles", 7).is_none());
}

#[test]
fn pieces_handed_out_make_up_the_trace() {
    let mut w = PerfettoWriter::new(names());
    let m = meta();
    let mut out: Vec<u8> = Vec::new();
    for t in [10u64, 20, 30] {
        assert!(w
            .emit_estimator_snapshot(t, &vec![rate(100, 0, t as f64)], &m)
            .is_ok());
        let piece = w.take_bytes();
        assert!(!piece.is_empty());
        out.extend(piece);
    }
    let read = read_rate_timeseries(&out).ok().unwrap();
    let points: Vec<(u64, f64)> =
        read.series[0].points.iter().map(|&(t, r)| (t, f64::from_bits(r))).collect();
    assert_eq!(points, vec![(10, 10.0), (20, 20.0), (30, 30.0)]);

    let mut c = CounterWriter::new(names());
    assert!(c.register_tracks().is_ok());
    let mut out = c.take_bytes();
    let state = |r: f64| CounterState {
        rate: r.to_bits(),
        uncertainty: 0.5f64.to_bits(),
        sample_count: 1,
    };
    for t in [1u64, 2] {
        assert!(c.emit_step(t, &vec![state(t as f64), state(4.0)]).is_ok());
        out.extend(c.take_bytes());
    }
    let packets = read_trace_packets(&out).ok().unwrap();
    assert_eq!(extract_rate_series(&packets).series.len(), 2);
    assert_eq!(extract_uncertainty_series(&packets).series.len(), 2);
}
