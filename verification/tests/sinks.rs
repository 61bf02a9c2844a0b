use saccade::bins::bin_times;
use saccade::buffered_output::{log_header, write_sample};
use saccade::order::sort_order;
use saccade::perfetto::reader::read_rate_timeseries;
use saccade::perfetto::trace::RateEstimate;
use saccade::quantum::Quantum;
use saccade::sample::{task_name, RawSample, WireSample};
use saccade::sink::csv::CsvSink;
use saccade::sink::matrix::MatrixSink;
use saccade::sink::null::NullSink;
use saccade::sink::perfetto::PerfettoSink;

fn sample(tid: u32, event_id: u32, timestamp_ns: u64, count: u64, task: &str) -> RawSample {
    let mut name = [0u8; 16];
    name[..task.len()].copy_from_slice(task.as_bytes());
    RawSample {
        timestamp_ns,
        duration_ns: 10,
        cpu_id: 3,
        pid: 1,
        tid,
        event_id,
        count,
        task: name,
    }
}

#[test]
fn csv_has_a_header_and_a_row_per_sample() {
    let mut s = CsvSink::new();
    s.emit(&vec![sample(2, 5, 100, 7, "a\"b")]);
    s.emit(&vec![sample(2, 6, 200, 8, "t")]);
    let text = s.take_text();
    let lines: Vec<&str> = text.lines().collect();
    assert_eq!(lines.len(), 3);
    assert_eq!(
        lines[0],
        "timestamp_ns,duration_ns,cpu_id,pid,event_id,count,task"
    );
    assert!(lines[1].starts_with("100,10,3,1,5,7,"));
    assert!(lines[2].starts_with("200,10,3,1,6,8,"));
    assert!(s.take_text().is_empty());
}

#[test]
fn the_log_has_a_column_for_every_slot() {
    let w = WireSample {
        timestamp_ns: 1,
        duration_ns: 2,
        pid: 3,
        cpu_id: 4,
        type_: 1,
        tid: 5,
        counters: [6, 7, 8, 9],
        events: [10, 11, 12, 13],
        task: *b"task\0\0\0\0\0\0\0\0\0\0\0\0",
    };
    let mut out = log_header().to_string();
    write_sample(&mut out, &w);
    let lines: Vec<&str> = out.lines().collect();
    assert_eq!(lines[0].split(',').count(), lines[1].split(',').count());
    assert!(lines[1].starts_with("1,2,3,4,"));
    assert!(lines[1].contains("6,7,8,9,10,11,12,13"));
}

#[test]
fn task_names_end_at_the_first_zero() {
    assert_eq!(task_name(b"abc\0def\0\0\0\0\0\0\0\0\0"), "abc");
    assert_eq!(task_name(b"0123456789abcdef"), "0123456789abcdef");
    assert_eq!(task_name(b"\xFF\0\0\0\0\0\0\0\0\0\0\0\0\0\0\0"), "\u{FFFD}");
}

#[test]
fn nothing_comes_of_the_null_sink() {
    let mut s = NullSink;
    s.emit(&Quantum::new(Vec::new(), 0, 0));
    s.finish();
}

#[test]
fn snapshots_keep_their_distance() {
    let mut s = PerfettoSink::new(vec!["e".to_string()], 100);
    let estimates = vec![RateEstimate {
        tid: 2,
        event_id: 0,
        rate: 1f64.to_bits(),
    }];
    for t in [50u64, 100, 149, 150, 300] {
        let quantum = Quantum::new(vec![sample(2, 0, t, 1, "main")], t, 1);
        assert!(s.emit(&quantum, &estimates).is_ok());
    }
    let read = read_rate_timeseries(&s.take_bytes()).ok().unwrap();
    assert_eq!(read.series.len(), 1);
    let times: Vec<u64> = read.series[0].points.iter().map(|p| p.0).collect();
    assert_eq!(times, vec![50, 150, 300]);
}

#[test]
fn matrices_bin_rates_by_thread() {
    let mut m = MatrixSink::new(vec!["a".to_string(), "b".to_string()], 100);
    m.begin_batch(0, &vec![0, 1]);
    m.emit(&vec![
        sample(9, 0, 1_000, 5, "main"),
        sample(9, 1, 1_000, 6, "main"),
        sample(9, 0, 1_150, 7, "main"),
    ]);
    let all = m.finish();
    assert_eq!(all.len(), 1);
    assert_eq!(all[0].tid, 1);
    assert_eq!(all[0].task_name, "main");
    assert_eq!(all[0].n_timesteps, 2);
    let row = all[0].rows.iter().find(|r| r.event_id == 0).unwrap();
    let bins: Vec<u64> = row.bins.iter().map(|b| b.index).collect();
    assert_eq!(bins.len(), 2);
    assert!(bins.contains(&0) && bins.contains(&1));
    assert!(bins.iter().all(|&b| b < all[0].n_timesteps));
    assert_eq!(*m.event_to_batch(), vec![Some(0), Some(0)]);
    assert_eq!(m.bin_width_ns(), 100);
    assert!(row.bins.iter().all(|b| b.points.iter().all(|p| p.scale.is_none())));
    assert_eq!(m.event_names().len(), 2);
}

#[test]
fn times_fall_into_bins_once() {
    let bins = bin_times(&vec![0, 99, 100, 250, 5], 100);
    let total: usize = bins.iter().map(|b| b.positions.len()).sum();
    assert_eq!(total, 5);
    let zero = bins.iter().find(|b| b.index == 0).unwrap();
    assert_eq!(zero.positions, vec![0, 1, 4]);
}

#[test]
fn equal_keys_stay_in_order() {
    assert_eq!(
        sort_order(&vec![(2, 0), (1, 5), (2, 0), (1, 4)]),
        vec![3, 1, 0, 2]
    );
    assert!(sort_order(&Vec::new()).is_empty());
}

#[test]
fn anchor_counts_even_when_it_comes_last() {
    let read = |m: &MatrixSink| {
        let all = m.finish();
        assert_eq!(all.len(), 1);
        let rates = |event: u32| -> Vec<(u64, u64, Option<f64>)> {
            let row = all[0].rows.iter().find(|r| r.event_id == event).unwrap();
            assert_eq!(row.bins.len(), 1);
            row.bins[0]
                .points
                .iter()
                .map(|p| (p.num, p.den, p.scale.map(f64::from_bits)))
                .collect()
        };
        (rates(0), rates(1))
    };
    let samples = vec![
        RawSample {
            timestamp_ns: 1_000,
            duration_ns: 1_000,
            count: 2_000,
            event_id: 0,
            cpu_id: 0,
            pid: 7,
            tid: 7,
            ..sample(7, 0, 1_000, 0, "")
        },
        RawSample {
            timestamp_ns: 1_000,
            duration_ns: 1_000,
            count: 500,
            event_id: 1,
            cpu_id: 0,
            pid: 7,
            tid: 7,
            ..sample(7, 1, 1_000, 0, "")
        },
    ];
    let names = vec!["ex_ret_instr".to_string(), "user".to_string()];
    let mut late = MatrixSink::new(names.clone(), 1_000);
    late.begin_batch(0, &vec![0, 1]);
    late.emit(&samples);
    assert_eq!(
        read(&late),
        (vec![(2_000, 1_000, None)], vec![(500, 1_000, None)])
    );
    late.set_anchor(0, 2f64.to_bits());
    assert_eq!(
        read(&late),
        (vec![(2_000, 1_000, None)], vec![(500, 2_000, Some(2.0))])
    );
    let mut early = MatrixSink::new(names, 1_000);
    early.set_anchor(0, 2f64.to_bits());
    early.begin_batch(0, &vec![0, 1]);
    early.emit(&samples);
    assert_eq!(read(&early), read(&late));
}

#[test]
fn samples_without_instructions_are_not_scaled() {
    let mut m = MatrixSink::new(vec!["ex_ret_instr".to_string(), "user".to_string()], 1_000);
    m.begin_batch(0, &vec![0, 1]);
    m.emit(&vec![
        sample(7, 0, 1_000, 40, "a"),
        sample(7, 1, 1_000, 8, "a"),
        sample(7, 1, 1_010, 6, "a"),
        sample(7, 0, 1_020, 0, "a"),
        sample(7, 1, 1_020, 4, "a"),
    ]);
    m.set_anchor(0, 0.5f64.to_bits());
    let all = m.finish();
    let row = all[0].rows.iter().find(|r| r.event_id == 1).unwrap();
    let points: Vec<(u64, u64, Option<f64>)> = row.bins[0]
        .points
        .iter()
        .map(|p| (p.num, p.den, p.scale.map(f64::from_bits)))
        .collect();
    assert_eq!(
        points,
        vec![(8, 40, Some(0.5)), (6, 10, None), (4, 10, None)]
    );
}
