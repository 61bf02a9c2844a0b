use saccade::commands::remap::assign_synthetic_tids;
use saccade::commands::simulate::{
    batch_outcome, is_shown, load_rates, num_steps, summary_line,
};
use saccade::commands::sweep::{
    anchor_name, find_anchor, plan_batches, plan_sweep, BatchThread, InstructionTrackerSink,
    TidCollectorSink,
};
use saccade::commands::run::Pace;
use saccade::commands::sweep_trace::remap_sweep_tids;
use saccade::event::{Event, EventLibrary, EventRegistry};
use saccade::perfetto::trace::{PerfettoWriter, RawSeries, ThreadInfo};
use saccade::quantum::Quantum;
use saccade::sample::RawSample;
use saccade::state::Estimate;
use std::collections::HashMap;

fn named(name: &str) -> Event {
    Event {
        name: name.to_string(),
        desc: String::new(),
        event: 0,
        umask: 0,
    }
}

fn library(names: &[&str]) -> EventLibrary {
    EventLibrary {
        events: names.iter().map(|n| named(n)).collect(),
    }
}

#[test]
fn the_anchor_is_the_first_of_its_name() {
    assert_eq!(anchor_name(), "ex_ret_instr");
    let lib = library(&["a", "ex_ret_instr", "b", "ex_ret_instr"]);
    assert_eq!(find_anchor(&lib), Some(1));
    assert_eq!(find_anchor(&library(&["a"])), None);
    assert!(plan_sweep(&library(&["a"])).is_none());
    let plan = plan_sweep(&lib).unwrap();
    assert_eq!(plan.anchor_id, 1);
    assert_eq!(plan.batches, vec![vec![1, 0, 2, 3]]);
    assert_eq!(plan.event_names, vec!["a", "ex_ret_instr", "b", "ex_ret_instr"]);
}

#[test]
fn batches_share_the_anchor_and_split_the_rest() {
    assert_eq!(
        plan_batches(8, 2),
        vec![vec![2, 0, 1, 3], vec![2, 4, 5, 6], vec![2, 7]]
    );
    assert_eq!(plan_batches(1, 0), Vec::<Vec<u32>>::new());
    assert_eq!(plan_batches(4, 0), vec![vec![0, 1, 2, 3]]);
    for n in 1..30u32 {
        let plan = plan_batches(n, n / 2);
        let mut seen: Vec<u32> = plan.iter().flat_map(|b| b[1..].to_vec()).collect();
        seen.sort();
        let expected: Vec<u32> = (0..n).filter(|&e| e != n / 2).collect();
        assert_eq!(seen, expected);
        assert!(plan.iter().all(|b| b[0] == n / 2 && b.len() <= 4));
    }
}

fn sample(tid: u32, pid: u32, event_id: u32, count: u64, task: &str) -> RawSample {
    let mut name = [0u8; 16];
    name[..task.len()].copy_from_slice(task.as_bytes());
    RawSample {
        timestamp_ns: 0,
        duration_ns: 10,
        cpu_id: 0,
        pid,
        tid,
        event_id,
        count,
        task: name,
    }
}

#[test]
fn the_anchor_is_added_up() {
    let mut t = InstructionTrackerSink::new(2);
    t.emit(&Quantum::new(
        vec![
            sample(1, 1, 2, 50, "a"),
            sample(1, 1, 3, 7, "a"),
            sample(2, 1, 2, 5, "b"),
        ],
        0,
        1,
    ));
    t.emit(&Quantum::new(Vec::new(), 0, 1));
    assert_eq!((t.total_count, t.total_duration_ns), (55, 20));
    let rate = t.ref_rate().unwrap();
    assert_eq!((rate.count, rate.duration_ns), (55, 20));
    assert!(InstructionTrackerSink::new(2).ref_rate().is_none());
}

#[test]
fn threads_are_collected_by_batch() {
    let mut c = TidCollectorSink::new();
    c.begin_batch();
    c.emit(&Quantum::new(
        vec![
            sample(0, 0, 1, 1, "idle"),
            sample(7, 5, 1, 1, "first"),
            sample(7, 6, 1, 1, "renamed"),
            sample(8, 5, 1, 1, "second"),
        ],
        0,
        1,
    ));
    c.begin_batch();
    assert_eq!(c.batches.len(), 2);
    assert_eq!(c.batches[0].len(), 2);
    assert_eq!(c.batches[0][0].tid, 7);
    assert_eq!(c.batches[0][0].tgid, 5);
    assert_eq!(c.batches[0][0].task, "first");
    assert!(c.batches[1].is_empty());
}

fn thread(tid: u32, task: &str) -> BatchThread {
    BatchThread {
        tid,
        tgid: 1,
        task: task.to_string(),
    }
}

#[test]
fn threads_get_the_same_id_in_every_batch() {
    let batches = vec![
        vec![thread(30, "a"), thread(20, "b"), thread(10, "a")],
        vec![thread(90, "b"), thread(70, "a"), thread(80, "c")],
    ];
    let ids: Vec<(u32, u32)> = assign_synthetic_tids(&batches)
        .iter()
        .map(|t| (t.real_tid, t.synthetic_tid))
        .collect();
    assert_eq!(
        ids,
        vec![(30, 2), (20, 3), (10, 1), (90, 3), (70, 1), (80, 4)]
    );
}

fn bits(points: &[(u64, f64)]) -> Vec<(u64, u64)> {
    points.iter().map(|&(t, r)| (t, r.to_bits())).collect()
}

fn written(series: Vec<RawSeries>, names: &[&str]) -> Vec<u8> {
    let mut meta = HashMap::new();
    for tid in [30, 70] {
        meta.insert(
            tid,
            ThreadInfo {
                tgid: tid,
                task: "a".to_string(),
            },
        );
    }
    let mut w = PerfettoWriter::new(names.iter().map(|n| n.to_string()).collect());
    assert!(w.write_raw_series(&series, &meta).is_ok());
    w.take_bytes()
}

#[test]
fn rates_of_a_sweep_are_joined_under_synthetic_threads() {
    let names = ["ex_ret_instr", "x", "y"];
    let trace = written(
        vec![
            RawSeries {
                event_id: 0,
                tid: 30,
                points: bits(&[(1, 2.0), (2, 0.0)]),
            },
            RawSeries {
                event_id: 1,
                tid: 30,
                points: bits(&[(1, 10.0), (2, 20.0), (3, 30.0)]),
            },
            RawSeries {
                event_id: 0,
                tid: 70,
                points: bits(&[(5, 4.0)]),
            },
            RawSeries {
                event_id: 2,
                tid: 70,
                points: bits(&[(5, 8.0)]),
            },
        ],
        &names,
    );
    let batches = vec![vec![thread(30, "a")], vec![thread(70, "a")]];
    let event_names: Vec<String> = names.iter().map(|n| n.to_string()).collect();
    let out = remap_sweep_tids(&trace, &batches, &event_names, anchor_name())
        .ok()
        .unwrap();
    assert_eq!(out.thread_meta.len(), 1);
    assert_eq!(out.thread_meta[&1].task, "a");
    assert_eq!(out.series.len(), 3);
    for s in &out.series {
        assert_eq!(s.tid, 1);
        let points: Vec<(u64, f64, Option<f64>)> = s
            .points
            .iter()
            .map(|p| {
                (
                    p.timestamp_ns,
                    f64::from_bits(p.rate),
                    p.anchor_rate.map(f64::from_bits),
                )
            })
            .collect();
        match s.event_id {
            0 => {
                let mut times: Vec<u64> = points.iter().map(|p| p.0).collect();
                times.sort();
                assert_eq!(times, vec![1, 2, 5]);
                assert!(points.iter().all(|p| p.2.is_none()));
            }
            1 => assert_eq!(
                points,
                vec![(1, 10.0, Some(2.0)), (2, 20.0, None), (3, 30.0, None)]
            ),
            _ => assert_eq!(points, vec![(5, 8.0, Some(4.0))]),
        }
    }
    let unknown = remap_sweep_tids(&trace, &Vec::new(), &event_names, anchor_name());
    assert!(unknown.ok().unwrap().series.is_empty());
    assert!(remap_sweep_tids(&[1], &batches, &event_names, anchor_name()).is_err());
}

#[test]
fn replay_takes_known_events_from_time_zero() {
    let trace = written(
        vec![
            RawSeries {
                event_id: 0,
                tid: 30,
                points: bits(&[(1_000, 1.0), (1_500, 2.0)]),
            },
            RawSeries {
                event_id: 1,
                tid: 30,
                points: bits(&[(100, 1.0), (9_000, 1.0)]),
            },
        ],
        &["known", "unknown"],
    );
    let registry = EventRegistry::new(library(&["other", "known"]));
    let (rates, max) = load_rates(&trace, &registry).ok().unwrap();
    assert_eq!(rates.series.len(), 1);
    assert_eq!(rates.series[0].event_id, 1);
    assert_eq!(rates.series[0].tid, 30);
    assert_eq!(rates.series[0].points, bits(&[(0, 1.0), (500, 2.0)]));
    assert_eq!(max, 500);
    let none = load_rates(&trace, &EventRegistry::new(library(&[]))).ok().unwrap();
    assert!(none.0.series.is_empty());
    assert_eq!(none.1, 0);
    assert!(load_rates(&[1], &registry).is_err());
}

#[test]
fn steps_cover_the_recorded_time() {
    assert_eq!(num_steps(0, 10), 0);
    assert_eq!(num_steps(1, 10), 1);
    assert_eq!(num_steps(10, 10), 1);
    assert_eq!(num_steps(11, 10), 2);
    assert_eq!(num_steps(7, 0), 7);
    assert_eq!(num_steps(u64::MAX, 1), u64::MAX);
}

#[test]
fn a_batch_fails_only_if_nothing_succeeded() {
    assert!(batch_outcome(3, 2).is_ok());
    assert!(batch_outcome(0, 0).is_ok());
    assert_eq!(
        batch_outcome(3, 3).err().unwrap(),
        "all 3 batch combos failed"
    );
}

#[test]
fn the_summary_shows_estimates_that_say_something() {
    let mut e = Estimate {
        tid: 17,
        event_id: 3,
        rate: 0,
        uncertainty: 1f64.to_bits(),
        sample_count: 0,
    };
    assert!(!is_shown(&e));
    e.rate = (-0.0f64).to_bits();
    assert!(!is_shown(&e));
    e.rate = f64::NAN.to_bits();
    assert!(!is_shown(&e));
    e.rate = 0.5f64.to_bits();
    assert!(is_shown(&e));
    e.rate = 0;
    e.sample_count = 4;
    assert!(is_shown(&e));
    assert_eq!(
        summary_line(&e, "0.500000", "1.000000"),
        format!("{:<6} {:<8} {:<14.6} {:<14.6} {}", 3, 17, 0.5, 1.0, 4)
    );
}

#[test]
fn a_step_that_asks_for_nothing_gets_the_quantum() {
    let p = Pace::new(10);
    assert_eq!(p.after_step(None), 10);
    assert_eq!(p.after_step(Some(5)), 5_000_000);
    assert_eq!(p.after_step(None), 10);
    assert_eq!(p.after_step(Some(0)), 0);
}

#[test]
fn synthetic_ids_do_not_depend_on_arrival() {
    let ids = |batch: Vec<BatchThread>| -> Vec<(u32, u32)> {
        let mut ids: Vec<(u32, u32)> = assign_synthetic_tids(&vec![batch])
            .iter()
            .map(|t| (t.real_tid, t.synthetic_tid))
            .collect();
        ids.sort();
        ids
    };
    let expected = vec![(10, 1), (20, 2), (30, 3)];
    assert_eq!(
        ids(vec![thread(30, "b"), thread(10, "a"), thread(20, "a")]),
        expected
    );
    assert_eq!(
        ids(vec![thread(20, "a"), thread(30, "b"), thread(10, "a")]),
        expected
    );
}

#[test]
fn synthetic_ids_leave_no_gap() {
    let batches = vec![
        vec![thread(3, "x"), thread(1, "x"), thread(2, "y")],
        vec![thread(9, "y"), thread(8, "y"), thread(7, "x")],
        vec![thread(4, "z")],
    ];
    let threads = assign_synthetic_tids(&batches);
    let mut ids: Vec<u32> = threads.iter().map(|t| t.synthetic_tid).collect();
    ids.sort();
    ids.dedup();
    assert_eq!(ids, vec![1, 2, 3, 4, 5]);
    let id = |tid: u32| threads.iter().find(|t| t.real_tid == tid).unwrap().synthetic_tid;
    assert_eq!(id(1), id(7));
    assert_eq!(id(2), id(8));
    assert_ne!(id(3), id(7));
}
