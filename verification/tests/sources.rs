use saccade::counter_backend::observations;
use saccade::hardware_counters::{all_stopped, HardwareCounters, SlotAction};
use saccade::oculomotor::Oculomotor;
use saccade::profiler::{
    active_tids, slots_or_default, spread_counts, stale_keys, Profiler,
};
use saccade::quantum::Quantum;
use saccade::sample::{read_wire_sample, task_name, RawSample, SampleType, WireSample, WIRE_SIZE};
use saccade::scheduler::ScheduleDecision;
use saccade::source::hardware::HardwareSampleSource;
use saccade::source::virtual_source::{
    RateLookup, TimeVaryingRates, TimedRates, VirtualSampleSource,
};
use saccade::source::{count_changed, slot_updates, SampleSource, SwapStats};

fn wire(cpu_id: u32, counters: [u64; 4], events: [u64; 4]) -> WireSample {
    WireSample {
        timestamp_ns: 500,
        duration_ns: 100,
        pid: 10,
        cpu_id,
        type_: SampleType::Intermediate.code(),
        tid: 11,
        counters,
        events,
        task: *b"main\0\0\0\0\0\0\0\0\0\0\0\0",
    }
}

#[test]
fn readings_become_counts_since_the_last_one() {
    let mut s = HardwareSampleSource::new(2);
    let first = s.wire_to_raw(&wire(1, [100, 7, 0, 0], [5, 0, 9, 0]));
    assert_eq!(first.len(), 2);
    assert_eq!(first[0].event_id, 5);
    assert_eq!(first[0].count, 100);
    assert_eq!(first[0].tid, 11);
    assert_eq!(first[0].pid, 10);
    assert_eq!(task_name(&first[0].task), "main");
    assert_eq!(first[1].event_id, 9);
    let second = s.wire_to_raw(&wire(1, [130, 7, 4, 0], [5, 0, 9, 0]));
    assert_eq!(second[0].count, 30);
    assert_eq!(second[1].count, 4);
    let fallen = s.wire_to_raw(&wire(1, [50, 7, 4, 0], [5, 0, 9, 0]));
    assert_eq!(fallen[0].count, 0);
    let other_cpu = s.wire_to_raw(&wire(0, [130, 0, 0, 0], [5, 0, 0, 0]));
    assert_eq!(other_cpu[0].count, 130);
}

#[test]
fn resume_markers_only_move_the_baseline() {
    let mut s = HardwareSampleSource::new(1);
    let mut resume = wire(0, [1_000, 0, 0, 0], [5, 0, 0, 0]);
    resume.type_ = SampleType::Resume.code();
    assert!(s.wire_to_raw(&resume).is_empty());
    assert_eq!(s.wire_to_raw(&wire(0, [1_010, 0, 0, 0], [5, 0, 0, 0]))[0].count, 10);
    let mut empty = wire(0, [2_000, 0, 0, 0], [5, 0, 0, 0]);
    empty.duration_ns = 0;
    assert!(s.wire_to_raw(&empty).is_empty());
    assert!(s.wire_to_raw(&wire(1, [1, 0, 0, 0], [5, 0, 0, 0])).is_empty());
    assert_eq!(s.wire_to_raw(&wire(0, [1_015, 0, 0, 0], [5, 0, 0, 0]))[0].count, 5);
}

#[test]
fn counts_of_a_slot_add_up() {
    let mut s = HardwareSampleSource::new(1);
    let wires: Vec<WireSample> = [40u64, 40, 95, 300]
        .iter()
        .map(|&c| wire(0, [c, 1, 0, 0], [3, 4, 0, 0]))
        .collect();
    let (samples, elapsed) = s.collect(&wires, 0);
    assert_eq!(elapsed, 1);
    let total: u64 = samples.iter().filter(|x| x.event_id == 3).map(|x| x.count).sum();
    assert_eq!(total, 300);
    assert_eq!(s.collect(&Vec::new(), 77).1, 77);
    assert_eq!(s.num_slots(), 4);
}

#[test]
fn only_changed_slots_are_reconfigured() {
    let all = slot_updates(&Vec::new(), &vec![7, 8]);
    assert_eq!(all.len(), 2);
    assert_eq!((all[1].slot, all[1].event_id), (1, 8));
    let some = slot_updates(&vec![7, 8, 9], &vec![7, 1, 9]);
    assert_eq!(some.len(), 1);
    assert_eq!((some[0].slot, some[0].event_id), (1, 1));
    assert_eq!(count_changed(&Vec::new(), &vec![1, 2, 3]), 3);
    assert_eq!(count_changed(&vec![1, 2], &vec![1, 3, 4]), 2);
    let grown = slot_updates(&vec![5], &vec![5, 6]);
    assert_eq!(grown.len(), 1);
    assert_eq!((grown[0].slot, grown[0].event_id), (1, 6));
    assert_eq!(count_changed(&vec![1, 2], &Vec::new()), 0);
    let mut s = HardwareSampleSource::new(1);
    s.wire_to_raw(&wire(0, [100, 0, 0, 0], [5, 0, 0, 0]));
    assert_eq!(s.apply_schedule(&vec![5], &vec![6]).len(), 1);
    assert_eq!(s.wire_to_raw(&wire(0, [3, 0, 0, 0], [6, 0, 0, 0]))[0].count, 3);
}

fn rates() -> TimeVaryingRates {
    TimeVaryingRates {
        series: vec![
            TimedRates {
                event_id: 1,
                tid: 9,
                points: vec![(10, 100), (20, 200), (40, 400)],
            },
            TimedRates {
                event_id: 1,
                tid: 4,
                points: vec![],
            },
            TimedRates {
                event_id: 2,
                tid: 4,
                points: vec![(0, 7)],
            },
        ],
    }
}

#[test]
fn rates_are_held_at_the_ends_and_lie_between_inside() {
    let r = rates();
    assert!(matches!(r.rate_at(1, 9, 0), RateLookup::Held(100)));
    assert!(matches!(r.rate_at(1, 9, 10), RateLookup::Held(100)));
    assert!(matches!(r.rate_at(1, 9, 40), RateLookup::Held(400)));
    assert!(matches!(r.rate_at(1, 9, 99), RateLookup::Held(400)));
    assert!(matches!(r.rate_at(1, 4, 5), RateLookup::Zero));
    assert!(matches!(r.rate_at(3, 9, 5), RateLookup::Zero));
    match r.rate_at(1, 9, 20) {
        RateLookup::Between { t0, r0, t1, r1 } => assert_eq!((t0, r0, t1, r1), (20, 200, 40, 400)),
        _ => panic!("not between"),
    }
    match r.rate_at(1, 9, 19) {
        RateLookup::Between { t0, r0, t1, r1 } => assert_eq!((t0, r0, t1, r1), (10, 100, 20, 200)),
        _ => panic!("not between"),
    }
}

#[test]
fn a_simulated_quantum_is_cut_into_samples() {
    let mut s = VirtualSampleSource::new(rates(), 100, 30, 4);
    assert!(s.plan().is_empty());
    let stats = s.apply_schedule(&Vec::new(), &vec![1, 2, 8]);
    assert_eq!(stats.slots_changed, 3);
    assert_eq!((stats.quiesce_ns, stats.reconfig_ns), (0, 0));
    let plan = s.plan();
    let keys: Vec<(u32, u32, u64)> = plan.iter().map(|p| (p.event_id, p.tid, p.start_ns)).collect();
    assert_eq!(
        keys,
        vec![
            (1, 4, 0),
            (1, 4, 30),
            (1, 4, 60),
            (1, 9, 0),
            (1, 9, 30),
            (1, 9, 60),
            (2, 4, 0),
            (2, 4, 30),
            (2, 4, 60),
        ]
    );
    let counts: Vec<u64> = (0..9).collect();
    let (samples, elapsed) = s.collect(&plan, &counts);
    assert_eq!(elapsed, 100);
    assert_eq!(samples[5].timestamp_ns, 90);
    assert_eq!(samples[5].duration_ns, 30);
    assert_eq!(samples[5].count, 5);
    assert_eq!(task_name(&samples[5].task), "simulate");
    assert_eq!(s.plan()[0].start_ns, 100);
    assert_eq!(s.num_slots(), 4);
}

#[test]
fn samples_fill_a_quantum_that_they_divide() {
    let mut s = VirtualSampleSource::new(rates(), 90, 30, 1);
    s.apply_schedule(&Vec::new(), &vec![2]);
    let plan = s.plan();
    assert_eq!(plan.last().unwrap().start_ns + 30, 90);
    let short = {
        let mut s = VirtualSampleSource::new(rates(), 10, 0, 1);
        s.apply_schedule(&Vec::new(), &vec![2]);
        s.plan().len()
    };
    assert_eq!(short, 10);
}

struct Silent;

impl SampleSource for Silent {
    fn collect(&mut self) -> (Vec<RawSample>, u64) {
        (Vec::new(), 5)
    }

    fn apply_schedule(&mut self, old: &Vec<u32>, new: &Vec<u32>) -> Result<SwapStats, String> {
        Ok(SwapStats {
            slots_changed: count_changed(old, new),
            ..SwapStats::default()
        })
    }

    fn num_slots(&self) -> usize {
        2
    }
}

#[test]
fn a_step_moves_the_clock_and_the_active_set() {
    let mut source = Silent;
    let mut p = Profiler::new();
    let (samples, elapsed) = source.collect();
    let quantum = p.begin_step(samples, elapsed);
    assert_eq!(quantum.timestamp_ns(), 5);
    assert_eq!(quantum.elapsed_ns(), 5);
    let next = vec![3, 4];
    assert_eq!(source.apply_schedule(p.active_set(), &next).unwrap().slots_changed, 2);
    let asked = p.end_step(ScheduleDecision {
        active_events: next,
        duration: Some(9),
    });
    assert_eq!(asked, Some(9));
    assert_eq!(*p.active_set(), vec![3, 4]);
    p.begin_step(Vec::new(), 7);
    assert_eq!(p.current_time_ns(), 12);
    assert_eq!(slots_or_default(Some(source.num_slots())), 2);
    assert_eq!(slots_or_default(None), 4);
    assert!(!spread_counts(1) && spread_counts(2));
}

fn sample(tid: u32, event_id: u32, count: u64) -> RawSample {
    RawSample {
        timestamp_ns: 0,
        duration_ns: 10,
        cpu_id: 0,
        pid: 1,
        tid,
        event_id,
        count,
        task: [0; 16],
    }
}

#[test]
fn unobserved_keys_get_time_updates() {
    let mut p = Profiler::new();
    let quantum = p.begin_step(vec![sample(1, 5, 3), sample(2, 6, 4)], 10);
    let observed = quantum.per_thread_aggregates();
    let keys = vec![(1, 5), (1, 6), (2, 6), (3, 5)];
    assert_eq!(stale_keys(&keys, &observed), vec![(1, 6), (3, 5)]);
    assert_eq!(active_tids(&keys), vec![1, 2, 3]);
}

#[test]
fn quanta_add_up_per_event_and_per_thread() {
    let mut p = Profiler::new();
    let mut idle = sample(2, 6, 100);
    idle.duration_ns = 0;
    let quantum = p.begin_step(
        vec![sample(1, 5, 3), sample(2, 5, 9), idle, sample(1, 5, 6)],
        10,
    );
    let all = quantum.aggregates();
    assert_eq!(all.len(), 1);
    assert_eq!(all[0].total_count, 18);
    assert_eq!(all[0].total_duration_ns, 30);
    assert_eq!(all[0].num_samples, 3);
    assert_eq!(all[0].min_rate.count, 3);
    assert_eq!(all[0].max_rate.count, 9);
    assert_eq!(quantum.observed_events(), vec![5, 6]);
    let threads = quantum.per_thread_aggregates();
    assert_eq!(threads.len(), 2);
    let one = threads.iter().find(|t| t.tid == 1).unwrap();
    assert_eq!(one.aggregate.total_count, 9);
    assert_eq!(one.aggregate.rates.len(), 2);
    let over_threads: u64 = threads.iter().map(|t| t.aggregate.total_count).sum();
    assert_eq!(over_threads, all[0].total_count);
    let samples: u32 = threads.iter().map(|t| t.aggregate.num_samples).sum();
    assert_eq!(samples, all[0].num_samples);
    assert!(threads.iter().any(|t| t.aggregate.min_rate.count == all[0].min_rate.count));
    assert!(threads.iter().any(|t| t.aggregate.max_rate.count == all[0].max_rate.count));
    assert!(!threads.iter().any(|t| t.aggregate.event_id == 6));
}

#[test]
fn events_without_duration_are_observed() {
    let mut idle = sample(2, 7, 100);
    idle.duration_ns = 0;
    let quantum = Quantum::new(vec![idle], 10, 10);
    assert_eq!(quantum.observed_events(), vec![7]);
    assert!(quantum.aggregates().is_empty());
    let quantum = Quantum::new(vec![idle, sample(1, 3, 1), idle, sample(2, 3, 1)], 10, 10);
    assert_eq!(quantum.observed_events(), vec![7, 3]);
    assert!(Quantum::new(Vec::new(), 10, 10).observed_events().is_empty());
}

#[test]
fn slot_readings_are_added_up_per_event() {
    let wires = vec![
        wire(0, [5, 0, 2, 0], [1, 0, 3, 0]),
        wire(1, [7, 0, 0, 0], [3, 0, 0, 0]),
    ];
    let mut all = observations(&wires);
    all.sort_by_key(|o| o.event_id);
    assert_eq!(all.len(), 2);
    assert_eq!((all[0].event_id, all[0].total_count, all[0].total_duration_ns), (1, 5, 100));
    assert_eq!((all[1].event_id, all[1].total_count, all[1].total_duration_ns), (3, 9, 200));
    assert_eq!((all[0].num_samples, all[1].num_samples), (1, 2));
    let rates: Vec<(u64, u64)> =
        all[1].rates.iter().map(|r| (r.count, r.duration_ns)).collect();
    assert_eq!(rates, vec![(2, 100), (7, 100)]);
    assert_eq!(all[1].min_rate.unwrap().count, 2);
    assert_eq!(all[1].max_rate.unwrap().count, 7);

    let mut o = Oculomotor::new();
    let plan = o.begin_step(&all, 4);
    assert_eq!(plan.elapsed_ns, 300);
    assert_eq!(plan.timestamp_ns, 300);
    assert_eq!(plan.measured.len(), 2);
    assert_eq!(plan.measured[0].event_id, 1);
    assert_eq!((plan.measured[0].rate.count, plan.measured[0].rate.duration_ns), (5, 100));
    assert!(plan.measured[0].spread.is_empty());
    assert_eq!((plan.measured[1].rate.count, plan.measured[1].rate.duration_ns), (9, 200));
    assert_eq!(plan.measured[1].spread.len(), 2);
    assert_eq!(plan.unmeasured, vec![0, 2]);
    o.end_step(ScheduleDecision {
        active_events: vec![2],
        duration: None,
    });
    assert_eq!(*o.active_set(), vec![2]);
    let plan = o.begin_step(&Vec::new(), 2);
    assert_eq!(plan.elapsed_ns, 1);
    assert_eq!(plan.unmeasured, vec![0, 1]);
    assert_eq!(o.last_step_ns(), 301);
}

#[test]
fn records_are_read_field_by_field() {
    let mut data: Vec<u8> = Vec::new();
    data.extend_from_slice(&0x0102030405060708u64.to_le_bytes());
    data.extend_from_slice(&9u64.to_le_bytes());
    for v in [10u32, 11, 2, 0xFFFFFFFF] {
        data.extend_from_slice(&v.to_le_bytes());
    }
    for v in [20u64, 21, 22, u64::MAX, 30, 31, 32, 33] {
        data.extend_from_slice(&v.to_le_bytes());
    }
    data.extend_from_slice(b"0123456789abcdef");
    assert_eq!(data.len(), WIRE_SIZE);
    assert!(read_wire_sample(&data[..WIRE_SIZE - 1]).is_none());
    data.push(99);
    let w = read_wire_sample(&data).unwrap();
    assert_eq!(w.timestamp_ns, 0x0102030405060708);
    assert_eq!((w.duration_ns, w.pid, w.cpu_id, w.type_, w.tid), (9, 10, 11, 2, u32::MAX));
    assert_eq!(w.counters, [20, 21, 22, u64::MAX]);
    assert_eq!(w.events, [30, 31, 32, 33]);
    assert_eq!(&w.task, b"0123456789abcdef");
}

#[test]
fn slots_change_at_a_standstill() {
    let mut c = HardwareCounters::new(4, 2);
    assert_eq!(
        c.update_slot(1, 7),
        vec![
            SlotAction::StopTracking,
            SlotAction::AwaitStopped,
            SlotAction::SetEvent { event_id: 7 },
            SlotAction::Open { cpu: 0 },
            SlotAction::Open { cpu: 1 },
            SlotAction::ResumeTracking,
        ]
    );
    let again = c.update_slot(1, 8);
    assert_eq!(again[2], SlotAction::Disable { cpu: 0 });
    assert_eq!(again[3], SlotAction::Disable { cpu: 1 });
    assert_eq!(again.len(), 8);
    assert!(all_stopped(&vec![true, true, false], 2));
    assert!(!all_stopped(&vec![true, false], 2));
}

#[test]
fn a_run_of_readings_gives_differences() {
    let mut s = HardwareSampleSource::new(2);
    let mut resume = wire(1, [50, 1_000, 0, 0], [4, 6, 0, 0]);
    resume.type_ = SampleType::Resume.code();
    assert!(s.wire_to_raw(&resume).is_empty());
    let mut total = 0;
    for (reading, expected) in [(1_000u64, 0u64), (1_020, 20), (1_500, 480)] {
        let samples = s.wire_to_raw(&wire(1, [60, reading, 9, 0], [6, 6, 0, 0]));
        assert_eq!(samples.len(), 2);
        assert_eq!(samples[1].event_id, 6);
        assert_eq!(samples[1].count, expected);
        assert_eq!((samples[1].timestamp_ns, samples[1].duration_ns), (500, 100));
        total += samples[1].count;
    }
    assert_eq!(total, 500);
    assert_eq!(s.wire_to_raw(&wire(0, [3, 0, 0, 0], [5, 0, 0, 0]))[0].count, 3);
}

#[test]
fn an_unchanged_schedule_keeps_the_baselines() {
    let mut s = HardwareSampleSource::new(1);
    assert_eq!(s.wire_to_raw(&wire(0, [100, 0, 0, 0], [5, 0, 0, 0]))[0].count, 100);
    assert!(s.apply_schedule(&vec![5], &vec![5]).is_empty());
    assert_eq!(s.wire_to_raw(&wire(0, [130, 0, 0, 0], [5, 0, 0, 0]))[0].count, 30);
    assert_eq!(s.apply_schedule(&vec![5], &vec![5, 6]).len(), 1);
    assert_eq!(s.wire_to_raw(&wire(0, [7, 0, 0, 0], [5, 0, 0, 0]))[0].count, 7);
}
