use saccade::quantum::Quantum;
use saccade::sample::RawSample;
use saccade::scheduler::distribution::DistributionScheduler;
use saccade::scheduler::fixed::FixedScheduler;
use saccade::scheduler::max_uncertainty::MaxUncertaintyScheduler;
use saccade::scheduler::random::RandomScheduler;
use saccade::scheduler::rate_of_change::RateOfChangeScheduler;
use saccade::scheduler::round_robin::RoundRobinScheduler;
use saccade::scheduler::test::TestScheduler;
use saccade::scheduler::{order_key, EventScore, ScheduleDecision};
use saccade::event::{Event, EventLibrary, EventRegistry};
use saccade::state::{estimates_by_event, total_samples, Estimate};

fn estimate(tid: u32, event_id: u32, uncertainty: f64) -> Estimate {
    Estimate {
        tid,
        event_id,
        rate: 0,
        uncertainty: uncertainty.to_bits(),
        sample_count: 0,
    }
}

fn means(estimates: &[Estimate]) -> Vec<EventScore> {
    estimates_by_event(&estimates.to_vec())
        .iter()
        .map(|group| {
            let sum: f64 = group
                .entries
                .iter()
                .map(|e| f64::from_bits(e.uncertainty))
                .sum();
            EventScore {
                event_id: group.event_id,
                score: (sum / group.entries.len() as f64).to_bits(),
            }
        })
        .collect()
}

fn five() -> Vec<Estimate> {
    vec![
        estimate(1, 1, 0.1),
        estimate(1, 2, 0.9),
        estimate(1, 3, 0.5),
        estimate(1, 4, 0.8),
        estimate(1, 5, 0.2),
    ]
}

fn two_threads() -> Vec<Estimate> {
    vec![
        estimate(1, 1, 0.2),
        estimate(2, 1, 0.4),
        estimate(1, 2, 0.8),
        estimate(2, 2, 0.6),
    ]
}

fn distribution(events: Vec<u32>, slots: usize) -> DistributionScheduler {
    let mut s = DistributionScheduler::new();
    s.init(events, slots);
    s
}

fn max_uncertainty(events: Vec<u32>, slots: usize) -> MaxUncertaintyScheduler {
    let mut s = MaxUncertaintyScheduler::new();
    s.init(events, slots);
    s
}

fn sorted(mut v: Vec<u32>) -> Vec<u32> {
    v.sort_unstable();
    v
}

#[test]
fn distribution_selects_highest_uncertainty_events() {
    let mut sched = distribution(vec![1, 2, 3, 4, 5], 2);
    let decision = sched.next_step(&means(&five()));
    assert_eq!(sorted(decision.active_events), vec![2, 4]);
}

#[test]
fn distribution_averages_uncertainty_across_threads() {
    let mut sched = distribution(vec![1, 2], 1);
    let decision = sched.next_step(&means(&two_threads()));
    assert_eq!(decision.active_events, vec![2]);
}

#[test]
fn empty_estimator_returns_empty() {
    let mut sched = distribution(vec![1, 2, 3], 4);
    let decision = sched.next_step(&Vec::new());
    assert!(decision.active_events.is_empty());
}

#[test]
fn distribution_fewer_events_than_slots_returns_all() {
    let mut sched = distribution(vec![1, 2], 4);
    let decision = sched.next_step(&means(&[estimate(1, 1, 0.5), estimate(1, 2, 0.3)]));
    assert_eq!(decision.active_events.len(), 2);
}

#[test]
fn distribution_duration_is_none() {
    let mut sched = distribution(vec![1], 4);
    let decision = sched.next_step(&means(&[estimate(1, 1, 0.5)]));
    assert!(decision.duration.is_none());
}

#[test]
fn max_uncertainty_selects_highest_uncertainty_events() {
    let mut sched = max_uncertainty(vec![1, 2, 3, 4, 5], 2);
    let decision = sched.next_step(&means(&five()));
    assert_eq!(sorted(decision.active_events), vec![2, 4]);
}

#[test]
fn max_uncertainty_averages_uncertainty_across_threads() {
    let mut sched = max_uncertainty(vec![1, 2], 1);
    let decision = sched.next_step(&means(&two_threads()));
    assert_eq!(decision.active_events, vec![2]);
}

#[test]
fn cold_start_bootstraps_all_events() {
    let mut sched = max_uncertainty(vec![1, 2, 3], 4);
    let decision = sched.next_step(&Vec::new());
    assert_eq!(sorted(decision.active_events), vec![1, 2, 3]);
}

#[test]
fn unmeasured_events_outrank_measured_ones() {
    let mut sched = max_uncertainty(vec![1, 2, 3], 2);
    let decision = sched.next_step(&means(&[estimate(1, 2, 0.9)]));
    assert_eq!(sorted(decision.active_events), vec![1, 3]);
}

#[test]
fn max_uncertainty_fewer_events_than_slots_returns_all() {
    let mut sched = max_uncertainty(vec![1, 2], 4);
    let decision = sched.next_step(&means(&[estimate(1, 1, 0.5), estimate(1, 2, 0.3)]));
    assert_eq!(decision.active_events.len(), 2);
}

#[test]
fn max_uncertainty_duration_is_none() {
    let mut sched = max_uncertainty(vec![1], 4);
    let decision = sched.next_step(&means(&[estimate(1, 1, 0.5)]));
    assert!(decision.duration.is_none());
}

#[test]
fn ties_go_by_ascending_id() {
    let mut sched = max_uncertainty(vec![3, 1, 2], 2);
    assert_eq!(sched.next_step(&Vec::new()).active_events, vec![1, 2]);
    let all: Vec<u32> = (0..200).rev().collect();
    let mut sched = max_uncertainty(all, 200);
    let decision = sched.next_step(&Vec::new());
    assert_eq!(decision.active_events, (0..200).collect::<Vec<u32>>());
    let mut sched = max_uncertainty(vec![5, 4, 9, 2], 4);
    let means: Vec<EventScore> = [(5u32, 2.0f64), (4, 1.0), (9, 2.0), (2, 1.0)]
        .iter()
        .map(|&(event_id, score)| EventScore { event_id, score: score.to_bits() })
        .collect();
    assert_eq!(sched.next_step(&means).active_events, vec![5, 9, 2, 4]);
}

fn make_quantum(event_rates: &[(u32, f64)], timestamp_ns: u64, elapsed_ns: u64) -> Quantum {
    const DURATION_NS: u64 = 1_000_000;
    let samples: Vec<RawSample> = event_rates
        .iter()
        .map(|&(event_id, rate)| RawSample {
            timestamp_ns,
            duration_ns: DURATION_NS,
            cpu_id: 0,
            pid: 1,
            tid: 1,
            event_id,
            count: (rate * DURATION_NS as f64) as u64,
            task: [0u8; 16],
        })
        .collect();
    Quantum::new(samples, timestamp_ns, elapsed_ns)
}

fn triangle_cost(a: (u64, u64), b: (u64, u64), c: (u64, u64), delta_t_ns: f64) -> f64 {
    let (ax, ay) = (a.0 as f64, f64::from_bits(a.1));
    let (bx, by) = (b.0 as f64, f64::from_bits(b.1));
    let (cx, cy) = (c.0 as f64, f64::from_bits(c.1));
    let delta_y = if cx != ax {
        (cy - ay) / (cx - ax) * (bx - ax)
    } else {
        0.0
    };
    ((by - ay - delta_y).abs() / 2.0) * delta_t_ns
}

fn change_step(sched: &mut RateOfChangeScheduler, quantum: &Quantum) -> ScheduleDecision {
    let now = quantum.timestamp_ns();
    let rates: Vec<EventScore> = quantum
        .aggregates()
        .iter()
        .map(|a| {
            let sum: f64 = a
                .rates
                .iter()
                .map(|r| r.count as f64 / r.duration_ns as f64)
                .sum();
            EventScore {
                event_id: a.event_id,
                score: (sum / a.num_samples as f64).to_bits(),
            }
        })
        .collect();
    sched.observe(now, quantum.elapsed_ns(), &rates);
    let costs: Vec<u64> = sched
        .cost_inputs(now)
        .iter()
        .map(|input| match input {
            Some(i) => triangle_cost(i.a, i.b, i.c, i.delta_t_ns as f64).to_bits(),
            None => 0,
        })
        .collect();
    sched.select(now, &costs)
}

fn rate_of_change(events: Vec<u32>, slots: usize) -> RateOfChangeScheduler {
    let mut s = RateOfChangeScheduler::default();
    s.init(events, slots);
    s
}

const ELAPSED: u64 = 10_000_000;

#[test]
fn tier0_events_selected_before_tier1() {
    let mut sched = rate_of_change(vec![1, 2, 3], 1);
    let d = change_step(&mut sched, &make_quantum(&[(3, 1.0)], 1_000_000, ELAPSED));
    assert_eq!(d.active_events, vec![1]);
}

#[test]
fn tier1_favors_longest_unseen() {
    let mut sched = rate_of_change(vec![1, 2], 1);
    let d1 = change_step(
        &mut sched,
        &make_quantum(&[(1, 1.0), (2, 1.0)], 1_000_000, ELAPSED),
    );
    assert_eq!(d1.active_events, vec![1]);
    let d2 = change_step(
        &mut sched,
        &make_quantum(&[(1, 2.0), (2, 2.0)], 2_000_000, ELAPSED),
    );
    assert_eq!(d2.active_events, vec![2]);
}

#[test]
fn nonlinear_event_wins_over_linear_in_tier2() {
    let mut sched = rate_of_change(vec![1, 2], 1);
    change_step(&mut sched, &make_quantum(&[(1, 1.0), (2, 1.0)], 0, ELAPSED));
    change_step(
        &mut sched,
        &make_quantum(&[(1, 2.0), (2, 10.0)], 1_000_000, ELAPSED),
    );
    let d = change_step(
        &mut sched,
        &make_quantum(&[(1, 3.0), (2, 2.0)], 2_000_000, ELAPSED),
    );
    assert_eq!(d.active_events, vec![2]);
}

#[test]
fn selects_exactly_num_slots() {
    let mut sched = rate_of_change(vec![1, 2, 3, 4, 5], 3);
    let d = change_step(&mut sched, &make_quantum(&[], 1_000_000, ELAPSED));
    assert_eq!(d.active_events.len(), 3);
}

#[test]
fn rate_of_change_fewer_events_than_slots_returns_all() {
    let mut sched = rate_of_change(vec![1, 2], 5);
    let d = change_step(&mut sched, &make_quantum(&[], 1_000_000, ELAPSED));
    assert_eq!(d.active_events.len(), 2);
}

#[test]
fn rate_of_change_duration_is_none() {
    let mut sched = rate_of_change(vec![1], 4);
    let d = change_step(&mut sched, &make_quantum(&[(1, 1.0)], 1_000_000, ELAPSED));
    assert!(d.duration.is_none());
}

#[test]
fn old_observations_are_forgotten() {
    let mut sched = rate_of_change(vec![1], 1);
    for t in 0..3u64 {
        change_step(&mut sched, &make_quantum(&[(1, 1.0)], t, 1));
    }
    assert!(sched.cost_inputs(2)[0].is_some());
    change_step(&mut sched, &make_quantum(&[], 1_000, 1));
    assert!(sched.cost_inputs(1_000)[0].is_none());
}

#[test]
fn no_cost_goes_before_an_unobserved_event() {
    for cost in [f64::MAX, f64::INFINITY, f64::NAN, f64::MAX / 2.0, 1.0] {
        let mut sched = rate_of_change(vec![1, 2, 3], 3);
        for t in 0..3u64 {
            let score = EventScore { event_id: 1, score: 1f64.to_bits() };
            sched.observe(t, ELAPSED, &vec![score]);
        }
        let score = EventScore { event_id: 2, score: 1f64.to_bits() };
        sched.observe(3, ELAPSED, &vec![score]);
        let d = sched.select(4, &vec![cost.to_bits(), 0, 0]);
        assert_eq!(d.active_events, vec![3, 2, 1]);
    }
}

#[test]
fn scores_are_ordered_like_numbers() {
    let numbers = [
        f64::NEG_INFINITY,
        -2.0,
        -0.0,
        0.0,
        1e-300,
        1.5,
        f64::INFINITY,
    ];
    for w in numbers.windows(2) {
        assert!(order_key(w[0].to_bits()) < order_key(w[1].to_bits()));
    }
    assert!(order_key(f64::INFINITY.to_bits()) < order_key(f64::NAN.to_bits()));
}

#[test]
fn fixed_schedules_stay() {
    let mut s = FixedScheduler::new(vec![7, 9]);
    s.init(vec![1, 2, 3], 1);
    assert_eq!(s.next_step().active_events, vec![7, 9]);
    assert_eq!(s.next_step().active_events, vec![7, 9]);
    assert!(s.next_step().duration.is_none());
}

#[test]
fn round_robin_takes_windows_in_turn() {
    let mut s = RoundRobinScheduler::new();
    s.init(vec![10, 20, 30], 2);
    assert_eq!(s.next_step().active_events, vec![10, 20]);
    assert_eq!(s.next_step().active_events, vec![30, 10]);
    assert_eq!(s.next_step().active_events, vec![20, 30]);
    let mut empty = RoundRobinScheduler::new();
    empty.init(Vec::new(), 2);
    assert!(empty.next_step().active_events.is_empty());
}

#[test]
fn random_draws_are_different_events() {
    let mut s = RandomScheduler::new();
    s.init((0..50).collect(), 10);
    let mut different = false;
    let first = s.next_step().active_events;
    for _ in 0..20 {
        let drawn = s.next_step().active_events;
        assert_eq!(drawn.len(), 10);
        let mut unique = sorted(drawn.clone());
        unique.dedup();
        assert_eq!(unique.len(), 10);
        assert!(unique.iter().all(|e| *e < 50));
        different = different || drawn != first;
    }
    assert!(different);
    s.init(vec![3], 10);
    assert_eq!(s.next_step().active_events, vec![3]);
}

fn named(name: &str) -> Event {
    Event {
        name: name.to_string(),
        desc: String::new(),
        event: 0,
        umask: 0,
    }
}

#[test]
fn the_test_scheduler_takes_the_events_it_knows() {
    let registry = EventRegistry::new(EventLibrary {
        events: vec![named("ex_ret_brn"), named("other"), named("ex_ret_instr")],
    });
    let mut s = TestScheduler::new(&registry);
    s.init(registry.get_event_ids(), 1);
    let d = s.next_step();
    assert_eq!(d.active_events, vec![2]);
    assert_eq!(d.duration, Some(10));
    assert_eq!(s.next_step().active_events, vec![0]);
    assert_eq!(s.next_step().active_events, vec![2]);
    let none = EventRegistry::new(EventLibrary { events: vec![named("x")] });
    let d = TestScheduler::new(&none).next_step();
    assert!(d.active_events.is_empty() && d.duration.is_none());
}

#[test]
fn samples_add_up_over_threads() {
    let mut a = estimate(1, 1, 0.5);
    a.sample_count = 3;
    let mut b = estimate(2, 1, 0.5);
    b.sample_count = 4;
    assert_eq!(total_samples(&vec![a, b]), 7);
}

#[test]
fn a_rotation_reaches_every_event() {
    let events: Vec<u32> = (0..7).collect();
    let mut s = RoundRobinScheduler::new();
    s.init(events.clone(), 3);
    let mut seen: Vec<u32> = Vec::new();
    for _ in 0..3 {
        let window = s.next_step().active_events;
        assert_eq!(window.len(), 3);
        seen.extend(window);
    }
    assert!(events.iter().all(|e| seen.contains(e)));
}
