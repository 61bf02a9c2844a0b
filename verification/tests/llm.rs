use saccade::config::SchedulerKind;
use saccade::llm::client::{
    effective_latency, is_retryable, reply_text, retry_backoff, LlmClient, LlmError, RoundTrip,
    TransportError, CONNECT_TIMEOUT_NS, MAX_ATTEMPTS, RESPONSE_TIMEOUT_NS,
    RETRY_BACKOFF_BASE_NS, RETRY_BACKOFF_CAP_NS,
};
use saccade::llm::latency_profile::{generator_seed, LatencyEntry, LlmLatencyProfile};
use saccade::llm::prompt::PromptBuilder;
use saccade::scheduler::dynamic_llm::{Arrival, DynamicLlmScheduler, ObservedRate};
use saccade::scheduler::llm_common::{
    array_text, build_init_prompt, correction, event_list, example_steps, parse_failure,
    parse_schedule_response, system_message, EventInfo, Retries, ScheduleStep,
};
use saccade::scheduler::static_llm::StaticLlmScheduler;
use saccade::scheduler::weighted_round_robin_llm::{
    build_weights_prompt, check_weights, gcd_u32, EventWeight, WeightedRoundRobinLlmScheduler,
};

fn events() -> Vec<u32> {
    vec![0, 1, 2, 3, 4]
}

fn parse_steps(text: &str) -> Result<Vec<ScheduleStep>, String> {
    let value: serde_json::Value = serde_json::from_str(text).map_err(|e| e.to_string())?;
    let list = value.as_array().ok_or("no array".to_string())?;
    list.iter()
        .map(|step| {
            let duration_ms = step["duration_ms"].as_u64().ok_or("no duration".to_string())?;
            let ids = step["events"].as_array().ok_or("no events".to_string())?;
            let events = ids
                .iter()
                .map(|id| id.as_u64().map(|id| id as u32).ok_or("no id".to_string()))
                .collect::<Result<Vec<u32>, String>>()?;
            Ok(ScheduleStep { duration_ms, events })
        })
        .collect()
}

fn parse(response: &str, all: &[u32], num_slots: usize) -> Result<Vec<ScheduleStep>, String> {
    parse_schedule_response(response, &all.to_vec(), num_slots, parse_steps)
}

#[test]
fn parse_valid_schedule() {
    let json = r#"[
            {"duration_ms": 25, "events": [0, 1]},
            {"duration_ms": 30, "events": [2, 3, 4]}
        ]"#;
    let steps = parse(json, &events(), 4).ok().unwrap();
    assert_eq!(steps.len(), 2);
    assert_eq!(steps[0].duration_ms, 25);
    assert_eq!(steps[0].events, vec![0, 1]);
    assert_eq!(steps[1].events, vec![2, 3, 4]);
}

#[test]
fn parse_no_array() {
    let err = parse("the model just said hello", &events(), 4).err().unwrap();
    assert!(err.contains("no JSON array found"));
}

#[test]
fn parse_empty_array() {
    let err = parse("[]", &events(), 4).err().unwrap();
    assert!(err.contains("empty"));
}

#[test]
fn parse_filters_invalid_ids() {
    let json = r#"[{"duration_ms": 20, "events": [0, 99]}]"#;
    let steps = parse(json, &[0, 1], 4).ok().unwrap();
    assert_eq!(steps[0].events, vec![0]);
}

#[test]
fn parse_all_invalid_ids_errors() {
    let json = r#"[{"duration_ms": 20, "events": [99, 100]}]"#;
    let err = parse(json, &[0, 1], 4).err().unwrap();
    assert!(err.contains("invalid event IDs"), "got: {err}");
}

#[test]
fn parse_skips_bad_step_keeps_good() {
    let json = r#"[
            {"duration_ms": 20, "events": [99, 100]},
            {"duration_ms": 30, "events": [0, 1]}
        ]"#;
    let steps = parse(json, &[0, 1], 4).ok().unwrap();
    assert_eq!(steps.len(), 1);
    assert_eq!(steps[0].events, vec![0, 1]);
}

#[test]
fn parse_clamps_zero_duration() {
    let json = r#"[{"duration_ms": 0, "events": [0]}]"#;
    let steps = parse(json, &[0], 4).ok().unwrap();
    assert_eq!(steps[0].duration_ms, 1);
}

#[test]
fn parse_truncates_to_num_slots() {
    let json = r#"[{"duration_ms": 10, "events": [0, 1, 2, 3, 4]}]"#;
    let steps = parse(json, &events(), 2).ok().unwrap();
    assert_eq!(steps[0].events.len(), 2);
}

#[test]
fn parse_reports_json_errors_with_the_response() {
    let response = "sure: [{\"duration_ms\": oops}]";
    let err = parse(response, &events(), 2).err().unwrap();
    assert!(err.starts_with("failed to parse LLM schedule JSON: "), "got: {err}");
    assert!(err.ends_with(response), "got: {err}");
    assert_eq!(
        parse_failure("e", "r"),
        "failed to parse LLM schedule JSON: e\nresponse:\nr"
    );
}

#[test]
fn array_is_found_between_other_words() {
    assert_eq!(array_text("here: [1, 2] done").ok().unwrap(), "[1, 2]");
    assert!(array_text("] [").is_err());
}

#[test]
fn is_retryable_classifies_status_codes() {
    assert!(is_retryable(&TransportError::StatusCode(429)));
    assert!(is_retryable(&TransportError::StatusCode(500)));
    assert!(is_retryable(&TransportError::StatusCode(503)));
    assert!(!is_retryable(&TransportError::StatusCode(404)));
    assert!(!is_retryable(&TransportError::StatusCode(400)));
    assert!(!is_retryable(&TransportError::Other));
}

#[test]
fn lost_connections_are_retried() {
    assert!(is_retryable(&TransportError::Timeout));
    assert!(is_retryable(&TransportError::Io));
    assert!(is_retryable(&TransportError::ConnectionFailed));
}

#[test]
fn only_server_errors_and_rate_limits_are_retried() {
    for (code, retried) in [(428, false), (429, true), (430, false), (499, false), (500, true)] {
        assert_eq!(is_retryable(&TransportError::StatusCode(code)), retried);
    }
    for (code, retried) in [(599, true), (600, false), (999, false)] {
        assert_eq!(is_retryable(&TransportError::StatusCode(code)), retried);
    }
}

#[test]
fn retry_backoff_grows_and_caps() {
    assert!(retry_backoff(1) >= RETRY_BACKOFF_BASE_NS);
    assert!(retry_backoff(2) >= RETRY_BACKOFF_BASE_NS * 2);
    let max = RETRY_BACKOFF_CAP_NS as f64 * 1.25;
    for attempt in 1..=8 {
        assert!(retry_backoff(attempt) as f64 <= max);
    }
}

#[test]
fn a_round_trip_gives_up_in_the_end() {
    let mut trip = RoundTrip::start();
    let mut pauses = 0;
    while let Some(pause) = trip.failed(&TransportError::Timeout) {
        assert!(pause >= RETRY_BACKOFF_BASE_NS);
        pauses += 1;
        assert!(pauses < 100);
    }
    assert_eq!(pauses, MAX_ATTEMPTS - 1);
    let mut other = RoundTrip::start();
    assert!(other.failed(&TransportError::StatusCode(400)).is_none());
}

#[test]
fn client_addresses_and_authorization() {
    let c = LlmClient::new("http://host:1//", "gemma4", Some("key"));
    assert_eq!(c.endpoint(), "http://host:1/v1/chat/completions");
    assert_eq!(c.model(), "gemma4");
    assert_eq!(c.authorization().unwrap(), "Bearer key");
    assert!(LlmClient::new("http://h", "m", None).authorization().is_none());
}

#[test]
fn replies_come_from_the_first_choice() {
    let ok = reply_text(
        Some(vec!["first".to_string(), "second".to_string()]),
        "body".to_string(),
    );
    assert_eq!(ok.ok().unwrap(), "first");
    let none = reply_text(Some(Vec::new()), "body".to_string()).err().unwrap();
    assert_eq!(none.message(), "bad LLM response: body");
    let bad = reply_text(None, "body".to_string()).err().unwrap();
    assert_eq!(bad.message(), "bad LLM response: body");
    assert_eq!(LlmError::Http("x".to_string()).message(), "HTTP error: x");
    assert_eq!(LlmError::Json("x".to_string()).message(), "JSON error: x");
}

#[test]
fn latencies_are_drawn_from_the_profile() {
    let entries = vec![
        LatencyEntry {
            call_type: "static_setup".to_string(),
            samples: vec![11, 22, 33],
        },
        LatencyEntry {
            call_type: "empty".to_string(),
            samples: Vec::new(),
        },
    ];
    let mut profile = LlmLatencyProfile::new(entries, Some(7));
    for _ in 0..50 {
        let v = profile.sample("static_setup").unwrap();
        assert!(v == 11 || v == 22 || v == 33);
    }
    assert!(profile.sample("empty").is_none());
    assert!(profile.sample("unknown").is_none());
    assert_eq!(generator_seed(7), 8);
    assert_eq!(generator_seed(u64::MAX), 0);
    assert_eq!(effective_latency(Some(5), 9), 5);
    assert_eq!(effective_latency(None, 9), 9);
    let from_os = LlmLatencyProfile::new(
        vec![LatencyEntry {
            call_type: "one".to_string(),
            samples: vec![4],
        }],
        None,
    );
    let mut from_os = from_os;
    assert_eq!(from_os.sample("one"), Some(4));
}

#[test]
fn seeds_make_draws_repeatable() {
    let draws = |seed: u64| -> Vec<u64> {
        let entries = vec![LatencyEntry {
            call_type: "one".to_string(),
            samples: (0..1_000).collect(),
        }];
        let mut profile = LlmLatencyProfile::new(entries, Some(seed));
        (0..20).map(|_| profile.sample("one").unwrap()).collect()
    };
    assert_eq!(draws(7), draws(7));
    assert_ne!(draws(7), draws(8));
}

#[test]
fn timeouts_are_ten_seconds_and_two_minutes() {
    assert_eq!(CONNECT_TIMEOUT_NS, 10_000_000_000);
    assert_eq!(RESPONSE_TIMEOUT_NS, 120_000_000_000);
}

#[test]
fn prompts_keep_the_order_of_messages() {
    let pb = PromptBuilder::new()
        .system("s".to_string())
        .user("u".to_string())
        .assistant("a".to_string());
    let roles: Vec<&str> = pb.build().iter().map(|m| m.role.as_str()).collect();
    assert_eq!(roles, vec!["system", "user", "assistant"]);
    assert_eq!(pb.build()[1].content, "u");
}

fn info() -> Vec<EventInfo> {
    vec![
        EventInfo {
            id: 0,
            name: "cache-misses".to_string(),
            desc: "Cache misses".to_string(),
        },
        EventInfo {
            id: 1,
            name: "branch-misses".to_string(),
            desc: "Branch mispredictions".to_string(),
        },
        EventInfo {
            id: 2,
            name: "instructions".to_string(),
            desc: "Instructions retired".to_string(),
        },
    ]
}

#[test]
fn the_model_is_told_of_every_event() {
    let list = event_list(&info());
    assert_eq!(list.lines().count(), 3);
    assert!(list.contains("  0: cache-misses — Cache misses\n"));
    assert!(list.contains("  2: instructions — Instructions retired\n"));
    let pb = build_init_prompt(&info(), 2, Some("look at memory"), "[]");
    assert_eq!(pb.build().len(), 2);
    assert!(pb.build()[0].content.ends_with("look at memory"));
    assert!(pb.build()[1].content.contains("1: branch-misses"));
    assert!(system_message(3, None).contains("activates 3 counters"));
    let steps = example_steps(&info(), 2);
    assert!(steps.iter().all(|s| !s.events.is_empty() && s.events.len() <= 2));
}

fn step(duration_ms: u64, events: Vec<u32>) -> ScheduleStep {
    ScheduleStep { duration_ms, events }
}

#[test]
fn static_llm_next_step_cycles() {
    let client = LlmClient::new("http://localhost:0", "test-model", None);
    let mut s = StaticLlmScheduler::new(vec![], client, None, None);
    assert!(s.init(vec![0, 1, 2], 4).is_none());
    s.adopt(vec![step(10, vec![0]), step(20, vec![1]), step(30, vec![2])]);

    let d1 = s.next_step();
    assert_eq!(d1.active_events, vec![0]);
    assert_eq!(d1.duration, Some(10));

    let d2 = s.next_step();
    assert_eq!(d2.active_events, vec![1]);

    let d3 = s.next_step();
    assert_eq!(d3.active_events, vec![2]);

    let d4 = s.next_step();
    assert_eq!(d4.active_events, vec![0]);
}

fn make_dynamic(update_interval: u32, simulation_mode: bool) -> DynamicLlmScheduler {
    let client = LlmClient::new("http://localhost:0", "test-model", None);
    let mut s = DynamicLlmScheduler::new(info(), client, update_interval, None, simulation_mode);
    assert!(s.init(vec![0, 1, 2], 2).is_ok());
    s.adopt(vec![step(10, vec![0, 1]), step(20, vec![2, 0])]);
    s
}

fn dynamic_step(s: &mut DynamicLlmScheduler) -> saccade::scheduler::ScheduleDecision {
    let asked = s.advance(Arrival::Nothing, 0, 0);
    s.finish(asked)
}

#[test]
fn next_step_cycles_without_update() {
    let mut s = make_dynamic(100, false);
    assert_eq!(dynamic_step(&mut s).active_events, vec![0, 1]);
    assert_eq!(dynamic_step(&mut s).active_events, vec![2, 0]);
    assert_eq!(dynamic_step(&mut s).active_events, vec![0, 1]);
}

#[test]
fn build_update_prompt_includes_observations() {
    let s = make_dynamic(100, false);
    let observed = vec![
        ObservedRate {
            event_id: 0,
            rate: format!("{:.3e}", 1.5e-6),
            uncertainty: format!("{:.3}", 0.2),
            samples: 0,
        },
        ObservedRate {
            event_id: 1,
            rate: format!("{:.3e}", 3.0e-7),
            uncertainty: format!("{:.3}", 0.8),
            samples: 0,
        },
    ];
    let pb = s.build_update_prompt(&observed, "[]");
    let messages = pb.build();
    let user_content = &messages.iter().find(|m| m.role == "user").unwrap().content;

    assert!(
        user_content.contains("not yet observed"),
        "event 2 has no estimate"
    );
    assert!(user_content.contains("1.500e-6") || user_content.contains("1.5e-6"));
    assert!(user_content.contains("Current schedule"));
}

#[test]
fn init_rejects_zero_update_interval() {
    let client = LlmClient::new("http://localhost:0", "test-model", None);
    let mut s = DynamicLlmScheduler::new(vec![], client, 0, None, false);
    let result = s.init(vec![], 2);
    assert!(result.is_err());
    assert!(result.err().unwrap().contains("update_interval"));
}

#[test]
fn buffered_update_applied_at_correct_step() {
    let mut s = make_dynamic(100, true);
    s.buffer_schedule(vec![step(5, vec![1, 2])], 5);

    for _ in 0..4 {
        dynamic_step(&mut s);
        assert!(
            s.has_buffered(),
            "buffer should not be released before step 5"
        );
    }

    let d5 = dynamic_step(&mut s);
    assert!(
        !s.has_buffered(),
        "buffer should be consumed at release step"
    );
    assert_eq!(
        d5.active_events,
        vec![1, 2],
        "first decision after release should come from buffered schedule"
    );
}

#[test]
fn an_update_is_asked_for_after_the_interval() {
    let mut s = make_dynamic(2, false);
    assert!(!s.advance(Arrival::Nothing, 0, 0));
    s.finish(false);
    assert!(s.advance(Arrival::Nothing, 0, 0));
    s.finish(true);
    assert!(!s.must_wait());
    assert!(!s.advance(Arrival::Schedule(vec![step(7, vec![2])]), 0, 0));
    let d = s.finish(false);
    assert_eq!(d.active_events, vec![2]);
    assert_eq!(d.duration, Some(7));
}

fn weighted(weights: &[(u32, u32)], num_slots: usize) -> WeightedRoundRobinLlmScheduler {
    let client = LlmClient::new("http://localhost:0", "test-model", None);
    let mut s = WeightedRoundRobinLlmScheduler::new(vec![], client, None);
    s.init(&event_weights(weights), num_slots);
    s
}

fn event_weights(weights: &[(u32, u32)]) -> Vec<EventWeight> {
    weights
        .iter()
        .map(|&(event_id, weight)| EventWeight { event_id, weight })
        .collect()
}

#[test]
fn build_cycle_proportional() {
    let weights = event_weights(&[(0, 3), (1, 1)]);
    let cycle = WeightedRoundRobinLlmScheduler::build_cycle(&weights);
    assert_eq!(cycle.len(), 4);
    assert_eq!(cycle.iter().filter(|&&id| id == 0).count(), 3);
    assert_eq!(cycle.iter().filter(|&&id| id == 1).count(), 1);
}

#[test]
fn build_cycle_single_event() {
    let weights = event_weights(&[(0, 5)]);
    let cycle = WeightedRoundRobinLlmScheduler::build_cycle(&weights);
    assert_eq!(cycle.len(), 1);
    assert_eq!(cycle[0], 0);
}

#[test]
fn build_cycle_gcd_normalization() {
    let weights = event_weights(&[(0, 4), (1, 4), (2, 4)]);
    let cycle = WeightedRoundRobinLlmScheduler::build_cycle(&weights);
    assert_eq!(cycle.len(), 3);
}

#[test]
fn cycles_depend_on_proportions_only() {
    let cycle = |w: &[(u32, u32)]| WeightedRoundRobinLlmScheduler::build_cycle(&event_weights(w));
    let plain = cycle(&[(0, 6), (1, 4), (2, 0), (3, 2)]);
    assert_eq!(plain.len(), 6);
    assert_eq!(plain, vec![0, 1, 3, 0, 1, 0]);
    assert_eq!(cycle(&[(0, 42), (1, 28), (2, 0), (3, 14)]), plain);
    assert!(cycle(&[(0, 0), (1, 0)]).is_empty());
}

#[test]
fn guidance_reaches_the_prompt_for_weights() {
    let client = LlmClient::new("http://localhost:0", "test-model", None);
    let s = WeightedRoundRobinLlmScheduler::new(
        info(),
        client,
        Some("look at memory".to_string()),
    );
    let pb = s.weights_prompt(4);
    assert_eq!(pb.build().len(), 2);
    assert_eq!(pb.build()[0].role, "system");
    assert!(pb.build()[0].content.ends_with("look at memory"));
    assert!(pb.build()[1].content.contains("  1: branch-misses"));
}

#[test]
fn weighted_round_robin_llm_next_step_cycles() {
    let mut s = weighted(&[(0, 1), (1, 1), (2, 1)], 2);

    let d1 = s.next_step();
    assert_eq!(d1.active_events, vec![0, 1]);
    assert!(d1.duration.is_none());

    let d2 = s.next_step();
    assert_eq!(d2.active_events, vec![2, 0]);

    let d3 = s.next_step();
    assert_eq!(d3.active_events, vec![1, 2]);
}

#[test]
fn next_step_wraps_on_short_cycle() {
    let mut s = weighted(&[(0, 1), (1, 1)], 4);
    assert_eq!(s.next_step().active_events, vec![0, 1, 0, 1]);
}

#[test]
fn next_step_empty_cycle_returns_empty() {
    let mut s = weighted(&[], 2);
    assert!(s.next_step().active_events.is_empty());
}

#[test]
fn greatest_common_divisors() {
    assert_eq!(gcd_u32(12, 18), 6);
    assert_eq!(gcd_u32(0, 7), 7);
    assert_eq!(gcd_u32(7, 0), 7);
    assert!(SchedulerKind::WeightedRoundRobinLlm.asks_model());
}

#[test]
fn weights_of_unknown_events_are_dropped() {
    let weights = event_weights(&[(0, 3), (9, 1), (1, 0), (2, 1)]);
    let kept = check_weights(&weights, &vec![0, 1, 2]).unwrap();
    let kept: Vec<(u32, u32)> = kept.iter().map(|w| (w.event_id, w.weight)).collect();
    assert_eq!(kept, vec![(0, 3), (2, 1)]);
    let none = check_weights(&event_weights(&[(9, 1)]), &vec![0]).err().unwrap();
    assert_eq!(none, "no weight of a known event in LLM response");
    let pb = build_weights_prompt(&info(), 4, Some("look at memory"));
    assert!(pb.build()[0].content.ends_with("look at memory"));
    assert!(pb.build()[1].content.contains("  1: branch-misses"));
    assert!(pb.build()[1].content.contains("weight"));
}

#[test]
fn a_model_is_asked_again_a_few_times() {
    let mut retries = Retries::new(2);
    assert!(retries.rejected());
    assert!(retries.rejected());
    assert!(!retries.rejected());
    assert!(!retries.rejected());
    assert_eq!(
        correction("empty"),
        "That reply cannot be used: empty\nReply with the JSON array only."
    );
}

#[test]
fn failures_leave_the_schedule_in_use() {
    let mut s = make_dynamic(100, false);
    let mut served = Vec::new();
    for arrival in [Arrival::Failed, Arrival::Disconnected, Arrival::Nothing] {
        s.advance(arrival, 5, 1);
        let d = s.finish(false);
        served.push((d.active_events, d.duration));
    }
    assert_eq!(
        served,
        vec![
            (vec![0, 1], Some(10)),
            (vec![2, 0], Some(20)),
            (vec![0, 1], Some(10)),
        ]
    );
    assert_eq!(s.schedule().len(), 2);
}

#[test]
fn replies_take_effect_after_the_quanta_they_took() {
    for (waited_ns, elapsed_ns, quanta) in [(3_500, 1_000, 3), (0, 1_000, 1), (2, 0, 2)] {
        let mut s = make_dynamic(1, true);
        assert!(s.advance(Arrival::Nothing, 0, elapsed_ns));
        assert_eq!(s.finish(true).duration, Some(10));
        assert!(s.must_wait());
        for n in 0..(quanta + 3) {
            let arrival = if n == 0 {
                Arrival::Schedule(vec![step(7, vec![1]), step(8, vec![2])])
            } else {
                Arrival::Nothing
            };
            s.advance(arrival, waited_ns, elapsed_ns);
            let duration = s.finish(false).duration.unwrap();
            let expected = if n < quanta {
                [20, 10][(n % 2) as usize]
            } else {
                [7, 8][((n - quanta) % 2) as usize]
            };
            assert_eq!(duration, expected);
        }
    }
}
