use saccade::config::{
    event_info, CliOverrides, ComboSettings, EstimatorKind, LlmConfig, ResolvedConfig,
    SchedulerKind,
};
use saccade::event::{Event, EventLibrary, EventRegistry};
use saccade::perf::Perf;
use saccade::text::{decimal_text, strip_suffix};

fn none() -> CliOverrides {
    CliOverrides {
        scheduler: None,
        estimator: None,
        q_schedule_ns: None,
        q_sample_ns: None,
        q_output_ns: None,
        noise_stddev: None,
        seed: None,
        num_slots: None,
        guidance: None,
        llm_model: None,
        llm_base_url: None,
        llm_api_key: None,
    }
}

fn schedulers() -> Vec<SchedulerKind> {
    vec![
        SchedulerKind::Random,
        SchedulerKind::RoundRobin,
        SchedulerKind::MaxUncertainty,
        SchedulerKind::StaticLlm,
        SchedulerKind::DynamicLlm,
        SchedulerKind::WeightedRoundRobinLlm,
        SchedulerKind::RateOfChange,
    ]
}

#[test]
fn names_are_read_back_with_either_dash() {
    for kind in schedulers() {
        let name = kind.name();
        assert_eq!(SchedulerKind::from_name(&name), Some(kind));
        assert_eq!(SchedulerKind::from_name(&name.replace('_', "-")), Some(kind));
    }
    for kind in [EstimatorKind::Propagate, EstimatorKind::Ema, EstimatorKind::Kalman] {
        assert_eq!(EstimatorKind::from_name(&kind.name()), Some(kind));
    }
    assert_eq!(SchedulerKind::RoundRobin.name(), "round_robin");
    assert_eq!(SchedulerKind::from_name("Random"), None);
    assert_eq!(SchedulerKind::from_name(""), None);
    assert_eq!(EstimatorKind::from_name("kalmann"), None);
    assert!(SchedulerKind::StaticLlm.asks_model());
    assert!(!SchedulerKind::Random.asks_model());
}

#[test]
fn defaults_hold_until_overridden() {
    let c = none().apply(ResolvedConfig::default()).ok().unwrap();
    assert_eq!(c.scheduler, SchedulerKind::RoundRobin);
    assert_eq!(c.estimator, EstimatorKind::Propagate);
    assert_eq!(
        (c.q_schedule_ns, c.q_sample_ns, c.q_output_ns, c.num_slots),
        (10_000_000, 100_000, 0, 4)
    );
    assert_eq!(c.seed, None);
    assert_eq!(c.llm.model, "gemma4");
    assert_eq!(c.llm.update_interval, 1000);
    assert_eq!(c.llm.guidance, None);
    let mut ov = none();
    ov.scheduler = Some(SchedulerKind::Random);
    ov.q_output_ns = Some(5);
    ov.guidance = Some("from-cli".to_string());
    let mut base = ResolvedConfig::default();
    base.llm.guidance = Some("from-toml".to_string());
    let c = ov.apply(base).ok().unwrap();
    assert_eq!(c.scheduler, SchedulerKind::Random);
    assert_eq!(c.q_output_ns, 5);
    assert_eq!(c.llm.guidance.as_deref(), Some("from-cli"));
    assert_eq!(LlmConfig::default().base_url, LlmConfig::default_base_url());
}

#[test]
fn numbers_beyond_signed_range_are_refused() {
    let mut ov = none();
    ov.seed = Some(u64::MAX);
    assert!(ov.apply(ResolvedConfig::default()).is_err());
    let mut ov = none();
    ov.seed = Some(i64::MAX as u64);
    assert!(ov.apply(ResolvedConfig::default()).is_ok());
}

#[test]
fn combos_override_the_batch() {
    let mut base = ResolvedConfig::default();
    base.seed = Some(1);
    base.q_schedule_ns = 77;
    base.llm.guidance = Some("batch".to_string());
    base.llm.api_key = Some("k".to_string());
    let plain = ComboSettings {
        scheduler: SchedulerKind::MaxUncertainty,
        estimator: EstimatorKind::Kalman,
        seed: None,
        guidance: None,
    };
    let c = plain.apply(&base);
    assert_eq!(c.scheduler, SchedulerKind::MaxUncertainty);
    assert_eq!(c.estimator, EstimatorKind::Kalman);
    assert_eq!((c.seed, c.q_schedule_ns), (Some(1), 77));
    assert_eq!(c.llm.guidance.as_deref(), Some("batch"));
    let own = ComboSettings {
        seed: Some(2),
        guidance: Some("own".to_string()),
        ..plain
    };
    let c = own.apply(&base);
    assert_eq!(c.seed, Some(2));
    assert_eq!(c.llm.guidance.as_deref(), Some("own"));
    let mut file = ResolvedConfig::default();
    file.q_schedule_ns = 5;
    file.llm.update_interval = 3;
    let c = own.overrides(&base).apply(file).ok().unwrap();
    assert_eq!(c.q_schedule_ns, 77);
    assert_eq!(c.llm.update_interval, 3);
    assert_eq!(c.llm.api_key.as_deref(), Some("k"));
    assert_eq!(c.seed, Some(2));
}

fn event(name: &str, desc: &str, event: u64) -> Event {
    Event {
        name: name.to_string(),
        desc: desc.to_string(),
        event,
        umask: 0,
    }
}

#[test]
fn events_are_described_in_order() {
    let registry = EventRegistry::new(EventLibrary {
        events: vec![event("a", "first", 1), event("b", "second", 2)],
    });
    let info = event_info(&registry);
    assert_eq!(info.len(), 2);
    assert_eq!(info[1].id, 1);
    assert_eq!(info[1].name, "b");
    assert_eq!(info[1].desc, "second");
}

#[test]
fn events_are_found_by_their_last_name() {
    assert!(EventLibrary::new().events.is_empty());
    let registry = EventRegistry::new(EventLibrary {
        events: vec![event("a", "", 1), event("b", "", 2), event("a", "", 3)],
    });
    assert_eq!(registry.lookup("a"), Some(2));
    assert_eq!(registry.lookup("b"), Some(1));
    assert_eq!(registry.lookup("c"), None);
    assert_eq!(registry.get_event(2).event, 3);
    assert_eq!(registry.get_event_ids(), vec![0, 1, 2]);
}

#[test]
fn listings_are_read_entry_by_entry() {
    let listing = b"List of pre-defined events (to be used in -e or -M):\n\
\n\
branch:\n\
  bp_l1_btb_correct\n\
       [L1 branch prediction overrides existing prediction (speculative).\n\
        Unit: cpu]\n\
        cpu/event=0x8a/ \n\
  broken_entry\n\
       [No encoding follows]\n\
  ex_ret_brn_tkn\n\
       [Retired taken branches]\n\
        cpu/cmask=1,event=0xc4,umask=16/\n\
  no_event\n\
       [Only a mask]\n\
        cpu/umask=0x1/\n\
  too_large\n\
       [Overflow]\n\
        cpu/event=0x10000000000000000/\n\
  tail\n\
       [Last]\n\
        cpu/event=0xFF,umask=0x0,inv/";
    let lib = EventLibrary::from_bytes(listing).ok().unwrap();
    let found: Vec<(&str, u64, u64)> = lib
        .events
        .iter()
        .map(|e| (e.name.as_str(), e.event, e.umask))
        .collect();
    assert_eq!(
        found,
        vec![
            ("bp_l1_btb_correct", 0x8a, 0),
            ("ex_ret_brn_tkn", 0xc4, 16),
            ("tail", 0xff, 0),
        ]
    );
    assert_eq!(
        lib.events[0].desc,
        "L1 branch prediction overrides existing prediction (speculative). Unit: cpu"
    );
    assert!(EventLibrary::from_bytes(b"").ok().unwrap().events.is_empty());
    let odd = EventLibrary::from_bytes(b"n\n[\xFF]\nu/event=1/").ok().unwrap();
    assert_eq!(odd.events[0].desc, "\u{FFFD}");
}

#[test]
fn perf_is_asked_for_details() {
    assert_eq!(Perf::program(), "perf");
    assert_eq!(Perf::list_arguments(), vec!["list", "--details"]);
}

#[test]
fn numbers_and_suffixes_as_text() {
    assert_eq!(decimal_text(0), "0");
    assert_eq!(decimal_text(u64::MAX), "18446744073709551615");
    assert_eq!(strip_suffix("x/rate", "/rate").as_deref(), Some("x"));
    assert_eq!(strip_suffix("rate", "/rate"), None);
}
