//! Configuration: kinds of schedulers and estimators, defaults, and what overrides what.
//!
//! Settings come from hard-coded defaults, then a file, then the command line, each taking
//! precedence over those before it.

use crate::event::{Event, EventRegistry};
use crate::scheduler::llm_common::EventInfo;
use crate::text::{chars_of, owned};
use vstd::prelude::*;

verus! {

/// Selects which counter-rotation scheduler algorithm to use.
#[derive(Clone, Copy, Debug, PartialEq, Eq, Structural)]
pub enum SchedulerKind {
    /// Selects the next counter set uniformly at random each quantum.
    Random,
    /// Cycles through all counter sets in a fixed order.
    RoundRobin,
    /// Selects the counters that are most uncertain at the time of the decision.
    MaxUncertainty,
    /// Asks a language model once at startup for a fixed counter schedule.
    StaticLlm,
    /// Asks a language model periodically to adapt the counter schedule.
    DynamicLlm,
    /// Rotates by per-counter weights that a language model assigns.
    WeightedRoundRobinLlm,
    /// Prefers events whose rate is changing most.
    RateOfChange,
}

/// Selects which state-estimation algorithm fills in unobserved counter values.
#[derive(Clone, Copy, Debug, PartialEq, Eq, Structural)]
pub enum EstimatorKind {
    /// Carries the last observed value forward until the counter is sampled again.
    Propagate,
    /// Smooths counter readings by an exponential moving average.
    Ema,
    /// Uses a Kalman filter with optional correlation between counters.
    Kalman,
}

/// A name with hyphens read as underscores.
pub open spec fn normalized(s: Seq<char>) -> Seq<char> {
    s.map_values(
        |c: char|
            if c == '-' {
                '_'
            } else {
                c
            },
    )
}

/// Whether a text is a name, hyphens read as underscores.
fn reads_as(s: &str, name: &str) -> (r: bool)
    ensures
        r == (normalized(s@) == name@),
{
    let a = chars_of(s);
    let b = chars_of(name);
    if a.len() != b.len() {
        assert(normalized(s@).len() != name@.len());
        return false;
    }
    let mut i: usize = 0;
    while i < a.len()
        invariant
            a@ == s@,
            b@ == name@,
            a@.len() == b@.len(),
            i <= a@.len(),
            forall|k: int| 0 <= k < i ==> #[trigger] normalized(s@)[k] == name@[k],
        decreases a@.len() - i,
    {
        let c = if a[i] == '-' {
            '_'
        } else {
            a[i]
        };
        if c != b[i] {
            assert(normalized(s@)[i as int] != name@[i as int]);
            return false;
        }
        i = i + 1;
    }
    assert(normalized(s@) =~= name@);
    true
}

impl SchedulerKind {
    /// The name used in files and on the command line.
    pub open spec fn text(self) -> Seq<char> {
        match self {
            SchedulerKind::Random => "random"@,
            SchedulerKind::RoundRobin => "round_robin"@,
            SchedulerKind::MaxUncertainty => "max_uncertainty"@,
            SchedulerKind::StaticLlm => "static_llm"@,
            SchedulerKind::DynamicLlm => "dynamic_llm"@,
            SchedulerKind::WeightedRoundRobinLlm => "weighted_round_robin_llm"@,
            SchedulerKind::RateOfChange => "rate_of_change"@,
        }
    }

    /// The name used in files and on the command line.
    pub fn name(self) -> (r: String)
        ensures
            r@ == self.text(),
    {
        match self {
            SchedulerKind::Random => owned("random"),
            SchedulerKind::RoundRobin => owned("round_robin"),
            SchedulerKind::MaxUncertainty => owned("max_uncertainty"),
            SchedulerKind::StaticLlm => owned("static_llm"),
            SchedulerKind::DynamicLlm => owned("dynamic_llm"),
            SchedulerKind::WeightedRoundRobinLlm => owned("weighted_round_robin_llm"),
            SchedulerKind::RateOfChange => owned("rate_of_change"),
        }
    }

    /// The kind with a name, which may be written with hyphens.
    pub fn from_name(s: &str) -> (r: Option<SchedulerKind>)
        ensures
            match r {
                Some(kind) => normalized(s@) == kind.text(),
                None => forall|kind: SchedulerKind| normalized(s@) != #[trigger] kind.text(),
            },
    {
        if reads_as(s, "random") {
            Some(SchedulerKind::Random)
        } else if reads_as(s, "round_robin") {
            Some(SchedulerKind::RoundRobin)
        } else if reads_as(s, "max_uncertainty") {
            Some(SchedulerKind::MaxUncertainty)
        } else if reads_as(s, "static_llm") {
            Some(SchedulerKind::StaticLlm)
        } else if reads_as(s, "dynamic_llm") {
            Some(SchedulerKind::DynamicLlm)
        } else if reads_as(s, "weighted_round_robin_llm") {
            Some(SchedulerKind::WeightedRoundRobinLlm)
        } else if reads_as(s, "rate_of_change") {
            Some(SchedulerKind::RateOfChange)
        } else {
            None
        }
    }

    /// Whether the scheduler asks a language model.
    pub open spec fn asks(self) -> bool {
        self == SchedulerKind::StaticLlm || self == SchedulerKind::DynamicLlm || self
            == SchedulerKind::WeightedRoundRobinLlm
    }

    /// Whether the scheduler asks a language model.
    pub fn asks_model(self) -> (r: bool)
        ensures
            r == self.asks(),
    {
        match self {
            SchedulerKind::StaticLlm => true,
            SchedulerKind::DynamicLlm => true,
            SchedulerKind::WeightedRoundRobinLlm => true,
            _ => false,
        }
    }

    /// Names tell scheduler kinds apart, and hyphens never matter to them: a name read back is the
    /// kind it was written for.
    pub proof fn names_are_distinct(a: SchedulerKind, b: SchedulerKind)
        ensures
            a.text() == b.text() ==> a == b,
            normalized(a.text()) == a.text(),
    {
        reveal_strlit("random");
        reveal_strlit("round_robin");
        reveal_strlit("max_uncertainty");
        reveal_strlit("static_llm");
        reveal_strlit("dynamic_llm");
        reveal_strlit("weighted_round_robin_llm");
        reveal_strlit("rate_of_change");
        assert("round_robin"@[0] != "dynamic_llm"@[0]);
        assert(normalized(a.text()) =~= a.text());
    }
}

impl EstimatorKind {
    /// The name used in files and on the command line.
    pub open spec fn text(self) -> Seq<char> {
        match self {
            EstimatorKind::Propagate => "propagate"@,
            EstimatorKind::Ema => "ema"@,
            EstimatorKind::Kalman => "kalman"@,
        }
    }

    /// The name used in files and on the command line.
    pub fn name(self) -> (r: String)
        ensures
            r@ == self.text(),
    {
        match self {
            EstimatorKind::Propagate => owned("propagate"),
            EstimatorKind::Ema => owned("ema"),
            EstimatorKind::Kalman => owned("kalman"),
        }
    }

    /// The kind with a name, which may be written with hyphens.
    pub fn from_name(s: &str) -> (r: Option<EstimatorKind>)
        ensures
            match r {
                Some(kind) => normalized(s@) == kind.text(),
                None => forall|kind: EstimatorKind| normalized(s@) != #[trigger] kind.text(),
            },
    {
        if reads_as(s, "propagate") {
            Some(EstimatorKind::Propagate)
        } else if reads_as(s, "ema") {
            Some(EstimatorKind::Ema)
        } else if reads_as(s, "kalman") {
            Some(EstimatorKind::Kalman)
        } else {
            None
        }
    }

    /// Names tell estimator kinds apart, and hyphens never matter to them: a name read back is the
    /// kind it was written for.
    pub proof fn names_are_distinct(a: EstimatorKind, b: EstimatorKind)
        ensures
            a.text() == b.text() ==> a == b,
            normalized(a.text()) == a.text(),
    {
        reveal_strlit("propagate");
        reveal_strlit("ema");
        reveal_strlit("kalman");
        assert(normalized(a.text()) =~= a.text());
    }
}

/// Connection and behaviour settings shared by all schedulers that ask a language model.
pub struct LlmConfig {
    /// Base URL of the inference server.
    pub base_url: String,
    /// Name of the model to request.
    pub model: String,
    /// How many scheduling quanta elapse between updates.
    pub update_interval: u32,
    /// Optional free-text hint for the model.
    pub guidance: Option<String>,
    /// Optional key for the server.
    pub api_key: Option<String>,
}

/// The model of an optional text.
pub open spec fn text_view(s: Option<String>) -> Option<Seq<char>> {
    match s {
        Some(s) => Some(s@),
        None => None,
    }
}

/// Model of [`LlmConfig`].
pub struct LlmConfigView {
    pub base_url: Seq<char>,
    pub model: Seq<char>,
    pub update_interval: u32,
    pub guidance: Option<Seq<char>>,
    pub api_key: Option<Seq<char>>,
}

impl View for LlmConfig {
    type V = LlmConfigView;

    open spec fn view(&self) -> LlmConfigView {
        LlmConfigView {
            base_url: self.base_url@,
            model: self.model@,
            update_interval: self.update_interval,
            guidance: text_view(self.guidance),
            api_key: text_view(self.api_key),
        }
    }
}

fn copy_text(s: &Option<String>) -> (r: Option<String>)
    ensures
        text_view(r) == text_view(*s),
{
    match s {
        Some(s) => Some(s.clone()),
        None => None,
    }
}

impl LlmConfig {
    /// The default inference server.
    pub fn default_base_url() -> (r: String)
        ensures
            r@ == "http://dubliner.cs.northwestern.edu:11434"@,
    {
        owned("http://dubliner.cs.northwestern.edu:11434")
    }

    /// The default model.
    pub fn default_model() -> (r: String)
        ensures
            r@ == "gemma4"@,
    {
        owned("gemma4")
    }

    /// The default number of quanta between updates.
    pub fn default_update_interval() -> (r: u32)
        ensures
            r == 1000,
    {
        1000
    }

    fn copied(&self) -> (r: LlmConfig)
        ensures
            r@ == self@,
    {
        LlmConfig {
            base_url: self.base_url.clone(),
            model: self.model.clone(),
            update_interval: self.update_interval,
            guidance: copy_text(&self.guidance),
            api_key: copy_text(&self.api_key),
        }
    }
}

impl Default for LlmConfig {
    fn default() -> (r: Self)
        ensures
            r@ == (LlmConfigView {
                base_url: "http://dubliner.cs.northwestern.edu:11434"@,
                model: "gemma4"@,
                update_interval: 1000,
                guidance: None,
                api_key: None,
            }),
    {
        LlmConfig {
            base_url: LlmConfig::default_base_url(),
            model: LlmConfig::default_model(),
            update_interval: LlmConfig::default_update_interval(),
            guidance: None,
            api_key: None,
        }
    }
}

/// The settings that a run goes by. Tuning parameters of estimators are kept with them.
pub struct ResolvedConfig {
    /// Which scheduler to use.
    pub scheduler: SchedulerKind,
    /// Which estimator to use.
    pub estimator: EstimatorKind,
    /// Nanoseconds between scheduler decisions.
    pub q_schedule_ns: u64,
    /// Nanoseconds between samples within a scheduling quantum.
    pub q_sample_ns: u64,
    /// Nanoseconds between output points; zero for every quantum.
    pub q_output_ns: u64,
    /// Bit pattern of the noise added to simulated counts; zero for none.
    pub noise_stddev: u64,
    /// Seed for reproducible runs.
    pub seed: Option<u64>,
    /// Number of counter slots during simulation.
    pub num_slots: usize,
    /// Settings for schedulers that ask a language model.
    pub llm: LlmConfig,
}

/// Model of [`ResolvedConfig`].
pub struct ResolvedConfigView {
    pub scheduler: SchedulerKind,
    pub estimator: EstimatorKind,
    pub q_schedule_ns: u64,
    pub q_sample_ns: u64,
    pub q_output_ns: u64,
    pub noise_stddev: u64,
    pub seed: Option<u64>,
    pub num_slots: usize,
    pub llm: LlmConfigView,
}

impl View for ResolvedConfig {
    type V = ResolvedConfigView;

    open spec fn view(&self) -> ResolvedConfigView {
        ResolvedConfigView {
            scheduler: self.scheduler,
            estimator: self.estimator,
            q_schedule_ns: self.q_schedule_ns,
            q_sample_ns: self.q_sample_ns,
            q_output_ns: self.q_output_ns,
            noise_stddev: self.noise_stddev,
            seed: self.seed,
            num_slots: self.num_slots,
            llm: self.llm@,
        }
    }
}

impl Default for ResolvedConfig {
    fn default() -> (r: Self)
        ensures
            r.scheduler == SchedulerKind::RoundRobin,
            r.estimator == EstimatorKind::Propagate,
            r.q_schedule_ns == 10_000_000,
            r.q_sample_ns == 100_000,
            r.q_output_ns == 0,
            r.noise_stddev == 0,
            r.seed is None,
            r.num_slots == 4,
            r.llm@ == (LlmConfigView {
                base_url: "http://dubliner.cs.northwestern.edu:11434"@,
                model: "gemma4"@,
                update_interval: 1000,
                guidance: None,
                api_key: None,
            }),
    {
        ResolvedConfig {
            scheduler: SchedulerKind::RoundRobin,
            estimator: EstimatorKind::Propagate,
            q_schedule_ns: 10_000_000,
            q_sample_ns: 100_000,
            q_output_ns: 0,
            noise_stddev: 0,
            seed: None,
            num_slots: 4,
            llm: LlmConfig::default(),
        }
    }
}

/// Settings from the command line that take precedence over those of a file. `None` leaves the
/// setting as it is.
pub struct CliOverrides {
    /// Overrides the scheduler.
    pub scheduler: Option<SchedulerKind>,
    /// Overrides the estimator.
    pub estimator: Option<EstimatorKind>,
    /// Overrides the scheduling quantum.
    pub q_schedule_ns: Option<u64>,
    /// Overrides the sampling quantum.
    pub q_sample_ns: Option<u64>,
    /// Overrides the output quantum.
    pub q_output_ns: Option<u64>,
    /// Overrides the noise, by bit pattern.
    pub noise_stddev: Option<u64>,
    /// Overrides the seed.
    pub seed: Option<u64>,
    /// Overrides the number of counter slots.
    pub num_slots: Option<usize>,
    /// Overrides the hint for the model.
    pub guidance: Option<String>,
    /// Overrides the model.
    pub llm_model: Option<String>,
    /// Overrides the server.
    pub llm_base_url: Option<String>,
    /// Overrides the key for the server.
    pub llm_api_key: Option<String>,
}

/// A number does not fit a signed 64-bit integer.
#[derive(Debug, Clone, Copy)]
pub struct OutOfRange {}

fn fits(v: Option<u64>) -> (r: bool)
    ensures
        r == (or_before(v, 0) <= i64::MAX),
{
    match v {
        Some(v) => v <= 0x7FFF_FFFF_FFFF_FFFF,
        None => true,
    }
}

/// A setting, or what stands before it.
pub open spec fn or_before<T>(new: Option<T>, before: T) -> T {
    match new {
        Some(new) => new,
        None => before,
    }
}

/// An optional setting, or what stands before it.
pub open spec fn or_kept<T>(new: Option<T>, before: Option<T>) -> Option<T> {
    match new {
        Some(new) => Some(new),
        None => before,
    }
}

impl CliOverrides {
    /// A configuration with these settings on top.
    pub open spec fn over(self, base: ResolvedConfigView) -> ResolvedConfigView {
        ResolvedConfigView {
            scheduler: or_before(self.scheduler, base.scheduler),
            estimator: or_before(self.estimator, base.estimator),
            q_schedule_ns: or_before(self.q_schedule_ns, base.q_schedule_ns),
            q_sample_ns: or_before(self.q_sample_ns, base.q_sample_ns),
            q_output_ns: or_before(self.q_output_ns, base.q_output_ns),
            noise_stddev: or_before(self.noise_stddev, base.noise_stddev),
            seed: or_kept(self.seed, base.seed),
            num_slots: or_before(self.num_slots, base.num_slots),
            llm: LlmConfigView {
                base_url: or_before(text_view(self.llm_base_url), base.llm.base_url),
                model: or_before(text_view(self.llm_model), base.llm.model),
                update_interval: base.llm.update_interval,
                guidance: or_kept(text_view(self.guidance), base.llm.guidance),
                api_key: or_kept(text_view(self.llm_api_key), base.llm.api_key),
            },
        }
    }

    /// Whether all numbers fit a signed 64-bit integer, as settings of a file must.
    pub open spec fn in_range(self) -> bool {
        &&& or_before(self.q_schedule_ns, 0) <= i64::MAX
        &&& or_before(self.q_sample_ns, 0) <= i64::MAX
        &&& or_before(self.q_output_ns, 0) <= i64::MAX
        &&& or_before(self.seed, 0) <= i64::MAX
        &&& or_before(self.num_slots, 0) <= i64::MAX
    }

    /// Puts these settings on top of a configuration. Numbers that do not fit a signed 64-bit
    /// integer are refused.
    pub fn apply(self, base: ResolvedConfig) -> (r: Result<ResolvedConfig, OutOfRange>)
        ensures
            match r {
                Ok(config) => self.in_range() && config@ == self.over(base@),
                Err(_) => !self.in_range(),
            },
    {
        let num_slots: Option<u64> = match self.num_slots {
            Some(n) => Some(n as u64),
            None => None,
        };
        if !(fits(self.q_schedule_ns) && fits(self.q_sample_ns) && fits(self.q_output_ns) && fits(
            self.seed,
        ) && fits(num_slots)) {
            return Err(OutOfRange {  });
        }
        let llm = LlmConfig {
            base_url: match self.llm_base_url {
                Some(url) => url,
                None => base.llm.base_url,
            },
            model: match self.llm_model {
                Some(model) => model,
                None => base.llm.model,
            },
            update_interval: base.llm.update_interval,
            guidance: match self.guidance {
                Some(guidance) => Some(guidance),
                None => base.llm.guidance,
            },
            api_key: match self.llm_api_key {
                Some(key) => Some(key),
                None => base.llm.api_key,
            },
        };
        Ok(ResolvedConfig {
            scheduler: match self.scheduler {
                Some(kind) => kind,
                None => base.scheduler,
            },
            estimator: match self.estimator {
                Some(kind) => kind,
                None => base.estimator,
            },
            q_schedule_ns: match self.q_schedule_ns {
                Some(v) => v,
                None => base.q_schedule_ns,
            },
            q_sample_ns: match self.q_sample_ns {
                Some(v) => v,
                None => base.q_sample_ns,
            },
            q_output_ns: match self.q_output_ns {
                Some(v) => v,
                None => base.q_output_ns,
            },
            noise_stddev: match self.noise_stddev {
                Some(v) => v,
                None => base.noise_stddev,
            },
            seed: match self.seed {
                Some(v) => Some(v),
                None => base.seed,
            },
            num_slots: match self.num_slots {
                Some(v) => v,
                None => base.num_slots,
            },
            llm,
        })
    }
}

/// What one simulation of a batch sets.
pub struct ComboSettings {
    /// Which scheduler to use.
    pub scheduler: SchedulerKind,
    /// Which estimator to use.
    pub estimator: EstimatorKind,
    /// Seed, in place of that of the batch.
    pub seed: Option<u64>,
    /// Hint for the model, in place of that of the batch.
    pub guidance: Option<String>,
}

impl ComboSettings {
    /// The configuration of a batch with these settings on top.
    pub open spec fn over(self, base: ResolvedConfigView) -> ResolvedConfigView {
        ResolvedConfigView {
            scheduler: self.scheduler,
            estimator: self.estimator,
            seed: or_kept(self.seed, base.seed),
            llm: LlmConfigView {
                guidance: or_kept(text_view(self.guidance), base.llm.guidance),
                ..base.llm
            },
            ..base
        }
    }

    /// Puts these settings on top of the configuration of a batch.
    pub fn apply(&self, base: &ResolvedConfig) -> (r: ResolvedConfig)
        ensures
            r@ == self.over(base@),
    {
        let mut llm = base.llm.copied();
        if self.guidance.is_some() {
            llm.guidance = copy_text(&self.guidance);
        }
        ResolvedConfig {
            scheduler: self.scheduler,
            estimator: self.estimator,
            q_schedule_ns: base.q_schedule_ns,
            q_sample_ns: base.q_sample_ns,
            q_output_ns: base.q_output_ns,
            noise_stddev: base.noise_stddev,
            seed: match self.seed {
                Some(v) => Some(v),
                None => base.seed,
            },
            num_slots: base.num_slots,
            llm,
        }
    }

    /// The overrides for a simulation that loads a file of its own: these settings, and the quanta,
    /// slots and server of the batch.
    pub fn overrides(&self, base: &ResolvedConfig) -> (r: CliOverrides)
        ensures
            r.scheduler == Some(self.scheduler),
            r.estimator == Some(self.estimator),
            r.q_schedule_ns == Some(base.q_schedule_ns),
            r.q_sample_ns == Some(base.q_sample_ns),
            r.q_output_ns == Some(base.q_output_ns),
            r.noise_stddev == Some(base.noise_stddev),
            r.seed == or_kept(self.seed, base.seed),
            r.num_slots == Some(base.num_slots),
            text_view(r.guidance) == or_kept(
                text_view(self.guidance),
                text_view(base.llm.guidance),
            ),
            text_view(r.llm_model) == Some(base.llm.model@),
            text_view(r.llm_base_url) == Some(base.llm.base_url@),
            text_view(r.llm_api_key) == text_view(base.llm.api_key),
    {
        CliOverrides {
            scheduler: Some(self.scheduler),
            estimator: Some(self.estimator),
            q_schedule_ns: Some(base.q_schedule_ns),
            q_sample_ns: Some(base.q_sample_ns),
            q_output_ns: Some(base.q_output_ns),
            noise_stddev: Some(base.noise_stddev),
            seed: match self.seed {
                Some(v) => Some(v),
                None => base.seed,
            },
            num_slots: Some(base.num_slots),
            guidance: match &self.guidance {
                Some(guidance) => Some(guidance.clone()),
                None => copy_text(&base.llm.guidance),
            },
            llm_model: Some(base.llm.model.clone()),
            llm_base_url: Some(base.llm.base_url.clone()),
            llm_api_key: copy_text(&base.llm.api_key),
        }
    }
}

/// The overrides for a simulation that loads a file of its own leave nothing of that file but the
/// update interval, and a seed, hint and key that neither the simulation nor the batch sets.
pub proof fn a_combo_file_only_fills_gaps(
    combo: ComboSettings,
    base: ResolvedConfigView,
    overrides: CliOverrides,
    file: ResolvedConfigView,
)
    requires
        overrides.scheduler == Some(combo.scheduler),
        overrides.estimator == Some(combo.estimator),
        overrides.q_schedule_ns == Some(base.q_schedule_ns),
        overrides.q_sample_ns == Some(base.q_sample_ns),
        overrides.q_output_ns == Some(base.q_output_ns),
        overrides.noise_stddev == Some(base.noise_stddev),
        overrides.seed == or_kept(combo.seed, base.seed),
        overrides.num_slots == Some(base.num_slots),
        text_view(overrides.guidance) == or_kept(text_view(combo.guidance), base.llm.guidance),
        text_view(overrides.llm_model) == Some(base.llm.model),
        text_view(overrides.llm_base_url) == Some(base.llm.base_url),
        text_view(overrides.llm_api_key) == base.llm.api_key,
    ensures
        overrides.over(file) == (ResolvedConfigView {
            seed: or_kept(combo.over(base).seed, file.seed),
            llm: LlmConfigView {
                update_interval: file.llm.update_interval,
                guidance: or_kept(combo.over(base).llm.guidance, file.llm.guidance),
                api_key: or_kept(base.llm.api_key, file.llm.api_key),
                ..base.llm
            },
            ..combo.over(base)
        }),
{
}

/// Whether an entry describes an event.
pub open spec fn describes(info: EventInfo, id: int, event: Event) -> bool {
    info.id == id && info.name@ == event.name@ && info.desc@ == event.desc@
}

/// What a language model is told of the events: ID, name and description of each, in order.
pub fn event_info(registry: &EventRegistry) -> (r: Vec<EventInfo>)
    requires
        registry.wf(),
    ensures
        r@.len() == registry@.len(),
        forall|i: int| 0 <= i < r@.len() ==> describes(#[trigger] r@[i], i, registry@[i]),
{
    let ids = registry.get_event_ids();
    let mut out: Vec<EventInfo> = Vec::new();
    let mut i: usize = 0;
    while i < ids.len()
        invariant
            registry.wf(),
            ids@ == Seq::new(registry@.len(), |i: int| i as u32),
            i <= ids@.len(),
            out@.len() == i,
            forall|k: int| 0 <= k < i ==> describes(#[trigger] out@[k], k, registry@[k]),
        decreases ids@.len() - i,
    {
        let id = ids[i];
        assert(id == i);
        let event = registry.get_event(id);
        out.push(EventInfo { id, name: event.name.clone(), desc: event.desc.clone() });
        i = i + 1;
    }
    out
}

/// Every setting given on top takes the place of the one below; every setting not given leaves it.
/// The update interval cannot be given.
pub proof fn settings_on_top_win(over: CliOverrides, base: ResolvedConfigView)
    ensures
        ({
            let r = over.over(base);
            &&& over.scheduler matches Some(x) ==> r.scheduler == x
            &&& over.scheduler is None ==> r.scheduler == base.scheduler
            &&& over.estimator matches Some(x) ==> r.estimator == x
            &&& over.estimator is None ==> r.estimator == base.estimator
            &&& over.q_schedule_ns matches Some(x) ==> r.q_schedule_ns == x
            &&& over.q_schedule_ns is None ==> r.q_schedule_ns == base.q_schedule_ns
            &&& over.q_sample_ns matches Some(x) ==> r.q_sample_ns == x
            &&& over.q_sample_ns is None ==> r.q_sample_ns == base.q_sample_ns
            &&& over.q_output_ns matches Some(x) ==> r.q_output_ns == x
            &&& over.q_output_ns is None ==> r.q_output_ns == base.q_output_ns
            &&& over.noise_stddev matches Some(x) ==> r.noise_stddev == x
            &&& over.noise_stddev is None ==> r.noise_stddev == base.noise_stddev
            &&& over.seed is Some ==> r.seed == over.seed
            &&& over.seed is None ==> r.seed == base.seed
            &&& over.num_slots matches Some(x) ==> r.num_slots == x
            &&& over.num_slots is None ==> r.num_slots == base.num_slots
            &&& over.llm_base_url matches Some(x) ==> r.llm.base_url == x@
            &&& over.llm_base_url is None ==> r.llm.base_url == base.llm.base_url
            &&& over.llm_model matches Some(x) ==> r.llm.model == x@
            &&& over.llm_model is None ==> r.llm.model == base.llm.model
            &&& over.guidance matches Some(x) ==> r.llm.guidance == Some(x@)
            &&& over.guidance is None ==> r.llm.guidance == base.llm.guidance
            &&& over.llm_api_key matches Some(x) ==> r.llm.api_key == Some(x@)
            &&& over.llm_api_key is None ==> r.llm.api_key == base.llm.api_key
            &&& r.llm.update_interval == base.llm.update_interval
        }),
{
}

/// A simulation of a batch has its own scheduler and estimator, its own seed and hint if it sets
/// any, and everything else from the batch.
pub proof fn combos_change_only_their_settings(combo: ComboSettings, base: ResolvedConfigView)
    ensures
        ({
            let r = combo.over(base);
            &&& r.scheduler == combo.scheduler
            &&& r.estimator == combo.estimator
            &&& combo.seed is Some ==> r.seed == combo.seed
            &&& combo.seed is None ==> r.seed == base.seed
            &&& combo.guidance matches Some(x) ==> r.llm.guidance == Some(x@)
            &&& combo.guidance is None ==> r.llm.guidance == base.llm.guidance
            &&& r.q_schedule_ns == base.q_schedule_ns
            &&& r.q_sample_ns == base.q_sample_ns
            &&& r.q_output_ns == base.q_output_ns
            &&& r.noise_stddev == base.noise_stddev
            &&& r.num_slots == base.num_slots
            &&& r.llm.base_url == base.llm.base_url
            &&& r.llm.model == base.llm.model
            &&& r.llm.update_interval == base.llm.update_interval
            &&& r.llm.api_key == base.llm.api_key
        }),
{
}

/// Overrides are refused exactly if one of their numbers is beyond a signed 64-bit integer.
pub proof fn numbers_beyond_the_range_are_refused(over: CliOverrides)
    ensures
        !over.in_range() <==> (over.q_schedule_ns matches Some(x) && x > 0x7FFF_FFFF_FFFF_FFFF) || (
        over.q_sample_ns matches Some(x) && x > 0x7FFF_FFFF_FFFF_FFFF) || (
        over.q_output_ns matches Some(x) && x > 0x7FFF_FFFF_FFFF_FFFF) || (over.seed matches Some(
            x,
        ) && x > 0x7FFF_FFFF_FFFF_FFFF) || (over.num_slots matches Some(x) && x
            > 0x7FFF_FFFF_FFFF_FFFF),
{
}

/// A name reads as another exactly if both have the same letters, a hyphen counting as an
/// underscore.
pub proof fn hyphens_read_as_underscores(s: Seq<char>, i: int)
    requires
        0 <= i < s.len(),
    ensures
        normalized(s).len() == s.len(),
        s[i] == '-' ==> normalized(s)[i] == '_',
        s[i] != '-' ==> normalized(s)[i] == s[i],
{
}

} // verus!
