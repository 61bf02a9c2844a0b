//! Scheduler that has one cyclic schedule made by a language model at startup and replays it.

use crate::event::EventId;
use crate::llm::client::{LlmClient, LlmClientView};
use crate::llm::latency_profile::{self, LatencyProfileView, LlmLatencyProfile};
use crate::llm::prompt::PromptBuilder;
use crate::scheduler::llm_common::{
    self, build_init_prompt, serve_step, EventInfo, ScheduleStep, StepView,
};
use crate::scheduler::ScheduleDecision;
use vstd::prelude::*;

verus! {

/// Replays a schedule that was made once and never changes.
pub struct StaticLlmScheduler {
    client: LlmClient,
    event_info: Vec<EventInfo>,
    schedule: Vec<ScheduleStep>,
    step_idx: usize,
    all_events: Vec<EventId>,
    num_slots: usize,
    guidance: Option<String>,
    latency_profile: Option<LlmLatencyProfile>,
}

/// Model of [`StaticLlmScheduler`].
#[verifier::ext_equal]
pub struct StaticLlmView {
    /// The client that asks the model.
    pub client: LlmClientView,
    /// What the model is told of the events.
    pub event_info: Seq<EventInfo>,
    /// The schedule.
    pub schedule: Seq<StepView>,
    /// The step that comes next.
    pub step_idx: nat,
    /// All valid events.
    pub all_events: Seq<EventId>,
    /// Number of slots.
    pub num_slots: nat,
    /// Guidance for the model.
    pub guidance: Option<Seq<char>>,
    /// Measured response times.
    pub latencies: Option<LatencyProfileView>,
}

impl View for StaticLlmScheduler {
    type V = StaticLlmView;

    closed spec fn view(&self) -> StaticLlmView {
        StaticLlmView {
            client: self.client@,
            event_info: self.event_info@,
            schedule: llm_common::step_views(self.schedule@),
            step_idx: self.step_idx as nat,
            all_events: self.all_events@,
            num_slots: self.num_slots as nat,
            guidance: llm_common::owned_text_view(self.guidance),
            latencies: match self.latency_profile {
                Some(profile) => Some(profile@),
                None => None,
            },
        }
    }
}

impl StaticLlmScheduler {
    /// Validity: the next step is one of the schedule, if there is any.
    pub open spec fn wf(&self) -> bool {
        self@.schedule.len() > 0 ==> self@.step_idx < self@.schedule.len()
    }

    /// A scheduler that has no schedule yet.
    pub fn new(
        event_info: Vec<EventInfo>,
        client: LlmClient,
        guidance: Option<String>,
        latency_profile: Option<LlmLatencyProfile>,
    ) -> (r: Self)
        ensures
            r.wf(),
            r@ == (StaticLlmView {
                client: client@,
                event_info: event_info@,
                schedule: Seq::empty(),
                step_idx: 0,
                all_events: Seq::empty(),
                num_slots: 0,
                guidance: llm_common::owned_text_view(guidance),
                latencies: match latency_profile {
                    Some(profile) => Some(profile@),
                    None => None,
                },
            }),
    {
        let r = StaticLlmScheduler {
            client,
            event_info,
            schedule: Vec::new(),
            step_idx: 0,
            all_events: Vec::new(),
            num_slots: 0,
            guidance,
            latency_profile,
        };
        assert(r@.schedule =~= Seq::empty());
        r
    }

    /// The client that asks the model.
    pub fn client(&self) -> (r: &LlmClient)
        ensures
            r@ == self@.client,
    {
        &self.client
    }

    /// What the model is told of the events.
    pub fn event_info(&self) -> (r: &Vec<EventInfo>)
        ensures
            r@ == self@.event_info,
    {
        &self.event_info
    }

    /// Sets the valid events and the number of slots. Returns the response time to report in
    /// place of the measured one: a draw from the profile, if it has any for the setup call.
    pub fn init(&mut self, all_events: Vec<EventId>, num_slots: usize) -> (r: Option<u64>)
        ensures
            final(self)@ == (StaticLlmView {
                all_events: all_events@,
                num_slots: num_slots as nat,
                ..old(self)@
            }),
            match old(self)@.latencies {
                None => r is None,
                Some(profile) => match r {
                    Some(v) => latency_profile::samples_of(
                        profile.entries,
                        "static_setup"@,
                    ) matches Some(samples) && samples.contains(v),
                    None => latency_profile::samples_of(
                        profile.entries,
                        "static_setup"@,
                    ) matches Some(samples) ==> samples.len() == 0,
                },
            },
    {
        self.all_events = all_events;
        self.num_slots = num_slots;
        let mut profile: Option<LlmLatencyProfile> = None;
        std::mem::swap(&mut profile, &mut self.latency_profile);
        let mut drawn: Option<u64> = None;
        if let Some(mut p) = profile {
            drawn = p.sample("static_setup");
            self.latency_profile = Some(p);
        }
        drawn
    }

    /// The prompt that asks for a schedule; `example` is an example schedule in JSON.
    pub fn init_prompt(&self, example: &str) -> (r: PromptBuilder)
        ensures
            r@ == seq![
                ("system"@, llm_common::system_text(self@.num_slots, self@.guidance)),
                (
                    "user"@,
                    llm_common::init_request(self@.event_info, self@.num_slots, example@),
                ),
            ],
    {
        let guidance: Option<&str> = match &self.guidance {
            Some(g) => Some(g.as_str()),
            None => None,
        };
        build_init_prompt(&self.event_info, self.num_slots, guidance, example)
    }

    /// Takes the schedule to replay.
    pub fn adopt(&mut self, schedule: Vec<ScheduleStep>)
        requires
            schedule@.len() > 0 ==> old(self)@.step_idx < schedule@.len(),
        ensures
            final(self).wf(),
            final(self)@ == (StaticLlmView {
                schedule: llm_common::step_views(schedule@),
                ..old(self)@
            }),
    {
        self.schedule = schedule;
    }

    /// The next step of the schedule, beginning again at the end.
    pub fn next_step(&mut self) -> (r: ScheduleDecision)
        requires
            old(self).wf(),
            old(self)@.schedule.len() > 0,
        ensures
            final(self).wf(),
            final(self)@ == (StaticLlmView {
                step_idx: (old(self)@.step_idx + 1) % old(self)@.schedule.len(),
                ..old(self)@
            }),
            r.active_events@ == old(self)@.schedule[old(self)@.step_idx as int].events,
            r.duration == Some(old(self)@.schedule[old(self)@.step_idx as int].duration_ms),
            llm_common::fits_slots(old(self)@.schedule, old(self)@.num_slots)
                ==> r.active_events@.len() <= old(self)@.num_slots,
    {
        assert(self@.schedule[self@.step_idx as int] == self.schedule@[self.step_idx as int]@);
        let (decision, next) = serve_step(&self.schedule, self.step_idx);
        self.step_idx = next;
        decision
    }
}

} // verus!
