//! Scheduler that starts with a schedule made by a language model and has it refreshed in the
//! background from what was observed.

use crate::event::EventId;
use crate::llm::client::{LlmClient, LlmClientView};
use crate::llm::prompt::PromptBuilder;
use crate::scheduler::llm_common::{
    self, build_init_prompt, event_list, serve_step, system_message, EventInfo, ScheduleStep,
    StepView,
};
use crate::scheduler::ScheduleDecision;
use crate::text::{self, decimal_text, joined, owned, push_decimal};
use vstd::prelude::*;

verus! {

/// Adapts its schedule at runtime.
///
/// A step goes like this: the caller looks for a reply of the background worker, waiting for one
/// if [`DynamicLlmScheduler::must_wait`] says so; [`DynamicLlmScheduler::advance`] takes it in and
/// says whether a request is due; the caller then hands a request to the worker; and
/// [`DynamicLlmScheduler::finish`] serves the step.
pub struct DynamicLlmScheduler {
    client: LlmClient,
    event_info: Vec<EventInfo>,
    schedule: Vec<ScheduleStep>,
    step_idx: usize,
    all_events: Vec<EventId>,
    num_slots: usize,
    update_interval: u32,
    steps_since_update: u32,
    guidance: Option<String>,
    simulation_mode: bool,
    step_count: u64,
    dispatch_step: u64,
    waiting_for_response: bool,
    buffered_schedule: Option<Vec<ScheduleStep>>,
    buffered_release_step: u64,
}

/// What the background worker has to say.
pub enum Arrival {
    /// A new schedule.
    Schedule(Vec<ScheduleStep>),
    /// The request failed.
    Failed,
    /// The worker is gone.
    Disconnected,
    /// Nothing yet, or there is no worker.
    Nothing,
}

/// Model of [`Arrival`].
#[verifier::ext_equal]
pub enum ArrivalView {
    Schedule(Seq<StepView>),
    Failed,
    Disconnected,
    Nothing,
}

impl View for Arrival {
    type V = ArrivalView;

    open spec fn view(&self) -> ArrivalView {
        match self {
            Arrival::Schedule(steps) => ArrivalView::Schedule(llm_common::step_views(steps@)),
            Arrival::Failed => ArrivalView::Failed,
            Arrival::Disconnected => ArrivalView::Disconnected,
            Arrival::Nothing => ArrivalView::Nothing,
        }
    }
}

/// Model of [`DynamicLlmScheduler`].
#[verifier::ext_equal]
pub struct DynamicView {
    /// The client that asks the model.
    pub client: LlmClientView,
    /// What the model is told of the events.
    pub event_info: Seq<EventInfo>,
    /// The schedule in use.
    pub schedule: Seq<StepView>,
    /// The step that comes next.
    pub step_idx: nat,
    /// All valid events.
    pub all_events: Seq<EventId>,
    /// Number of slots.
    pub num_slots: nat,
    /// Steps between requests.
    pub update_interval: u32,
    /// Steps since the last request.
    pub steps_since_update: u32,
    /// Guidance for the model.
    pub guidance: Option<Seq<char>>,
    /// Whether time is simulated.
    pub simulation_mode: bool,
    /// Steps taken in all.
    pub step_count: u64,
    /// The step at which the last request was sent.
    pub dispatch_step: u64,
    /// Whether a simulated run waits for a reply.
    pub waiting: bool,
    /// A schedule held back.
    pub buffered: Option<Seq<StepView>>,
    /// The step at which the schedule held back is put to use.
    pub release_step: u64,
}

impl DynamicView {
    /// A schedule held back is put to use once its step has come.
    pub open spec fn released(self) -> DynamicView {
        if self.buffered is Some && self.step_count >= self.release_step {
            DynamicView { schedule: self.buffered->0, step_idx: 0, buffered: None, ..self }
        } else {
            self
        }
    }

    /// How many quanta a reply took, at least one.
    pub open spec fn quanta(waited_ns: u64, elapsed_ns: u64) -> int {
        let n = waited_ns as int / if elapsed_ns == 0 {
            1
        } else {
            elapsed_ns as int
        };
        if n >= 1 {
            n
        } else {
            1
        }
    }

    /// What a reply does. A simulated run that waits for it holds a new schedule back for as many
    /// quanta as the reply took, as if they had gone by; otherwise a new schedule is put to use
    /// at once.
    pub open spec fn received(
        self,
        arrival: ArrivalView,
        waited_ns: u64,
        elapsed_ns: u64,
    ) -> DynamicView {
        if self.simulation_mode && self.waiting {
            match arrival {
                ArrivalView::Schedule(steps) => DynamicView {
                    buffered: Some(steps),
                    release_step: (self.dispatch_step + Self::quanta(waited_ns, elapsed_ns)
                        + 1) as u64,
                    waiting: false,
                    ..self
                },
                ArrivalView::Failed | ArrivalView::Disconnected => DynamicView {
                    waiting: false,
                    ..self
                },
                ArrivalView::Nothing => self,
            }
        } else {
            match arrival {
                ArrivalView::Schedule(steps) => DynamicView {
                    schedule: steps,
                    step_idx: 0,
                    ..self
                },
                _ => self,
            }
        }
    }

    /// The scheduler once a step has begun and a reply has been taken in.
    pub open spec fn advanced(
        self,
        arrival: ArrivalView,
        waited_ns: u64,
        elapsed_ns: u64,
    ) -> DynamicView {
        let counted = DynamicView { step_count: (self.step_count + 1) as u64, ..self };
        let taken = counted.released().received(arrival, waited_ns, elapsed_ns);
        DynamicView { steps_since_update: (taken.steps_since_update + 1) as u32, ..taken }
    }

    /// Whether it is time to ask for a new schedule.
    pub open spec fn request_due(self) -> bool {
        self.steps_since_update >= self.update_interval
    }

    /// The scheduler once a request has been handed to the worker.
    pub open spec fn requested(self) -> DynamicView {
        let reset = DynamicView { steps_since_update: 0, ..self };
        if self.simulation_mode {
            DynamicView { dispatch_step: self.step_count, waiting: true, ..reset }
        } else {
            reset
        }
    }

    /// The step that comes next.
    pub open spec fn current(self) -> StepView {
        self.schedule[self.step_idx as int]
    }

    /// The scheduler once a step has been served.
    pub open spec fn served(self) -> DynamicView {
        DynamicView { step_idx: (self.step_idx + 1) % self.schedule.len(), ..self }
    }

    /// Validity: the next step is one of the schedule, and a schedule held back has steps.
    pub open spec fn valid(self) -> bool {
        &&& self.schedule.len() > 0 ==> self.step_idx < self.schedule.len()
        &&& self.buffered matches Some(steps) ==> steps.len() > 0
    }
}

impl View for DynamicLlmScheduler {
    type V = DynamicView;

    closed spec fn view(&self) -> DynamicView {
        DynamicView {
            client: self.client@,
            event_info: self.event_info@,
            schedule: llm_common::step_views(self.schedule@),
            step_idx: self.step_idx as nat,
            all_events: self.all_events@,
            num_slots: self.num_slots as nat,
            update_interval: self.update_interval,
            steps_since_update: self.steps_since_update,
            guidance: llm_common::owned_text_view(self.guidance),
            simulation_mode: self.simulation_mode,
            step_count: self.step_count,
            dispatch_step: self.dispatch_step,
            waiting: self.waiting_for_response,
            buffered: match self.buffered_schedule {
                Some(steps) => Some(llm_common::step_views(steps@)),
                None => None,
            },
            release_step: self.buffered_release_step,
        }
    }
}

/// What was observed of an event: its rate and uncertainty as text, and the number of samples.
pub struct ObservedRate {
    /// The event.
    pub event_id: EventId,
    /// Its rate over all threads, in scientific notation.
    pub rate: String,
    /// Its largest uncertainty.
    pub uncertainty: String,
    /// Samples over all threads.
    pub samples: u64,
}

/// The name of an event; `unknown` if it has none. The last entry counts.
pub open spec fn name_of(info: Seq<EventInfo>, id: EventId) -> Seq<char>
    decreases info.len(),
{
    if info.len() == 0 {
        "unknown"@
    } else if info.last().id == id {
        info.last().name@
    } else {
        name_of(info.drop_last(), id)
    }
}

/// What was observed of an event. The last entry counts.
pub open spec fn observed_of(observed: Seq<ObservedRate>, id: EventId) -> Option<ObservedRate>
    decreases observed.len(),
{
    if observed.len() == 0 {
        None
    } else if observed.last().event_id == id {
        Some(observed.last())
    } else {
        observed_of(observed.drop_last(), id)
    }
}

/// The line that says what was observed of an event.
pub open spec fn observation_line(
    info: Seq<EventInfo>,
    observed: Seq<ObservedRate>,
    id: EventId,
) -> Seq<char> {
    let head = "  "@ + text::decimal(id as nat) + " ("@ + name_of(info, id);
    match observed_of(observed, id) {
        Some(o) => head + "): rate="@ + o.rate@ + " ev/ns, uncertainty="@ + o.uncertainty@
            + ", samples="@ + text::decimal(o.samples as nat) + "\n"@,
        None => head + "): not yet observed\n"@,
    }
}

/// The lines that say what was observed of each event.
pub open spec fn observation_lines(
    info: Seq<EventInfo>,
    observed: Seq<ObservedRate>,
    events: Seq<EventId>,
) -> Seq<char>
    decreases events.len(),
{
    if events.len() == 0 {
        Seq::empty()
    } else {
        observation_lines(info, observed, events.drop_last()) + observation_line(
            info,
            observed,
            events.last(),
        )
    }
}

/// What the model is asked for later on.
pub open spec fn update_request(
    v: DynamicView,
    observed: Seq<ObservedRate>,
    current_schedule: Seq<char>,
) -> Seq<char> {
    "Available performance counters (format — ID: name: description):\n"@ + llm_common::event_lines(
        v.event_info,
    )
        + "\nRecent observations (rate in events/ns, uncertainty in [0=confident, 1=unknown]):\n"@
        + observation_lines(v.event_info, observed, v.all_events)
        + "\nCurrent schedule (for reference):\n"@ + current_schedule
        + "\n\nGenerate an updated cyclic schedule for the same "@ + text::decimal(v.num_slots)
        + "-slot profiler. Prioritize events with high uncertainty or high rate — they are most informative. Cover all counters at least once across the full cycle.\n\nYour entire response must be a single JSON array. No explanation, no prose, no markdown fences."@
}

fn find_name(info: &Vec<EventInfo>, id: EventId) -> (r: String)
    ensures
        r@ == name_of(info@, id),
{
    let mut n: usize = info.len();
    assert(info@.take(n as int) =~= info@);
    while n > 0
        invariant
            n <= info@.len(),
            name_of(info@, id) == name_of(info@.take(n as int), id),
        decreases n,
    {
        assert(info@.take(n as int).drop_last() =~= info@.take(n - 1));
        if info[n - 1].id == id {
            return info[n - 1].name.clone();
        }
        n = n - 1;
    }
    owned("unknown")
}

fn find_observed(observed: &Vec<ObservedRate>, id: EventId) -> (r: Option<usize>)
    ensures
        match r {
            Some(i) => i < observed@.len() && observed_of(observed@, id) == Some(
                observed@[i as int],
            ),
            None => observed_of(observed@, id) is None,
        },
{
    let mut n: usize = observed.len();
    assert(observed@.take(n as int) =~= observed@);
    while n > 0
        invariant
            n <= observed@.len(),
            observed_of(observed@, id) == observed_of(observed@.take(n as int), id),
        decreases n,
    {
        assert(observed@.take(n as int).drop_last() =~= observed@.take(n - 1));
        if observed[n - 1].event_id == id {
            return Some(n - 1);
        }
        n = n - 1;
    }
    None
}

fn push_observation(
    out: &mut String,
    info: &Vec<EventInfo>,
    observed: &Vec<ObservedRate>,
    id: EventId,
)
    ensures
        final(out)@ == old(out)@ + observation_line(info@, observed@, id),
{
    let mut line = owned("  ");
    push_decimal(&mut line, id as u64);
    line.append(" (");
    line.append(find_name(info, id).as_str());
    match find_observed(observed, id) {
        Some(i) => {
            line.append("): rate=");
            line.append(observed[i].rate.as_str());
            line.append(" ev/ns, uncertainty=");
            line.append(observed[i].uncertainty.as_str());
            line.append(", samples=");
            push_decimal(&mut line, observed[i].samples);
            line.append("\n");
        },
        None => {
            line.append("): not yet observed\n");
        },
    }
    out.append(line.as_str());
}

impl DynamicLlmScheduler {
    /// Validity.
    pub open spec fn wf(&self) -> bool {
        self@.valid()
    }

    /// A scheduler that has no schedule yet. In simulation, where no time passes between quanta,
    /// it waits for replies and then lets as many quanta go by as the reply took.
    pub fn new(
        event_info: Vec<EventInfo>,
        client: LlmClient,
        update_interval: u32,
        guidance: Option<String>,
        simulation_mode: bool,
    ) -> (r: Self)
        ensures
            r.wf(),
            r@ == (DynamicView {
                client: client@,
                event_info: event_info@,
                schedule: Seq::empty(),
                step_idx: 0,
                all_events: Seq::empty(),
                num_slots: 0,
                update_interval,
                steps_since_update: 0,
                guidance: llm_common::owned_text_view(guidance),
                simulation_mode,
                step_count: 0,
                dispatch_step: 0,
                waiting: false,
                buffered: None,
                release_step: 0,
            }),
    {
        let r = DynamicLlmScheduler {
            client,
            event_info,
            schedule: Vec::new(),
            step_idx: 0,
            all_events: Vec::new(),
            num_slots: 0,
            update_interval,
            steps_since_update: 0,
            guidance,
            simulation_mode,
            step_count: 0,
            dispatch_step: 0,
            waiting_for_response: false,
            buffered_schedule: None,
            buffered_release_step: 0,
        };
        assert(r@.schedule =~= Seq::empty());
        r
    }

    /// The client that asks the model.
    pub fn client(&self) -> (r: &LlmClient)
        ensures
            r@ == self@.client,
    {
        &self.client
    }

    /// What the model is told of the events.
    pub fn event_info(&self) -> (r: &Vec<EventInfo>)
        ensures
            r@ == self@.event_info,
    {
        &self.event_info
    }

    /// The schedule in use.
    pub fn schedule(&self) -> (r: &Vec<ScheduleStep>)
        ensures
            llm_common::step_views(r@) == self@.schedule,
    {
        &self.schedule
    }

    /// Whether a schedule is held back.
    pub fn has_buffered(&self) -> (r: bool)
        ensures
            r == (self@.buffered is Some),
    {
        self.buffered_schedule.is_some()
    }

    /// Sets the valid events and the number of slots. An interval of zero is an error.
    pub fn init(&mut self, all_events: Vec<EventId>, num_slots: usize) -> (r: Result<(), String>)
        ensures
            match r {
                Ok(()) => old(self)@.update_interval > 0 && final(self)@ == (DynamicView {
                    all_events: all_events@,
                    num_slots: num_slots as nat,
                    ..old(self)@
                }),
                Err(message) => old(self)@.update_interval == 0 && final(self)@ == old(self)@
                    && message@ == "update_interval must be >= 1, got "@ + text::decimal(0),
            },
    {
        if self.update_interval == 0 {
            return Err(
                joined(
                    "update_interval must be >= 1, got ",
                    decimal_text(self.update_interval as u64).as_str(),
                ),
            );
        }
        self.all_events = all_events;
        self.num_slots = num_slots;
        Ok(())
    }

    /// The prompt that asks for a first schedule; `example` is an example schedule in JSON.
    pub fn init_prompt(&self, example: &str) -> (r: PromptBuilder)
        ensures
            r@ == seq![
                ("system"@, llm_common::system_text(self@.num_slots, self@.guidance)),
                (
                    "user"@,
                    llm_common::init_request(self@.event_info, self@.num_slots, example@),
                ),
            ],
    {
        let guidance: Option<&str> = match &self.guidance {
            Some(g) => Some(g.as_str()),
            None => None,
        };
        build_init_prompt(&self.event_info, self.num_slots, guidance, example)
    }

    /// Takes the first schedule.
    pub fn adopt(&mut self, schedule: Vec<ScheduleStep>)
        requires
            old(self).wf(),
            schedule@.len() > 0 ==> old(self)@.step_idx < schedule@.len(),
        ensures
            final(self).wf(),
            final(self)@ == (DynamicView {
                schedule: llm_common::step_views(schedule@),
                ..old(self)@
            }),
    {
        self.schedule = schedule;
    }

    /// Holds a schedule back until a step.
    pub fn buffer_schedule(&mut self, schedule: Vec<ScheduleStep>, release_step: u64)
        requires
            old(self).wf(),
            schedule@.len() > 0,
        ensures
            final(self).wf(),
            final(self)@ == (DynamicView {
                buffered: Some(llm_common::step_views(schedule@)),
                release_step,
                ..old(self)@
            }),
    {
        self.buffered_schedule = Some(schedule);
        self.buffered_release_step = release_step;
    }

    /// Builds the prompt that asks for a new schedule in view of what was observed.
    /// `current_schedule` is the schedule in use, in JSON.
    pub fn build_update_prompt(
        &self,
        observed: &Vec<ObservedRate>,
        current_schedule: &str,
    ) -> (r: PromptBuilder)
        ensures
            r@ == seq![
                ("system"@, llm_common::system_text(self@.num_slots, self@.guidance)),
                ("user"@, update_request(self@, observed@, current_schedule@)),
            ],
    {
        let mut observations = String::new();
        let mut i: usize = 0;
        assert(self.all_events@.take(0) =~= Seq::empty());
        while i < self.all_events.len()
            invariant
                i <= self.all_events@.len(),
                observations@ == observation_lines(
                    self.event_info@,
                    observed@,
                    self.all_events@.take(i as int),
                ),
            decreases self.all_events@.len() - i,
        {
            assert(self.all_events@.take(i as int + 1).drop_last() =~= self.all_events@.take(
                i as int,
            ));
            push_observation(&mut observations, &self.event_info, observed, self.all_events[i]);
            i = i + 1;
        }
        assert(self.all_events@.take(self.all_events@.len() as int) =~= self.all_events@);
        let mut user = owned("Available performance counters (format — ID: name: description):\n");
        user.append(event_list(&self.event_info).as_str());
        user.append(
            "\nRecent observations (rate in events/ns, uncertainty in [0=confident, 1=unknown]):\n",
        );
        user.append(observations.as_str());
        user.append("\nCurrent schedule (for reference):\n");
        user.append(current_schedule);
        user.append("\n\nGenerate an updated cyclic schedule for the same ");
        push_decimal(&mut user, self.num_slots as u64);
        user.append(
            "-slot profiler. Prioritize events with high uncertainty or high rate — they are most informative. Cover all counters at least once across the full cycle.\n\nYour entire response must be a single JSON array. No explanation, no prose, no markdown fences.",
        );
        let guidance: Option<&str> = match &self.guidance {
            Some(g) => Some(g.as_str()),
            None => None,
        };
        let r = PromptBuilder::new().system(system_message(self.num_slots, guidance)).user(user);
        assert(r@ =~= seq![
            ("system"@, llm_common::system_text(self@.num_slots, self@.guidance)),
            ("user"@, update_request(self@, observed@, current_schedule@)),
        ]);
        r
    }

    /// Whether the caller has to wait for a reply, not only look for one.
    pub fn must_wait(&self) -> (r: bool)
        ensures
            r == (self@.simulation_mode && self@.waiting),
    {
        self.simulation_mode && self.waiting_for_response
    }

    fn receive(&mut self, arrival: Arrival, waited_ns: u64, elapsed_ns: u64)
        requires
            old(self).wf(),
            arrival@ matches ArrivalView::Schedule(steps) ==> steps.len() > 0,
            old(self)@.simulation_mode && old(self)@.waiting && arrival@ is Schedule ==> old(
                self)@.dispatch_step + DynamicView::quanta(waited_ns, elapsed_ns) + 1 <= u64::MAX,
        ensures
            final(self).wf(),
            final(self)@ == old(self)@.received(arrival@, waited_ns, elapsed_ns),
    {
        if self.simulation_mode && self.waiting_for_response {
            match arrival {
                Arrival::Schedule(steps) => {
                    let quotient: u64 = if elapsed_ns == 0 {
                        waited_ns
                    } else {
                        waited_ns / elapsed_ns
                    };
                    let k: u64 = if quotient >= 1 {
                        quotient
                    } else {
                        1
                    };
                    assert(k == DynamicView::quanta(waited_ns, elapsed_ns));
                    self.buffered_release_step = self.dispatch_step + k + 1;
                    self.buffered_schedule = Some(steps);
                    self.waiting_for_response = false;
                },
                Arrival::Failed => {
                    self.waiting_for_response = false;
                },
                Arrival::Disconnected => {
                    self.waiting_for_response = false;
                },
                Arrival::Nothing => {},
            }
        } else {
            match arrival {
                Arrival::Schedule(steps) => {
                    self.schedule = steps;
                    self.step_idx = 0;
                },
                _ => {},
            }
        }
    }

    /// Begins a step: puts a schedule that was held back to use if its time has come, and takes in
    /// what the worker has to say. `waited_ns` is the time since the request, `elapsed_ns` the
    /// duration of the quantum. Returns whether it is time to ask for a new schedule.
    pub fn advance(&mut self, arrival: Arrival, waited_ns: u64, elapsed_ns: u64) -> (r: bool)
        requires
            old(self).wf(),
            arrival@ matches ArrivalView::Schedule(steps) ==> steps.len() > 0,
            old(self)@.step_count < u64::MAX,
            old(self)@.steps_since_update < u32::MAX,
            old(self)@.simulation_mode && old(self)@.waiting && arrival@ is Schedule ==> old(
                self)@.dispatch_step + DynamicView::quanta(waited_ns, elapsed_ns) + 1 <= u64::MAX,
        ensures
            final(self).wf(),
            final(self)@ == old(self)@.advanced(arrival@, waited_ns, elapsed_ns),
            r == final(self)@.request_due(),
    {
        self.step_count = self.step_count + 1;
        if self.buffered_schedule.is_some() && self.step_count >= self.buffered_release_step {
            let mut held: Option<Vec<ScheduleStep>> = None;
            std::mem::swap(&mut held, &mut self.buffered_schedule);
            if let Some(steps) = held {
                self.schedule = steps;
                self.step_idx = 0;
            }
        }
        assert(self@ =~= (DynamicView {
            step_count: (old(self)@.step_count + 1) as u64,
            ..old(self)@
        }).released());
        self.receive(arrival, waited_ns, elapsed_ns);
        self.steps_since_update = self.steps_since_update + 1;
        self.steps_since_update >= self.update_interval
    }

    /// Ends a step: notes whether the worker accepted a request, and serves the next step of the
    /// schedule. A request that was not accepted stays due.
    pub fn finish(&mut self, request_accepted: bool) -> (r: ScheduleDecision)
        requires
            old(self).wf(),
            old(self)@.schedule.len() > 0,
        ensures
            final(self).wf(),
            r.active_events@ == old(self)@.current().events,
            r.duration == Some(old(self)@.current().duration_ms),
            llm_common::fits_slots(old(self)@.schedule, old(self)@.num_slots)
                ==> r.active_events@.len() <= old(self)@.num_slots,
            final(self)@ == (if request_accepted {
                old(self)@.requested()
            } else {
                old(self)@
            }).served(),
    {
        if request_accepted {
            self.steps_since_update = 0;
            if self.simulation_mode {
                self.dispatch_step = self.step_count;
                self.waiting_for_response = true;
            }
        }
        assert(self@.schedule[self@.step_idx as int] == self.schedule@[self.step_idx as int]@);
        let (decision, next) = serve_step(&self.schedule, self.step_idx);
        self.step_idx = next;
        decision
    }
}

/// In simulation a new schedule is put to use exactly when as many quanta have gone by since the
/// request as the reply took: not before, and at that step.
pub proof fn reply_takes_effect_on_time(
    v: DynamicView,
    steps: Seq<StepView>,
    waited_ns: u64,
    elapsed_ns: u64,
    later: u64,
)
    requires
        v.simulation_mode && v.waiting,
        v.dispatch_step + DynamicView::quanta(waited_ns, elapsed_ns) + 1 <= u64::MAX,
    ensures
        ({
            let held = v.received(ArrivalView::Schedule(steps), waited_ns, elapsed_ns);
            let then = DynamicView { step_count: later, ..held };
            &&& held.schedule == v.schedule
            &&& later <= v.dispatch_step + DynamicView::quanta(waited_ns, elapsed_ns)
                ==> then.released() == then
            &&& later > v.dispatch_step + DynamicView::quanta(waited_ns, elapsed_ns)
                ==> then.released().schedule == steps && then.released().step_idx == 0
                && then.released().buffered is None
        }),
{
}

/// As long as only schedules that fit the slots come in, the one in use and the one held back fit.
pub proof fn schedules_stay_within_the_slots(
    v: DynamicView,
    arrival: ArrivalView,
    waited_ns: u64,
    elapsed_ns: u64,
    accepted: bool,
)
    requires
        llm_common::fits_slots(v.schedule, v.num_slots),
        v.buffered matches Some(steps) ==> llm_common::fits_slots(steps, v.num_slots),
        arrival matches ArrivalView::Schedule(steps) ==> llm_common::fits_slots(
            steps,
            v.num_slots,
        ),
    ensures
        ({
            let began = v.advanced(arrival, waited_ns, elapsed_ns);
            let after = (if accepted {
                began.requested()
            } else {
                began
            }).served();
            &&& after.num_slots == v.num_slots
            &&& llm_common::fits_slots(began.schedule, v.num_slots)
            &&& llm_common::fits_slots(after.schedule, v.num_slots)
            &&& after.buffered matches Some(steps) ==> llm_common::fits_slots(steps, v.num_slots)
        }),
{
}

/// What happens at one step: what the worker has to say, how long ago the request was, how long
/// the quantum took, and whether the worker accepted a request.
#[verifier::ext_equal]
pub struct CallView {
    pub arrival: ArrivalView,
    pub waited_ns: u64,
    pub elapsed_ns: u64,
    pub accepted: bool,
}

impl DynamicView {
    /// The step of the schedule that a call serves.
    pub open spec fn serves(self, call: CallView) -> StepView {
        self.advanced(call.arrival, call.waited_ns, call.elapsed_ns).current()
    }

    /// The scheduler after a call.
    pub open spec fn stepped(self, call: CallView) -> DynamicView {
        let began = self.advanced(call.arrival, call.waited_ns, call.elapsed_ns);
        (if call.accepted {
            began.requested()
        } else {
            began
        }).served()
    }

    /// The scheduler after several calls.
    pub open spec fn after(self, calls: Seq<CallView>) -> DynamicView
        decreases calls.len(),
    {
        if calls.len() == 0 {
            self
        } else {
            self.after(calls.drop_last()).stepped(calls.last())
        }
    }

    /// Whether the next call puts a schedule that was held back to use.
    pub open spec fn release_due(self) -> bool {
        self.buffered is Some && self.step_count + 1 >= self.release_step
    }
}

/// Without a new schedule the one in use goes on: whether nothing came, the request failed or the
/// worker is gone, its next step is served, and the one after that comes next, beginning again at
/// the end. So it is, too, while a simulated run holds back the schedule that came.
pub proof fn schedule_goes_on_without_a_reply(v: DynamicView, call: CallView)
    requires
        v.valid(),
        v.schedule.len() > 0,
        v.step_count < u64::MAX,
        !v.release_due(),
        call.arrival is Schedule ==> v.simulation_mode && v.waiting,
    ensures
        v.serves(call) == v.schedule[v.step_idx as int],
        v.stepped(call).schedule == v.schedule,
        v.stepped(call).step_idx == (v.step_idx + 1) % v.schedule.len(),
{
}

/// Outside simulation a new schedule is put to use at the very call that brings it: its first step
/// is served, and its second comes next.
pub proof fn reply_is_served_at_once(v: DynamicView, call: CallView, steps: Seq<StepView>)
    requires
        !v.simulation_mode,
        call.arrival == ArrivalView::Schedule(steps),
        steps.len() > 0,
    ensures
        v.serves(call) == steps[0],
        v.stepped(call).schedule == steps,
        v.stepped(call).step_idx == 1nat % steps.len(),
{
}

/// Whether a simulated run has just sent a request and holds nothing back.
pub open spec fn just_asked(v: DynamicView) -> bool {
    v.simulation_mode && v.waiting && v.dispatch_step == v.step_count && v.buffered is None
}

/// In simulation, a call at which the worker accepts a request is the one that replies are timed
/// from.
pub proof fn requests_are_timed_from_their_call(v: DynamicView, call: CallView)
    requires
        v.simulation_mode,
        v.step_count < u64::MAX,
        v.buffered is None || v.release_due(),
        call.arrival is Schedule ==> !v.waiting,
        call.accepted,
    ensures
        just_asked(v.stepped(call)),
        v.stepped(call).dispatch_step == v.step_count + 1,
{
}

proof fn lemma_next_index(i: nat, m: nat)
    requires
        m > 0,
    ensures
        (i % m + 1) % m == (i + 1) % m,
{
    vstd::arithmetic::div_mod::lemma_add_mod_noop_right(1, i as int, m as int);
}

proof fn lemma_held_back(v: DynamicView, calls: Seq<CallView>, steps: Seq<StepView>, n: nat)
    requires
        v.valid(),
        just_asked(v),
        v.schedule.len() > 0,
        steps.len() > 0,
        0 < n <= calls.len(),
        calls[0].arrival == ArrivalView::Schedule(steps),
        forall|k: int| 0 < k < calls.len() ==> !((#[trigger] calls[k]).arrival is Schedule),
        v.step_count + calls.len() < u64::MAX,
        v.step_count + DynamicView::quanta(calls[0].waited_ns, calls[0].elapsed_ns) < u64::MAX,
    ensures
        ({
            let s = v.after(calls.take(n as int));
            let q = DynamicView::quanta(calls[0].waited_ns, calls[0].elapsed_ns);
            &&& s.step_count == v.step_count + n
            &&& n <= q ==> s.schedule == v.schedule && s.step_idx == (v.step_idx + n)
                % v.schedule.len() && s.buffered == Some(steps) && s.release_step == v.step_count + q
                + 1
            &&& n > q ==> s.schedule == steps && s.step_idx == ((n - q) as nat) % steps.len()
                && s.buffered is None
        }),
    decreases n,
{
    let q = DynamicView::quanta(calls[0].waited_ns, calls[0].elapsed_ns);
    assert(calls.take(n as int).drop_last() =~= calls.take(n - 1));
    assert(calls.take(n as int).last() == calls[n - 1]);
    if n == 1 {
        assert(calls.take(0) =~= Seq::empty());
        assert(v.after(calls.take(0)) == v);
    } else {
        let m = (n - 1) as nat;
        lemma_held_back(v, calls, steps, m);
        assert(!(calls[n - 1].arrival is Schedule));
        lemma_next_index(v.step_idx + m, v.schedule.len());
        if m > q {
            lemma_next_index((m - q) as nat, steps.len());
        }
    }
}

/// In simulation a new schedule is served from the call on that a reply of that duration would
/// have been in time for. Call by call: of a request sent at call `d`, the reply comes at call
/// `d + 1`; the schedule in use goes on until the quanta that the reply took have gone by; at call
/// `d + 1` plus those quanta the first step of the new schedule is served, then its others in turn.
pub proof fn reply_is_served_when_due(
    v: DynamicView,
    calls: Seq<CallView>,
    steps: Seq<StepView>,
    n: nat,
)
    requires
        v.valid(),
        just_asked(v),
        v.schedule.len() > 0,
        steps.len() > 0,
        n < calls.len(),
        calls[0].arrival == ArrivalView::Schedule(steps),
        forall|k: int| 0 < k < calls.len() ==> !((#[trigger] calls[k]).arrival is Schedule),
        v.step_count + calls.len() < u64::MAX,
        v.step_count + DynamicView::quanta(calls[0].waited_ns, calls[0].elapsed_ns) < u64::MAX,
    ensures
        ({
            let q = DynamicView::quanta(calls[0].waited_ns, calls[0].elapsed_ns);
            let before = v.after(calls.take(n as int));
            &&& before.step_count + 1 == v.dispatch_step + 1 + n
            &&& n < q ==> before.serves(calls[n as int]) == v.schedule[((v.step_idx + n)
                % v.schedule.len()) as int]
            &&& n >= q ==> before.serves(calls[n as int]) == steps[(((n - q) as nat)
                % steps.len()) as int]
            &&& n == q ==> before.serves(calls[n as int]) == steps[0]
        }),
{
    let q = DynamicView::quanta(calls[0].waited_ns, calls[0].elapsed_ns);
    vstd::arithmetic::div_mod::lemma_small_mod(v.step_idx, v.schedule.len());
    vstd::arithmetic::div_mod::lemma_small_mod(0, steps.len());
    if n == 0 {
        assert(calls.take(0) =~= Seq::empty());
        assert(v.after(calls.take(0)) == v);
    } else {
        lemma_held_back(v, calls, steps, n);
        assert(!(calls[n as int].arrival is Schedule));
    }
}

/// A reply counts as having taken as many quanta as fit into the time it took, and one if none
/// does; a quantum without duration counts as a nanosecond.
pub proof fn replies_take_whole_quanta(waited_ns: u64, elapsed_ns: u64)
    ensures
        ({
            let q = DynamicView::quanta(waited_ns, elapsed_ns);
            &&& q >= 1
            &&& elapsed_ns > 0 && waited_ns >= elapsed_ns ==> q * elapsed_ns <= waited_ns < (q + 1)
                * elapsed_ns
            &&& waited_ns < elapsed_ns ==> q == 1
            &&& elapsed_ns == 0 && waited_ns > 0 ==> q == waited_ns
        }),
{
    let w = waited_ns as int;
    if elapsed_ns > 0 {
        let e = elapsed_ns as int;
        vstd::arithmetic::div_mod::lemma_fundamental_div_mod(w, e);
        let n = w / e;
        assert(n * e == e * n && (n + 1) * e == e * n + e) by (nonlinear_arith);
        if w >= e {
            assert(n >= 1) by (nonlinear_arith)
                requires
                    w == e * n + w % e,
                    0 <= w % e < e,
                    w >= e,
            ;
        } else {
            assert(n == 0) by (nonlinear_arith)
                requires
                    w == e * n + w % e,
                    0 <= w % e < e,
                    0 <= w < e,
            ;
        }
    }
}

/// A request is due as many calls after the last one that was accepted as the interval says, and at
/// every call from then on until one is accepted again.
pub proof fn requests_are_due_after_the_interval(v: DynamicView, calls: Seq<CallView>, call: CallView)
    requires
        v.steps_since_update == 0,
        calls.len() + 1 <= u32::MAX,
        forall|k: int| 0 <= k < calls.len() ==> !(#[trigger] calls[k]).accepted,
    ensures
        v.after(calls).advanced(call.arrival, call.waited_ns, call.elapsed_ns).request_due()
            <==> calls.len() + 1 >= v.update_interval,
{
    lemma_steps_counted(v, calls);
}

proof fn lemma_steps_counted(v: DynamicView, calls: Seq<CallView>)
    requires
        v.steps_since_update == 0,
        calls.len() <= u32::MAX,
        forall|k: int| 0 <= k < calls.len() ==> !(#[trigger] calls[k]).accepted,
    ensures
        v.after(calls).steps_since_update == calls.len(),
        v.after(calls).update_interval == v.update_interval,
    decreases calls.len(),
{
    if calls.len() > 0 {
        let front = calls.drop_last();
        assert forall|k: int| 0 <= k < front.len() implies !(#[trigger] front[k]).accepted by {
            assert(!calls[k].accepted);
        }
        lemma_steps_counted(v, front);
        assert(!calls[calls.len() - 1].accepted);
    }
}

/// Once a request is accepted, the interval begins anew.
pub proof fn accepted_requests_restart_the_interval(v: DynamicView, call: CallView)
    requires
        call.accepted,
    ensures
        v.stepped(call).steps_since_update == 0,
        v.stepped(call).update_interval == v.update_interval,
{
}

/// An event is called by the name of its last entry, and `unknown` if it has none.
pub proof fn events_are_called_by_name(info: Seq<EventInfo>, id: EventId)
    ensures
        forall|i: int|
            0 <= i < info.len() && (#[trigger] info[i]).id == id && (forall|j: int|
                i < j < info.len() ==> (#[trigger] info[j]).id != id) ==> name_of(info, id)
                == info[i].name@,
        (forall|j: int| 0 <= j < info.len() ==> (#[trigger] info[j]).id != id) ==> name_of(info, id)
            == "unknown"@,
    decreases info.len(),
{
    if info.len() > 0 {
        let front = info.drop_last();
        events_are_called_by_name(front, id);
        let n = info.len() - 1;
        assert(forall|j: int| 0 <= j < front.len() ==> #[trigger] front[j] == info[j]);
        assert forall|i: int|
            0 <= i < info.len() && (#[trigger] info[i]).id == id && (forall|j: int|
                i < j < info.len() ==> (#[trigger] info[j]).id != id) implies name_of(info, id)
            == info[i].name@ by {
            if i < n {
                assert(info[n].id != id);
                assert(front[i].id == id);
                assert forall|j: int| i < j < front.len() implies (#[trigger] front[j]).id != id by {
                    assert(info[j].id != id);
                }
            }
        }
        if forall|j: int| 0 <= j < info.len() ==> (#[trigger] info[j]).id != id {
            assert(info[n].id != id);
            assert forall|j: int| 0 <= j < front.len() implies (#[trigger] front[j]).id != id by {
                assert(info[j].id != id);
            }
        }
    }
}

/// What the model is told of an event is the last that was observed of it; of an event never
/// observed, that it was not.
pub proof fn the_last_observation_is_told(observed: Seq<ObservedRate>, id: EventId)
    ensures
        forall|i: int|
            0 <= i < observed.len() && (#[trigger] observed[i]).event_id == id && (forall|j: int|
                i < j < observed.len() ==> (#[trigger] observed[j]).event_id != id) ==> observed_of(
                observed,
                id,
            ) == Some(observed[i]),
        (forall|j: int| 0 <= j < observed.len() ==> (#[trigger] observed[j]).event_id != id)
            ==> observed_of(observed, id) is None,
    decreases observed.len(),
{
    if observed.len() > 0 {
        let front = observed.drop_last();
        the_last_observation_is_told(front, id);
        let n = observed.len() - 1;
        assert(forall|j: int| 0 <= j < front.len() ==> #[trigger] front[j] == observed[j]);
        assert forall|i: int|
            0 <= i < observed.len() && (#[trigger] observed[i]).event_id == id && (forall|j: int|
                i < j < observed.len() ==> (#[trigger] observed[j]).event_id
                    != id) implies observed_of(observed, id) == Some(observed[i]) by {
            if i < n {
                assert(observed[n].event_id != id);
                assert(front[i].event_id == id);
                assert forall|j: int| i < j < front.len() implies (#[trigger] front[j]).event_id
                    != id by {
                    assert(observed[j].event_id != id);
                }
            }
        }
        if forall|j: int| 0 <= j < observed.len() ==> (#[trigger] observed[j]).event_id != id {
            assert(observed[n].event_id != id);
            assert forall|j: int| 0 <= j < front.len() implies (#[trigger] front[j]).event_id
                != id by {
                assert(observed[j].event_id != id);
            }
        }
    }
}

/// The observations of lists of events join, and every event has one line.
pub proof fn observation_lines_join(
    info: Seq<EventInfo>,
    observed: Seq<ObservedRate>,
    a: Seq<EventId>,
    b: Seq<EventId>,
)
    ensures
        observation_lines(info, observed, a + b) == observation_lines(info, observed, a)
            + observation_lines(info, observed, b),
        a.len() == 1 ==> observation_lines(info, observed, a) == observation_line(
            info,
            observed,
            a[0],
        ),
    decreases b.len(),
{
    if a.len() == 1 {
        reveal_with_fuel(observation_lines, 2);
        assert(observation_lines(info, observed, a) =~= observation_line(info, observed, a[0]));
    }
    if b.len() == 0 {
        assert(a + b =~= a);
        assert(observation_lines(info, observed, a) + observation_lines(info, observed, b)
            =~= observation_lines(info, observed, a));
    } else {
        observation_lines_join(info, observed, a, b.drop_last());
        assert((a + b).drop_last() =~= a + b.drop_last());
        assert((a + b).last() == b.last());
        assert(observation_lines(info, observed, a + b) =~= observation_lines(info, observed, a)
            + observation_lines(info, observed, b));
    }
}

} // verus!
