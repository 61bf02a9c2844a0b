//! What the schedulers that ask a language model share: prompts, and checking the model's answer.

use crate::event::EventId;
use crate::llm::prompt::PromptBuilder;
use crate::scheduler::ScheduleDecision;
use crate::text::{self, chars_of, joined, owned, push_decimal};
use vstd::prelude::*;
use vstd::string::*;

verus! {

/// What the model is told of an event.
pub struct EventInfo {
    /// The event.
    pub id: EventId,
    /// Its name.
    pub name: String,
    /// What it counts.
    pub desc: String,
}

/// One step of a cyclic schedule.
pub struct ScheduleStep {
    /// How long the step lasts, in milliseconds.
    pub duration_ms: u64,
    /// The events measured.
    pub events: Vec<EventId>,
}

/// Model of [`ScheduleStep`].
#[verifier::ext_equal]
pub struct StepView {
    /// How long the step lasts.
    pub duration_ms: u64,
    /// The events measured.
    pub events: Seq<EventId>,
}

impl View for ScheduleStep {
    type V = StepView;

    open spec fn view(&self) -> StepView {
        StepView { duration_ms: self.duration_ms, events: self.events@ }
    }
}

/// The models of a schedule.
pub open spec fn step_views(steps: Seq<ScheduleStep>) -> Seq<StepView> {
    steps.map_values(|s: ScheduleStep| s@)
}

/// The position of the first `c` in `s`.
pub open spec fn first_of(s: Seq<char>, c: char) -> Option<int>
    decreases s.len(),
{
    if s.len() == 0 {
        None
    } else if s[0] == c {
        Some(0)
    } else {
        match first_of(s.drop_first(), c) {
            Some(i) => Some(i + 1),
            None => None,
        }
    }
}

/// The position of the last `c` in `s`.
pub open spec fn last_of(s: Seq<char>, c: char) -> Option<int>
    decreases s.len(),
{
    if s.len() == 0 {
        None
    } else if s.last() == c {
        Some(s.len() - 1)
    } else {
        last_of(s.drop_last(), c)
    }
}

fn find_first(s: &Vec<char>, c: char) -> (r: Option<usize>)
    ensures
        match r {
            Some(i) => first_of(s@, c) == Some(i as int) && i < s@.len(),
            None => first_of(s@, c) is None,
        },
{
    let mut i: usize = 0;
    assert(s@.skip(0) =~= s@);
    while i < s.len()
        invariant
            i <= s@.len(),
            first_of(s@, c) == match first_of(s@.skip(i as int), c) {
                Some(k) => Some(k + i),
                None => None,
            },
        decreases s@.len() - i,
    {
        assert(s@.skip(i as int)[0] == s@[i as int]);
        assert(s@.skip(i as int).drop_first() =~= s@.skip(i as int + 1));
        if s[i] == c {
            return Some(i);
        }
        i = i + 1;
    }
    None
}

fn find_last(s: &Vec<char>, c: char) -> (r: Option<usize>)
    ensures
        match r {
            Some(i) => last_of(s@, c) == Some(i as int) && i < s@.len(),
            None => last_of(s@, c) is None,
        },
{
    let mut n: usize = s.len();
    assert(s@.take(n as int) =~= s@);
    while n > 0
        invariant
            n <= s@.len(),
            last_of(s@, c) == last_of(s@.take(n as int), c),
        decreases n,
    {
        assert(s@.take(n as int).drop_last() =~= s@.take(n - 1));
        if s[n - 1] == c {
            return Some(n - 1);
        }
        n = n - 1;
    }
    None
}

/// The JSON array in a response: from the first opening to the last closing bracket, whatever
/// stands around it; or the message that says why there is none.
pub open spec fn array_in(response: Seq<char>) -> Result<Seq<char>, Seq<char>> {
    match first_of(response, '[') {
        None => Err("no JSON array found in LLM response:\n"@ + response),
        Some(start) => match last_of(response, ']') {
            None => Err("JSON array is not closed in LLM response:\n"@ + response),
            Some(end) => if end < start {
                Err("malformed JSON array in LLM response:\n"@ + response)
            } else {
                Ok(response.subrange(start, end + 1))
            },
        },
    }
}

/// Cuts the JSON array out of a response.
pub fn array_text(response: &str) -> (r: Result<String, String>)
    ensures
        match r {
            Ok(text) => array_in(response@) == Ok::<Seq<char>, Seq<char>>(text@),
            Err(message) => array_in(response@) == Err::<Seq<char>, Seq<char>>(message@),
        },
{
    let chars = chars_of(response);
    match find_first(&chars, '[') {
        None => Err(joined("no JSON array found in LLM response:\n", response)),
        Some(start) => match find_last(&chars, ']') {
            None => Err(joined("JSON array is not closed in LLM response:\n", response)),
            Some(end) => if end < start {
                Err(joined("malformed JSON array in LLM response:\n", response))
            } else {
                Ok(owned(response.substring_char(start, end + 1)))
            },
        },
    }
}

/// The message for a response whose array is no schedule.
pub fn parse_failure(error: &str, response: &str) -> (r: String)
    ensures
        r@ == "failed to parse LLM schedule JSON: "@ + error@ + "\nresponse:\n"@ + response@,
{
    let mut r = joined("failed to parse LLM schedule JSON: ", error);
    r.append("\nresponse:\n");
    r.append(response);
    r
}

/// Those of `events` that are valid, in order.
pub open spec fn valid_events(events: Seq<EventId>, valid: Seq<EventId>) -> Seq<EventId>
    decreases events.len(),
{
    if events.len() == 0 {
        Seq::empty()
    } else {
        let rest = valid_events(events.drop_last(), valid);
        if valid.contains(events.last()) {
            rest.push(events.last())
        } else {
            rest
        }
    }
}

/// A step with only valid events, no more of them than slots, and a duration of at least one.
pub open spec fn cleaned(step: StepView, valid: Seq<EventId>, num_slots: nat) -> StepView {
    let kept = valid_events(step.events, valid);
    StepView {
        duration_ms: if step.duration_ms == 0 {
            1
        } else {
            step.duration_ms
        },
        events: if kept.len() > num_slots {
            kept.take(num_slots as int)
        } else {
            kept
        },
    }
}

/// The cleaned steps that have any event left, in order.
pub open spec fn usable_steps(
    steps: Seq<StepView>,
    valid: Seq<EventId>,
    num_slots: nat,
) -> Seq<StepView>
    decreases steps.len(),
{
    if steps.len() == 0 {
        Seq::empty()
    } else {
        let rest = usable_steps(steps.drop_last(), valid, num_slots);
        let last = cleaned(steps.last(), valid, num_slots);
        if last.events.len() > 0 {
            rest.push(last)
        } else {
            rest
        }
    }
}

/// The schedule made of what the model answered, or the message that says why there is none.
pub open spec fn checked(steps: Seq<StepView>, valid: Seq<EventId>, num_slots: nat) -> Result<
    Seq<StepView>,
    Seq<char>,
> {
    if steps.len() == 0 {
        Err("LLM returned an empty schedule"@)
    } else {
        let usable = usable_steps(steps, valid, num_slots);
        if usable.len() == 0 {
            Err("all steps contained invalid event IDs"@)
        } else {
            Ok(usable)
        }
    }
}

/// Whether an event is among `events`.
pub(crate) fn contains_event(events: &Vec<EventId>, id: EventId) -> (r: bool)
    ensures
        r == events@.contains(id),
{
    let mut i: usize = 0;
    while i < events.len()
        invariant
            i <= events@.len(),
            forall|j: int| 0 <= j < i ==> events@[j] != id,
        decreases events@.len() - i,
    {
        if events[i] == id {
            return true;
        }
        i = i + 1;
    }
    false
}

fn clean_step(step: &ScheduleStep, all_events: &Vec<EventId>, num_slots: usize) -> (r: ScheduleStep)
    ensures
        r@ == cleaned(step@, all_events@, num_slots as nat),
{
    let mut kept: Vec<EventId> = Vec::new();
    let mut i: usize = 0;
    while i < step.events.len()
        invariant
            i <= step.events@.len(),
            kept@ == valid_events(step.events@.take(i as int), all_events@),
        decreases step.events@.len() - i,
    {
        assert(step.events@.take(i as int + 1).drop_last() =~= step.events@.take(i as int));
        if contains_event(all_events, step.events[i]) {
            kept.push(step.events[i]);
        }
        i = i + 1;
    }
    assert(step.events@.take(step.events@.len() as int) =~= step.events@);
    let ghost all = kept@;
    if kept.len() > num_slots {
        kept.truncate(num_slots);
        assert(kept@ =~= all.take(num_slots as int));
    }
    ScheduleStep {
        duration_ms: if step.duration_ms == 0 {
            1
        } else {
            step.duration_ms
        },
        events: kept,
    }
}

/// Makes a schedule of what the model answered: events that do not exist are dropped, steps are
/// cut to the number of slots, no step lasts less than a millisecond, and steps without events
/// are dropped. It is an error if nothing was answered or nothing is left.
pub fn check_schedule(
    steps: &Vec<ScheduleStep>,
    all_events: &Vec<EventId>,
    num_slots: usize,
) -> (r: Result<Vec<ScheduleStep>, String>)
    ensures
        match r {
            Ok(list) => checked(step_views(steps@), all_events@, num_slots as nat) == Ok::<
                Seq<StepView>,
                Seq<char>,
            >(step_views(list@)),
            Err(message) => checked(step_views(steps@), all_events@, num_slots as nat) == Err::<
                Seq<StepView>,
                Seq<char>,
            >(message@),
        },
{
    if steps.len() == 0 {
        return Err(owned("LLM returned an empty schedule"));
    }
    let ghost views = step_views(steps@);
    let mut usable: Vec<ScheduleStep> = Vec::new();
    let mut i: usize = 0;
    assert(step_views(usable@) =~= Seq::empty());
    assert(views.take(0) =~= Seq::empty());
    while i < steps.len()
        invariant
            i <= steps@.len(),
            views == step_views(steps@),
            step_views(usable@) == usable_steps(
                views.take(i as int),
                all_events@,
                num_slots as nat,
            ),
        decreases steps@.len() - i,
    {
        assert(views.take(i as int + 1).drop_last() =~= views.take(i as int));
        assert(views.take(i as int + 1).last() == steps@[i as int]@);
        let step = clean_step(&steps[i], all_events, num_slots);
        if step.events.len() > 0 {
            let ghost before = usable@;
            usable.push(step);
            assert(step_views(usable@) =~= step_views(before).push(step@));
        }
        i = i + 1;
    }
    assert(views.take(views.len() as int) =~= views);
    assert(step_views(usable@).len() == usable@.len());
    if usable.len() == 0 {
        return Err(owned("all steps contained invalid event IDs"));
    }
    Ok(usable)
}

/// Whether a step can be measured: some events, all of them valid, no more than slots, for at
/// least a millisecond.
pub open spec fn measurable(step: StepView, valid: Seq<EventId>, num_slots: nat) -> bool {
    &&& 0 < step.events.len() <= num_slots
    &&& step.duration_ms >= 1
    &&& forall|i: int| 0 <= i < step.events.len() ==> valid.contains(#[trigger] step.events[i])
}

/// Whether no step of a schedule has more events than there are slots.
pub open spec fn fits_slots(steps: Seq<StepView>, num_slots: nat) -> bool {
    forall|i: int| 0 <= i < steps.len() ==> (#[trigger] steps[i]).events.len() <= num_slots
}

/// Every step of an accepted schedule can be measured.
pub proof fn accepted_steps_are_measurable(
    steps: Seq<StepView>,
    valid: Seq<EventId>,
    num_slots: nat,
)
    requires
        checked(steps, valid, num_slots) is Ok,
    ensures
        checked(steps, valid, num_slots)->Ok_0.len() > 0,
        fits_slots(checked(steps, valid, num_slots)->Ok_0, num_slots),
        forall|i: int|
            0 <= i < checked(steps, valid, num_slots)->Ok_0.len() ==> measurable(
                #[trigger] checked(steps, valid, num_slots)->Ok_0[i],
                valid,
                num_slots,
            ),
{
    lemma_usable_steps(steps, valid, num_slots);
    let accepted = checked(steps, valid, num_slots)->Ok_0;
    assert forall|i: int| 0 <= i < accepted.len() implies (#[trigger] accepted[i]).events.len()
        <= num_slots by {
        assert(measurable(accepted[i], valid, num_slots));
    }
}

proof fn lemma_valid_events(events: Seq<EventId>, valid: Seq<EventId>)
    ensures
        forall|i: int|
            0 <= i < valid_events(events, valid).len() ==> valid.contains(
                #[trigger] valid_events(events, valid)[i],
            ),
    decreases events.len(),
{
    if events.len() > 0 {
        lemma_valid_events(events.drop_last(), valid);
        let rest = valid_events(events.drop_last(), valid);
        let all = valid_events(events, valid);
        assert forall|i: int| 0 <= i < all.len() implies valid.contains(#[trigger] all[i]) by {
            if i < rest.len() {
                assert(all[i] == rest[i]);
            }
        }
    }
}

proof fn lemma_usable_steps(steps: Seq<StepView>, valid: Seq<EventId>, num_slots: nat)
    ensures
        forall|i: int|
            0 <= i < usable_steps(steps, valid, num_slots).len() ==> measurable(
                #[trigger] usable_steps(steps, valid, num_slots)[i],
                valid,
                num_slots,
            ),
    decreases steps.len(),
{
    if steps.len() > 0 {
        lemma_usable_steps(steps.drop_last(), valid, num_slots);
        let rest = usable_steps(steps.drop_last(), valid, num_slots);
        let all = usable_steps(steps, valid, num_slots);
        assert forall|i: int| 0 <= i < all.len() implies measurable(
            #[trigger] all[i],
            valid,
            num_slots,
        ) by {
            if i < rest.len() {
                assert(all[i] == rest[i]);
            } else {
                lemma_valid_events(steps.last().events, valid);
                let kept = valid_events(steps.last().events, valid);
                assert forall|k: int| 0 <= k < all[i].events.len() implies valid.contains(
                    #[trigger] all[i].events[k],
                ) by {
                    assert(all[i].events[k] == kept[k]);
                }
            }
        }
    }
}

/// What a response comes to, given what its array was parsed into.
pub open spec fn is_schedule_response(
    r: Result<Vec<ScheduleStep>, String>,
    parsed: Result<Vec<ScheduleStep>, String>,
    response: Seq<char>,
    valid: Seq<EventId>,
    num_slots: nat,
) -> bool {
    match parsed {
        Err(error) => r matches Err(message) && message@ == "failed to parse LLM schedule JSON: "@
            + error@ + "\nresponse:\n"@ + response,
        Ok(steps) => match r {
            Ok(list) => checked(step_views(steps@), valid, num_slots) == Ok::<
                Seq<StepView>,
                Seq<char>,
            >(step_views(list@)),
            Err(message) => checked(step_views(steps@), valid, num_slots) == Err::<
                Seq<StepView>,
                Seq<char>,
            >(message@),
        },
    }
}

/// Makes a schedule of a response: cuts out its JSON array, has it parsed, and checks the steps.
pub fn parse_schedule_response<F: Fn(&str) -> Result<Vec<ScheduleStep>, String>>(
    response: &str,
    all_events: &Vec<EventId>,
    num_slots: usize,
    parse: F,
) -> (r: Result<Vec<ScheduleStep>, String>)
    requires
        forall|text: &str| #[trigger] call_requires(parse, (text,)),
    ensures
        match array_in(response@) {
            Err(message) => r matches Err(m) && m@ == message,
            Ok(array) => exists|text: &str, parsed: Result<Vec<ScheduleStep>, String>|
                text@ == array && #[trigger] call_ensures(parse, (text,), parsed)
                    && is_schedule_response(
                    r,
                    parsed,
                    response@,
                    all_events@,
                    num_slots as nat,
                ),
        },
{
    let array = match array_text(response) {
        Ok(array) => array,
        Err(message) => {
            return Err(message);
        },
    };
    let text = array.as_str();
    let parsed = parse(text);
    assert(call_ensures(parse, (text,), parsed));
    match &parsed {
        Ok(steps) => check_schedule(steps, all_events, num_slots),
        Err(error) => Err(parse_failure(error.as_str(), response)),
    }
}

/// The lines that list the events: ID, name and description.
pub open spec fn event_lines(info: Seq<EventInfo>) -> Seq<char>
    decreases info.len(),
{
    if info.len() == 0 {
        Seq::empty()
    } else {
        let last = info.last();
        event_lines(info.drop_last()) + "  "@ + text::decimal(last.id as nat) + ": "@ + last.name@
            + " — "@ + last.desc@ + "\n"@
    }
}

/// Lists the events, one per line.
pub fn event_list(info: &Vec<EventInfo>) -> (r: String)
    ensures
        r@ == event_lines(info@),
{
    let mut r = String::new();
    let mut i: usize = 0;
    assert(info@.take(0) =~= Seq::empty());
    while i < info.len()
        invariant
            i <= info@.len(),
            r@ == event_lines(info@.take(i as int)),
        decreases info@.len() - i,
    {
        assert(info@.take(i as int + 1).drop_last() =~= info@.take(i as int));
        r.append("  ");
        push_decimal(&mut r, info[i].id as u64);
        r.append(": ");
        r.append(info[i].name.as_str());
        r.append(" — ");
        r.append(info[i].desc.as_str());
        r.append("\n");
        i = i + 1;
    }
    assert(info@.take(info@.len() as int) =~= info@);
    r
}

/// The system message: what the assistant is for, and the user's guidance, if any, below it.
pub open spec fn system_text(num_slots: nat, guidance: Option<Seq<char>>) -> Seq<char> {
    let role =
        "You are an expert Linux performance profiling assistant. You generate hardware performance counter observation schedules for a sampling profiler that activates "@
        + text::decimal(num_slots)
        + " counters simultaneously. The profiler cycles through the schedule indefinitely, rotating which counters are active to build a complete picture of program behavior over time."@;
    match guidance {
        Some(guidance) => role + "\n\n"@ + guidance,
        None => role,
    }
}

/// The view of optional text.
pub open spec fn text_view(s: Option<&str>) -> Option<Seq<char>> {
    match s {
        Some(s) => Some(s@),
        None => None,
    }
}

/// Builds the system message.
pub fn system_message(num_slots: usize, guidance: Option<&str>) -> (r: String)
    ensures
        r@ == system_text(num_slots as nat, text_view(guidance)),
{
    let mut r = owned(
        "You are an expert Linux performance profiling assistant. You generate hardware performance counter observation schedules for a sampling profiler that activates ",
    );
    push_decimal(&mut r, num_slots as u64);
    r.append(
        " counters simultaneously. The profiler cycles through the schedule indefinitely, rotating which counters are active to build a complete picture of program behavior over time.",
    );
    if let Some(guidance) = guidance {
        r.append("\n\n");
        r.append(guidance);
    }
    r
}

/// The durations of the steps of the example.
pub open spec fn example_duration(i: int) -> u64 {
    if i == 0 {
        25
    } else if i == 1 {
        75
    } else {
        50
    }
}

/// Events per step of the example: as many as slots, but at least one.
pub open spec fn example_width(num_slots: nat) -> int {
    if num_slots == 0 {
        1
    } else {
        num_slots as int
    }
}

/// The `i`-th step of the example: the `i`-th run of events, as many as there are slots.
pub open spec fn example_step(info: Seq<EventInfo>, num_slots: nat, i: int) -> StepView {
    let width = example_width(num_slots);
    let end = if (i + 1) * width <= info.len() {
        (i + 1) * width
    } else {
        info.len() as int
    };
    StepView {
        duration_ms: example_duration(i),
        events: info.subrange(i * width, end).map_values(|e: EventInfo| e.id),
    }
}

/// How many steps the example has: as many runs as there are, but at most three.
pub open spec fn example_len(info: Seq<EventInfo>, num_slots: nat) -> int {
    let runs = (info.len() + example_width(num_slots) - 1) / example_width(num_slots);
    if runs <= 3 {
        runs
    } else {
        3
    }
}

/// A schedule that shows the model the format, made of the first events.
pub fn example_steps(info: &Vec<EventInfo>, num_slots: usize) -> (r: Vec<ScheduleStep>)
    ensures
        step_views(r@) == Seq::new(
            example_len(info@, num_slots as nat) as nat,
            |i: int| example_step(info@, num_slots as nat, i),
        ),
{
    let width: usize = if num_slots == 0 {
        1
    } else {
        num_slots
    };
    let ghost slots = num_slots as nat;
    let ghost w = width as int;
    let ghost len = info@.len() as int;
    let mut r: Vec<ScheduleStep> = Vec::new();
    let mut at: usize = 0;
    assert(step_views(r@) =~= Seq::new(0, |i: int| example_step(info@, slots, i)));
    assert(0 * w == 0) by (nonlinear_arith);
    while at < info.len() && r.len() < 3
        invariant
            at <= info@.len(),
            width == example_width(slots),
            w == width,
            len == info@.len(),
            r@.len() <= 3,
            at == if r@.len() * w <= len {
                r@.len() * w
            } else {
                len
            },
            r@.len() > 0 ==> (r@.len() - 1) * w < len,
            step_views(r@) == Seq::new(r@.len(), |i: int| example_step(info@, slots, i)),
        decreases info@.len() - at,
    {
        let ghost n = r@.len() as int;
        assert((n + 1) * w == n * w + w) by (nonlinear_arith);
        assert((n + 1 - 1) * w == n * w);
        let end: usize = if info.len() - at <= width {
            info.len()
        } else {
            at + width
        };
        let mut events: Vec<EventId> = Vec::new();
        let mut i: usize = at;
        while i < end
            invariant
                at <= i <= end <= info@.len(),
                events@ == info@.subrange(at as int, i as int).map_values(|e: EventInfo| e.id),
            decreases end - i,
        {
            events.push(info[i].id);
            i = i + 1;
            assert(events@ =~= info@.subrange(at as int, i as int).map_values(
                |e: EventInfo| e.id,
            ));
        }
        let duration_ms: u64 = if r.len() == 0 {
            25
        } else if r.len() == 1 {
            75
        } else {
            50
        };
        let step = ScheduleStep { duration_ms, events };
        assert(step@ =~= example_step(info@, slots, n));
        let ghost before = r@;
        r.push(step);
        assert(step_views(r@) =~= Seq::new(r@.len(), |i: int| example_step(info@, slots, i))) by {
            assert forall|i: int| 0 <= i < r@.len() implies #[trigger] step_views(r@)[i]
                == example_step(info@, slots, i) by {
                if i < before.len() {
                    assert(step_views(r@)[i] == step_views(before)[i]);
                }
            }
        }
        at = end;
    }
    proof {
        let n = r@.len() as int;
        let runs = (len + w - 1) / w;
        vstd::arithmetic::div_mod::lemma_fundamental_div_mod(len + w - 1, w);
        let m = (len + w - 1) % w;
        assert(len + w - 1 == w * runs + m && 0 <= m < w);
        if at == info@.len() {
            assert(n * w >= len);
            assert(n == runs) by (nonlinear_arith)
                requires
                    n * w >= len,
                    n >= 0,
                    n > 0 ==> (n - 1) * w < len,
                    n == 0 ==> len == 0,
                    len >= 0,
                    len + w - 1 == w * runs + m,
                    0 <= m < w,
            ;
        } else {
            assert(n == 3);
            assert(runs >= 3) by (nonlinear_arith)
                requires
                    (n - 1) * w < len,
                    n == 3,
                    len + w - 1 == w * runs + m,
                    0 <= m < w,
            ;
        }
    }
    r
}

/// What the model is asked for at the start.
pub open spec fn init_request(info: Seq<EventInfo>, num_slots: nat, example: Seq<char>) -> Seq<
    char,
> {
    "Available performance counters (format — ID: name: description):\n"@ + event_lines(info)
        + "\nGenerate a cyclic measurement schedule that covers all of the counters above. Each step activates "@
        + text::decimal(num_slots)
        + " counters and runs for a specified duration (aim for 10–1000 ms per step). Prioritize counters that reveal common bottlenecks — cache misses, TLB pressure, branch mispredictions, memory stalls — and ensure every counter appears at least once across the full cycle.\n\nExample output (hypothetical IDs):\n"@
        + example
        + "\n\nProduce the schedule for the counters listed above. Your entire response must be a single JSON array. No explanation, no prose, no markdown fences."@
}

/// Builds the prompt that asks for a first schedule. `example` is the text of
/// [`example_steps`] in JSON.
pub fn build_init_prompt(
    event_info: &Vec<EventInfo>,
    num_slots: usize,
    guidance: Option<&str>,
    example: &str,
) -> (r: PromptBuilder)
    ensures
        r@ == seq![
            ("system"@, system_text(num_slots as nat, text_view(guidance))),
            ("user"@, init_request(event_info@, num_slots as nat, example@)),
        ],
{
    let mut user = owned("Available performance counters (format — ID: name: description):\n");
    user.append(event_list(event_info).as_str());
    user.append(
        "\nGenerate a cyclic measurement schedule that covers all of the counters above. Each step activates ",
    );
    push_decimal(&mut user, num_slots as u64);
    user.append(
        " counters and runs for a specified duration (aim for 10–1000 ms per step). Prioritize counters that reveal common bottlenecks — cache misses, TLB pressure, branch mispredictions, memory stalls — and ensure every counter appears at least once across the full cycle.\n\nExample output (hypothetical IDs):\n",
    );
    user.append(example);
    user.append(
        "\n\nProduce the schedule for the counters listed above. Your entire response must be a single JSON array. No explanation, no prose, no markdown fences.",
    );
    let r = PromptBuilder::new().system(system_message(num_slots, guidance)).user(user);
    assert(r@ =~= seq![
        ("system"@, system_text(num_slots as nat, text_view(guidance))),
        ("user"@, init_request(event_info@, num_slots as nat, example@)),
    ]);
    r
}

/// The view of optional text.
pub open spec fn owned_text_view(s: Option<String>) -> Option<Seq<char>> {
    match s {
        Some(s) => Some(s@),
        None => None,
    }
}

/// Serves a step of a schedule, and says which one comes next.
pub(crate) fn serve_step(schedule: &Vec<ScheduleStep>, at: usize) -> (r: (ScheduleDecision, usize))
    requires
        at < schedule@.len(),
    ensures
        r.0.active_events@ == schedule@[at as int].events@,
        r.0.duration == Some(schedule@[at as int].duration_ms),
        r.1 == (at + 1) % (schedule@.len() as int),
        r.1 < schedule@.len(),
{
    let step = &schedule[at];
    let decision = ScheduleDecision {
        active_events: step.events.clone(),
        duration: Some(step.duration_ms),
    };
    let len = schedule.len();
    let next: usize = if at == len - 1 {
        0
    } else {
        at + 1
    };
    proof {
        if at + 1 == len {
            vstd::arithmetic::div_mod::lemma_mod_self_0(len as int);
        } else {
            vstd::arithmetic::div_mod::lemma_small_mod((at + 1) as nat, len as nat);
        }
    }
    (decision, next)
}

/// How many more times a model is asked when its reply cannot be used.
#[derive(Debug, Clone, Copy)]
pub struct Retries {
    left: u32,
}

impl Retries {
    /// The number of times left.
    pub closed spec fn left(&self) -> nat {
        self.left as nat
    }

    /// Allows for `n` retries.
    pub fn new(n: u32) -> (r: Self)
        ensures
            r.left() == n,
    {
        Retries { left: n }
    }

    /// Notes that a reply cannot be used, and says whether to ask again.
    pub fn rejected(&mut self) -> (r: bool)
        ensures
            r == (old(self).left() > 0),
            final(self).left() == if r {
                old(self).left() - 1
            } else {
                0
            },
    {
        if self.left == 0 {
            return false;
        }
        self.left = self.left - 1;
        true
    }
}

/// What the model is told of a reply that cannot be used.
pub open spec fn correction_text(problem: Seq<char>) -> Seq<char> {
    "That reply cannot be used: "@ + problem + "\nReply with the JSON array only."@
}

/// Tells the model what is wrong with its reply.
pub fn correction(problem: &str) -> (r: String)
    ensures
        r@ == correction_text(problem@),
{
    let mut r = owned("That reply cannot be used: ");
    r.append(problem);
    r.append("\nReply with the JSON array only.");
    r
}

proof fn lemma_first_of(s: Seq<char>, c: char)
    ensures
        match first_of(s, c) {
            Some(i) => 0 <= i < s.len() && s[i] == c && forall|j: int|
                0 <= j < i ==> (#[trigger] s[j]) != c,
            None => forall|j: int| 0 <= j < s.len() ==> (#[trigger] s[j]) != c,
        },
    decreases s.len(),
{
    if s.len() > 0 && s[0] != c {
        let rest = s.drop_first();
        lemma_first_of(rest, c);
        assert forall|j: int|
            0 < j < s.len() && (first_of(rest, c) matches Some(i) ==> j < i + 1) implies (
        #[trigger] s[j]) != c by {
            assert(rest[j - 1] == s[j]);
        }
    }
}

proof fn lemma_last_of(s: Seq<char>, c: char)
    ensures
        match last_of(s, c) {
            Some(i) => 0 <= i < s.len() && s[i] == c && forall|j: int|
                i < j < s.len() ==> (#[trigger] s[j]) != c,
            None => forall|j: int| 0 <= j < s.len() ==> (#[trigger] s[j]) != c,
        },
    decreases s.len(),
{
    if s.len() > 0 && s.last() != c {
        let front = s.drop_last();
        lemma_last_of(front, c);
        assert forall|j: int|
            0 <= j < s.len() && (last_of(front, c) matches Some(i) ==> i < j) implies (
        #[trigger] s[j]) != c by {
            if j < front.len() {
                assert(front[j] == s[j]);
            }
        }
    }
}

/// The array of a response begins at its first opening bracket and ends at its last closing one.
/// There is none exactly if one of the two is missing, or the last closing bracket stands before
/// the first opening one; the message then ends with the response.
pub proof fn arrays_span_the_brackets(response: Seq<char>, i: int, j: int)
    requires
        0 <= i < response.len(),
        0 <= j < response.len(),
    ensures
        response[i] == '[' && response[j] == ']' && (forall|k: int|
            0 <= k < i ==> (#[trigger] response[k]) != '[') && (forall|k: int|
            j < k < response.len() ==> (#[trigger] response[k]) != ']') ==> array_in(response)
            == if i < j {
            Ok::<Seq<char>, Seq<char>>(response.subrange(i, j + 1))
        } else {
            Err("malformed JSON array in LLM response:\n"@ + response)
        },
        (forall|k: int| 0 <= k < response.len() ==> (#[trigger] response[k]) != '[') ==> array_in(
            response,
        ) == Err::<Seq<char>, Seq<char>>("no JSON array found in LLM response:\n"@ + response),
        response[i] == '[' && (forall|k: int|
            0 <= k < response.len() ==> (#[trigger] response[k]) != ']') ==> array_in(response)
            == Err::<Seq<char>, Seq<char>>(
            "JSON array is not closed in LLM response:\n"@ + response,
        ),
{
    lemma_first_of(response, '[');
    lemma_last_of(response, ']');
    if response[i] == '[' {
        assert(first_of(response, '[') is Some);
    }
    if response[j] == ']' {
        assert(last_of(response, ']') is Some);
    }
}

proof fn lemma_valid_are_filtered(events: Seq<EventId>, valid: Seq<EventId>)
    ensures
        valid_events(events, valid) == events.filter(|e: EventId| valid.contains(e)),
    decreases events.len(),
{
    reveal(Seq::filter);
    if events.len() > 0 {
        lemma_valid_are_filtered(events.drop_last(), valid);
    }
}

/// A step as it is accepted: the known events, in order, as many as fit, for a millisecond at
/// least.
pub open spec fn is_accepted_form(
    step: StepView,
    from: StepView,
    valid: Seq<EventId>,
    num_slots: nat,
) -> bool {
    let known = from.events.filter(|e: EventId| valid.contains(e));
    &&& step.events.len() == if known.len() <= num_slots {
        known.len()
    } else {
        num_slots
    }
    &&& forall|i: int| 0 <= i < step.events.len() ==> #[trigger] step.events[i] == known[i]
    &&& from.duration_ms >= 1 ==> step.duration_ms == from.duration_ms
    &&& from.duration_ms == 0 ==> step.duration_ms == 1
}

/// Cleaning a step keeps its known events, in order, as many as there are slots, and its duration,
/// unless that is zero.
pub proof fn cleaning_keeps_the_known_events(step: StepView, valid: Seq<EventId>, num_slots: nat)
    ensures
        is_accepted_form(cleaned(step, valid, num_slots), step, valid, num_slots),
{
    lemma_valid_are_filtered(step.events, valid);
}

/// Whether a step names any event that is known.
pub open spec fn has_known_event(step: StepView, valid: Seq<EventId>) -> bool {
    exists|i: int| 0 <= i < step.events.len() && valid.contains(#[trigger] step.events[i])
}

proof fn lemma_known_event_stays(step: StepView, valid: Seq<EventId>, num_slots: nat)
    requires
        num_slots > 0,
    ensures
        cleaned(step, valid, num_slots).events.len() > 0 <==> has_known_event(step, valid),
{
    broadcast use vstd::seq_lib::group_filter_ensures;

    lemma_valid_are_filtered(step.events, valid);
    let known = step.events.filter(|e: EventId| valid.contains(e));
    if has_known_event(step, valid) {
        let i = choose|i: int| 0 <= i < step.events.len() && valid.contains(#[trigger] step.events[i]);
        assert(known.contains(step.events[i]));
    }
    if known.len() > 0 {
        assert(known.contains(known[0]));
        step.events.lemma_filter_contains_rev(|e: EventId| valid.contains(e), known[0]);
        let i = choose|i: int| 0 <= i < step.events.len() && step.events[i] == known[0];
        assert(valid.contains(step.events[i]));
    }
}

proof fn lemma_usable_are_filtered(steps: Seq<StepView>, valid: Seq<EventId>, num_slots: nat)
    requires
        num_slots > 0,
    ensures
        usable_steps(steps, valid, num_slots) == steps.filter(
            |s: StepView| has_known_event(s, valid),
        ).map_values(|s: StepView| cleaned(s, valid, num_slots)),
    decreases steps.len(),
{
    reveal(Seq::filter);
    let kept = steps.filter(|s: StepView| has_known_event(s, valid));
    if steps.len() > 0 {
        let front = steps.drop_last();
        lemma_usable_are_filtered(front, valid, num_slots);
        lemma_known_event_stays(steps.last(), valid, num_slots);
        let rest = front.filter(|s: StepView| has_known_event(s, valid));
        if has_known_event(steps.last(), valid) {
            assert(kept.map_values(|s: StepView| cleaned(s, valid, num_slots)) =~= rest.map_values(
                |s: StepView| cleaned(s, valid, num_slots),
            ).push(cleaned(steps.last(), valid, num_slots)));
        }
    } else {
        assert(kept.map_values(|s: StepView| cleaned(s, valid, num_slots)) =~= Seq::empty());
    }
}

/// A schedule is accepted exactly if some step has a known event and there is a slot for it. It
/// then holds every step that has one, in the order of the reply, each with its known events, as
/// many as fit.
pub proof fn accepted_schedules_keep_every_usable_step(
    steps: Seq<StepView>,
    valid: Seq<EventId>,
    num_slots: nat,
)
    requires
        num_slots > 0,
    ensures
        ({
            let usable = steps.filter(|s: StepView| has_known_event(s, valid));
            match checked(steps, valid, num_slots) {
                Ok(list) => usable.len() > 0 && list.len() == usable.len() && forall|i: int|
                    0 <= i < list.len() ==> is_accepted_form(
                        #[trigger] list[i],
                        usable[i],
                        valid,
                        num_slots,
                    ),
                Err(message) => usable.len() == 0 && message == if steps.len() == 0 {
                    "LLM returned an empty schedule"@
                } else {
                    "all steps contained invalid event IDs"@
                },
            }
        }),
{
    lemma_usable_are_filtered(steps, valid, num_slots);
    let usable = steps.filter(|s: StepView| has_known_event(s, valid));
    reveal(Seq::filter);
    if let Ok(list) = checked(steps, valid, num_slots) {
        assert forall|i: int| 0 <= i < list.len() implies is_accepted_form(
            #[trigger] list[i],
            usable[i],
            valid,
            num_slots,
        ) by {
            cleaning_keeps_the_known_events(usable[i], valid, num_slots);
        }
    }
}

/// If every step of a reply has a known event, the schedule has exactly as many steps, and step by
/// step they are those of the reply, with their known events.
pub proof fn no_step_with_a_known_event_is_lost(
    steps: Seq<StepView>,
    valid: Seq<EventId>,
    num_slots: nat,
)
    requires
        num_slots > 0,
        steps.len() > 0,
        forall|i: int| 0 <= i < steps.len() ==> has_known_event(#[trigger] steps[i], valid),
    ensures
        checked(steps, valid, num_slots) matches Ok(list) && list.len() == steps.len() && forall|
            i: int,
        |
            0 <= i < list.len() ==> is_accepted_form(
                #[trigger] list[i],
                steps[i],
                valid,
                num_slots,
            ),
{
    accepted_schedules_keep_every_usable_step(steps, valid, num_slots);
    lemma_all_kept(steps, valid);
}

proof fn lemma_all_kept(steps: Seq<StepView>, valid: Seq<EventId>)
    requires
        forall|i: int| 0 <= i < steps.len() ==> has_known_event(#[trigger] steps[i], valid),
    ensures
        steps.filter(|s: StepView| has_known_event(s, valid)) == steps,
    decreases steps.len(),
{
    reveal(Seq::filter);
    if steps.len() > 0 {
        let front = steps.drop_last();
        assert forall|i: int| 0 <= i < front.len() implies has_known_event(
            #[trigger] front[i],
            valid,
        ) by {
            assert(front[i] == steps[i]);
        }
        lemma_all_kept(front, valid);
        assert(has_known_event(steps[steps.len() - 1], valid));
        assert(front.push(steps.last()) =~= steps);
    }
}

/// Without a slot, no schedule is accepted.
pub proof fn without_slots_nothing_is_accepted(steps: Seq<StepView>, valid: Seq<EventId>)
    ensures
        checked(steps, valid, 0) is Err,
    decreases steps.len(),
{
    lemma_no_slot_no_step(steps, valid);
}

proof fn lemma_no_slot_no_step(steps: Seq<StepView>, valid: Seq<EventId>)
    ensures
        usable_steps(steps, valid, 0).len() == 0,
    decreases steps.len(),
{
    if steps.len() > 0 {
        lemma_no_slot_no_step(steps.drop_last(), valid);
    }
}

/// Lists of events join: the lines of two lists are those of the first, then those of the second.
pub proof fn event_lines_join(a: Seq<EventInfo>, b: Seq<EventInfo>)
    ensures
        event_lines(a + b) == event_lines(a) + event_lines(b),
    decreases b.len(),
{
    if b.len() == 0 {
        assert(a + b =~= a);
        assert(event_lines(a) + event_lines(b) =~= event_lines(a));
    } else {
        event_lines_join(a, b.drop_last());
        assert((a + b).drop_last() =~= a + b.drop_last());
        assert((a + b).last() == b.last());
        assert(event_lines(a + b) =~= event_lines(a) + event_lines(b));
    }
}

/// The line of an event gives its ID, its name and its description.
pub proof fn an_event_has_one_line(info: EventInfo)
    ensures
        event_lines(seq![info]) == "  "@ + text::decimal(info.id as nat) + ": "@ + info.name@
            + " — "@ + info.desc@ + "\n"@,
{
    assert(seq![info].drop_last() =~= Seq::empty());
    assert(event_lines(Seq::empty()) =~= Seq::<char>::empty());
    assert(event_lines(seq![info]) =~= "  "@ + text::decimal(info.id as nat) + ": "@ + info.name@
        + " — "@ + info.desc@ + "\n"@);
}

/// The example shows the first events in order, a step for as many as there are slots: event `j`
/// stands in its step at its place, as long as there are steps left. No step is empty or too long.
pub proof fn the_example_shows_the_first_events(info: Seq<EventInfo>, num_slots: nat, j: int)
    requires
        num_slots > 0,
        0 <= j < info.len(),
        j < 3 * num_slots,
    ensures
        ({
            let i = j / num_slots as int;
            let step = example_step(info, num_slots, i);
            &&& 0 <= i < example_len(info, num_slots) <= 3
            &&& 0 <= j % num_slots as int
            &&& j % (num_slots as int) < step.events.len() <= num_slots
            &&& step.events[j % num_slots as int] == info[j].id
            &&& step.duration_ms > 0
        }),
{
    let w = num_slots as int;
    let i = j / w;
    let m = j % w;
    vstd::arithmetic::div_mod::lemma_fundamental_div_mod(j, w);
    let len = info.len() as int;
    let runs = (len + w - 1) / w;
    vstd::arithmetic::div_mod::lemma_fundamental_div_mod(len + w - 1, w);
    let r = (len + w - 1) % w;
    assert(i < runs && i < 3 && i >= 0 && runs >= 0) by (nonlinear_arith)
        requires
            j == w * i + m,
            0 <= m < w,
            len + w - 1 == w * runs + r,
            0 <= r < w,
            0 <= j < len,
            j < 3 * w,
    ;
    assert((i + 1) * w == i * w + w && i * w == w * i && i * w >= 0) by (nonlinear_arith)
        requires
            i >= 0,
            w >= 0,
    ;
    let end = if (i + 1) * w <= len {
        (i + 1) * w
    } else {
        len
    };
    let part = info.subrange(i * w, end);
    assert(part[m] == info[i * w + m]);
}

} // verus!
