//! Test scheduler: cycles through a fixed set of AMD performance events.

use crate::event::{self, Event, EventId, EventRegistry};
use crate::scheduler::{self, read_ring, ScheduleDecision};
use vstd::prelude::*;

verus! {

/// Round-robin scheduler over a hardcoded subset of AMD events, for manual integration testing.
pub struct TestScheduler {
    events: Vec<EventId>,
    num_slots: usize,
    current_idx: usize,
}

/// Model of [`TestScheduler`].
#[verifier::ext_equal]
pub struct TestSchedulerView {
    /// The events to rotate through.
    pub events: Seq<EventId>,
    /// Events per step.
    pub num_slots: nat,
    /// Where the next window starts.
    pub current_idx: nat,
}

/// The names of the target events.
pub open spec fn target_names() -> Seq<Seq<char>> {
    seq![
        "all_data_cache_accesses"@,
        "ex_ret_instr"@,
        "ex_ret_brn_tkn"@,
        "ex_ret_brn"@,
        "fp_ret_sse_avx_ops.all"@,
    ]
}

/// The IDs of those of `names` that are known, in order.
pub open spec fn known_ids(events: Seq<Event>, names: Seq<Seq<char>>) -> Seq<EventId>
    decreases names.len(),
{
    if names.len() == 0 {
        Seq::empty()
    } else {
        let rest = known_ids(events, names.drop_last());
        match event::last_named(events, names.last(), events.len()) {
            Some(id) => rest.push(id as u32),
            None => rest,
        }
    }
}

impl View for TestScheduler {
    type V = TestSchedulerView;

    closed spec fn view(&self) -> TestSchedulerView {
        TestSchedulerView {
            events: self.events@,
            num_slots: self.num_slots as nat,
            current_idx: self.current_idx as nat,
        }
    }
}

fn push_known(
    events: &mut Vec<EventId>,
    registry: &EventRegistry,
    name: &str,
    names: Ghost<Seq<Seq<char>>>,
)
    requires
        registry.wf(),
        old(events)@ == known_ids(registry@, names@),
    ensures
        final(events)@ == known_ids(registry@, names@.push(name@)),
{
    assert(names@.push(name@).drop_last() =~= names@);
    if let Some(id) = registry.lookup(name) {
        events.push(id);
    }
}

impl TestScheduler {
    /// Validity: the next window starts inside the list, if there is any event.
    pub open spec fn wf(&self) -> bool {
        self@.events.len() > 0 ==> self@.current_idx < self@.events.len()
    }

    /// Resolves the target event names; events that the registry does not know are skipped.
    pub fn new(registry: &EventRegistry) -> (r: Self)
        requires
            registry.wf(),
        ensures
            r.wf(),
            r@ == (TestSchedulerView {
                events: known_ids(registry@, target_names()),
                num_slots: 6,
                current_idx: 0,
            }),
    {
        let mut events: Vec<EventId> = Vec::new();
        let ghost names = target_names();
        assert(names.take(0) =~= Seq::empty());
        push_known(&mut events, registry, "all_data_cache_accesses", Ghost(names.take(0)));
        assert(names.take(0).push(names[0]) =~= names.take(1));
        push_known(&mut events, registry, "ex_ret_instr", Ghost(names.take(1)));
        assert(names.take(1).push(names[1]) =~= names.take(2));
        push_known(&mut events, registry, "ex_ret_brn_tkn", Ghost(names.take(2)));
        assert(names.take(2).push(names[2]) =~= names.take(3));
        push_known(&mut events, registry, "ex_ret_brn", Ghost(names.take(3)));
        assert(names.take(3).push(names[3]) =~= names.take(4));
        push_known(&mut events, registry, "fp_ret_sse_avx_ops.all", Ghost(names.take(4)));
        assert(names.take(4).push(names[4]) =~= names);
        TestScheduler { events, num_slots: 6, current_idx: 0 }
    }

    /// Sets the number of slots; the events stay as they are.
    pub fn init(&mut self, _all_events: Vec<EventId>, num_slots: usize)
        ensures
            final(self)@ == (TestSchedulerView { num_slots: num_slots as nat, ..old(self)@ }),
    {
        self.num_slots = num_slots;
    }

    /// The next window of the event list, for ten milliseconds; nothing if there is no event.
    pub fn next_step(&mut self) -> (r: ScheduleDecision)
        requires
            old(self).wf(),
        ensures
            final(self).wf(),
            r.active_events@.len() <= old(self)@.num_slots,
            old(self)@.events.len() == 0 ==> r.active_events@ == Seq::<EventId>::empty()
                && r.duration is None && final(self)@ == old(self)@,
            old(self)@.events.len() > 0 ==> r.active_events@ == scheduler::ring_window(
                old(self)@.events,
                old(self)@.current_idx as int,
                old(self)@.num_slots,
            ) && r.duration == Some(10u64) && final(self)@ == (TestSchedulerView {
                current_idx: (old(self)@.current_idx + old(self)@.num_slots)
                    % old(self)@.events.len(),
                ..old(self)@
            }),
    {
        if self.events.len() == 0 {
            return ScheduleDecision { active_events: Vec::new(), duration: None };
        }
        let (active_events, next) = read_ring(&self.events, self.current_idx, self.num_slots);
        self.current_idx = next;
        ScheduleDecision { active_events, duration: Some(10) }
    }
}

/// The events rotated through are those of the names that are known, in the order of the names:
/// each is the last event with its name.
pub proof fn known_names_are_resolved(events: Seq<Event>, names: Seq<Seq<char>>)
    requires
        events.len() <= u32::MAX,
    ensures
        ({
            let found = names.filter(
                |n: Seq<char>|
                    exists|j: int| 0 <= j < events.len() && (#[trigger] events[j]).name@ == n,
            );
            let ids = known_ids(events, names);
            &&& ids.len() == found.len()
            &&& forall|i: int|
                0 <= i < ids.len() ==> (#[trigger] ids[i]) < events.len()
                    && events[ids[i] as int].name@ == found[i] && forall|j: int|
                    ids[i] < j < events.len() ==> (#[trigger] events[j]).name@ != found[i]
        }),
    decreases names.len(),
{
    reveal(Seq::filter);
    if names.len() > 0 {
        let front = names.drop_last();
        known_names_are_resolved(events, front);
        event::names_are_looked_up_by_position(events, names.last(), events.len());
        let before = known_ids(events, front);
        let ids = known_ids(events, names);
        let rest = front.filter(
            |n: Seq<char>|
                exists|j: int| 0 <= j < events.len() && (#[trigger] events[j]).name@ == n,
        );
        let found = names.filter(
            |n: Seq<char>|
                exists|j: int| 0 <= j < events.len() && (#[trigger] events[j]).name@ == n,
        );
        assert forall|i: int| 0 <= i < ids.len() implies (#[trigger] ids[i]) < events.len()
            && events[ids[i] as int].name@ == found[i] && forall|j: int|
            ids[i] < j < events.len() ==> (#[trigger] events[j]).name@ != found[i] by {
            if i < before.len() {
                assert(ids[i] == before[i]);
                assert(found[i] == rest[i]);
            }
        }
    }
}

} // verus!
