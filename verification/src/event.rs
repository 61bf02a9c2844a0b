//! Hardware events: the library of known events and lookup by name.

use crate::text::same_text;
use vstd::prelude::*;

verus! {

/// Position of an event in the event library.
pub type EventId = u32;

/// A hardware event as the performance monitoring unit knows it.
pub struct Event {
    /// Event name.
    pub name: String,
    /// What the event counts.
    pub desc: String,
    /// Raw event number.
    pub event: u64,
    /// Unit mask.
    pub umask: u64,
}

/// All events that can be measured.
pub struct EventLibrary {
    /// The events; an event's position is its ID.
    pub events: Vec<Event>,
}

impl EventLibrary {
    /// A library without events.
    pub fn new() -> (r: EventLibrary)
        ensures
            r.events@ == Seq::<Event>::empty(),
    {
        EventLibrary { events: Vec::new() }
    }
}

/// The last position below `n` whose event has the given name.
pub open spec fn last_named(events: Seq<Event>, name: Seq<char>, n: nat) -> Option<nat>
    decreases n,
{
    if n == 0 {
        None
    } else if events[n - 1].name@ == name {
        Some((n - 1) as nat)
    } else {
        last_named(events, name, (n - 1) as nat)
    }
}

/// Lookup of events by name and by ID.
pub struct EventRegistry {
    events: Vec<Event>,
}

impl View for EventRegistry {
    type V = Seq<Event>;

    closed spec fn view(&self) -> Seq<Event> {
        self.events@
    }
}

impl EventRegistry {
    /// Validity: every position is an event ID.
    pub open spec fn wf(&self) -> bool {
        self@.len() <= u32::MAX
    }

    /// A registry of the events of a library.
    pub fn new(events: EventLibrary) -> (r: Self)
        requires
            events.events@.len() <= u32::MAX,
        ensures
            r.wf(),
            r@ == events.events@,
    {
        EventRegistry { events: events.events }
    }

    /// The ID of the event with this name. Where several events share a name, the last one.
    pub fn lookup(&self, name: &str) -> (r: Option<EventId>)
        requires
            self.wf(),
        ensures
            match r {
                Some(id) => last_named(self@, name@, self@.len()) == Some(id as nat) && id
                    < self@.len(),
                None => last_named(self@, name@, self@.len()) is None,
            },
    {
        let mut n: usize = self.events.len();
        while n > 0
            invariant
                n <= self@.len(),
                self.wf(),
                last_named(self@, name@, self@.len()) == last_named(self@, name@, n as nat),
            decreases n,
        {
            if same_text(self.events[n - 1].name.as_str(), name) {
                return Some((n - 1) as u32);
            }
            n = n - 1;
        }
        None
    }

    /// The event with this ID.
    pub fn get_event(&self, id: EventId) -> (r: &Event)
        requires
            id < self@.len(),
        ensures
            *r == self@[id as int],
    {
        &self.events[id as usize]
    }

    /// All event IDs in order.
    pub fn get_event_ids(&self) -> (r: Vec<EventId>)
        requires
            self.wf(),
        ensures
            r@ == Seq::new(self@.len(), |i: int| i as u32),
    {
        let mut r: Vec<EventId> = Vec::new();
        let mut i: usize = 0;
        while i < self.events.len()
            invariant
                i <= self@.len(),
                self.wf(),
                r@ == Seq::new(i as nat, |j: int| j as u32),
            decreases self@.len() - i,
        {
            r.push(i as u32);
            i = i + 1;
            assert(r@ =~= Seq::new(i as nat, |j: int| j as u32));
        }
        r
    }

    /// What is looked up by the name of an event is found, and has that name.
    pub proof fn lookup_finds_names(events: Seq<Event>, id: int)
        requires
            0 <= id < events.len(),
        ensures
            last_named(events, events[id].name@, events.len()) matches Some(found) && id <= found
                < events.len() && events[found as int].name@ == events[id].name@,
    {
        lemma_last_named(events, id, events.len());
    }
}

proof fn lemma_last_named(events: Seq<Event>, id: int, n: nat)
    requires
        0 <= id < n <= events.len(),
    ensures
        last_named(events, events[id].name@, n) matches Some(found) && id <= found < n
            && events[found as int].name@ == events[id].name@,
    decreases n,
{
    if events[n - 1].name@ != events[id].name@ {
        lemma_last_named(events, id, (n - 1) as nat);
    }
}

/// A name is found exactly if an event has it: at its last occurrence.
pub proof fn names_are_looked_up_by_position(events: Seq<Event>, name: Seq<char>, n: nat)
    requires
        n <= events.len(),
    ensures
        match last_named(events, name, n) {
            Some(id) => id < n && events[id as int].name@ == name && forall|j: int|
                id < j < n ==> (#[trigger] events[j]).name@ != name,
            None => forall|j: int| 0 <= j < n ==> (#[trigger] events[j]).name@ != name,
        },
    decreases n,
{
    if n > 0 && events[n - 1].name@ != name {
        names_are_looked_up_by_position(events, name, (n - 1) as nat);
    }
}

} // verus!
