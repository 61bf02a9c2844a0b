//! Replacing the event of a counter slot on all CPUs: which steps it takes, in which order.
//!
//! Counters are touched only while sampling stands still on every CPU.

use crate::event::EventId;
use vstd::prelude::*;

verus! {

/// One step of replacing the event of a slot.
#[derive(Debug, Clone, Copy, PartialEq, Eq, Structural)]
pub enum SlotAction {
    /// Tell the sampler to stop.
    StopTracking,
    /// Wait until every CPU has stopped.
    AwaitStopped,
    /// Disable the slot's old counter on a CPU.
    Disable {
        /// The CPU.
        cpu: usize,
    },
    /// Tell the sampler which event the slot counts from now on.
    SetEvent {
        /// The event.
        event_id: EventId,
    },
    /// Open and enable a counter for the event on a CPU, and hand it to the sampler.
    Open {
        /// The CPU.
        cpu: usize,
    },
    /// Tell the sampler to go on.
    ResumeTracking,
}

/// The CPUs below `n` whose counter is open.
pub open spec fn open_below(open: Seq<bool>, n: nat) -> Seq<SlotAction>
    decreases n,
{
    if n == 0 {
        Seq::empty()
    } else {
        let before = open_below(open, (n - 1) as nat);
        if open[n - 1] {
            before.push(SlotAction::Disable { cpu: (n - 1) as usize })
        } else {
            before
        }
    }
}

/// Opening a counter on each of the CPUs below `n`.
pub open spec fn opening(n: nat) -> Seq<SlotAction> {
    Seq::new(n, |cpu: int| SlotAction::Open { cpu: cpu as usize })
}

/// The steps that replace the event of a slot, given on which CPUs it has a counter.
pub open spec fn update_steps(open: Seq<bool>, event_id: EventId) -> Seq<SlotAction> {
    seq![SlotAction::StopTracking, SlotAction::AwaitStopped] + open_below(open, open.len())
        + seq![SlotAction::SetEvent { event_id }] + opening(open.len())
        + seq![SlotAction::ResumeTracking]
}

/// Whether every one of the first `num_cpus` CPUs has stopped.
pub fn all_stopped(stopped: &Vec<bool>, num_cpus: usize) -> (r: bool)
    ensures
        r == forall|cpu: int|
            0 <= cpu < stopped@.len() && cpu < num_cpus ==> #[trigger] stopped@[cpu],
{
    let mut cpu: usize = 0;
    while cpu < stopped.len() && cpu < num_cpus
        invariant
            cpu <= stopped@.len(),
            cpu <= num_cpus,
            forall|c: int| 0 <= c < cpu ==> #[trigger] stopped@[c],
        decreases num_cpus - cpu,
    {
        if !stopped[cpu] {
            return false;
        }
        cpu = cpu + 1;
    }
    true
}

/// Which counter slots have open counters on which CPUs.
pub struct HardwareCounters {
    open: Vec<Vec<bool>>,
}

impl View for HardwareCounters {
    type V = Seq<Seq<bool>>;

    closed spec fn view(&self) -> Seq<Seq<bool>> {
        self.open@.map_values(|slot: Vec<bool>| slot@)
    }
}

/// A slot whose counter is open on all CPUs, or on none.
pub open spec fn slot_state(num_cpus: nat, open: bool) -> Seq<bool> {
    Seq::new(num_cpus, |cpu: int| open)
}

fn slot_of(num_cpus: usize, open: bool) -> (r: Vec<bool>)
    ensures
        r@ == slot_state(num_cpus as nat, open),
{
    let mut r: Vec<bool> = Vec::new();
    let mut cpu: usize = 0;
    while cpu < num_cpus
        invariant
            cpu <= num_cpus,
            r@ == slot_state(cpu as nat, open),
        decreases num_cpus - cpu,
    {
        r.push(open);
        cpu = cpu + 1;
        assert(r@ =~= slot_state(cpu as nat, open));
    }
    r
}

impl HardwareCounters {
    /// Slots without counters.
    pub fn new(num_slots: usize, num_cpus: usize) -> (r: Self)
        ensures
            r@ == Seq::new(num_slots as nat, |slot: int| slot_state(num_cpus as nat, false)),
    {
        let mut open: Vec<Vec<bool>> = Vec::new();
        let mut slot: usize = 0;
        while slot < num_slots
            invariant
                slot <= num_slots,
                open@.len() == slot,
                forall|s: int|
                    0 <= s < slot ==> (#[trigger] open@[s])@ == slot_state(num_cpus as nat, false),
            decreases num_slots - slot,
        {
            open.push(slot_of(num_cpus, false));
            slot = slot + 1;
        }
        let r = HardwareCounters { open };
        assert(r@ =~= Seq::new(num_slots as nat, |slot: int| slot_state(num_cpus as nat, false)));
        r
    }

    /// The steps that make a slot count another event. Afterwards it has a counter on every CPU.
    pub fn update_slot(&mut self, slot: usize, event_id: EventId) -> (r: Vec<SlotAction>)
        requires
            slot < old(self)@.len(),
        ensures
            r@ == update_steps(old(self)@[slot as int], event_id),
            final(self)@ == old(self)@.update(
                slot as int,
                slot_state(old(self)@[slot as int].len(), true),
            ),
    {
        let ghost start = self@;
        let ghost cpus = start[slot as int];
        let mut out: Vec<SlotAction> = Vec::new();
        out.push(SlotAction::StopTracking);
        out.push(SlotAction::AwaitStopped);
        let ghost head = seq![SlotAction::StopTracking, SlotAction::AwaitStopped];
        let n: usize = self.open[slot].len();
        let mut cpu: usize = 0;
        assert(out@ =~= head + open_below(cpus, 0));
        while cpu < n
            invariant
                slot < self.open@.len(),
                cpus == self.open@[slot as int]@,
                n == cpus.len(),
                cpu <= n,
                self@ == start,
                out@ == head + open_below(cpus, cpu as nat),
            decreases n - cpu,
        {
            if self.open[slot][cpu] {
                out.push(SlotAction::Disable { cpu });
            }
            cpu = cpu + 1;
            assert(out@ =~= head + open_below(cpus, cpu as nat));
        }
        out.push(SlotAction::SetEvent { event_id });
        let ghost set = head + open_below(cpus, n as nat) + seq![SlotAction::SetEvent { event_id }];
        cpu = 0;
        assert(out@ =~= set + opening(0));
        while cpu < n
            invariant
                cpu <= n,
                out@ == set + opening(cpu as nat),
            decreases n - cpu,
        {
            out.push(SlotAction::Open { cpu });
            cpu = cpu + 1;
            assert(out@ =~= set + opening(cpu as nat));
        }
        out.push(SlotAction::ResumeTracking);
        assert(out@ =~= update_steps(cpus, event_id));
        let row = slot_of(n, true);
        self.open.set(slot, row);
        assert(self@ =~= start.update(slot as int, slot_state(cpus.len(), true)));
        out
    }
}

/// Whether sampling is known to stand still before step `i`.
pub open spec fn standing_still(steps: Seq<SlotAction>, i: int) -> bool {
    exists|stop: int|
        0 <= stop < i && steps[stop] == SlotAction::AwaitStopped && forall|k: int|
            stop <= k < i ==> #[trigger] steps[k] != SlotAction::ResumeTracking
}

/// Whether a step touches a counter or what the sampler knows of it.
pub open spec fn touches(step: SlotAction) -> bool {
    step is Disable || step is SetEvent || step is Open
}

proof fn lemma_open_below(open: Seq<bool>, n: nat)
    requires
        n <= open.len(),
    ensures
        forall|i: int|
            0 <= i < open_below(open, n).len() ==> (#[trigger] open_below(
                open,
                n,
            )[i]) is Disable,
    decreases n,
{
    if n > 0 {
        lemma_open_below(open, (n - 1) as nat);
    }
}

/// Counters are touched only while sampling stands still, and sampling goes on in the end.
pub proof fn counters_change_only_at_a_standstill(open: Seq<bool>, event_id: EventId, i: int)
    requires
        0 <= i < update_steps(open, event_id).len(),
    ensures
        touches(update_steps(open, event_id)[i]) ==> standing_still(
            update_steps(open, event_id),
            i,
        ),
        update_steps(open, event_id).last() == SlotAction::ResumeTracking,
{
    let steps = update_steps(open, event_id);
    lemma_open_below(open, open.len());
    let disabled = open_below(open, open.len());
    assert(steps[0] == SlotAction::StopTracking);
    assert(steps[1] == SlotAction::AwaitStopped);
    if touches(steps[i]) {
        assert(i >= 2 && i < steps.len() - 1);
        assert forall|k: int| 1 <= k < i implies #[trigger] steps[k]
            != SlotAction::ResumeTracking by {
            if 2 <= k < 2 + disabled.len() {
                assert(steps[k] == disabled[k - 2]);
            } else if k > 2 + disabled.len() {
                assert(steps[k] == opening(open.len())[k - 3 - disabled.len()]);
            }
        }
        assert(0 <= 1 < i && steps[1] == SlotAction::AwaitStopped);
    }
}

proof fn lemma_disabled(open: Seq<bool>, n: nat, cpu: int)
    requires
        n <= open.len() <= usize::MAX,
        0 <= cpu < open.len(),
    ensures
        open_below(open, n).contains(SlotAction::Disable { cpu: cpu as usize }) <==> (cpu < n
            && open[cpu]),
    decreases n,
{
    let step = SlotAction::Disable { cpu: cpu as usize };
    if n > 0 {
        lemma_disabled(open, (n - 1) as nat, cpu);
        let before = open_below(open, (n - 1) as nat);
        let all = open_below(open, n);
        if before.contains(step) {
            let k = choose|k: int| 0 <= k < before.len() && before[k] == step;
            assert(all[k] == step);
        }
        if cpu == n - 1 && open[cpu] {
            assert(all[before.len() as int] == step);
        }
        if all.contains(step) && !before.contains(step) {
            let k = choose|k: int| 0 <= k < all.len() && all[k] == step;
            assert(k < before.len() ==> before[k] == step);
        }
    }
}

/// Replacing the event of a slot leaves no CPU out: the old counter is disabled wherever there is
/// one, and there alone, before the sampler is told the event, once; after that a counter is opened
/// on every CPU. Returns where the sampler is told.
pub proof fn every_cpu_is_switched_over(open: Seq<bool>, event_id: EventId, cpu: int) -> (at: int)
    requires
        open.len() <= usize::MAX,
        0 <= cpu < open.len(),
    ensures
        ({
            let steps = update_steps(open, event_id);
            &&& 0 <= at < steps.len()
            &&& steps[at] == (SlotAction::SetEvent { event_id })
            &&& open[cpu] <==> steps.take(at).contains(SlotAction::Disable { cpu: cpu as usize })
            &&& !steps.skip(at + 1).contains(SlotAction::Disable { cpu: cpu as usize })
            &&& steps.skip(at + 1).contains(SlotAction::Open { cpu: cpu as usize })
            &&& forall|k: int| 0 <= k < steps.len() && k != at ==> !(#[trigger] steps[k] is SetEvent)
        }),
{
    let disabled = open_below(open, open.len());
    let steps = update_steps(open, event_id);
    let at = 2 + disabled.len() as int;
    lemma_open_below(open, open.len());
    lemma_disabled(open, open.len(), cpu);
    let step = SlotAction::Disable { cpu: cpu as usize };
    let opens = opening(open.len());
    assert(forall|k: int| 2 <= k < at ==> #[trigger] steps[k] == disabled[k - 2]);
    assert(forall|k: int| at < k < steps.len() - 1 ==> #[trigger] steps[k] == opens[k - at - 1]);
    if disabled.contains(step) {
        let k = choose|k: int| 0 <= k < disabled.len() && disabled[k] == step;
        assert(steps.take(at)[k + 2] == step);
    }
    if steps.take(at).contains(step) {
        let k = choose|k: int| 0 <= k < at && steps.take(at)[k] == step;
        assert(steps[k] == step);
        assert(disabled[k - 2] == step);
    }
    assert(steps.skip(at + 1)[cpu] == steps[at + 1 + cpu]);
    assert(steps[at + 1 + cpu] == opens[cpu]);
    let rest = steps.skip(at + 1);
    if rest.contains(step) {
        let k = choose|k: int| 0 <= k < rest.len() && rest[k] == step;
        assert(steps[at + 1 + k] == step);
        if at + 1 + k < steps.len() - 1 {
            assert(steps[at + 1 + k] == opens[k]);
        }
    }
    assert forall|k: int| 0 <= k < steps.len() && k != at implies !(#[trigger] steps[k] is SetEvent) by {
        if 2 <= k < at {
            assert(steps[k] == disabled[k - 2]);
        } else if at < k < steps.len() - 1 {
            assert(steps[k] == opens[k - at - 1]);
        }
    }
    at
}

/// A slot is open on every CPU or on none.
pub proof fn slots_are_open_on_all_cpus_or_none(num_cpus: nat, open: bool, cpu: int)
    requires
        0 <= cpu < num_cpus,
    ensures
        slot_state(num_cpus, open).len() == num_cpus,
        slot_state(num_cpus, open)[cpu] == open,
{
}

} // verus!
