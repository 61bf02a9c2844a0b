//! Where samples come from, and which counter slots a change of schedule touches.

use crate::event::EventId;
use crate::sample::RawSample;
use vstd::prelude::*;

pub mod hardware;
pub mod virtual_source;

verus! {

/// Timing breakdown of a single `apply_schedule` call.
#[derive(Debug, Clone, Copy)]
pub struct SwapStats {
    /// Time spent waiting for every CPU to acknowledge the stop, summed over the changed slots.
    pub quiesce_ns: u64,
    /// Time spent opening and installing counters, summed over the changed slots.
    pub reconfig_ns: u64,
    /// Number of counter slots reconfigured by the call.
    pub slots_changed: usize,
}

impl Default for SwapStats {
    fn default() -> (r: Self)
        ensures
            r == (SwapStats { quiesce_ns: 0, reconfig_ns: 0, slots_changed: 0 }),
    {
        SwapStats { quiesce_ns: 0, reconfig_ns: 0, slots_changed: 0 }
    }
}

/// Abstraction over where performance counter samples come from.
pub trait SampleSource {
    /// Collects all raw samples since the last call, and the time in nanoseconds that they cover.
    fn collect(&mut self) -> (Vec<RawSample>, u64);

    /// Switches which hardware events are monitored.
    fn apply_schedule(&mut self, old_set: &Vec<EventId>, new_set: &Vec<EventId>) -> Result<
        SwapStats,
        String,
    >;

    /// Number of hardware counter slots available simultaneously.
    fn num_slots(&self) -> usize;
}

/// A counter slot and the event that it is to count.
#[derive(Debug, Clone, Copy)]
pub struct SlotUpdate {
    /// The slot.
    pub slot: usize,
    /// The event.
    pub event_id: EventId,
}

/// Whether slot `i` has another event in the new schedule than in the old one; a slot behind the
/// end of the old schedule had none.
pub open spec fn slot_changes(old: Seq<EventId>, new: Seq<EventId>, i: int) -> bool {
    i >= old.len() || old[i] != new[i]
}

/// The updates of those among the first `n` slots that change.
pub open spec fn differing(old: Seq<EventId>, new: Seq<EventId>, n: nat) -> Seq<SlotUpdate>
    decreases n,
{
    if n == 0 {
        Seq::empty()
    } else {
        let before = differing(old, new, (n - 1) as nat);
        if slot_changes(old, new, n - 1) {
            before.push(SlotUpdate { slot: (n - 1) as usize, event_id: new[n - 1] })
        } else {
            before
        }
    }
}

/// The updates that a change of schedule takes: one for each slot of the new schedule that changes.
pub open spec fn updates(old: Seq<EventId>, new: Seq<EventId>) -> Seq<SlotUpdate> {
    differing(old, new, new.len())
}

/// Works out which slots change between two schedules, slot by slot.
pub fn slot_updates(old_set: &Vec<EventId>, new_set: &Vec<EventId>) -> (r: Vec<SlotUpdate>)
    ensures
        r@ == updates(old_set@, new_set@),
{
    let mut out: Vec<SlotUpdate> = Vec::new();
    let mut i: usize = 0;
    while i < new_set.len()
        invariant
            i <= new_set@.len(),
            out@ == differing(old_set@, new_set@, i as nat),
        decreases new_set@.len() - i,
    {
        if i >= old_set.len() || old_set[i] != new_set[i] {
            out.push(SlotUpdate { slot: i, event_id: new_set[i] });
        }
        i = i + 1;
    }
    out
}

/// There is an update for every slot that changes, with its new event, and for no other.
pub proof fn updates_are_of_changed_slots(old: Seq<EventId>, new: Seq<EventId>, i: int)
    requires
        0 <= i < new.len() <= usize::MAX,
    ensures
        updates(old, new).contains(SlotUpdate { slot: i as usize, event_id: new[i] })
            <==> slot_changes(old, new, i),
{
    lemma_update_at(old, new, i, new.len());
}

proof fn lemma_update_at(old: Seq<EventId>, new: Seq<EventId>, i: int, n: nat)
    requires
        0 <= i < new.len() <= usize::MAX,
        n <= new.len(),
    ensures
        differing(old, new, n).contains(SlotUpdate { slot: i as usize, event_id: new[i] }) <==> (i
            < n && slot_changes(old, new, i)),
    decreases n,
{
    let u = SlotUpdate { slot: i as usize, event_id: new[i] };
    if n > 0 {
        lemma_update_at(old, new, i, (n - 1) as nat);
        let before = differing(old, new, (n - 1) as nat);
        let after = differing(old, new, n);
        if before.contains(u) {
            let k = choose|k: int| 0 <= k < before.len() && before[k] == u;
            assert(after[k] == u);
        }
        if i == n - 1 && slot_changes(old, new, i) {
            assert(after[before.len() as int] == u);
        }
        if after.contains(u) && !before.contains(u) {
            let k = choose|k: int| 0 <= k < after.len() && after[k] == u;
            assert(k < before.len() ==> before[k] == u);
        }
    }
}

/// The events of some slots after updates, in order.
pub open spec fn updated(slots: Seq<EventId>, updates: Seq<SlotUpdate>) -> Seq<EventId>
    decreases updates.len(),
{
    if updates.len() == 0 {
        slots
    } else {
        let u = updates.last();
        updated(slots, updates.drop_last()).update(u.slot as int, u.event_id)
    }
}

proof fn lemma_differing(slots: Seq<EventId>, old: Seq<EventId>, new: Seq<EventId>, n: nat)
    requires
        n <= new.len() <= slots.len(),
        new.len() <= usize::MAX,
        forall|i: int| 0 <= i < old.len() && i < slots.len() ==> #[trigger] slots[i] == old[i],
    ensures
        updated(slots, differing(old, new, n)).len() == slots.len(),
        forall|i: int|
            0 <= i < slots.len() ==> #[trigger] updated(slots, differing(old, new, n))[i] == if i
                < n {
                new[i]
            } else {
                slots[i]
            },
    decreases n,
{
    if n > 0 {
        lemma_differing(slots, old, new, (n - 1) as nat);
        let before = differing(old, new, (n - 1) as nat);
        if slot_changes(old, new, n - 1) {
            assert(differing(old, new, n).drop_last() =~= before);
        }
    }
}

/// Carrying the updates out on slots that count the old set makes them count the new one, whatever
/// slots behind the old set counted before; slots behind the new set stay as they are.
pub proof fn updates_install_the_schedule(
    slots: Seq<EventId>,
    old: Seq<EventId>,
    new: Seq<EventId>,
)
    requires
        new.len() <= slots.len(),
        new.len() <= usize::MAX,
        forall|i: int| 0 <= i < old.len() && i < slots.len() ==> #[trigger] slots[i] == old[i],
    ensures
        updated(slots, updates(old, new)).len() == slots.len(),
        forall|i: int|
            0 <= i < slots.len() ==> #[trigger] updated(slots, updates(old, new))[i] == if i
                < new.len() {
                new[i]
            } else {
                slots[i]
            },
{
    lemma_differing(slots, old, new, new.len());
}

/// Counts the slots that change between two schedules.
pub fn count_changed(old_set: &Vec<EventId>, new_set: &Vec<EventId>) -> (r: usize)
    ensures
        r == updates(old_set@, new_set@).len(),
{
    let mut count: usize = 0;
    let mut i: usize = 0;
    while i < new_set.len()
        invariant
            i <= new_set@.len(),
            count <= i,
            count == differing(old_set@, new_set@, i as nat).len(),
        decreases new_set@.len() - i,
    {
        if i >= old_set.len() || old_set[i] != new_set[i] {
            count = count + 1;
        }
        i = i + 1;
    }
    count
}

/// A slot is updated exactly if the new schedule has an event for it that the old one did not have
/// there; it is updated once, with that event, and the updates go from the first slot to the last.
pub proof fn changed_slots_are_updated_once(old: Seq<EventId>, new: Seq<EventId>, i: int)
    requires
        0 <= i < new.len() <= usize::MAX,
    ensures
        (i >= old.len() || old[i] != new[i]) <==> exists|k: int|
            0 <= k < updates(old, new).len() && (#[trigger] updates(old, new)[k]).slot == i,
        forall|k: int|
            0 <= k < updates(old, new).len() ==> (#[trigger] updates(old, new)[k]).slot < new.len()
                && updates(old, new)[k].event_id == new[updates(old, new)[k].slot as int],
        forall|k: int, l: int|
            0 <= k < l < updates(old, new).len() ==> (#[trigger] updates(old, new)[k]).slot < (
            #[trigger] updates(old, new)[l]).slot,
{
    lemma_updates_by_slot(old, new, new.len());
    let all = updates(old, new);
    assert(is_updated(all, i) <==> (i >= old.len() || old[i] != new[i]));
}

spec fn is_updated(updates: Seq<SlotUpdate>, i: int) -> bool {
    exists|k: int| 0 <= k < updates.len() && (#[trigger] updates[k]).slot == i
}

proof fn lemma_updates_by_slot(old: Seq<EventId>, new: Seq<EventId>, n: nat)
    requires
        n <= new.len() <= usize::MAX,
    ensures
        forall|i: int|
            0 <= i < n ==> (#[trigger] is_updated(differing(old, new, n), i) <==> (i >= old.len()
                || old[i] != new[i])),
        forall|k: int|
            0 <= k < differing(old, new, n).len() ==> (#[trigger] differing(old, new, n)[k]).slot
                < n && differing(old, new, n)[k].event_id == new[differing(
                old,
                new,
                n,
            )[k].slot as int],
        forall|k: int, l: int|
            0 <= k < l < differing(old, new, n).len() ==> (#[trigger] differing(
                old,
                new,
                n,
            )[k]).slot < (#[trigger] differing(old, new, n)[l]).slot,
    decreases n,
{
    if n > 0 {
        lemma_updates_by_slot(old, new, (n - 1) as nat);
        let before = differing(old, new, (n - 1) as nat);
        let all = differing(old, new, n);
        assert forall|k: int| 0 <= k < all.len() implies (#[trigger] all[k]).slot < n
            && all[k].event_id == new[all[k].slot as int] by {
            if k < before.len() {
                assert(all[k] == before[k]);
            }
        }
        assert forall|k: int, l: int| 0 <= k < l < all.len() implies (#[trigger] all[k]).slot < (
        #[trigger] all[l]).slot by {
            assert(all[k] == before[k]);
            if l < before.len() {
                assert(all[l] == before[l]);
            }
        }
        assert forall|i: int| 0 <= i < n implies (#[trigger] is_updated(all, i) <==> (i
            >= old.len() || old[i] != new[i])) by {
            if i < n - 1 {
                assert(is_updated(before, i) <==> (i >= old.len() || old[i] != new[i]));
                if is_updated(before, i) {
                    let k = choose|k: int| 0 <= k < before.len() && (#[trigger] before[k]).slot == i;
                    assert(all[k].slot == i);
                }
                if is_updated(all, i) {
                    let k = choose|k: int| 0 <= k < all.len() && (#[trigger] all[k]).slot == i;
                    assert(k < before.len());
                    assert(before[k].slot == i);
                }
            } else {
                if slot_changes(old, new, i) {
                    assert(all[before.len() as int].slot == i);
                }
                if is_updated(all, i) && !slot_changes(old, new, i) {
                    let k = choose|k: int| 0 <= k < all.len() && (#[trigger] all[k]).slot == i;
                    assert(before[k].slot < n - 1);
                }
            }
        }
    }
}

} // verus!
