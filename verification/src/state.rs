//! Estimates of event rates as plain entries, and their grouping by event.

use crate::event::EventId;
use std::collections::HashMap;
use vstd::prelude::*;

verus! {

broadcast use vstd::std_specs::hash::group_hash_axioms;

/// What an estimator holds of one event on one thread. Rate and uncertainty are bit patterns of
/// double-precision numbers.
#[derive(Debug, Clone, Copy)]
pub struct Estimate {
    /// The thread.
    pub tid: u32,
    /// The event.
    pub event_id: EventId,
    /// Estimated rate in events per nanosecond.
    pub rate: u64,
    /// Uncertainty of the estimate.
    pub uncertainty: u64,
    /// Number of samples behind the estimate.
    pub sample_count: u64,
}

/// Whether a bit pattern stands for a number above zero: no sign, and neither zero nor no number.
pub open spec fn is_positive(bits: u64) -> bool {
    0 < bits <= 0x7FF0_0000_0000_0000
}

/// Whether a bit pattern stands for a number above zero.
pub fn positive(bits: u64) -> (r: bool)
    ensures
        r == is_positive(bits),
{
    0 < bits && bits <= 0x7FF0_0000_0000_0000
}

/// The estimates of one event over all threads.
pub struct EventEstimates {
    /// The event.
    pub event_id: EventId,
    /// Its estimates, in the order given.
    pub entries: Vec<Estimate>,
}

/// The estimates of an event, in the order given.
pub open spec fn entries_of(estimates: Seq<Estimate>, event_id: EventId) -> Seq<Estimate>
    decreases estimates.len(),
{
    if estimates.len() == 0 {
        Seq::empty()
    } else {
        let rest = entries_of(estimates.drop_last(), event_id);
        if estimates.last().event_id == event_id {
            rest.push(estimates.last())
        } else {
            rest
        }
    }
}

/// Whether `groups` holds each event that has an estimate, once, with all its estimates.
pub open spec fn is_grouping(
    groups: Seq<EventEstimates>,
    estimates: Seq<Estimate>,
) -> bool {
    &&& forall|i: int, j: int|
        0 <= i < j < groups.len() ==> (#[trigger] groups[i]).event_id != (
        #[trigger] groups[j]).event_id
    &&& forall|i: int|
        0 <= i < groups.len() ==> (#[trigger] groups[i]).entries@ == entries_of(
            estimates,
            groups[i].event_id,
        ) && groups[i].entries@.len() > 0
    &&& forall|e: EventId|
        (#[trigger] entries_of(estimates, e)).len() > 0 ==> has_event(groups, e)
}

/// Whether an event has a group.
pub open spec fn has_event(groups: Seq<EventEstimates>, event_id: EventId) -> bool {
    exists|i: int| 0 <= i < groups.len() && (#[trigger] groups[i]).event_id == event_id
}

/// Collects the estimates of each event over all threads.
pub fn estimates_by_event(estimates: &Vec<Estimate>) -> (r: Vec<EventEstimates>)
    ensures
        is_grouping(r@, estimates@),
{
    let mut groups: Vec<EventEstimates> = Vec::new();
    let mut slots: HashMap<u32, usize> = HashMap::new();
    let mut i: usize = 0;
    assert(estimates@.take(0) =~= Seq::empty());
    while i < estimates.len()
        invariant
            i <= estimates@.len(),
            is_grouping(groups@, estimates@.take(i as int)),
            forall|e: u32| #[trigger]
                slots@.contains_key(e) ==> slots@[e] < groups@.len()
                    && groups@[slots@[e] as int].event_id == e,
            forall|g: int|
                0 <= g < groups@.len() ==> slots@.contains_key((#[trigger] groups@[g]).event_id)
                    && slots@[groups@[g].event_id] == g,
        decreases estimates@.len() - i,
    {
        let est = estimates[i];
        let ghost before = groups@;
        let ghost seen = estimates@.take(i as int);
        let ghost next = estimates@.take(i as int + 1);
        assert(next.drop_last() =~= seen);
        assert(next.last() == est);
        let found: Option<usize> = match slots.get(&est.event_id) {
            Some(slot) => Some(*slot),
            None => None,
        };
        let slot: usize = match found {
            Some(slot) => slot,
            None => {
                let slot: usize = groups.len();
                assert(entries_of(seen, est.event_id).len() == 0) by {
                    if entries_of(seen, est.event_id).len() > 0 {
                        let g = choose|g: int|
                            0 <= g < before.len() && (#[trigger] before[g]).event_id
                                == est.event_id;
                        assert(slots@.contains_key(before[g].event_id));
                    }
                }
                groups.push(EventEstimates { event_id: est.event_id, entries: Vec::new() });
                slots.insert(est.event_id, slot);
                slot
            },
        };
        let ghost mid = groups@;
        groups[slot].entries.push(est);
        proof {
            assert(groups@[slot as int].entries@ == mid[slot as int].entries@.push(est));
            assert(mid[slot as int].entries@ =~= entries_of(seen, est.event_id));
            assert forall|g: int| 0 <= g < groups@.len() implies (#[trigger] groups@[g]).entries@
                == entries_of(next, groups@[g].event_id) && groups@[g].entries@.len() > 0 by {
                if g != slot {
                    assert(groups@[g] == before[g]);
                    assert(before[g].event_id != est.event_id) by {
                        if before[g].event_id == est.event_id {
                            assert(slots@[before[g].event_id] == g);
                        }
                    }
                }
            }
            assert forall|g: int, h: int| 0 <= g < h < groups@.len() implies (
            #[trigger] groups@[g]).event_id != (#[trigger] groups@[h]).event_id by {
                assert(mid[g].event_id == groups@[g].event_id);
                assert(mid[h].event_id == groups@[h].event_id);
                if h < before.len() {
                    assert(before[g].event_id != before[h].event_id);
                }
            }
            assert forall|e: EventId|
                (#[trigger] entries_of(next, e)).len() > 0 implies has_event(groups@, e) by {
                if e == est.event_id {
                    assert(groups@[slot as int].event_id == e);
                } else {
                    assert(entries_of(seen, e).len() > 0);
                    let g = choose|g: int|
                        0 <= g < before.len() && (#[trigger] before[g]).event_id == e;
                    assert(groups@[g].event_id == e);
                }
            }
        }
        i = i + 1;
    }
    assert(estimates@.take(estimates@.len() as int) =~= estimates@);
    groups
}

/// The number of samples behind some estimates.
pub open spec fn sample_sum(entries: Seq<Estimate>) -> nat
    decreases entries.len(),
{
    if entries.len() == 0 {
        0
    } else {
        sample_sum(entries.drop_last()) + entries.last().sample_count as nat
    }
}

proof fn lemma_sample_sum_prefix(entries: Seq<Estimate>, n: int)
    requires
        0 <= n <= entries.len(),
    ensures
        sample_sum(entries.take(n)) <= sample_sum(entries),
    decreases entries.len(),
{
    if n < entries.len() {
        assert(entries.drop_last().take(n) =~= entries.take(n));
        lemma_sample_sum_prefix(entries.drop_last(), n);
    } else {
        assert(entries.take(n) =~= entries);
    }
}

/// Adds up the samples behind some estimates.
pub fn total_samples(entries: &Vec<Estimate>) -> (r: u64)
    requires
        sample_sum(entries@) <= u64::MAX,
    ensures
        r == sample_sum(entries@),
{
    let mut total: u64 = 0;
    let mut i: usize = 0;
    while i < entries.len()
        invariant
            i <= entries@.len(),
            sample_sum(entries@) <= u64::MAX,
            total == sample_sum(entries@.take(i as int)),
        decreases entries@.len() - i,
    {
        assert(entries@.take(i as int + 1).drop_last() =~= entries@.take(i as int));
        proof {
            lemma_sample_sum_prefix(entries@, i as int + 1);
        }
        total = total + entries[i].sample_count;
        i = i + 1;
    }
    assert(entries@.take(entries@.len() as int) =~= entries@);
    total
}

proof fn lemma_entries_of(estimates: Seq<Estimate>, event_id: EventId)
    ensures
        entries_of(estimates, event_id) == estimates.filter(
            |e: Estimate| e.event_id == event_id,
        ),
    decreases estimates.len(),
{
    reveal(Seq::filter);
    if estimates.len() > 0 {
        lemma_entries_of(estimates.drop_last(), event_id);
    }
}

/// An event's group holds all its estimates, those of every thread, in the order given, and no
/// others. Every estimate is in a group, and no event has two.
pub proof fn groups_hold_all_threads_of_an_event(
    groups: Seq<EventEstimates>,
    estimates: Seq<Estimate>,
)
    requires
        is_grouping(groups, estimates),
    ensures
        forall|g: int|
            0 <= g < groups.len() ==> (#[trigger] groups[g]).entries@ == estimates.filter(
                |e: Estimate| e.event_id == groups[g].event_id,
            ) && groups[g].entries@.len() > 0,
        forall|i: int|
            0 <= i < estimates.len() ==> has_event(groups, (#[trigger] estimates[i]).event_id),
        forall|g: int, h: int|
            0 <= g < groups.len() && 0 <= h < groups.len() && (#[trigger] groups[g]).event_id == (
            #[trigger] groups[h]).event_id ==> g == h,
{
    broadcast use vstd::seq_lib::group_filter_ensures;

    assert forall|g: int| 0 <= g < groups.len() implies (#[trigger] groups[g]).entries@
        == estimates.filter(|e: Estimate| e.event_id == groups[g].event_id)
        && groups[g].entries@.len() > 0 by {
        lemma_entries_of(estimates, groups[g].event_id);
    }
    assert forall|i: int| 0 <= i < estimates.len() implies has_event(
        groups,
        (#[trigger] estimates[i]).event_id,
    ) by {
        let id = estimates[i].event_id;
        lemma_entries_of(estimates, id);
        let kept = estimates.filter(|e: Estimate| e.event_id == id);
        assert(kept.contains(estimates[i]));
    }
}

/// The samples behind some estimates are those behind each, added up.
pub proof fn samples_add_up(entries: Seq<Estimate>)
    ensures
        sample_sum(entries) == entries.fold_left(0int, |n: int, e: Estimate| n + e.sample_count),
    decreases entries.len(),
{
    if entries.len() > 0 {
        samples_add_up(entries.drop_last());
    }
}

} // verus!
