//! One scheduling step's worth of samples, and what they add up to per event and per thread.

use crate::event::EventId;
use crate::sample::RawSample;
use std::collections::{HashMap, HashSet};
use vstd::prelude::*;

verus! {

broadcast use vstd::std_specs::hash::group_hash_axioms;

/// The rate of one sample as an exact ratio: `count / duration_ns` events per nanosecond.
#[derive(Debug, Clone, Copy)]
pub struct RateRatio {
    /// Events counted.
    pub count: u64,
    /// Nanoseconds over which they were counted.
    pub duration_ns: u64,
}

/// Whether rate `a` is at most rate `b`.
pub open spec fn rate_le(a: RateRatio, b: RateRatio) -> bool {
    a.count * b.duration_ns <= b.count * a.duration_ns
}

/// The rate of a sample.
pub open spec fn rate_of(s: RawSample) -> RateRatio {
    RateRatio { count: s.count, duration_ns: s.duration_ns }
}

/// Per-event statistics aggregated from the samples of a [`Quantum`].
pub struct EventAggregate {
    /// The hardware event these statistics describe.
    pub event_id: EventId,
    /// Sum of event counts across all samples.
    pub total_count: u64,
    /// Sum of measurement durations across all samples in nanoseconds.
    pub total_duration_ns: u64,
    /// Smallest per-sample rate observed.
    pub min_rate: RateRatio,
    /// Largest per-sample rate observed.
    pub max_rate: RateRatio,
    /// Number of samples that contributed.
    pub num_samples: u32,
    /// The per-sample rates, in the order of the samples.
    pub rates: Vec<RateRatio>,
}

/// Statistics of one event on one thread.
pub struct ThreadAggregate {
    /// The thread.
    pub tid: u32,
    /// Statistics of the event on that thread.
    pub aggregate: EventAggregate,
}

/// Total event count of some samples.
pub open spec fn count_sum(samples: Seq<RawSample>) -> nat
    decreases samples.len(),
{
    if samples.len() == 0 {
        0
    } else {
        count_sum(samples.drop_last()) + samples.last().count as nat
    }
}

/// Total duration of some samples.
pub open spec fn duration_sum(samples: Seq<RawSample>) -> nat
    decreases samples.len(),
{
    if samples.len() == 0 {
        0
    } else {
        duration_sum(samples.drop_last()) + samples.last().duration_ns as nat
    }
}

/// Thread and event.
pub type GroupKey = (u32, EventId);

/// What a sample is grouped under: its event, and its thread where threads are kept apart.
pub open spec fn group_key(s: RawSample, by_thread: bool) -> GroupKey {
    (
        if by_thread {
            s.tid
        } else {
            0
        },
        s.event_id,
    )
}

/// The samples of a group that took any time at all, in order.
pub open spec fn group_of(samples: Seq<RawSample>, by_thread: bool, key: GroupKey) -> Seq<RawSample>
    decreases samples.len(),
{
    if samples.len() == 0 {
        Seq::empty()
    } else {
        let rest = group_of(samples.drop_last(), by_thread, key);
        let last = samples.last();
        if last.duration_ns > 0 && group_key(last, by_thread) == key {
            rest.push(last)
        } else {
            rest
        }
    }
}

impl EventAggregate {
    /// Whether this describes exactly the samples `group`.
    pub open spec fn describes(self, group: Seq<RawSample>) -> bool {
        &&& self.total_count == count_sum(group)
        &&& self.total_duration_ns == duration_sum(group)
        &&& self.num_samples == group.len()
        &&& self.rates@ == group.map_values(|s: RawSample| rate_of(s))
        &&& self.rates@.contains(self.min_rate)
        &&& self.rates@.contains(self.max_rate)
        &&& forall|i: int|
            0 <= i < self.rates@.len() ==> rate_le(self.min_rate, #[trigger] self.rates@[i])
                && rate_le(self.rates@[i], self.max_rate)
    }
}

impl ThreadAggregate {
    /// The group that this describes.
    pub open spec fn key(self) -> GroupKey {
        (self.tid, self.aggregate.event_id)
    }
}

/// Whether `groups` holds one aggregate for each group among `samples`, and no other.
pub open spec fn is_grouping(
    groups: Seq<ThreadAggregate>,
    samples: Seq<RawSample>,
    by_thread: bool,
) -> bool {
    &&& forall|i: int, j: int|
        0 <= i < j < groups.len() ==> (#[trigger] groups[i]).key() != (#[trigger] groups[j]).key()
    &&& forall|i: int|
        0 <= i < groups.len() ==> (#[trigger] groups[i]).aggregate.describes(
            group_of(samples, by_thread, groups[i].key()),
        )
    &&& forall|key: GroupKey|
        (#[trigger] group_of(samples, by_thread, key)).len() > 0 ==> has_group(groups, key)
}

/// Statistics over all threads, as those of groups that threads are not kept apart in.
pub open spec fn over_threads(aggregates: Seq<EventAggregate>) -> Seq<ThreadAggregate> {
    aggregates.map_values(|a: EventAggregate| ThreadAggregate { tid: 0, aggregate: a })
}

/// Whether a group has an aggregate.
pub open spec fn has_group(groups: Seq<ThreadAggregate>, key: GroupKey) -> bool {
    exists|i: int| 0 <= i < groups.len() && (#[trigger] groups[i]).key() == key
}

/// Whether the totals of every group fit their fields.
pub open spec fn totals_fit(samples: Seq<RawSample>, by_thread: bool) -> bool {
    &&& samples.len() <= u32::MAX
    &&& forall|key: GroupKey|
        count_sum(#[trigger] group_of(samples, by_thread, key)) <= u64::MAX && duration_sum(
            group_of(samples, by_thread, key),
        ) <= u64::MAX
}

proof fn lemma_prefix_sums(samples: Seq<RawSample>, by_thread: bool, key: GroupKey, n: int)
    requires
        0 <= n <= samples.len(),
    ensures
        count_sum(group_of(samples.take(n), by_thread, key)) <= count_sum(
            group_of(samples, by_thread, key),
        ),
        duration_sum(group_of(samples.take(n), by_thread, key)) <= duration_sum(
            group_of(samples, by_thread, key),
        ),
        group_of(samples.take(n), by_thread, key).len() <= n,
    decreases samples.len(),
{
    if n == samples.len() {
        assert(samples.take(n) =~= samples);
        lemma_group_len(samples, by_thread, key);
    } else {
        let front = samples.drop_last();
        assert(front.take(n) =~= samples.take(n));
        lemma_prefix_sums(front, by_thread, key, n);
        let g = group_of(front, by_thread, key);
        assert(g.push(samples.last()).drop_last() =~= g);
    }
}

proof fn lemma_group_len(samples: Seq<RawSample>, by_thread: bool, key: GroupKey)
    ensures
        group_of(samples, by_thread, key).len() <= samples.len(),
    decreases samples.len(),
{
    if samples.len() > 0 {
        lemma_group_len(samples.drop_last(), by_thread, key);
    }
}

/// Compares two rates.
pub fn rate_at_most(a: RateRatio, b: RateRatio) -> (r: bool)
    ensures
        r == rate_le(a, b),
{
    assert(a.count * b.duration_ns <= u64::MAX * u64::MAX) by (nonlinear_arith)
        requires
            a.count <= u64::MAX,
            b.duration_ns <= u64::MAX,
    ;
    assert(b.count * a.duration_ns <= u64::MAX * u64::MAX) by (nonlinear_arith)
        requires
            b.count <= u64::MAX,
            a.duration_ns <= u64::MAX,
    ;
    a.count as u128 * b.duration_ns as u128 <= b.count as u128 * a.duration_ns as u128
}

/// Comparing rates is transitive, where the one in the middle took any time.
pub proof fn lemma_le_transitive(a: RateRatio, b: RateRatio, c: RateRatio)
    requires
        rate_le(a, b),
        rate_le(b, c),
        b.duration_ns > 0,
    ensures
        rate_le(a, c),
{
    let (p, q, r, s, t, u) = (
        a.count as int,
        a.duration_ns as int,
        b.count as int,
        b.duration_ns as int,
        c.count as int,
        c.duration_ns as int,
    );
    assert(p * u <= t * q) by (nonlinear_arith)
        requires
            p * s <= r * q,
            r * u <= t * s,
            s > 0,
            u >= 0,
            q >= 0,
    {
        assert((p * s) * u <= (r * q) * u) by (nonlinear_arith)
            requires
                p * s <= r * q,
                u >= 0,
        ;
        assert((r * u) * q <= (t * s) * q) by (nonlinear_arith)
            requires
                r * u <= t * s,
                q >= 0,
        ;
        assert((p * s) * u == s * (p * u)) by (nonlinear_arith);
        assert((r * q) * u == (r * u) * q) by (nonlinear_arith);
        assert((t * s) * q == s * (t * q)) by (nonlinear_arith);
        assert(s * (p * u) <= s * (t * q));
        assert(p * u <= t * q) by (nonlinear_arith)
            requires
                s * (p * u) <= s * (t * q),
                s > 0,
        ;
    }
}

impl EventAggregate {
    /// The aggregate of a single sample.
    fn start(s: &RawSample) -> (r: Self)
        requires
            s.duration_ns > 0,
        ensures
            r.event_id == s.event_id,
            r.describes(seq![*s]),
    {
        let rate = RateRatio { count: s.count, duration_ns: s.duration_ns };
        let mut rates: Vec<RateRatio> = Vec::new();
        rates.push(rate);
        let r = EventAggregate {
            event_id: s.event_id,
            total_count: s.count,
            total_duration_ns: s.duration_ns,
            min_rate: rate,
            max_rate: rate,
            num_samples: 1,
            rates,
        };
        assert(seq![*s].drop_last() =~= Seq::empty());
        assert(count_sum(Seq::empty()) == 0 && duration_sum(Seq::empty()) == 0);
        assert(r.rates@ =~= seq![*s].map_values(|s: RawSample| rate_of(s)));
        assert(r.rates@[0] == rate);
        r
    }

    /// Adds one more sample.
    fn include_sample(&mut self, s: &RawSample, group: Ghost<Seq<RawSample>>)
        requires
            s.duration_ns > 0,
            old(self).describes(group@),
            forall|i: int| 0 <= i < group@.len() ==> (#[trigger] group@[i]).duration_ns > 0,
            count_sum(group@) + s.count <= u64::MAX,
            duration_sum(group@) + s.duration_ns <= u64::MAX,
            group@.len() < u32::MAX,
        ensures
            final(self).event_id == old(self).event_id,
            final(self).describes(group@.push(*s)),
    {
        let rate = RateRatio { count: s.count, duration_ns: s.duration_ns };
        let ghost before = *self;
        assert(group@.push(*s).drop_last() =~= group@);
        proof {
            let n = choose|n: int| 0 <= n < before.rates@.len() && before.rates@[n] == before.min_rate;
            let x = choose|x: int| 0 <= x < before.rates@.len() && before.rates@[x] == before.max_rate;
            assert(before.min_rate == rate_of(group@[n]));
            assert(before.max_rate == rate_of(group@[x]));
        }
        self.total_count = self.total_count + s.count;
        self.total_duration_ns = self.total_duration_ns + s.duration_ns;
        self.num_samples = self.num_samples + 1;
        if !rate_at_most(self.min_rate, rate) {
            self.min_rate = rate;
        }
        if !rate_at_most(rate, self.max_rate) {
            self.max_rate = rate;
        }
        self.rates.push(rate);
        assert(self.rates@ =~= group@.push(*s).map_values(|s: RawSample| rate_of(s)));
        proof {
            let last = before.rates@.len() as int;
            assert(self.rates@[last] == rate);
            let n = choose|n: int| 0 <= n < before.rates@.len() && before.rates@[n] == before.min_rate;
            let x = choose|x: int| 0 <= x < before.rates@.len() && before.rates@[x] == before.max_rate;
            assert(self.rates@[n] == before.min_rate);
            assert(self.rates@[x] == before.max_rate);
            assert forall|i: int| 0 <= i < self.rates@.len() implies rate_le(
                self.min_rate,
                #[trigger] self.rates@[i],
            ) && rate_le(self.rates@[i], self.max_rate) by {
                if i < last {
                    assert(self.rates@[i] == before.rates@[i]);
                    if self.min_rate == rate {
                        lemma_le_transitive(rate, before.min_rate, before.rates@[i]);
                    }
                    if self.max_rate == rate {
                        lemma_le_transitive(before.rates@[i], before.max_rate, rate);
                    }
                }
            }
        }
    }
}

proof fn lemma_group_durations(samples: Seq<RawSample>, by_thread: bool, key: GroupKey)
    ensures
        forall|i: int|
            0 <= i < group_of(samples, by_thread, key).len() ==> (#[trigger] group_of(
                samples,
                by_thread,
                key,
            )[i]).duration_ns > 0,
    decreases samples.len(),
{
    if samples.len() > 0 {
        lemma_group_durations(samples.drop_last(), by_thread, key);
        let rest = group_of(samples.drop_last(), by_thread, key);
        let group = group_of(samples, by_thread, key);
        assert forall|i: int| 0 <= i < group.len() implies (#[trigger] group[i]).duration_ns > 0 by {
            if i < rest.len() {
                assert(group[i] == rest[i]);
            }
        }
    }
}

/// Groups samples by event, or by thread and event, leaving out those without duration.
fn group_samples(samples: &Vec<RawSample>, by_thread: bool) -> (r: Vec<ThreadAggregate>)
    requires
        totals_fit(samples@, by_thread),
    ensures
        is_grouping(r@, samples@, by_thread),
{
    let mut groups: Vec<ThreadAggregate> = Vec::new();
    let mut slots: HashMap<u64, usize> = HashMap::new();
    let mut i: usize = 0;
    assert(samples@.take(0) =~= Seq::empty());
    while i < samples.len()
        invariant
            i <= samples@.len(),
            totals_fit(samples@, by_thread),
            is_grouping(groups@, samples@.take(i as int), by_thread),
            forall|k: u64| #[trigger]
                slots@.contains_key(k) ==> slots@[k] < groups@.len() && packed(
                    groups@[slots@[k] as int].key(),
                ) == k,
            forall|g: int|
                0 <= g < groups@.len() ==> slots@.contains_key(packed((#[trigger] groups@[g]).key()))
                    && slots@[packed(groups@[g].key())] == g,
        decreases samples@.len() - i,
    {
        let s = samples[i];
        let ghost before = groups@;
        let ghost seen = samples@.take(i as int);
        let ghost next = samples@.take(i as int + 1);
        assert(next.drop_last() =~= seen);
        assert(next.last() == s);
        if s.duration_ns > 0 {
            let tid: u32 = if by_thread {
                s.tid
            } else {
                0
            };
            let ghost key = (tid, s.event_id);
            let slot_key: u64 = tid as u64 * 0x1_0000_0000 + s.event_id as u64;
            assert(slot_key == packed(key));
            assert(forall|other: GroupKey| #[trigger] packed(other) == slot_key ==> other == key);
            let found: Option<usize> = match slots.get(&slot_key) {
                Some(slot) => Some(*slot),
                None => None,
            };
            let ghost group = group_of(seen, by_thread, key);
            match found {
                Some(slot) => {
                    proof {
                        lemma_prefix_sums(samples@, by_thread, key, i as int + 1);
                        lemma_prefix_sums(samples@, by_thread, key, i as int);
                        lemma_group_durations(seen, by_thread, key);
                        assert(group.push(s).drop_last() =~= group);
                    }
                    groups[slot].aggregate.include_sample(&s, Ghost(group));
                    assert(groups@[slot as int].key() == before[slot as int].key());
                    assert forall|g: int| 0 <= g < groups@.len() implies (
                    #[trigger] groups@[g]).aggregate.describes(
                        group_of(next, by_thread, groups@[g].key()),
                    ) by {
                        if g != slot {
                            assert(groups@[g] == before[g]);
                        }
                    }
                    assert forall|k: GroupKey|
                        (#[trigger] group_of(next, by_thread, k)).len() > 0 implies has_group(
                        groups@,
                        k,
                    ) by {
                        if k == key {
                            assert(groups@[slot as int].key() == k);
                        } else {
                            assert(group_of(seen, by_thread, k).len() > 0);
                            let g = choose|g: int|
                                0 <= g < before.len() && (#[trigger] before[g]).key() == k;
                            assert(groups@[g].key() == k);
                        }
                    }
                },
                None => {
                    let slot: usize = groups.len();
                    assert(group.len() == 0) by {
                        if group.len() > 0 {
                            assert(has_group(before, key));
                            let g = choose|g: int|
                                0 <= g < before.len() && (#[trigger] before[g]).key() == key;
                            assert(slots@.contains_key(packed(before[g].key())));
                        }
                    }
                    groups.push(ThreadAggregate { tid, aggregate: EventAggregate::start(&s) });
                    slots.insert(slot_key, slot);
                    assert(group.push(s) =~= seq![s]);
                    assert(group_of(next, by_thread, key) == seq![s]);
                    assert forall|g: int| 0 <= g < groups@.len() implies (
                    #[trigger] groups@[g]).aggregate.describes(
                        group_of(next, by_thread, groups@[g].key()),
                    ) by {
                        if g != slot {
                            assert(groups@[g] == before[g]);
                            assert(slots@.contains_key(packed(before[g].key())));
                        }
                    }
                    assert forall|k: GroupKey|
                        (#[trigger] group_of(next, by_thread, k)).len() > 0 implies has_group(
                        groups@,
                        k,
                    ) by {
                        if k == key {
                            assert(groups@[slot as int].key() == k);
                        } else {
                            assert(group_of(seen, by_thread, k).len() > 0);
                            let g = choose|g: int|
                                0 <= g < before.len() && (#[trigger] before[g]).key() == k;
                            assert(groups@[g].key() == k);
                        }
                    }
                },
            }
        } else {
            assert forall|k: GroupKey|
                (#[trigger] group_of(next, by_thread, k)).len() > 0 implies has_group(
                groups@,
                k,
            ) by {
                assert(group_of(seen, by_thread, k).len() > 0);
            }
        }
        i = i + 1;
    }
    assert(samples@.take(samples@.len() as int) =~= samples@);
    groups
}

spec fn packed(key: GroupKey) -> u64 {
    (key.0 * 0x1_0000_0000 + key.1) as u64
}

/// All raw samples collected during one scheduling step.
pub struct Quantum {
    samples: Vec<RawSample>,
    timestamp_ns: u64,
    elapsed_ns: u64,
}

/// Model of [`Quantum`].
#[verifier::ext_equal]
pub struct QuantumView {
    /// The samples, in order.
    pub samples: Seq<RawSample>,
    /// The end of the step.
    pub timestamp_ns: u64,
    /// The duration of the step.
    pub elapsed_ns: u64,
}

impl View for Quantum {
    type V = QuantumView;

    closed spec fn view(&self) -> QuantumView {
        QuantumView {
            samples: self.samples@,
            timestamp_ns: self.timestamp_ns,
            elapsed_ns: self.elapsed_ns,
        }
    }
}

impl Quantum {
    /// A quantum of the given samples, ending at `timestamp_ns` after `elapsed_ns`.
    pub fn new(samples: Vec<RawSample>, timestamp_ns: u64, elapsed_ns: u64) -> (r: Self)
        ensures
            r@ == (QuantumView { samples: samples@, timestamp_ns, elapsed_ns }),
    {
        Quantum { samples, timestamp_ns, elapsed_ns }
    }

    /// The individual raw samples collected during this quantum.
    pub fn samples(&self) -> (r: &Vec<RawSample>)
        ensures
            r@ == self@.samples,
    {
        &self.samples
    }

    /// The monotonic timestamp at the end of this quantum, in nanoseconds.
    pub fn timestamp_ns(&self) -> (r: u64)
        ensures
            r == self@.timestamp_ns,
    {
        self.timestamp_ns
    }

    /// The duration of this scheduling step in nanoseconds.
    pub fn elapsed_ns(&self) -> (r: u64)
        ensures
            r == self@.elapsed_ns,
    {
        self.elapsed_ns
    }

    /// Per-event aggregates over all threads. Samples without duration are left out.
    pub fn aggregates(&self) -> (r: Vec<EventAggregate>)
        requires
            totals_fit(self@.samples, false),
        ensures
            is_grouping(over_threads(r@), self@.samples, false),
    {
        let mut groups = group_samples(&self.samples, false);
        let ghost all = groups@;
        let ghost samples = self@.samples;
        let mut r: Vec<EventAggregate> = Vec::new();
        proof {
            assert forall|i: int| 0 <= i < all.len() implies (#[trigger] all[i]).tid == 0 by {
                lemma_group_tid(samples, all[i].key());
            }
        }
        while groups.len() > 0
            invariant
                groups@ == all.take(groups@.len() as int),
                groups@.len() + r@.len() == all.len(),
                forall|i: int|
                    0 <= i < r@.len() ==> (#[trigger] r@[i]) == all[all.len() - 1 - i].aggregate,
            decreases groups@.len(),
        {
            let last = groups.pop();
            if let Some(group) = last {
                r.push(group.aggregate);
            }
            assert(groups@ =~= all.take(groups@.len() as int));
        }
        let ghost out = over_threads(r@);
        proof {
            assert forall|i: int| 0 <= i < out.len() implies #[trigger] out[i] == all[all.len() - 1
                - i] by {
                assert(r@[i] == all[all.len() - 1 - i].aggregate);
                assert(all[all.len() - 1 - i].tid == 0);
            }
            assert forall|key: GroupKey|
                (#[trigger] group_of(samples, false, key)).len() > 0 implies has_group(
                out,
                key,
            ) by {
                let g = choose|g: int| 0 <= g < all.len() && (#[trigger] all[g]).key() == key;
                assert(out[all.len() - 1 - g].key() == key);
            }
        }
        r
    }

    /// The events that have at least one sample in this quantum, each once, in the order in which
    /// they are first seen.
    pub fn observed_events(&self) -> (r: Vec<EventId>)
        ensures
            r@.no_duplicates(),
            forall|e: EventId| #[trigger]
                r@.contains(e) <==> exists|i: int|
                    0 <= i < self@.samples.len() && (#[trigger] self@.samples[i]).event_id == e,
    {
        let ghost samples = self@.samples;
        let mut r: Vec<EventId> = Vec::new();
        let mut seen: HashSet<EventId> = HashSet::new();
        let mut i: usize = 0;
        while i < self.samples.len()
            invariant
                i <= samples.len(),
                samples == self.samples@,
                r@.no_duplicates(),
                forall|e: EventId| #[trigger] r@.contains(e) <==> seen@.contains(e),
                forall|j: int| 0 <= j < i ==> r@.contains((#[trigger] samples[j]).event_id),
                forall|k: int| #![trigger r@[k]]
                    0 <= k < r@.len() ==> exists|j: int|
                        0 <= j < i && (#[trigger] samples[j]).event_id == r@[k],
            decreases samples.len() - i,
        {
            let event_id: EventId = self.samples[i].event_id;
            let ghost before = r@;
            if !seen.contains(&event_id) {
                seen.insert(event_id);
                r.push(event_id);
                assert(!before.contains(event_id));
                assert forall|e: EventId| #[trigger] r@.contains(e) <==> seen@.contains(e) by {
                    if before.contains(e) {
                        let k = choose|k: int| 0 <= k < before.len() && before[k] == e;
                        assert(r@[k] == e);
                    }
                    assert(r@[before.len() as int] == event_id);
                    if r@.contains(e) && e != event_id {
                        let k = choose|k: int| 0 <= k < r@.len() && r@[k] == e;
                        assert(before[k] == e);
                    }
                }
                assert forall|j: int| 0 <= j < i + 1 implies r@.contains(
                    (#[trigger] samples[j]).event_id,
                ) by {
                    if j < i {
                        assert(before.contains(samples[j].event_id));
                    }
                }
            }
            assert(samples[i as int].event_id == event_id);
            assert forall|k: int| #![trigger r@[k]] 0 <= k < r@.len() implies exists|j: int|
                0 <= j < i + 1 && (#[trigger] samples[j]).event_id == r@[k] by {
                if k < before.len() {
                    assert(before[k] == r@[k]);
                    let j = choose|j: int|
                        0 <= j < i && (#[trigger] samples[j]).event_id == before[k];
                    assert(samples[j].event_id == r@[k]);
                }
            }
            i = i + 1;
        }
        r
    }

    /// Per-thread, per-event aggregates. Samples without duration are left out.
    pub fn per_thread_aggregates(&self) -> (r: Vec<ThreadAggregate>)
        requires
            totals_fit(self@.samples, true),
        ensures
            is_grouping(r@, self@.samples, true),
    {
        group_samples(&self.samples, true)
    }
}

proof fn lemma_group_tid(samples: Seq<RawSample>, key: GroupKey)
    ensures
        key.0 != 0 ==> group_of(samples, false, key).len() == 0,
    decreases samples.len(),
{
    if samples.len() > 0 {
        lemma_group_tid(samples.drop_last(), key);
    }
}

/// The counts, durations and numbers of samples of an event on each of some threads, added up.
pub open spec fn sums_over(samples: Seq<RawSample>, event_id: EventId, tids: Seq<u32>) -> (
    nat,
    nat,
    nat,
)
    decreases tids.len(),
{
    if tids.len() == 0 {
        (0, 0, 0)
    } else {
        let rest = sums_over(samples, event_id, tids.drop_last());
        let group = group_of(samples, true, (tids.last(), event_id));
        (rest.0 + count_sum(group), rest.1 + duration_sum(group), rest.2 + group.len())
    }
}

/// One more sample changes the sums by what it counts for, if its thread is among those given.
proof fn lemma_sums_step(samples: Seq<RawSample>, event_id: EventId, tids: Seq<u32>)
    requires
        samples.len() > 0,
        tids.no_duplicates(),
    ensures
        ({
            let last = samples.last();
            let before = sums_over(samples.drop_last(), event_id, tids);
            sums_over(samples, event_id, tids) == if last.duration_ns > 0 && last.event_id
                == event_id && tids.contains(last.tid) {
                (before.0 + last.count as nat, before.1 + last.duration_ns as nat, before.2 + 1)
            } else {
                before
            }
        }),
    decreases tids.len(),
{
    if tids.len() > 0 {
        let last = samples.last();
        let rest = tids.drop_last();
        lemma_sums_step(samples, event_id, rest);
        let key = (tids.last(), event_id);
        let group = group_of(samples, true, key);
        let front = group_of(samples.drop_last(), true, key);
        if last.duration_ns > 0 && group_key(last, true) == key {
            assert(group.drop_last() =~= front);
        }
        if rest.contains(last.tid) {
            let i = choose|i: int| 0 <= i < rest.len() && rest[i] == last.tid;
            assert(tids[i] == last.tid);
        }
        if tids.contains(last.tid) && last.tid != tids.last() {
            let i = choose|i: int| 0 <= i < tids.len() && tids[i] == last.tid;
            assert(rest[i] == last.tid);
        }
    }
}

/// Whether a sample counts for an event: it is of that event and took any time.
pub open spec fn counts_for(s: RawSample, event_id: EventId) -> bool {
    s.duration_ns > 0 && s.event_id == event_id
}

/// What an event adds up to over all threads is the sum of what it adds up to on each of the
/// threads that have samples of it.
pub proof fn threads_add_up(samples: Seq<RawSample>, event_id: EventId, tids: Seq<u32>)
    requires
        tids.no_duplicates(),
        forall|i: int|
            0 <= i < samples.len() && counts_for(#[trigger] samples[i], event_id)
                ==> tids.contains(samples[i].tid),
    ensures
        sums_over(samples, event_id, tids) == (
            count_sum(group_of(samples, false, (0, event_id))),
            duration_sum(group_of(samples, false, (0, event_id))),
            group_of(samples, false, (0, event_id)).len(),
        ),
    decreases samples.len(),
{
    if samples.len() == 0 {
        lemma_no_sums(samples, event_id, tids);
    } else {
        let front = samples.drop_last();
        let last = samples.last();
        assert forall|i: int|
            0 <= i < front.len() && counts_for(
                #[trigger] front[i],
                event_id,
            ) implies tids.contains(front[i].tid) by {
            assert(front[i] == samples[i]);
        }
        threads_add_up(front, event_id, tids);
        lemma_sums_step(samples, event_id, tids);
        if counts_for(last, event_id) {
            assert(counts_for(samples[samples.len() - 1], event_id));
            let group = group_of(samples, false, (0, event_id));
            assert(group.drop_last() =~= group_of(front, false, (0, event_id)));
        }
    }
}

proof fn lemma_no_sums(samples: Seq<RawSample>, event_id: EventId, tids: Seq<u32>)
    requires
        samples.len() == 0,
    ensures
        sums_over(samples, event_id, tids) == (0nat, 0nat, 0nat),
    decreases tids.len(),
{
    if tids.len() > 0 {
        lemma_no_sums(samples, event_id, tids.drop_last());
    }
}

/// The members of a group are the samples with its key that took any time.
proof fn lemma_group_members(samples: Seq<RawSample>, by_thread: bool, key: GroupKey)
    ensures
        forall|s: RawSample| #[trigger]
            group_of(samples, by_thread, key).contains(s) <==> samples.contains(s) && s.duration_ns
                > 0 && group_key(s, by_thread) == key,
    decreases samples.len(),
{
    if samples.len() > 0 {
        let front = samples.drop_last();
        let last = samples.last();
        lemma_group_members(front, by_thread, key);
        let rest = group_of(front, by_thread, key);
        let group = group_of(samples, by_thread, key);
        assert forall|s: RawSample| #[trigger]
            group.contains(s) <==> samples.contains(s) && s.duration_ns > 0 && group_key(
                s,
                by_thread,
            ) == key by {
            if group.contains(s) {
                let i = choose|i: int| 0 <= i < group.len() && group[i] == s;
                if i < rest.len() {
                    assert(rest[i] == s);
                    assert(rest.contains(s));
                    let j = choose|j: int| 0 <= j < front.len() && front[j] == s;
                    assert(samples[j] == s);
                } else {
                    assert(samples[samples.len() - 1] == s);
                }
            }
            if samples.contains(s) && s.duration_ns > 0 && group_key(s, by_thread) == key {
                let j = choose|j: int| 0 <= j < samples.len() && samples[j] == s;
                if j < front.len() {
                    assert(front[j] == s);
                    assert(rest.contains(s));
                    let i = choose|i: int| 0 <= i < rest.len() && rest[i] == s;
                    assert(group[i] == s);
                } else {
                    assert(group[rest.len() as int] == s);
                }
            }
        }
    }
}

/// There is an aggregate for a thread and an event exactly where some sample of that event on that
/// thread took any time.
pub proof fn threads_are_those_measured(
    groups: Seq<ThreadAggregate>,
    samples: Seq<RawSample>,
    tid: u32,
    event_id: EventId,
)
    requires
        is_grouping(groups, samples, true),
    ensures
        has_group(groups, (tid, event_id)) <==> exists|i: int|
            0 <= i < samples.len() && counts_for(#[trigger] samples[i], event_id) && samples[i].tid
                == tid,
{
    let key = (tid, event_id);
    let group = group_of(samples, true, key);
    lemma_group_members(samples, true, key);
    if has_group(groups, key) {
        let g = choose|g: int| 0 <= g < groups.len() && (#[trigger] groups[g]).key() == key;
        assert(groups[g].aggregate.describes(group));
        assert(group.len() > 0);
        assert(group.contains(group[0]));
        let i = choose|i: int| 0 <= i < samples.len() && samples[i] == group[0];
        assert(counts_for(samples[i], event_id) && samples[i].tid == tid);
    }
    if exists|i: int|
        0 <= i < samples.len() && counts_for(#[trigger] samples[i], event_id) && samples[i].tid
            == tid {
        let i = choose|i: int|
            0 <= i < samples.len() && counts_for(#[trigger] samples[i], event_id) && samples[i].tid
                == tid;
        assert(samples.contains(samples[i]));
        assert(group.contains(samples[i]));
        assert(group.len() > 0);
    }
}

/// The totals of an event on each thread, added up: counts, durations and numbers of samples.
pub open spec fn event_totals(groups: Seq<ThreadAggregate>, event_id: EventId) -> (nat, nat, nat)
    decreases groups.len(),
{
    if groups.len() == 0 {
        (0, 0, 0)
    } else {
        let rest = event_totals(groups.drop_last(), event_id);
        let a = groups.last().aggregate;
        if a.event_id == event_id {
            (
                rest.0 + a.total_count as nat,
                rest.1 + a.total_duration_ns as nat,
                rest.2 + a.num_samples as nat,
            )
        } else {
            rest
        }
    }
}

/// The threads that have an aggregate of an event.
spec fn tids_of(groups: Seq<ThreadAggregate>, event_id: EventId) -> Seq<u32>
    decreases groups.len(),
{
    if groups.len() == 0 {
        Seq::empty()
    } else {
        let rest = tids_of(groups.drop_last(), event_id);
        if groups.last().aggregate.event_id == event_id {
            rest.push(groups.last().tid)
        } else {
            rest
        }
    }
}

proof fn lemma_tids_of(groups: Seq<ThreadAggregate>, samples: Seq<RawSample>, event_id: EventId)
    requires
        forall|i: int, j: int|
            0 <= i < j < groups.len() ==> (#[trigger] groups[i]).key() != (
            #[trigger] groups[j]).key(),
        forall|i: int|
            0 <= i < groups.len() ==> (#[trigger] groups[i]).aggregate.describes(
                group_of(samples, true, groups[i].key()),
            ),
    ensures
        tids_of(groups, event_id).no_duplicates(),
        forall|t: u32| #[trigger]
            tids_of(groups, event_id).contains(t) <==> has_group(groups, (t, event_id)),
        event_totals(groups, event_id) == sums_over(samples, event_id, tids_of(groups, event_id)),
    decreases groups.len(),
{
    if groups.len() > 0 {
        let front = groups.drop_last();
        let last = groups.last();
        lemma_tids_of(front, samples, event_id);
        let rest = tids_of(front, event_id);
        let tids = tids_of(groups, event_id);
        assert(groups[groups.len() - 1].aggregate.describes(
            group_of(samples, true, groups[groups.len() - 1].key()),
        ));
        if last.aggregate.event_id == event_id {
            assert(tids.drop_last() =~= rest);
            if rest.contains(last.tid) {
                let i = choose|i: int|
                    0 <= i < front.len() && (#[trigger] front[i]).key() == (last.tid, event_id);
                assert(groups[i].key() == groups[groups.len() - 1].key());
            }
            assert(tids[rest.len() as int] == last.tid);
        }
        assert forall|t: u32| #[trigger]
            tids.contains(t) <==> has_group(groups, (t, event_id)) by {
            if tids.contains(t) {
                let k = choose|k: int| 0 <= k < tids.len() && tids[k] == t;
                if k < rest.len() {
                    assert(rest[k] == t);
                    assert(rest.contains(t));
                    let i = choose|i: int|
                        0 <= i < front.len() && (#[trigger] front[i]).key() == (t, event_id);
                    assert(groups[i].key() == (t, event_id));
                } else {
                    assert(groups[groups.len() - 1].key() == (t, event_id));
                }
            }
            if has_group(groups, (t, event_id)) {
                let i = choose|i: int|
                    0 <= i < groups.len() && (#[trigger] groups[i]).key() == (t, event_id);
                if i < front.len() {
                    assert(front[i].key() == (t, event_id));
                    assert(rest.contains(t));
                    let k = choose|k: int| 0 <= k < rest.len() && rest[k] == t;
                    assert(tids[k] == t);
                }
            }
        }
    }
}

/// The aggregates of an event on each thread make up its aggregate over all threads: counts,
/// durations and numbers of samples add up to it.
pub proof fn thread_totals_make_up_the_event(
    whole: EventAggregate,
    groups: Seq<ThreadAggregate>,
    samples: Seq<RawSample>,
)
    requires
        is_grouping(groups, samples, true),
        whole.describes(group_of(samples, false, (0, whole.event_id))),
    ensures
        event_totals(groups, whole.event_id) == (
            whole.total_count as nat,
            whole.total_duration_ns as nat,
            whole.num_samples as nat,
        ),
{
    let tids = tids_of(groups, whole.event_id);
    lemma_tids_of(groups, samples, whole.event_id);
    assert forall|i: int|
        0 <= i < samples.len() && counts_for(
            #[trigger] samples[i],
            whole.event_id,
        ) implies tids.contains(samples[i].tid) by {
        threads_are_those_measured(groups, samples, samples[i].tid, whole.event_id);
    }
    threads_add_up(samples, whole.event_id, tids);
}

/// Whether two rates are the same.
pub open spec fn rate_eq(a: RateRatio, b: RateRatio) -> bool {
    rate_le(a, b) && rate_le(b, a)
}

/// No thread has a smaller or larger rate of an event than there is over all threads, some thread
/// has the smallest rate, and some thread has the largest.
pub proof fn threads_share_the_extremes(
    whole: EventAggregate,
    groups: Seq<ThreadAggregate>,
    samples: Seq<RawSample>,
)
    requires
        is_grouping(groups, samples, true),
        whole.describes(group_of(samples, false, (0, whole.event_id))),
    ensures
        forall|g: int|
            0 <= g < groups.len() && (#[trigger] groups[g]).aggregate.event_id == whole.event_id
                ==> rate_le(whole.min_rate, groups[g].aggregate.min_rate) && rate_le(
                groups[g].aggregate.max_rate,
                whole.max_rate,
            ),
        exists|g: int|
            0 <= g < groups.len() && (#[trigger] groups[g]).aggregate.event_id == whole.event_id
                && rate_eq(groups[g].aggregate.min_rate, whole.min_rate),
        exists|g: int|
            0 <= g < groups.len() && (#[trigger] groups[g]).aggregate.event_id == whole.event_id
                && rate_eq(groups[g].aggregate.max_rate, whole.max_rate),
{
    let e = whole.event_id;
    let all = group_of(samples, false, (0, e));
    lemma_group_members(samples, false, (0, e));
    assert forall|g: int|
        0 <= g < groups.len() && (#[trigger] groups[g]).aggregate.event_id == e implies rate_le(
        whole.min_rate,
        groups[g].aggregate.min_rate,
    ) && rate_le(groups[g].aggregate.max_rate, whole.max_rate) by {
        let a = groups[g].aggregate;
        let group = group_of(samples, true, groups[g].key());
        lemma_group_members(samples, true, groups[g].key());
        let n = choose|n: int| 0 <= n < a.rates@.len() && a.rates@[n] == a.min_rate;
        let x = choose|x: int| 0 <= x < a.rates@.len() && a.rates@[x] == a.max_rate;
        assert(group.contains(group[n]) && group.contains(group[x]));
        lemma_in_whole(whole, all, group[n]);
        lemma_in_whole(whole, all, group[x]);
    }
    let n = choose|n: int| 0 <= n < whole.rates@.len() && whole.rates@[n] == whole.min_rate;
    let x = choose|x: int| 0 <= x < whole.rates@.len() && whole.rates@[x] == whole.max_rate;
    let gn = lemma_thread_with(groups, samples, e, all[n]);
    let gx = lemma_thread_with(groups, samples, e, all[x]);
    assert(rate_eq(groups[gn].aggregate.min_rate, whole.min_rate));
    assert(rate_eq(groups[gx].aggregate.max_rate, whole.max_rate));
}

proof fn lemma_in_whole(whole: EventAggregate, all: Seq<RawSample>, s: RawSample)
    requires
        whole.describes(all),
        all.contains(s),
    ensures
        rate_le(whole.min_rate, rate_of(s)),
        rate_le(rate_of(s), whole.max_rate),
{
    let i = choose|i: int| 0 <= i < all.len() && all[i] == s;
    assert(whole.rates@[i] == rate_of(s));
}

proof fn lemma_thread_with(
    groups: Seq<ThreadAggregate>,
    samples: Seq<RawSample>,
    e: EventId,
    s: RawSample,
) -> (g: int)
    requires
        is_grouping(groups, samples, true),
        group_of(samples, false, (0, e)).contains(s),
    ensures
        0 <= g < groups.len(),
        groups[g].aggregate.event_id == e,
        rate_le(groups[g].aggregate.min_rate, rate_of(s)),
        rate_le(rate_of(s), groups[g].aggregate.max_rate),
{
    let key = (s.tid, e);
    lemma_group_members(samples, false, (0, e));
    lemma_group_members(samples, true, key);
    let group = group_of(samples, true, key);
    assert(group.contains(s));
    assert(group.len() > 0);
    let g = choose|g: int| 0 <= g < groups.len() && (#[trigger] groups[g]).key() == key;
    lemma_in_whole(groups[g].aggregate, group, s);
    g
}

/// The samples of an event that took any time, on one thread where threads are kept apart.
pub open spec fn samples_of(samples: Seq<RawSample>, by_thread: bool, key: GroupKey) -> Seq<
    RawSample,
> {
    samples.filter(
        |s: RawSample|
            s.duration_ns > 0 && s.event_id == key.1 && (if by_thread {
                s.tid == key.0
            } else {
                key.0 == 0
            }),
    )
}

proof fn lemma_group_is_filtered(samples: Seq<RawSample>, by_thread: bool, key: GroupKey)
    ensures
        group_of(samples, by_thread, key) == samples_of(samples, by_thread, key),
    decreases samples.len(),
{
    reveal(Seq::filter);
    if samples.len() > 0 {
        lemma_group_is_filtered(samples.drop_last(), by_thread, key);
    }
}

proof fn lemma_sums_are_folds(group: Seq<RawSample>)
    ensures
        count_sum(group) == group.fold_left(0int, |n: int, s: RawSample| n + s.count),
        duration_sum(group) == group.fold_left(0int, |n: int, s: RawSample| n + s.duration_ns),
    decreases group.len(),
{
    if group.len() > 0 {
        lemma_sums_are_folds(group.drop_last());
    }
}

/// The statistics of an event, on a thread or over all, are those of all its samples that took any
/// time: their counts and durations added up, their number, their rates in order, and the smallest
/// and the largest of these. Every sample that took time is in the statistics of its event, and no
/// event, on no thread, has two.
pub proof fn aggregates_are_of_all_samples(
    groups: Seq<ThreadAggregate>,
    samples: Seq<RawSample>,
    by_thread: bool,
    g: int,
)
    requires
        is_grouping(groups, samples, by_thread),
        0 <= g < groups.len(),
    ensures
        ({
            let a = groups[g].aggregate;
            let own = samples_of(samples, by_thread, (groups[g].tid, a.event_id));
            &&& own.len() > 0
            &&& a.total_count == own.fold_left(0int, |n: int, s: RawSample| n + s.count)
            &&& a.total_duration_ns == own.fold_left(0int, |n: int, s: RawSample| n + s.duration_ns)
            &&& a.num_samples == own.len()
            &&& a.rates@ == own.map_values(
                |s: RawSample| RateRatio { count: s.count, duration_ns: s.duration_ns },
            )
            &&& forall|k: int|
                0 <= k < own.len() ==> (#[trigger] own[k]).count * a.min_rate.duration_ns
                    >= a.min_rate.count * own[k].duration_ns && own[k].count
                    * a.max_rate.duration_ns <= a.max_rate.count * own[k].duration_ns
            &&& exists|k: int|
                0 <= k < own.len() && (#[trigger] own[k]).count == a.min_rate.count
                    && own[k].duration_ns == a.min_rate.duration_ns
            &&& exists|k: int|
                0 <= k < own.len() && (#[trigger] own[k]).count == a.max_rate.count
                    && own[k].duration_ns == a.max_rate.duration_ns
        }),
        forall|i: int|
            0 <= i < samples.len() && (#[trigger] samples[i]).duration_ns > 0 ==> has_group(
                groups,
                (
                    if by_thread {
                        samples[i].tid
                    } else {
                        0
                    },
                    samples[i].event_id,
                ),
            ),
        forall|h: int|
            0 <= h < groups.len() && h != g ==> (#[trigger] groups[h]).tid != groups[g].tid
                || groups[h].aggregate.event_id != groups[g].aggregate.event_id,
{
    broadcast use vstd::seq_lib::group_filter_ensures;

    let a = groups[g].aggregate;
    let key = groups[g].key();
    let own = samples_of(samples, by_thread, key);
    lemma_group_is_filtered(samples, by_thread, key);
    lemma_sums_are_folds(own);
    assert(a.describes(own));
    assert(a.rates@ =~= own.map_values(
        |s: RawSample| RateRatio { count: s.count, duration_ns: s.duration_ns },
    ));
    let n = choose|n: int| 0 <= n < a.rates@.len() && a.rates@[n] == a.min_rate;
    let x = choose|x: int| 0 <= x < a.rates@.len() && a.rates@[x] == a.max_rate;
    assert(own[n].count == a.min_rate.count && own[n].duration_ns == a.min_rate.duration_ns);
    assert(own[x].count == a.max_rate.count && own[x].duration_ns == a.max_rate.duration_ns);
    assert forall|k: int| 0 <= k < own.len() implies (#[trigger] own[k]).count
        * a.min_rate.duration_ns >= a.min_rate.count * own[k].duration_ns && own[k].count
        * a.max_rate.duration_ns <= a.max_rate.count * own[k].duration_ns by {
        assert(a.rates@[k] == rate_of(own[k]));
        assert(rate_le(a.min_rate, a.rates@[k]) && rate_le(a.rates@[k], a.max_rate));
    }
    assert forall|i: int|
        0 <= i < samples.len() && (#[trigger] samples[i]).duration_ns > 0 implies has_group(
        groups,
        (
            if by_thread {
                samples[i].tid
            } else {
                0
            },
            samples[i].event_id,
        ),
    ) by {
        let k = (
            if by_thread {
                samples[i].tid
            } else {
                0
            },
            samples[i].event_id,
        );
        lemma_group_is_filtered(samples, by_thread, k);
        assert(samples_of(samples, by_thread, k).contains(samples[i]));
    }
    assert forall|h: int| 0 <= h < groups.len() && h != g implies (#[trigger] groups[h]).tid
        != groups[g].tid || groups[h].aggregate.event_id != groups[g].aggregate.event_id by {
        if h < g {
            assert(groups[h].key() != groups[g].key());
        } else {
            assert(groups[g].key() != groups[h].key());
        }
    }
}

} // verus!
