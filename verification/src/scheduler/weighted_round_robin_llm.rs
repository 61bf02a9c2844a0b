//! Scheduler that rotates through events in proportion to weights given by a language model.

use crate::event::EventId;
use crate::llm::client::{LlmClient, LlmClientView};
use crate::llm::prompt::PromptBuilder;
use crate::order::{self, sort_order, Key};
use crate::scheduler::llm_common::{
    self, contains_event, event_list, system_message, EventInfo,
};
use crate::scheduler::{self, read_ring, ScheduleDecision};
use crate::text::owned;
use vstd::prelude::*;

verus! {

/// How important an event is.
#[derive(Debug, Clone, Copy)]
pub struct EventWeight {
    /// The event.
    pub event_id: EventId,
    /// Its weight.
    pub weight: u32,
}

/// The greatest common divisor.
pub open spec fn gcd(a: nat, b: nat) -> nat
    decreases b,
{
    if b == 0 {
        a
    } else {
        gcd(b, a % b)
    }
}

/// Whether `n` is a multiple of `d`.
pub open spec fn divides(d: nat, n: nat) -> bool {
    exists|k: int| #[trigger] times(d, k) == n
}

/// `d` times `k`.
pub open spec fn times(d: nat, k: int) -> int {
    d * k
}

/// The greatest common divisor divides both numbers, and every number that divides both divides
/// it.
pub proof fn gcd_is_greatest(a: nat, b: nat, d: nat)
    ensures
        divides(gcd(a, b), a),
        divides(gcd(a, b), b),
        divides(d, a) && divides(d, b) ==> divides(d, gcd(a, b)),
    decreases b,
{
    if b == 0 {
        assert(times(a, 1) == a);
        assert(times(a, 0) == 0);
    } else {
        gcd_is_greatest(b, a % b, d);
        let g = gcd(b, a % b);
        let kb = choose|k: int| #[trigger] times(g, k) == b;
        let kr = choose|k: int| #[trigger] times(g, k) == a % b;
        let q = (a / b) as int;
        vstd::arithmetic::div_mod::lemma_fundamental_div_mod(a as int, b as int);
        assert(times(g, kb * q + kr) == a) by (nonlinear_arith)
            requires
                times(g, kb) == b,
                times(g, kr) == a % b,
                a == b * q + a % b,
        ;
        if divides(d, a) && divides(d, b) {
            let ka = choose|k: int| #[trigger] times(d, k) == a;
            let kd = choose|k: int| #[trigger] times(d, k) == b;
            assert(times(d, ka - kd * q) == a % b) by (nonlinear_arith)
                requires
                    times(d, ka) == a,
                    times(d, kd) == b,
                    a == b * q + a % b,
            ;
        }
    }
}

/// Computes the greatest common divisor.
pub fn gcd_u32(a: u32, b: u32) -> (r: u32)
    ensures
        r == gcd(a as nat, b as nat),
    decreases b,
{
    if b == 0 {
        a
    } else {
        gcd_u32(b, a % b)
    }
}

/// The greatest common divisor of all weights.
pub open spec fn weights_gcd(weights: Seq<EventWeight>) -> nat
    decreases weights.len(),
{
    if weights.len() == 0 {
        0
    } else {
        gcd(weights_gcd(weights.drop_last()), weights.last().weight as nat)
    }
}

/// What weights are divided by: their greatest common divisor, or one if that is zero.
pub open spec fn divisor(weights: Seq<EventWeight>) -> nat {
    if weights_gcd(weights) == 0 {
        1
    } else {
        weights_gcd(weights)
    }
}

/// The weights in lowest terms.
pub open spec fn reduced(weights: Seq<EventWeight>) -> Seq<EventWeight> {
    weights.map_values(
        |w: EventWeight|
            EventWeight {
                event_id: w.event_id,
                weight: (w.weight as nat / divisor(weights)) as u32,
            },
    )
}

/// Sort keys that put the heaviest event first.
pub open spec fn weight_keys(weights: Seq<EventWeight>) -> Seq<Key> {
    weights.map_values(|w: EventWeight| ((u64::MAX - w.weight) as u64, 0u64))
}

/// Weights from the heaviest to the lightest; equal weights stay in the order given.
pub open spec fn heaviest_first(weights: Seq<EventWeight>) -> Seq<EventWeight> {
    order::arranged(weights, weight_keys(weights))
}

/// One round: the events whose weight is above `n`, in order.
pub open spec fn round(weights: Seq<EventWeight>, n: nat) -> Seq<EventId>
    decreases weights.len(),
{
    if weights.len() == 0 {
        Seq::empty()
    } else {
        let rest = round(weights.drop_last(), n);
        if weights.last().weight > n {
            rest.push(weights.last().event_id)
        } else {
            rest
        }
    }
}

/// The first `n` rounds, one after the other.
pub open spec fn rounds(weights: Seq<EventWeight>, n: nat) -> Seq<EventId>
    decreases n,
{
    if n == 0 {
        Seq::empty()
    } else {
        rounds(weights, (n - 1) as nat) + round(weights, (n - 1) as nat)
    }
}

/// The largest weight.
pub open spec fn top_weight(weights: Seq<EventWeight>) -> nat
    decreases weights.len(),
{
    if weights.len() == 0 {
        0
    } else {
        let rest = top_weight(weights.drop_last());
        if weights.last().weight > rest {
            weights.last().weight as nat
        } else {
            rest
        }
    }
}

/// The cycle that weights stand for: round after round, each event as often as its weight in
/// lowest terms says, heavy events first within a round.
pub open spec fn cycle_of(weights: Seq<EventWeight>) -> Seq<EventId> {
    let sorted = heaviest_first(reduced(weights));
    rounds(sorted, top_weight(sorted))
}

/// How often `id` occurs in `s`.
pub open spec fn occurrences(s: Seq<EventId>, id: EventId) -> nat
    decreases s.len(),
{
    if s.len() == 0 {
        0
    } else {
        occurrences(s.drop_last(), id) + if s.last() == id {
            1nat
        } else {
            0
        }
    }
}

proof fn lemma_occurrences_concat(a: Seq<EventId>, b: Seq<EventId>, id: EventId)
    ensures
        occurrences(a + b, id) == occurrences(a, id) + occurrences(b, id),
    decreases b.len(),
{
    if b.len() == 0 {
        assert(a + b =~= a);
    } else {
        assert((a + b).drop_last() =~= a + b.drop_last());
        lemma_occurrences_concat(a, b.drop_last(), id);
    }
}

proof fn lemma_round_occurrences(weights: Seq<EventWeight>, n: nat, i: int)
    requires
        0 <= i < weights.len(),
        forall|a: int, b: int|
            0 <= a < b < weights.len() ==> (#[trigger] weights[a]).event_id != (
            #[trigger] weights[b]).event_id,
    ensures
        occurrences(round(weights, n), weights[i].event_id) == if weights[i].weight > n {
            1nat
        } else {
            0
        },
    decreases weights.len(),
{
    let front = weights.drop_last();
    let id = weights[i].event_id;
    let rest = round(front, n);
    let last = weights.last();
    assert(rest.push(last.event_id).drop_last() =~= rest);
    if i < front.len() {
        assert forall|a: int, b: int| 0 <= a < b < front.len() implies (
        #[trigger] front[a]).event_id != (#[trigger] front[b]).event_id by {
            assert(weights[a].event_id != weights[b].event_id);
        }
        lemma_round_occurrences(front, n, i);
        assert(weights[i].event_id != weights[weights.len() - 1].event_id);
    } else {
        assert forall|a: int| 0 <= a < front.len() implies (#[trigger] front[a]).event_id != id by {
            assert(weights[a].event_id != weights[i].event_id);
        }
        lemma_round_absent(front, n, id);
    }
}

proof fn lemma_round_absent(weights: Seq<EventWeight>, n: nat, id: EventId)
    requires
        forall|a: int| 0 <= a < weights.len() ==> (#[trigger] weights[a]).event_id != id,
    ensures
        occurrences(round(weights, n), id) == 0,
    decreases weights.len(),
{
    if weights.len() > 0 {
        let front = weights.drop_last();
        assert forall|a: int| 0 <= a < front.len() implies (#[trigger] front[a]).event_id != id by {
            assert(weights[a].event_id != id);
        }
        lemma_round_absent(front, n, id);
        let rest = round(front, n);
        assert(rest.push(weights.last().event_id).drop_last() =~= rest);
        assert(weights[weights.len() - 1].event_id != id);
    }
}

proof fn lemma_rounds_occurrences(weights: Seq<EventWeight>, n: nat, i: int)
    requires
        0 <= i < weights.len(),
        forall|a: int, b: int|
            0 <= a < b < weights.len() ==> (#[trigger] weights[a]).event_id != (
            #[trigger] weights[b]).event_id,
    ensures
        occurrences(rounds(weights, n), weights[i].event_id) == if weights[i].weight <= n {
            weights[i].weight as nat
        } else {
            n
        },
    decreases n,
{
    if n > 0 {
        lemma_rounds_occurrences(weights, (n - 1) as nat, i);
        lemma_round_occurrences(weights, (n - 1) as nat, i);
        lemma_occurrences_concat(
            rounds(weights, (n - 1) as nat),
            round(weights, (n - 1) as nat),
            weights[i].event_id,
        );
    }
}

proof fn lemma_top_weight(weights: Seq<EventWeight>)
    ensures
        forall|i: int| 0 <= i < weights.len() ==> (#[trigger] weights[i]).weight <= top_weight(
            weights,
        ),
        top_weight(weights) > 0 ==> exists|i: int|
            0 <= i < weights.len() && (#[trigger] weights[i]).weight == top_weight(weights),
    decreases weights.len(),
{
    if weights.len() > 0 {
        let front = weights.drop_last();
        lemma_top_weight(front);
        assert forall|i: int| 0 <= i < weights.len() implies (#[trigger] weights[i]).weight
            <= top_weight(weights) by {
            if i < front.len() {
                assert(weights[i] == front[i]);
            }
        }
        if top_weight(weights) > 0 {
            if weights.last().weight > top_weight(front) {
                assert(weights[weights.len() - 1].weight == top_weight(weights));
            } else {
                let i = choose|i: int|
                    0 <= i < front.len() && (#[trigger] front[i]).weight == top_weight(front);
                assert(weights[i].weight == top_weight(weights));
            }
        }
    }
}

/// Events come up in proportion to their weights: each exactly as often as its weight divided by
/// the greatest common divisor of all weights.
pub proof fn cycle_is_proportional(weights: Seq<EventWeight>, i: int)
    requires
        0 <= i < weights.len() <= usize::MAX,
        forall|a: int, b: int|
            0 <= a < b < weights.len() ==> (#[trigger] weights[a]).event_id != (
            #[trigger] weights[b]).event_id,
    ensures
        occurrences(cycle_of(weights), weights[i].event_id) == weights[i].weight as nat / divisor(
            weights,
        ),
{
    let list = reduced(weights);
    let keys = weight_keys(list);
    let sorted = heaviest_first(list);
    order::order_exists(keys);
    let order = order::order_of(keys);
    assert(order.contains((i as int) as usize));
    let p = choose|p: int| 0 <= p < order.len() && order[p] == i as usize;
    assert(sorted[p] == list[i]);
    assert forall|a: int, b: int| 0 <= a < b < sorted.len() implies (
    #[trigger] sorted[a]).event_id != (#[trigger] sorted[b]).event_id by {
        let x = order[a] as int;
        let y = order[b] as int;
        assert(order::goes_before(keys[order[a] as int], x, keys[order[b] as int], y));
        if x < y {
            assert(weights[x].event_id != weights[y].event_id);
        } else if y < x {
            assert(weights[y].event_id != weights[x].event_id);
        }
    }
    lemma_top_weight(sorted);
    assert(sorted[p].weight <= top_weight(sorted));
    lemma_rounds_occurrences(sorted, top_weight(sorted), p);
    let d = divisor(weights) as int;
    let w = weights[i].weight as int;
    assert(w / d <= w) by (nonlinear_arith)
        requires
            d >= 1,
            w >= 0,
    ;
    assert(0 <= w / d) by (nonlinear_arith)
        requires
            d >= 1,
            w >= 0,
    ;
}

/// All weights added up.
pub open spec fn total_weight(weights: Seq<EventWeight>) -> nat
    decreases weights.len(),
{
    if weights.len() == 0 {
        0
    } else {
        total_weight(weights.drop_last()) + weights.last().weight as nat
    }
}

/// All weights added up, each counting for `n` at most.
spec fn capped_weight(weights: Seq<EventWeight>, n: nat) -> nat
    decreases weights.len(),
{
    if weights.len() == 0 {
        0
    } else {
        capped_weight(weights.drop_last(), n) + if weights.last().weight <= n {
            weights.last().weight as nat
        } else {
            n
        }
    }
}

proof fn lemma_capped_step(weights: Seq<EventWeight>, n: nat)
    ensures
        capped_weight(weights, n + 1) == capped_weight(weights, n) + round(weights, n).len(),
    decreases weights.len(),
{
    if weights.len() > 0 {
        lemma_capped_step(weights.drop_last(), n);
    }
}

proof fn lemma_capped_zero(weights: Seq<EventWeight>)
    ensures
        capped_weight(weights, 0) == 0,
    decreases weights.len(),
{
    if weights.len() > 0 {
        lemma_capped_zero(weights.drop_last());
    }
}

proof fn lemma_rounds_len(weights: Seq<EventWeight>, n: nat)
    ensures
        rounds(weights, n).len() == capped_weight(weights, n),
    decreases n,
{
    if n == 0 {
        lemma_capped_zero(weights);
    } else {
        lemma_rounds_len(weights, (n - 1) as nat);
        lemma_capped_step(weights, (n - 1) as nat);
    }
}

proof fn lemma_uncapped(weights: Seq<EventWeight>, n: nat)
    requires
        forall|i: int| 0 <= i < weights.len() ==> (#[trigger] weights[i]).weight <= n,
    ensures
        capped_weight(weights, n) == total_weight(weights),
    decreases weights.len(),
{
    if weights.len() > 0 {
        assert(weights[weights.len() - 1].weight <= n);
        lemma_uncapped(weights.drop_last(), n);
    }
}

proof fn lemma_total_without(weights: Seq<EventWeight>, p: int)
    requires
        0 <= p < weights.len(),
    ensures
        total_weight(weights) == total_weight(weights.remove(p)) + weights[p].weight as nat,
    decreases weights.len(),
{
    if p == weights.len() - 1 {
        assert(weights.remove(p) =~= weights.drop_last());
    } else {
        lemma_total_without(weights.drop_last(), p);
        assert(weights.remove(p).drop_last() =~= weights.drop_last().remove(p));
    }
}

proof fn lemma_total_permuted(a: Seq<EventWeight>, b: Seq<EventWeight>)
    requires
        a.to_multiset() == b.to_multiset(),
    ensures
        total_weight(a) == total_weight(b),
    decreases a.len(),
{
    broadcast use vstd::seq_lib::group_to_multiset_ensures;

    assert(a.to_multiset().len() == a.len() && b.to_multiset().len() == b.len());
    if a.len() > 0 {
        let last = a.last();
        assert(a[a.len() - 1] == last);
        assert(a.contains(last));
        assert(b.to_multiset().count(last) > 0);
        assert(b.contains(last));
        let p = choose|p: int| 0 <= p < b.len() && b[p] == last;
        assert(a.remove(a.len() - 1) =~= a.drop_last());
        assert(a.drop_last().to_multiset() =~= b.remove(p).to_multiset());
        lemma_total_permuted(a.drop_last(), b.remove(p));
        lemma_total_without(b, p);
    }
}

proof fn lemma_divides_transitive(a: nat, b: nat, c: nat)
    requires
        divides(a, b),
        divides(b, c),
    ensures
        divides(a, c),
{
    let j = choose|k: int| #[trigger] times(a, k) == b;
    let k = choose|k: int| #[trigger] times(b, k) == c;
    assert(times(a, j * k) == c) by (nonlinear_arith)
        requires
            times(a, j) == b,
            times(b, k) == c,
    ;
}

proof fn lemma_gcd_divides(weights: Seq<EventWeight>, i: int)
    requires
        0 <= i < weights.len(),
    ensures
        divides(weights_gcd(weights), weights[i].weight as nat),
    decreases weights.len(),
{
    let front = weights.drop_last();
    gcd_is_greatest(weights_gcd(front), weights.last().weight as nat, 0);
    if i < front.len() {
        lemma_gcd_divides(front, i);
        lemma_divides_transitive(
            weights_gcd(weights),
            weights_gcd(front),
            front[i].weight as nat,
        );
    }
}

proof fn lemma_divisor_divides(weights: Seq<EventWeight>, i: int)
    requires
        0 <= i < weights.len(),
    ensures
        (weights[i].weight as nat / divisor(weights)) * divisor(weights) == weights[i].weight,
{
    lemma_gcd_divides(weights, i);
    let g = weights_gcd(weights);
    let w = weights[i].weight as nat;
    let k = choose|k: int| #[trigger] times(g, k) == w;
    if g > 0 {
        assert(g * k == k * g) by (nonlinear_arith);
        assert(k >= 0) by (nonlinear_arith)
            requires
                g * k >= 0,
                g > 0,
        ;
        vstd::arithmetic::div_mod::lemma_div_by_multiple(k, g as int);
    }
}

proof fn lemma_reduced_total(weights: Seq<EventWeight>, n: int)
    requires
        0 <= n <= weights.len(),
    ensures
        total_weight(reduced(weights).take(n)) * divisor(weights) == total_weight(weights.take(n)),
    decreases n,
{
    let list = reduced(weights);
    let d = divisor(weights);
    if n == 0 {
        assert(0 * d == 0) by (nonlinear_arith);
    } else {
        lemma_reduced_total(weights, n - 1);
        assert(list.take(n).drop_last() =~= list.take(n - 1));
        assert(weights.take(n).drop_last() =~= weights.take(n - 1));
        lemma_divisor_divides(weights, n - 1);
        let w = weights[n - 1].weight as nat;
        assert(w / d <= w) by (nonlinear_arith)
            requires
                d >= 1,
        ;
        let t = total_weight(list.take(n - 1));
        assert((t + w / d) * d == t * d + (w / d) * d) by (nonlinear_arith);
    }
}

/// The cycle is as long as the weights add up to, divided by their greatest common divisor.
pub proof fn cycle_length(weights: Seq<EventWeight>)
    requires
        weights.len() <= usize::MAX,
    ensures
        cycle_of(weights).len() * divisor(weights) == total_weight(weights),
        cycle_of(weights).len() == total_weight(weights) / divisor(weights),
{
    let list = reduced(weights);
    let sorted = heaviest_first(list);
    let top = top_weight(sorted);
    lemma_top_weight(sorted);
    lemma_rounds_len(sorted, top);
    lemma_uncapped(sorted, top);
    order::arranging_keeps_items(list, weight_keys(list));
    lemma_total_permuted(sorted, list);
    lemma_reduced_total(weights, weights.len() as int);
    assert(list.take(weights.len() as int) =~= list);
    assert(weights.take(weights.len() as int) =~= weights);
    vstd::arithmetic::div_mod::lemma_div_by_multiple(
        cycle_of(weights).len() as int,
        divisor(weights) as int,
    );
}

proof fn lemma_gcd_scaled(a: nat, b: nat, c: nat)
    requires
        c >= 1,
    ensures
        gcd(c * a, c * b) == c * gcd(a, b),
    decreases b,
{
    if b == 0 {
        assert(c * b == 0) by (nonlinear_arith)
            requires
                b == 0,
        ;
    } else {
        vstd::arithmetic::div_mod::lemma_truncate_middle(a as int, c as int, b as int);
        lemma_gcd_scaled(b, a % b, c);
    }
}

/// All weights multiplied by `c`.
pub open spec fn scaled(weights: Seq<EventWeight>, c: nat) -> Seq<EventWeight> {
    weights.map_values(
        |w: EventWeight| EventWeight { event_id: w.event_id, weight: (w.weight * c) as u32 },
    )
}

proof fn lemma_weights_gcd_scaled(weights: Seq<EventWeight>, c: nat)
    requires
        c >= 1,
        forall|i: int| 0 <= i < weights.len() ==> (#[trigger] weights[i]).weight * c <= u32::MAX,
    ensures
        weights_gcd(scaled(weights, c)) == c * weights_gcd(weights),
    decreases weights.len(),
{
    if weights.len() == 0 {
        assert(c * 0 == 0) by (nonlinear_arith);
    } else {
        let front = weights.drop_last();
        assert forall|i: int| 0 <= i < front.len() implies (#[trigger] front[i]).weight * c
            <= u32::MAX by {
            assert(weights[i].weight * c <= u32::MAX);
        }
        lemma_weights_gcd_scaled(front, c);
        assert(scaled(weights, c).drop_last() =~= scaled(front, c));
        let w = weights.last().weight as nat;
        assert(weights[weights.len() - 1].weight * c <= u32::MAX);
        assert(0 <= w * c && w * c == c * w) by (nonlinear_arith);
        lemma_gcd_scaled(weights_gcd(front), w, c);
    }
}

/// Only the proportions of the weights count: all of them multiplied by the same number give the
/// same cycle.
pub proof fn cycle_ignores_scale(weights: Seq<EventWeight>, c: nat)
    requires
        c >= 1,
        forall|i: int| 0 <= i < weights.len() ==> (#[trigger] weights[i]).weight * c <= u32::MAX,
    ensures
        cycle_of(scaled(weights, c)) == cycle_of(weights),
{
    let other = scaled(weights, c);
    let d = divisor(weights);
    lemma_weights_gcd_scaled(weights, c);
    let g = weights_gcd(weights);
    assert(g > 0 ==> c * g > 0) by (nonlinear_arith)
        requires
            c >= 1,
    ;
    assert(g == 0 ==> c * g == 0) by (nonlinear_arith);
    assert forall|i: int| 0 <= i < weights.len() implies reduced(other)[i] == reduced(weights)[i] by {
        let w = weights[i].weight as nat;
        assert(weights[i].weight * c <= u32::MAX);
        assert(0 <= w * c && w * c == c * w) by (nonlinear_arith);
        if g > 0 {
            vstd::arithmetic::div_mod::lemma_div_multiples_vanish_quotient(
                c as int,
                w as int,
                g as int,
            );
        } else {
            lemma_divisor_divides(weights, i);
            lemma_gcd_divides(weights, i);
            let k = choose|k: int| #[trigger] times(g, k) == w;
            assert(w == 0) by (nonlinear_arith)
                requires
                    times(g, k) == w,
                    g == 0,
            ;
            assert(w * c == 0) by (nonlinear_arith)
                requires
                    w == 0,
            ;
        }
    }
    assert(reduced(other) =~= reduced(weights));
}

/// Rotates through a cycle in which each event occurs in proportion to its weight.
pub struct WeightedRoundRobinLlmScheduler {
    client: LlmClient,
    event_info: Vec<EventInfo>,
    cycle: Vec<EventId>,
    step_idx: usize,
    num_slots: usize,
    guidance: Option<String>,
}

/// Model of [`WeightedRoundRobinLlmScheduler`].
#[verifier::ext_equal]
pub struct WeightedView {
    /// The client that asks the model.
    pub client: LlmClientView,
    /// What the model is told of the events.
    pub event_info: Seq<EventInfo>,
    /// The cycle to rotate through.
    pub cycle: Seq<EventId>,
    /// Where the next window starts.
    pub step_idx: nat,
    /// Events per step.
    pub num_slots: nat,
    /// Guidance for the model.
    pub guidance: Option<Seq<char>>,
}

impl View for WeightedRoundRobinLlmScheduler {
    type V = WeightedView;

    closed spec fn view(&self) -> WeightedView {
        WeightedView {
            client: self.client@,
            event_info: self.event_info@,
            cycle: self.cycle@,
            step_idx: self.step_idx as nat,
            num_slots: self.num_slots as nat,
            guidance: llm_common::owned_text_view(self.guidance),
        }
    }
}

impl WeightedRoundRobinLlmScheduler {
    /// Validity: the next window starts inside the cycle, if there is any event.
    pub open spec fn wf(&self) -> bool {
        self@.cycle.len() > 0 ==> self@.step_idx < self@.cycle.len()
    }

    /// A scheduler without cycle and slots.
    pub fn new(event_info: Vec<EventInfo>, client: LlmClient, guidance: Option<String>) -> (r: Self)
        ensures
            r.wf(),
            r@ == (WeightedView {
                client: client@,
                event_info: event_info@,
                cycle: Seq::empty(),
                step_idx: 0,
                num_slots: 0,
                guidance: llm_common::owned_text_view(guidance),
            }),
    {
        WeightedRoundRobinLlmScheduler {
            client,
            event_info,
            cycle: Vec::new(),
            step_idx: 0,
            num_slots: 0,
            guidance,
        }
    }

    /// The client that asks the model.
    pub fn client(&self) -> (r: &LlmClient)
        ensures
            r@ == self@.client,
    {
        &self.client
    }

    /// What the model is told of the events.
    pub fn event_info(&self) -> (r: &Vec<EventInfo>)
        ensures
            r@ == self@.event_info,
    {
        &self.event_info
    }

    /// The prompt that asks for the weights.
    pub fn weights_prompt(&self, num_slots: usize) -> (r: PromptBuilder)
        ensures
            r@ == seq![
                ("system"@, llm_common::system_text(num_slots as nat, self@.guidance)),
                ("user"@, weights_request(self@.event_info)),
            ],
    {
        let guidance: Option<&str> = match &self.guidance {
            Some(g) => Some(g.as_str()),
            None => None,
        };
        build_weights_prompt(&self.event_info, num_slots, guidance)
    }

    /// The cycle that weights stand for.
    pub fn build_cycle(weights: &Vec<EventWeight>) -> (r: Vec<EventId>)
        ensures
            r@ == cycle_of(weights@),
    {
        let mut g: u32 = 0;
        let mut i: usize = 0;
        assert(weights@.take(0) =~= Seq::empty());
        while i < weights.len()
            invariant
                i <= weights@.len(),
                g == weights_gcd(weights@.take(i as int)),
            decreases weights@.len() - i,
        {
            assert(weights@.take(i as int + 1).drop_last() =~= weights@.take(i as int));
            g = gcd_u32(g, weights[i].weight);
            i = i + 1;
        }
        assert(weights@.take(weights@.len() as int) =~= weights@);
        let d: u32 = if g == 0 {
            1
        } else {
            g
        };
        let mut list: Vec<EventWeight> = Vec::new();
        let mut keys: Vec<Key> = Vec::new();
        i = 0;
        while i < weights.len()
            invariant
                i <= weights@.len(),
                d == divisor(weights@),
                d >= 1,
                list@ == reduced(weights@).take(i as int),
                keys@ == weight_keys(reduced(weights@)).take(i as int),
            decreases weights@.len() - i,
        {
            let w = EventWeight { event_id: weights[i].event_id, weight: weights[i].weight / d };
            assert(w == reduced(weights@)[i as int]);
            list.push(w);
            keys.push((u64::MAX - w.weight as u64, 0));
            i = i + 1;
            assert(list@ =~= reduced(weights@).take(i as int));
            assert(keys@ =~= weight_keys(reduced(weights@)).take(i as int));
        }
        assert(list@ =~= reduced(weights@));
        assert(keys@ =~= weight_keys(reduced(weights@)));
        let order = sort_order(&keys);
        let mut sorted: Vec<EventWeight> = Vec::new();
        i = 0;
        while i < order.len()
            invariant
                i <= order@.len(),
                list@ == reduced(weights@),
                keys@ == weight_keys(list@),
                order::is_order(order@, keys@),
                order@ == order::order_of(keys@),
                sorted@ == heaviest_first(list@).take(i as int),
            decreases order@.len() - i,
        {
            sorted.push(list[order[i]]);
            i = i + 1;
            assert(sorted@ =~= heaviest_first(list@).take(i as int));
        }
        assert(sorted@ =~= heaviest_first(list@));
        deal_rounds(&sorted)
    }

    /// Takes the weights that the model gave, and the number of slots. The rotation goes on where
    /// it stands, which has to be inside the new cycle.
    pub fn init(&mut self, weights: &Vec<EventWeight>, num_slots: usize)
        requires
            cycle_of(weights@).len() > 0 ==> old(self)@.step_idx < cycle_of(weights@).len(),
        ensures
            final(self).wf(),
            final(self)@ == (WeightedView {
                cycle: cycle_of(weights@),
                num_slots: num_slots as nat,
                ..old(self)@
            }),
    {
        self.num_slots = num_slots;
        self.cycle = Self::build_cycle(weights);
    }

    /// The next window of the cycle.
    pub fn next_step(&mut self) -> (r: ScheduleDecision)
        requires
            old(self).wf(),
        ensures
            final(self).wf(),
            r.active_events@.len() <= old(self)@.num_slots,
            r.duration is None,
            old(self)@.cycle.len() == 0 ==> r.active_events@ == Seq::<EventId>::empty()
                && final(self)@ == old(self)@,
            old(self)@.cycle.len() > 0 ==> r.active_events@ == scheduler::ring_window(
                old(self)@.cycle,
                old(self)@.step_idx as int,
                old(self)@.num_slots,
            ) && final(self)@ == (WeightedView {
                step_idx: (old(self)@.step_idx + old(self)@.num_slots) % old(self)@.cycle.len(),
                ..old(self)@
            }),
    {
        if self.cycle.len() == 0 {
            return ScheduleDecision { active_events: Vec::new(), duration: None };
        }
        let (active_events, next) = read_ring(&self.cycle, self.step_idx, self.num_slots);
        self.step_idx = next;
        ScheduleDecision { active_events, duration: None }
    }
}

/// Deals rounds until one is empty.
fn deal_rounds(weights: &Vec<EventWeight>) -> (r: Vec<EventId>)
    ensures
        r@ == rounds(weights@, top_weight(weights@)),
{
    let mut cycle: Vec<EventId> = Vec::new();
    let mut n: u32 = 0;
    let mut added: bool = true;
    proof {
        lemma_top_weight(weights@);
    }
    while added
        invariant
            n <= top_weight(weights@) + (if added {
                0int
            } else {
                1
            }),
            added ==> cycle@ == rounds(weights@, n as nat),
            !added ==> cycle@ == rounds(weights@, top_weight(weights@)),
            top_weight(weights@) <= u32::MAX,
            forall|i: int|
                0 <= i < weights@.len() ==> (#[trigger] weights@[i]).weight <= top_weight(weights@),
            top_weight(weights@) > 0 ==> exists|i: int|
                0 <= i < weights@.len() && (#[trigger] weights@[i]).weight == top_weight(weights@),
        decreases top_weight(weights@) + 1 - n + (if added {
            1int
        } else {
            0
        }),
    {
        added = false;
        let ghost before = cycle@;
        let mut i: usize = 0;
        while i < weights.len()
            invariant
                i <= weights@.len(),
                cycle@ == before + round(weights@.take(i as int), n as nat),
                added <==> exists|k: int| 0 <= k < i && (#[trigger] weights@[k]).weight > n,
            decreases weights@.len() - i,
        {
            assert(weights@.take(i as int + 1).drop_last() =~= weights@.take(i as int));
            if weights[i].weight > n {
                cycle.push(weights[i].event_id);
                added = true;
                assert(weights@[i as int].weight > n);
            }
            i = i + 1;
            assert(cycle@ =~= before + round(weights@.take(i as int), n as nat));
        }
        assert(weights@.take(weights@.len() as int) =~= weights@);
        if added {
            n = n + 1;
        } else {
            proof {
                assert(n >= top_weight(weights@)) by {
                    if n < top_weight(weights@) {
                        let k = choose|k: int|
                            0 <= k < weights@.len() && (#[trigger] weights@[k]).weight
                                == top_weight(weights@);
                        assert(weights@[k].weight > n);
                    }
                }
                lemma_empty_round(weights@, n as nat);
                assert(cycle@ =~= before);
            }
        }
    }
    cycle
}

proof fn lemma_empty_round(weights: Seq<EventWeight>, n: nat)
    requires
        forall|i: int| 0 <= i < weights.len() ==> (#[trigger] weights[i]).weight <= n,
    ensures
        round(weights, n) == Seq::<EventId>::empty(),
    decreases weights.len(),
{
    if weights.len() > 0 {
        assert(weights[weights.len() - 1].weight <= n);
        lemma_empty_round(weights.drop_last(), n);
    }
}

/// The weights that can be used: those above zero of events that exist.
pub open spec fn usable_weights(weights: Seq<EventWeight>, valid: Seq<EventId>) -> Seq<EventWeight>
    decreases weights.len(),
{
    if weights.len() == 0 {
        Seq::empty()
    } else {
        let rest = usable_weights(weights.drop_last(), valid);
        let last = weights.last();
        if last.weight > 0 && valid.contains(last.event_id) {
            rest.push(last)
        } else {
            rest
        }
    }
}

/// Keeps the weights that can be used; it is an error if there is none.
pub fn check_weights(weights: &Vec<EventWeight>, all_events: &Vec<EventId>) -> (r: Result<
    Vec<EventWeight>,
    String,
>)
    ensures
        match r {
            Ok(kept) => kept@ == usable_weights(weights@, all_events@) && kept@.len() > 0,
            Err(message) => usable_weights(weights@, all_events@).len() == 0 && message@
                == "no weight of a known event in LLM response"@,
        },
{
    let mut kept: Vec<EventWeight> = Vec::new();
    let mut i: usize = 0;
    assert(weights@.take(0) =~= Seq::empty());
    while i < weights.len()
        invariant
            i <= weights@.len(),
            kept@ == usable_weights(weights@.take(i as int), all_events@),
        decreases weights@.len() - i,
    {
        assert(weights@.take(i as int + 1).drop_last() =~= weights@.take(i as int));
        let w = weights[i];
        if w.weight > 0 && contains_event(all_events, w.event_id) {
            kept.push(w);
        }
        i = i + 1;
    }
    assert(weights@.take(weights@.len() as int) =~= weights@);
    if kept.len() == 0 {
        return Err(owned("no weight of a known event in LLM response"));
    }
    Ok(kept)
}

/// Usable weights are above zero, and their events exist.
pub proof fn usable_weights_are_of_known_events(
    weights: Seq<EventWeight>,
    valid: Seq<EventId>,
    i: int,
)
    requires
        0 <= i < usable_weights(weights, valid).len(),
    ensures
        usable_weights(weights, valid)[i].weight > 0,
        valid.contains(usable_weights(weights, valid)[i].event_id),
    decreases weights.len(),
{
    let rest = usable_weights(weights.drop_last(), valid);
    if i < rest.len() {
        usable_weights_are_of_known_events(weights.drop_last(), valid, i);
    }
}

/// What the model is asked for.
pub open spec fn weights_request(info: Seq<EventInfo>) -> Seq<char> {
    "Available performance counters (format — ID: name: description):\n"@ + llm_common::event_lines(
        info,
    )
        + "\nAssign every counter above an integer weight of at least 1: how often it is to be measured relative to the others.\n\nYour entire response must be a single JSON array of objects with the fields event_id and weight. No explanation, no prose, no markdown fences."@
}

/// Builds the prompt that asks for the weights.
pub fn build_weights_prompt(
    event_info: &Vec<EventInfo>,
    num_slots: usize,
    guidance: Option<&str>,
) -> (r: PromptBuilder)
    ensures
        r@ == seq![
            ("system"@, llm_common::system_text(num_slots as nat, llm_common::text_view(guidance))),
            ("user"@, weights_request(event_info@)),
        ],
{
    let mut user = owned("Available performance counters (format — ID: name: description):\n");
    user.append(event_list(event_info).as_str());
    user.append(
        "\nAssign every counter above an integer weight of at least 1: how often it is to be measured relative to the others.\n\nYour entire response must be a single JSON array of objects with the fields event_id and weight. No explanation, no prose, no markdown fences.",
    );
    let r = PromptBuilder::new().system(system_message(num_slots, guidance)).user(user);
    assert(r@ =~= seq![
        ("system"@, llm_common::system_text(num_slots as nat, llm_common::text_view(guidance))),
        ("user"@, weights_request(event_info@)),
    ]);
    r
}

/// What weights are divided by divides each of them, and so does no larger number.
pub proof fn weights_are_divided_by_their_greatest_divisor(weights: Seq<EventWeight>, d: nat)
    ensures
        forall|i: int|
            0 <= i < weights.len() ==> divides(
                weights_gcd(weights),
                (#[trigger] weights[i]).weight as nat,
            ),
        (forall|i: int|
            0 <= i < weights.len() ==> divides(d, (#[trigger] weights[i]).weight as nat))
            ==> divides(d, weights_gcd(weights)),
    decreases weights.len(),
{
    if weights.len() == 0 {
        assert(times(d, 0) == 0);
    } else {
        let front = weights.drop_last();
        let n = weights.len() - 1;
        let g = weights_gcd(front);
        let w = weights[n].weight as nat;
        weights_are_divided_by_their_greatest_divisor(front, d);
        gcd_is_greatest(g, w, d);
        assert(forall|i: int| 0 <= i < front.len() ==> #[trigger] front[i] == weights[i]);
        assert forall|i: int| 0 <= i < weights.len() implies divides(
            weights_gcd(weights),
            (#[trigger] weights[i]).weight as nat,
        ) by {
            if i < n {
                assert(divides(g, front[i].weight as nat));
                lemma_divides_chain(weights_gcd(weights), g, weights[i].weight as nat);
            }
        }
        if forall|i: int|
            0 <= i < weights.len() ==> divides(d, (#[trigger] weights[i]).weight as nat) {
            assert forall|i: int| 0 <= i < front.len() implies divides(
                d,
                (#[trigger] front[i]).weight as nat,
            ) by {
                assert(divides(d, weights[i].weight as nat));
            }
            assert(divides(d, weights[n].weight as nat));
        }
    }
}

proof fn lemma_divides_chain(a: nat, b: nat, c: nat)
    requires
        divides(a, b),
        divides(b, c),
    ensures
        divides(a, c),
{
    let j = choose|k: int| #[trigger] times(a, k) == b;
    let k = choose|k: int| #[trigger] times(b, k) == c;
    assert(times(a, j * k) == c) by (nonlinear_arith)
        requires
            times(a, j) == b,
            times(b, k) == c,
    ;
}

/// An event occurs in the cycle as often as entries of the cycle are it.
pub proof fn occurrences_count_entries(s: Seq<EventId>, id: EventId)
    ensures
        occurrences(s, id) == s.filter(|e: EventId| e == id).len(),
    decreases s.len(),
{
    reveal(Seq::filter);
    if s.len() > 0 {
        occurrences_count_entries(s.drop_last(), id);
    }
}

proof fn lemma_round_is_filtered(weights: Seq<EventWeight>, n: nat)
    ensures
        round(weights, n) == weights.filter(|w: EventWeight| w.weight > n).map_values(
            |w: EventWeight| w.event_id,
        ),
    decreases weights.len(),
{
    reveal(Seq::filter);
    let kept = weights.filter(|w: EventWeight| w.weight > n);
    if weights.len() > 0 {
        lemma_round_is_filtered(weights.drop_last(), n);
    }
    assert(round(weights, n) =~= kept.map_values(|w: EventWeight| w.event_id));
}

/// Rounds follow one another; in each, the events whose weight is not used up yet come once, in
/// the order of the weights.
pub proof fn rounds_take_each_event_until_used_up(weights: Seq<EventWeight>, n: nat)
    ensures
        rounds(weights, n) == Seq::new(
            n,
            |k: int|
                weights.filter(|w: EventWeight| w.weight > k).map_values(
                    |w: EventWeight| w.event_id,
                ),
        ).flatten_alt(),
    decreases n,
{
    let parts = Seq::new(
        n,
        |k: int|
            weights.filter(|w: EventWeight| w.weight > k).map_values(
                |w: EventWeight| w.event_id,
            ),
    );
    if n > 0 {
        let m = (n - 1) as nat;
        rounds_take_each_event_until_used_up(weights, m);
        lemma_round_is_filtered(weights, m);
        assert(parts.drop_last() =~= Seq::new(
            m,
            |k: int|
                weights.filter(|w: EventWeight| w.weight > k).map_values(
                    |w: EventWeight| w.event_id,
                ),
        ));
        assert(weights.filter(|w: EventWeight| w.weight > m) == weights.filter(
            |w: EventWeight| w.weight > m as int,
        )) by {
            lemma_same_filter(weights, m);
        }
        assert(parts.last() == round(weights, m));
    }
}

proof fn lemma_same_filter(weights: Seq<EventWeight>, m: nat)
    ensures
        weights.filter(|w: EventWeight| w.weight > m) == weights.filter(
            |w: EventWeight| w.weight > m as int,
        ),
    decreases weights.len(),
{
    reveal(Seq::filter);
    if weights.len() > 0 {
        lemma_same_filter(weights.drop_last(), m);
    }
}

/// The largest weight is that of some event, and no event has a larger one.
pub proof fn no_weight_is_above_the_largest(weights: Seq<EventWeight>)
    ensures
        forall|i: int|
            0 <= i < weights.len() ==> (#[trigger] weights[i]).weight <= top_weight(weights),
        weights.len() > 0 ==> exists|i: int|
            0 <= i < weights.len() && (#[trigger] weights[i]).weight == top_weight(weights),
    decreases weights.len(),
{
    if weights.len() > 0 {
        let front = weights.drop_last();
        no_weight_is_above_the_largest(front);
        let n = weights.len() - 1;
        assert forall|i: int| 0 <= i < weights.len() implies (#[trigger] weights[i]).weight
            <= top_weight(weights) by {
            if i < n {
                assert(front[i] == weights[i]);
            }
        }
        if weights[n].weight != top_weight(weights) {
            let i = choose|i: int|
                0 <= i < front.len() && (#[trigger] front[i]).weight == top_weight(front);
            assert(weights[i] == front[i]);
        }
    }
}

/// Heavier events come before lighter ones, and equally heavy ones in the order given; no weight is
/// lost or made up. Returns where two of them stood.
pub proof fn heavier_events_come_first(weights: Seq<EventWeight>, i: int, j: int) -> (at: (
    int,
    int,
))
    requires
        weights.len() <= usize::MAX,
        0 <= i < j < weights.len(),
    ensures
        heaviest_first(weights).len() == weights.len(),
        heaviest_first(weights).to_multiset() == weights.to_multiset(),
        0 <= at.0 < weights.len(),
        0 <= at.1 < weights.len(),
        heaviest_first(weights)[i] == weights[at.0],
        heaviest_first(weights)[j] == weights[at.1],
        weights[at.0].weight >= weights[at.1].weight,
        weights[at.0].weight == weights[at.1].weight ==> at.0 < at.1,
{
    let keys = weight_keys(weights);
    order::arranging_keeps_items(weights, keys);
    order::arranging_sorts_by_key(weights, keys, i, j);
    (order::order_of(keys)[i] as int, order::order_of(keys)[j] as int)
}

/// The cycle is made of as many rounds as the largest weight in lowest terms says, over the weights
/// in lowest terms, the heaviest first.
pub proof fn cycles_go_round_by_round(weights: Seq<EventWeight>)
    ensures
        cycle_of(weights) == rounds(
            heaviest_first(reduced(weights)),
            top_weight(heaviest_first(reduced(weights))),
        ),
        reduced(weights).len() == weights.len(),
        forall|i: int|
            0 <= i < weights.len() ==> (#[trigger] reduced(weights)[i]).event_id
                == weights[i].event_id && reduced(weights)[i].weight * divisor(weights)
                == weights[i].weight,
{
    assert forall|i: int| 0 <= i < weights.len() implies (#[trigger] reduced(weights)[i]).event_id
        == weights[i].event_id && reduced(weights)[i].weight * divisor(weights)
        == weights[i].weight by {
        weights_are_divided_by_their_greatest_divisor(weights, 1);
        let g = weights_gcd(weights);
        let w = weights[i].weight as nat;
        assert(divides(g, w));
        let k = choose|k: int| #[trigger] times(g, k) == w;
        let d = divisor(weights) as int;
        if g > 0 {
            assert(w / g == k && k <= w) by (nonlinear_arith)
                requires
                    g * k == w,
                    g > 0,
                    w >= 0,
            ;
            assert(k * d == w) by (nonlinear_arith)
                requires
                    g * k == w,
                    d == g,
            ;
        } else {
            assert(times(0, k) == 0) by (nonlinear_arith);
        }
    }
}

/// The weights of a reply that are used are those above zero of known events, in order.
pub proof fn usable_weights_are_kept(weights: Seq<EventWeight>, valid: Seq<EventId>)
    ensures
        usable_weights(weights, valid) == weights.filter(
            |w: EventWeight| w.weight > 0 && valid.contains(w.event_id),
        ),
    decreases weights.len(),
{
    reveal(Seq::filter);
    if weights.len() > 0 {
        usable_weights_are_kept(weights.drop_last(), valid);
    }
}

/// All weights are added up.
pub proof fn weights_add_up(weights: Seq<EventWeight>)
    ensures
        total_weight(weights) == weights.fold_left(0int, |n: int, w: EventWeight| n + w.weight),
    decreases weights.len(),
{
    if weights.len() > 0 {
        weights_add_up(weights.drop_last());
    }
}

} // verus!
