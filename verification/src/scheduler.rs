//! Counter-rotation policies: which events to measure next, and for how long.

use crate::event::EventId;
use crate::order::{self, sort_order, Key};
use vstd::prelude::*;

pub mod distribution;
pub mod dynamic_llm;
pub mod fixed;
pub mod llm_common;
pub mod max_uncertainty;
pub mod random;
pub mod rate_of_change;
pub mod round_robin;
pub mod static_llm;
pub mod test;
pub mod weighted_round_robin_llm;

verus! {

/// Output from a scheduler step: which counters to activate and for how long.
pub struct ScheduleDecision {
    /// Events to activate for the next quantum; no more than there are slots.
    pub active_events: Vec<EventId>,
    /// Duration of the quantum in milliseconds, in place of the profiler's default.
    pub duration: Option<u64>,
}

/// A number that ranks an event: the bit pattern of a double-precision number.
#[derive(Debug, Clone, Copy)]
pub struct EventScore {
    /// The event.
    pub event_id: EventId,
    /// Its score.
    pub score: u64,
}

/// The smaller of two numbers.
pub open spec fn lesser(a: int, b: int) -> int {
    if a <= b {
        a
    } else {
        b
    }
}

/// The first `n` events in ascending stable order of their keys; all of them if there are fewer.
pub open spec fn leading(events: Seq<EventId>, keys: Seq<Key>, n: nat) -> Seq<EventId> {
    order::arranged(events, keys).take(lesser(n as int, events.len() as int))
}

/// Picks the first `n` events in ascending stable order of their keys.
pub(crate) fn pick_leading(events: &Vec<EventId>, keys: &Vec<Key>, n: usize) -> (r: Vec<EventId>)
    requires
        events@.len() == keys@.len(),
    ensures
        r@ == leading(events@, keys@, n as nat),
{
    let order = sort_order(keys);
    let m: usize = if n <= events.len() {
        n
    } else {
        events.len()
    };
    let mut r: Vec<EventId> = Vec::new();
    let mut i: usize = 0;
    while i < m
        invariant
            i <= m <= order@.len(),
            events@.len() == keys@.len(),
            order::is_order(order@, keys@),
            order@ == order::order_of(keys@),
            r@ == order::arranged(events@, keys@).take(i as int),
        decreases m - i,
    {
        r.push(events[order[i]]);
        i = i + 1;
        assert(r@ =~= order::arranged(events@, keys@).take(i as int));
    }
    r
}

/// A number that orders double-precision bit patterns as the IEEE 754 total order does.
pub open spec fn total_order_key(bits: u64) -> u64 {
    if bits >= 0x8000_0000_0000_0000 {
        (u64::MAX - bits) as u64
    } else {
        (bits + 0x8000_0000_0000_0000) as u64
    }
}

/// A number that orders double-precision bit patterns as the IEEE 754 total order does.
pub fn order_key(bits: u64) -> (r: u64)
    ensures
        r == total_order_key(bits),
{
    if bits >= 0x8000_0000_0000_0000 {
        u64::MAX - bits
    } else {
        bits + 0x8000_0000_0000_0000
    }
}

/// Different bit patterns get different keys, and patterns without sign bit keep their order,
/// above all patterns with sign bit, which are reversed.
pub proof fn total_order_law(a: u64, b: u64)
    ensures
        total_order_key(a) == total_order_key(b) <==> a == b,
        a < 0x8000_0000_0000_0000 && b < 0x8000_0000_0000_0000 ==> (a < b <==> total_order_key(a)
            < total_order_key(b)),
        a >= 0x8000_0000_0000_0000 && b >= 0x8000_0000_0000_0000 ==> (a < b <==> total_order_key(a)
            > total_order_key(b)),
        a >= 0x8000_0000_0000_0000 && b < 0x8000_0000_0000_0000 ==> total_order_key(a)
            < total_order_key(b),
{
}

/// What is picked fits the slots, and no event is picked twice.
pub proof fn leading_fits_the_slots(events: Seq<EventId>, keys: Seq<Key>, n: nat)
    requires
        events.len() == keys.len() <= usize::MAX,
    ensures
        leading(events, keys, n).len() == lesser(n as int, events.len() as int),
        events.no_duplicates() ==> leading(events, keys, n).no_duplicates(),
{
    order::order_exists(keys);
    let order = order::order_of(keys);
    let picked = leading(events, keys, n);
    if events.no_duplicates() {
        assert forall|i: int, j: int|
            0 <= i < picked.len() && 0 <= j < picked.len() && i != j implies picked[i]
            != picked[j] by {
            assert(picked[i] == events[order[i] as int]);
            assert(picked[j] == events[order[j] as int]);
            if i < j {
                assert(order::goes_before(
                    keys[order[i] as int],
                    order[i] as int,
                    keys[order[j] as int],
                    order[j] as int,
                ));
            } else {
                assert(order::goes_before(
                    keys[order[j] as int],
                    order[j] as int,
                    keys[order[i] as int],
                    order[i] as int,
                ));
            }
        }
    }
}

/// What is picked leads: every picked event goes before every event left out.
pub proof fn leading_goes_first(
    events: Seq<EventId>,
    keys: Seq<Key>,
    n: nat,
    i: int,
    j: int,
)
    requires
        events.len() == keys.len() <= usize::MAX,
        0 <= i < leading(events, keys, n).len() <= j < events.len(),
    ensures
        ({
            let order = order::order_of(keys);
            leading(events, keys, n)[i] == events[order[i] as int] && order::goes_before(
                keys[order[i] as int],
                order[i] as int,
                keys[order[j] as int],
                order[j] as int,
            )
        }),
{
    order::order_exists(keys);
}

/// The window of `n` entries of a ring that starts at `start` and wraps around.
pub open spec fn ring_window(ring: Seq<EventId>, start: int, n: nat) -> Seq<EventId> {
    Seq::new(n, |i: int| ring[(start + i) % (ring.len() as int)])
}

/// Reads the next `n` entries off a ring, starting at `start`; returns them and where to go on.
pub(crate) fn read_ring(ring: &Vec<EventId>, start: usize, n: usize) -> (r: (Vec<EventId>, usize))
    requires
        start < ring@.len(),
    ensures
        r.0@ == ring_window(ring@, start as int, n as nat),
        r.1 == (start + n) % (ring@.len() as int),
{
    let len = ring.len();
    let mut active: Vec<EventId> = Vec::new();
    let mut at: usize = start;
    let mut i: usize = 0;
    proof {
        vstd::arithmetic::div_mod::lemma_small_mod(start as nat, len as nat);
    }
    while i < n
        invariant
            i <= n,
            len == ring@.len(),
            start < len,
            at < len,
            at == (start + i) % (len as int),
            active@ == ring_window(ring@, start as int, i as nat),
        decreases n - i,
    {
        active.push(ring[at]);
        at = if at + 1 == len {
            0
        } else {
            at + 1
        };
        proof {
            lemma_mod_step(start + i, len as int);
        }
        i = i + 1;
        assert(active@ =~= ring_window(ring@, start as int, i as nat));
    }
    (active, at)
}

proof fn lemma_mod_step(x: int, m: int)
    requires
        m > 0,
        x >= 0,
    ensures
        (x + 1) % m == if x % m + 1 == m {
            0
        } else {
            x % m + 1
        },
{
    vstd::arithmetic::div_mod::lemma_fundamental_div_mod(x, m);
    let q = x / m;
    let r = x % m;
    if r + 1 == m {
        assert(x + 1 == (q + 1) * m) by (nonlinear_arith)
            requires
                x == m * q + r,
                r + 1 == m,
        ;
        vstd::arithmetic::div_mod::lemma_mod_multiples_basic(q + 1, m);
    } else {
        assert(x + 1 == q * m + (r + 1)) by (nonlinear_arith)
            requires
                x == m * q + r,
        ;
        vstd::arithmetic::div_mod::lemma_fundamental_div_mod_converse(x + 1, m, q, r + 1);
    }
}

/// Consecutive windows join: reading `n` entries and going on to read `m` more gives the window
/// of `n + m` entries.
pub proof fn windows_join(ring: Seq<EventId>, start: int, n: nat, m: nat)
    requires
        ring.len() > 0,
        start >= 0,
    ensures
        ring_window(ring, start, n) + ring_window(ring, (start + n) % (ring.len() as int), m)
            == ring_window(ring, start, n + m),
{
    let len = ring.len() as int;
    let joined = ring_window(ring, start, n) + ring_window(ring, (start + n) % len, m);
    let whole = ring_window(ring, start, n + m);
    assert forall|i: int| 0 <= i < whole.len() implies #[trigger] joined[i] == whole[i] by {
        if i >= n {
            let k = i - n;
            vstd::arithmetic::div_mod::lemma_add_mod_noop(start + n, k, len);
            vstd::arithmetic::div_mod::lemma_add_mod_noop((start + n) % len, k, len);
            vstd::arithmetic::div_mod::lemma_mod_twice(start + n, len);
        }
    }
    assert(joined =~= whole);
}

/// A window at least as long as the ring covers all of it.
pub proof fn long_window_covers(ring: Seq<EventId>, start: int, n: nat, k: int)
    requires
        0 <= k < ring.len(),
        0 <= start < ring.len(),
        n >= ring.len(),
    ensures
        ring_window(ring, start, n).contains(ring[k]),
{
    let len = ring.len() as int;
    let i = if k >= start {
        k - start
    } else {
        k - start + len
    };
    assert((start + i) % len == k) by {
        if k >= start {
            vstd::arithmetic::div_mod::lemma_small_mod(k as nat, len as nat);
        } else {
            vstd::arithmetic::div_mod::lemma_mod_add_multiples_vanish(k, len);
            vstd::arithmetic::div_mod::lemma_small_mod(k as nat, len as nat);
        }
    }
    assert(ring_window(ring, start, n)[i] == ring[k]);
}

/// What consecutive windows of `n` entries show, one after the other.
pub open spec fn rotation(ring: Seq<EventId>, start: int, n: nat, steps: nat) -> Seq<EventId>
    decreases steps,
{
    if steps == 0 {
        Seq::empty()
    } else {
        ring_window(ring, start, n) + rotation(
            ring,
            (start + n) % (ring.len() as int),
            n,
            (steps - 1) as nat,
        )
    }
}

proof fn lemma_rotation(ring: Seq<EventId>, start: int, n: nat, steps: nat)
    requires
        ring.len() > 0,
        0 <= start < ring.len(),
    ensures
        rotation(ring, start, n, steps) == ring_window(ring, start, n * steps),
    decreases steps,
{
    if steps == 0 {
        assert(n * 0 == 0);
        assert(ring_window(ring, start, 0) =~= Seq::empty());
    } else {
        let next = (start + n) % (ring.len() as int);
        let rest = (steps - 1) as nat;
        vstd::arithmetic::div_mod::lemma_mod_bound(start + n, ring.len() as int);
        lemma_rotation(ring, next, n, rest);
        windows_join(ring, start, n, n * rest);
        assert(n + n * rest == n * steps) by (nonlinear_arith)
            requires
                steps == rest + 1,
        ;
    }
}

/// Rotating through the windows reaches every event as soon as they are long enough together.
pub proof fn rotation_reaches_every_event(
    ring: Seq<EventId>,
    start: int,
    n: nat,
    steps: nat,
    k: int,
)
    requires
        0 <= k < ring.len(),
        0 <= start < ring.len(),
        n * steps >= ring.len(),
    ensures
        rotation(ring, start, n, steps).contains(ring[k]),
{
    lemma_rotation(ring, start, n, steps);
    long_window_covers(ring, start, n * steps, k);
}

/// What is picked has the smallest keys: the key of a picked event is no greater than that of an
/// event left out, by its first number and, where those are equal, by its second; of two events
/// with equal keys, the earlier one is picked. The picked events stand in that order.
pub proof fn the_smallest_keys_are_picked(
    events: Seq<EventId>,
    keys: Seq<Key>,
    n: nat,
    a: int,
    b: int,
)
    requires
        events.len() == keys.len() <= usize::MAX,
        events.no_duplicates(),
        0 <= a < events.len(),
        0 <= b < events.len(),
        leading(events, keys, n).contains(events[a]),
        leading(events, keys, n).contains(events[b]) ==> leading(events, keys, n).index_of(
            events[a],
        ) < leading(events, keys, n).index_of(events[b]),
    ensures
        keys[a].0 <= keys[b].0,
        keys[a].0 == keys[b].0 ==> keys[a].1 <= keys[b].1,
        keys[a] == keys[b] ==> a < b,
{
    order::order_exists(keys);
    let order = order::order_of(keys);
    let picked = leading(events, keys, n);
    assert(order.contains(a as usize));
    assert(order.contains(b as usize));
    let i = choose|i: int| 0 <= i < order.len() && order[i] == a as usize;
    let j = choose|j: int| 0 <= j < order.len() && order[j] == b as usize;
    leading_fits_the_slots(events, keys, n);
    let p = picked.index_of(events[a]);
    assert(0 <= p < picked.len() && picked[p] == events[a]);
    assert(picked[p] == events[order[p] as int]);
    assert(order[p] as int == a);
    if p != i {
        if p < i {
            assert(order::goes_before(
                keys[order[p] as int],
                order[p] as int,
                keys[order[i] as int],
                order[i] as int,
            ));
        } else {
            assert(order::goes_before(
                keys[order[i] as int],
                order[i] as int,
                keys[order[p] as int],
                order[p] as int,
            ));
        }
    }
    if j < picked.len() {
        assert(picked[j] == events[b]);
        assert(picked.contains(events[b]));
        let q = picked.index_of(events[b]);
        assert(picked[q] == events[b]);
        assert(q == j);
    }
    assert(i < j);
    assert(order::goes_before(
        keys[order[i] as int],
        order[i] as int,
        keys[order[j] as int],
        order[j] as int,
    ));
}

/// As many events are picked as there are slots, or all of them if there are fewer.
pub proof fn slots_are_filled(events: Seq<EventId>, keys: Seq<Key>, n: nat)
    requires
        events.len() == keys.len() <= usize::MAX,
    ensures
        n <= events.len() ==> leading(events, keys, n).len() == n,
        n >= events.len() ==> leading(events, keys, n).len() == events.len(),
{
}

/// Only candidates are picked.
pub proof fn only_candidates_are_picked(events: Seq<EventId>, keys: Seq<Key>, n: nat, i: int)
    requires
        events.len() == keys.len() <= usize::MAX,
        0 <= i < leading(events, keys, n).len(),
    ensures
        events.contains(leading(events, keys, n)[i]),
{
    order::order_exists(keys);
    let p = order::order_of(keys)[i] as int;
    assert(leading(events, keys, n)[i] == events[p]);
}

/// A window shows the entries of the ring one after the other: the first one where it starts, and
/// after each entry its neighbour, after the last entry the first.
pub proof fn windows_follow_the_ring(ring: Seq<EventId>, start: int, n: nat, i: int)
    requires
        0 <= start < ring.len(),
        0 <= i < n,
    ensures
        ring_window(ring, start, n).len() == n,
        start + i < ring.len() ==> ring_window(ring, start, n)[i] == ring[start + i],
        ring.len() <= start + i < 2 * ring.len() ==> ring_window(ring, start, n)[i] == ring[start
            + i - ring.len()],
        i >= ring.len() ==> ring_window(ring, start, n)[i] == ring_window(ring, start, n)[i
            - ring.len()],
{
    let len = ring.len() as int;
    if start + i < len {
        vstd::arithmetic::div_mod::lemma_small_mod((start + i) as nat, len as nat);
    } else {
        vstd::arithmetic::div_mod::lemma_mod_add_multiples_vanish(start + i - len, len);
        if start + i < 2 * len {
            vstd::arithmetic::div_mod::lemma_small_mod((start + i - len) as nat, len as nat);
        }
    }
}

} // verus!
