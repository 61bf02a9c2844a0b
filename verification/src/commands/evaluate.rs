//! Comparing an estimated trace with a ground-truth trace, bin by bin.

use crate::bins::{self, bin_times, TimeBin};
use crate::order::{self, sort_order, Key};
use crate::perfetto::packet::PacketView;
use crate::perfetto::reader::{
    self, extract_rate_series, extract_uncertainty_series, read_rate_timeseries, RateSeries,
    RateTimeSeries, SeriesKey,
};
use crate::perfetto::trace::{self, read_trace_packets, TraceError, TraceFault};
use crate::text::{self, chars_less, chars_of, same_text};
use std::collections::HashMap;
use vstd::prelude::*;

verus! {

broadcast use vstd::std_specs::hash::group_hash_axioms;

/// The earliest first timestamp of the series up to `n`; absent if all are empty.
pub open spec fn earliest(series: Seq<RateSeries>) -> Option<u64>
    decreases series.len(),
{
    if series.len() == 0 {
        None
    } else {
        let rest = earliest(series.drop_last());
        let points = series.last().points@;
        if points.len() == 0 {
            rest
        } else {
            match rest {
                None => Some(points[0].0),
                Some(ts) => if points[0].0 < ts {
                    Some(points[0].0)
                } else {
                    Some(ts)
                },
            }
        }
    }
}

/// How far timestamps are shifted: to the earliest one; not at all if there is none.
pub open spec fn origin(series: Seq<RateSeries>) -> u64 {
    match earliest(series) {
        Some(ts) => ts,
        None => 0,
    }
}

/// Points shifted back in time.
pub open spec fn shifted(points: Seq<(u64, u64)>, by: u64) -> Seq<(u64, u64)> {
    points.map_values(|p: (u64, u64)| ((p.0 - by) as u64, p.1))
}

/// Whether `new` is `series` shifted so that its earliest point is at zero.
pub open spec fn is_normalized(new: Seq<RateSeries>, series: Seq<RateSeries>) -> bool {
    &&& new.len() == series.len()
    &&& forall|i: int|
        0 <= i < new.len() ==> (#[trigger] new[i]).key() == series[i].key() && new[i].points@
            == shifted(series[i].points@, origin(series))
}

/// Whether every series begins with its earliest point.
pub open spec fn starts_earliest(series: Seq<RateSeries>) -> bool {
    forall|i: int, j: int|
        0 <= i < series.len() && 0 <= j < series[i].points@.len() ==> series[i].points@[0].0 <= (
        #[trigger] series[i].points@[j]).0
}

proof fn lemma_earliest(series: Seq<RateSeries>)
    ensures
        forall|i: int|
            0 <= i < series.len() && (#[trigger] series[i]).points@.len() > 0 ==> earliest(
                series,
            ) is Some && earliest(series)->0 <= series[i].points@[0].0,
        earliest(series) is Some ==> exists|i: int|
            0 <= i < series.len() && (#[trigger] series[i]).points@.len() > 0
                && series[i].points@[0].0 == earliest(series)->0,
    decreases series.len(),
{
    if series.len() > 0 {
        let rest = series.drop_last();
        lemma_earliest(rest);
        assert forall|i: int|
            0 <= i < series.len() && (#[trigger] series[i]).points@.len() > 0 implies earliest(
            series,
        ) is Some && earliest(series)->0 <= series[i].points@[0].0 by {
            if i < rest.len() {
                assert(series[i] == rest[i]);
            }
        }
        if earliest(series) is Some {
            if earliest(series) == earliest(rest) {
                let i = choose|i: int|
                    0 <= i < rest.len() && (#[trigger] rest[i]).points@.len() > 0
                        && rest[i].points@[0].0 == earliest(rest)->0;
                assert(series[i] == rest[i]);
            } else {
                assert(series[series.len() - 1].points@[0].0 == earliest(series)->0);
            }
        }
    }
}

fn find_origin(series: &Vec<RateSeries>) -> (r: u64)
    ensures
        r == origin(series@),
{
    let mut found: Option<u64> = None;
    let mut i: usize = 0;
    assert(series@.take(0) =~= Seq::empty());
    while i < series.len()
        invariant
            i <= series@.len(),
            found == earliest(series@.take(i as int)),
        decreases series@.len() - i,
    {
        assert(series@.take(i as int + 1).drop_last() =~= series@.take(i as int));
        if series[i].points.len() > 0 {
            let ts: u64 = series[i].points[0].0;
            found = match found {
                None => Some(ts),
                Some(old_ts) => if ts < old_ts {
                    Some(ts)
                } else {
                    Some(old_ts)
                },
            };
        }
        i = i + 1;
    }
    assert(series@.take(series@.len() as int) =~= series@);
    match found {
        Some(ts) => ts,
        None => 0,
    }
}

fn shift_points(points: &Vec<(u64, u64)>, by: u64) -> (r: Vec<(u64, u64)>)
    requires
        forall|j: int| 0 <= j < points@.len() ==> by <= (#[trigger] points@[j]).0,
    ensures
        r@ == shifted(points@, by),
{
    let mut r: Vec<(u64, u64)> = Vec::new();
    let mut i: usize = 0;
    while i < points.len()
        invariant
            i <= points@.len(),
            forall|j: int| 0 <= j < points@.len() ==> by <= (#[trigger] points@[j]).0,
            r@ == shifted(points@.take(i as int), by),
        decreases points@.len() - i,
    {
        let (ts, value) = points[i];
        r.push((ts - by, value));
        i = i + 1;
        assert(r@ =~= shifted(points@.take(i as int), by));
    }
    assert(points@.take(points@.len() as int) =~= points@);
    r
}

/// Shifts every timestamp so that the earliest point across all series lands at zero.
pub fn normalize_timestamps(series: &mut Vec<RateSeries>)
    requires
        starts_earliest(old(series)@),
    ensures
        is_normalized(final(series)@, old(series)@),
{
    let by = find_origin(series);
    let ghost start = series@;
    proof {
        lemma_earliest(start);
    }
    let mut i: usize = 0;
    while i < series.len()
        invariant
            i <= series@.len(),
            series@.len() == start.len(),
            by == origin(start),
            starts_earliest(start),
            forall|k: int|
                0 <= k < start.len() && (#[trigger] start[k]).points@.len() > 0 ==> by
                    <= start[k].points@[0].0,
            forall|k: int|
                0 <= k < i ==> (#[trigger] series@[k]).key() == start[k].key()
                    && series@[k].points@ == shifted(start[k].points@, by),
            forall|k: int| i <= k < series@.len() ==> #[trigger] series@[k] == start[k],
        decreases series@.len() - i,
    {
        assert(series@[i as int] == start[i as int]);
        assert forall|j: int| 0 <= j < start[i as int].points@.len() implies by <= (
        #[trigger] start[i as int].points@[j]).0 by {
            assert(start[i as int].points@[0].0 <= start[i as int].points@[j].0);
        }
        let points = shift_points(&series[i].points, by);
        series[i].points = points;
        i = i + 1;
    }
}

/// After normalizing, some point is at zero if there is any, and no series has changed its shape:
/// the distance between two points is what it was.
pub proof fn normalizing_keeps_distances(series: Seq<RateSeries>, i: int, a: int, b: int)
    requires
        starts_earliest(series),
        0 <= i < series.len(),
        0 <= a < series[i].points@.len(),
        0 <= b < series[i].points@.len(),
    ensures
        ({
            let old_points = series[i].points@;
            let new_points = shifted(old_points, origin(series));
            new_points[a].0 - new_points[b].0 == old_points[a].0 - old_points[b].0
                && new_points[a].1 == old_points[a].1
        }),
        exists|k: int|
            0 <= k < series.len() && (#[trigger] series[k]).points@.len() > 0 && shifted(
                series[k].points@,
                origin(series),
            )[0].0 == 0,
{
    lemma_earliest(series);
    assert(series[i].points@[0].0 <= series[i].points@[a].0);
    assert(series[i].points@[0].0 <= series[i].points@[b].0);
    let k = choose|k: int|
        0 <= k < series.len() && (#[trigger] series[k]).points@.len() > 0
            && series[k].points@[0].0 == earliest(series)->0;
    assert(shifted(series[k].points@, origin(series))[0].0 == 0);
}

/// Whether key `a` sorts before key `b`: by event name, then by thread.
pub open spec fn key_less(a: SeriesKey, b: SeriesKey) -> bool {
    text::text_less(a.0, b.0) || (a.0 == b.0 && a.1 < b.1)
}

/// The order of keys is a strict total order.
pub proof fn key_order_is_total(a: SeriesKey, b: SeriesKey, c: SeriesKey)
    ensures
        key_less(a, b) && key_less(b, c) ==> key_less(a, c),
        !key_less(a, a),
        key_less(a, b) || key_less(b, a) || a == b,
{
    if text::text_less(a.0, b.0) && text::text_less(b.0, c.0) {
        text::lemma_text_transitive(a.0, b.0, c.0);
    }
    text::lemma_text_irreflexive(a.0);
    text::lemma_text_total(a.0, b.0);
}

/// How many of the first `n` keys sort before `key`.
pub open spec fn rank(series: Seq<RateSeries>, key: SeriesKey, n: nat) -> nat
    decreases n,
{
    if n == 0 {
        0
    } else {
        rank(series, key, (n - 1) as nat) + if key_less(series[n - 1].key(), key) {
            1nat
        } else {
            0
        }
    }
}

proof fn lemma_rank_monotone(series: Seq<RateSeries>, a: SeriesKey, b: SeriesKey, n: nat)
    requires
        n <= series.len(),
        key_less(a, b),
    ensures
        rank(series, a, n) <= rank(series, b, n),
        (exists|i: int| 0 <= i < n && (#[trigger] series[i]).key() == a) ==> rank(series, a, n)
            < rank(series, b, n),
        rank(series, a, n) <= n,
    decreases n,
{
    if n > 0 {
        lemma_rank_monotone(series, a, b, (n - 1) as nat);
        let k = series[n - 1].key();
        key_order_is_total(k, a, b);
        key_order_is_total(a, a, a);
        if exists|i: int| 0 <= i < n && (#[trigger] series[i]).key() == a {
            let i = choose|i: int| 0 <= i < n && (#[trigger] series[i]).key() == a;
            if i < n - 1 {
                assert(series[i].key() == a);
            }
        }
    }
}

/// Whether `order` lists the positions of `series`, each once, in ascending order of their keys.
pub open spec fn is_key_order(order: Seq<usize>, series: Seq<RateSeries>) -> bool {
    &&& order.len() == series.len()
    &&& order.no_duplicates()
    &&& forall|i: int| 0 <= i < order.len() ==> (#[trigger] order[i]) < series.len()
    &&& forall|i: int, j: int|
        0 <= i < j < order.len() ==> !key_less(
            series[#[trigger] order[j] as int].key(),
            series[#[trigger] order[i] as int].key(),
        )
}

/// The positions of the series in order of event name and thread.
pub fn sort_by_key(series: &Vec<RateSeries>) -> (r: Vec<usize>)
    ensures
        is_key_order(r@, series@),
{
    let n = series.len();
    let mut names: Vec<Vec<char>> = Vec::new();
    let mut i: usize = 0;
    while i < n
        invariant
            i <= n,
            n == series@.len(),
            names@.len() == i,
            forall|k: int| 0 <= k < i ==> (#[trigger] names@[k])@ == series@[k].event_name@,
        decreases n - i,
    {
        names.push(chars_of(series[i].event_name.as_str()));
        i = i + 1;
    }
    let mut keys: Vec<Key> = Vec::new();
    i = 0;
    while i < n
        invariant
            i <= n,
            n == series@.len(),
            names@.len() == n,
            forall|k: int| 0 <= k < n ==> (#[trigger] names@[k])@ == series@[k].event_name@,
            keys@.len() == i,
            forall|k: int|
                0 <= k < i ==> (#[trigger] keys@[k]).0 == rank(series@, series@[k].key(), n as nat)
                    && keys@[k].1 == 0,
        decreases n - i,
    {
        let mut smaller: u64 = 0;
        let mut j: usize = 0;
        while j < n
            invariant
                i < n,
                j <= n,
                n == series@.len(),
                names@.len() == n,
                forall|k: int| 0 <= k < n ==> (#[trigger] names@[k])@ == series@[k].event_name@,
                smaller <= j,
                smaller == rank(series@, series@[i as int].key(), j as nat),
            decreases n - j,
        {
            let less = chars_less(&names[j], &names[i]) || (same_text(
                series[j].event_name.as_str(),
                series[i].event_name.as_str(),
            ) && series[j].tid < series[i].tid);
            assert(names@[j as int]@ == series@[j as int].event_name@);
            assert(names@[i as int]@ == series@[i as int].event_name@);
            assert(less == key_less(series@[j as int].key(), series@[i as int].key()));
            if less {
                smaller = smaller + 1;
            }
            j = j + 1;
        }
        keys.push((smaller, 0));
        i = i + 1;
    }
    let r = sort_order(&keys);
    proof {
        assert forall|i: int, j: int| 0 <= i < r@.len() && 0 <= j < r@.len() && i
            != j implies r@[i] != r@[j] by {
            if i < j {
                assert(order::goes_before(
                    keys@[r@[i] as int],
                    r@[i] as int,
                    keys@[r@[j] as int],
                    r@[j] as int,
                ));
            } else {
                assert(order::goes_before(
                    keys@[r@[j] as int],
                    r@[j] as int,
                    keys@[r@[i] as int],
                    r@[i] as int,
                ));
            }
        }
        assert forall|i: int, j: int| 0 <= i < j < r@.len() implies !key_less(
            series@[#[trigger] r@[j] as int].key(),
            series@[#[trigger] r@[i] as int].key(),
        ) by {
            let a = r@[i] as int;
            let b = r@[j] as int;
            assert(order::goes_before(keys@[r@[i] as int], a, keys@[r@[j] as int], b));
            if key_less(series@[b].key(), series@[a].key()) {
                assert(series@[b].key() == series@[b].key());
                lemma_rank_monotone(series@, series@[b].key(), series@[a].key(), n as nat);
                assert(keys@[a].0 == rank(series@, series@[a].key(), n as nat));
                assert(keys@[b].0 == rank(series@, series@[b].key(), n as nat));
            }
        }
    }
    r
}

/// The values of the points that fall into one bin.
pub struct BinValues {
    /// Number of the bin.
    pub index: u64,
    /// Bit patterns of the values, in the order of the points.
    pub values: Vec<u64>,
}

/// Times of points.
pub open spec fn times_of(points: Seq<(u64, u64)>) -> Seq<u64> {
    points.map_values(|p: (u64, u64)| p.0)
}

/// The values of the points in bin `index`, in order.
pub open spec fn values_in(points: Seq<(u64, u64)>, width: u64, index: u64) -> Seq<u64> {
    bins::positions_in(times_of(points), width, index).map_values(|p: usize| points[p as int].1)
}

/// Whether a bin has an entry.
pub open spec fn has_index(list: Seq<BinValues>, index: u64) -> bool {
    exists|i: int| 0 <= i < list.len() && (#[trigger] list[i]).index == index
}

/// Whether `list` holds every bin that any point falls into, once, with all its values.
pub open spec fn is_binned(list: Seq<BinValues>, points: Seq<(u64, u64)>, width: u64) -> bool {
    &&& forall|i: int, j: int|
        0 <= i < j < list.len() ==> (#[trigger] list[i]).index != (#[trigger] list[j]).index
    &&& forall|i: int|
        0 <= i < list.len() ==> (#[trigger] list[i]).values@ == values_in(
            points,
            width,
            list[i].index,
        ) && list[i].values@.len() > 0
    &&& forall|b: u64| (#[trigger] values_in(points, width, b)).len() > 0 ==> has_index(list, b)
}

/// Sorts points into bins of the given width.
pub fn bin_series(points: &Vec<(u64, u64)>, width: u64) -> (r: Vec<BinValues>)
    requires
        width > 0,
    ensures
        is_binned(r@, points@, width),
{
    let mut times: Vec<u64> = Vec::new();
    let mut i: usize = 0;
    while i < points.len()
        invariant
            i <= points@.len(),
            times@ == times_of(points@.take(i as int)),
        decreases points@.len() - i,
    {
        times.push(points[i].0);
        i = i + 1;
        assert(times@ =~= times_of(points@.take(i as int)));
    }
    assert(points@.take(points@.len() as int) =~= points@);
    let found: Vec<TimeBin> = bin_times(&times, width);
    let mut r: Vec<BinValues> = Vec::new();
    let mut k: usize = 0;
    while k < found.len()
        invariant
            k <= found@.len(),
            width > 0,
            times@ == times_of(points@),
            times@.len() <= usize::MAX,
            bins::is_binning(found@, times@, width),
            r@.len() == k,
            forall|j: int|
                0 <= j < k ==> (#[trigger] r@[j]).index == found@[j].index && r@[j].values@
                    == values_in(points@, width, r@[j].index) && r@[j].values@.len() > 0,
        decreases found@.len() - k,
    {
        let bin = &found[k];
        proof {
            bins::bins_hold_their_points(times@, width, bin.index);
        }
        let ghost all = bins::positions_in(times_of(points@), width, bin.index);
        let mut values: Vec<u64> = Vec::new();
        let mut p: usize = 0;
        while p < bin.positions.len()
            invariant
                p <= bin.positions@.len(),
                bin.positions@ == all,
                forall|q: int| 0 <= q < all.len() ==> (#[trigger] all[q]) < points@.len(),
                values@ == all.take(p as int).map_values(|p: usize| points@[p as int].1),
            decreases bin.positions@.len() - p,
        {
            values.push(points[bin.positions[p]].1);
            p = p + 1;
            assert(values@ =~= all.take(p as int).map_values(|p: usize| points@[p as int].1));
        }
        assert(all.take(all.len() as int) =~= all);
        r.push(BinValues { index: bin.index, values });
        k = k + 1;
    }
    proof {
        assert forall|i: int, j: int| 0 <= i < j < r@.len() implies (#[trigger] r@[i]).index != (
        #[trigger] r@[j]).index by {
            assert(found@[i].index != found@[j].index);
        }
        assert forall|b: u64|
            (#[trigger] values_in(points@, width, b)).len() > 0 implies has_index(r@, b) by {
            assert(bins::positions_in(times@, width, b).len() > 0);
            let i = choose|i: int| 0 <= i < found@.len() && (#[trigger] found@[i]).index == b;
            assert(r@[i].index == b);
        }
    }
    r
}

/// The position of a bin.
pub open spec fn bin_position(list: Seq<BinValues>, index: u64) -> Option<int>
    decreases list.len(),
{
    if list.len() == 0 {
        None
    } else if list.last().index == index {
        Some(list.len() - 1)
    } else {
        bin_position(list.drop_last(), index)
    }
}

/// Whether a table gives the position of every bin.
spec fn is_bin_index(table: Map<u64, usize>, list: Seq<BinValues>) -> bool {
    forall|b: u64|
        (#[trigger] bin_position(list, b)) == (if table.contains_key(b) {
            Some(table[b] as int)
        } else {
            None
        })
}

fn index_bins(list: &Vec<BinValues>) -> (r: HashMap<u64, usize>)
    ensures
        is_bin_index(r@, list@),
{
    let mut table: HashMap<u64, usize> = HashMap::new();
    let mut i: usize = 0;
    assert(list@.take(0) =~= Seq::empty());
    while i < list.len()
        invariant
            i <= list@.len(),
            is_bin_index(table@, list@.take(i as int)),
        decreases list@.len() - i,
    {
        let ghost before = table@;
        assert(list@.take(i as int + 1).drop_last() =~= list@.take(i as int));
        table.insert(list[i].index, i);
        assert forall|b: u64|
            (#[trigger] bin_position(list@.take(i as int + 1), b)) == (if table@.contains_key(b) {
                Some(table@[b] as int)
            } else {
                None
            }) by {
            assert(bin_position(list@.take(i as int), b) == (if before.contains_key(b) {
                Some(before[b] as int)
            } else {
                None
            }));
        }
        i = i + 1;
    }
    assert(list@.take(list@.len() as int) =~= list@);
    table
}

fn find_bin(table: &HashMap<u64, usize>, index: u64, list: Ghost<Seq<BinValues>>) -> (r: Option<
    usize,
>)
    requires
        is_bin_index(table@, list@),
    ensures
        r == as_position(bin_position(list@, index)),
        r is Some <==> bin_position(list@, index) is Some,
{
    assert(bin_position(list@, index) == (if table@.contains_key(index) {
        Some(table@[index] as int)
    } else {
        None
    }));
    match table.get(&index) {
        Some(i) => Some(*i),
        None => None,
    }
}

/// How many bins of `gt` have a bin in `est`.
pub open spec fn covered_bins(gt: Seq<BinValues>, est: Seq<BinValues>) -> nat
    decreases gt.len(),
{
    if gt.len() == 0 {
        0
    } else {
        covered_bins(gt.drop_last(), est) + if bin_position(est, gt.last().index) is Some {
            1nat
        } else {
            0
        }
    }
}

/// The first bin, by number.
pub open spec fn first_bin(list: Seq<BinValues>) -> Option<u64>
    decreases list.len(),
{
    if list.len() == 0 {
        None
    } else {
        let index = list.last().index;
        match first_bin(list.drop_last()) {
            None => Some(index),
            Some(first) => Some(
                if index < first {
                    index
                } else {
                    first
                },
            ),
        }
    }
}

/// A ground-truth bin that counts, and the bins to hold it against.
#[derive(Debug, Clone, Copy)]
pub struct ScoredBin {
    /// Position of the ground-truth bin.
    pub gt: usize,
    /// Position of the estimated bin, if there is one.
    pub est: Option<usize>,
    /// Position of the uncertainty bin, if there is one.
    pub unc: Option<usize>,
}

/// A position as a machine number.
pub open spec fn as_position(p: Option<int>) -> Option<usize> {
    match p {
        Some(i) => Some(i as usize),
        None => None,
    }
}

/// The ground-truth bins that count: those from the first estimated bin on. What comes before the
/// estimator's first observation says how late it was scheduled, not how well it predicts.
pub open spec fn scored_bins(
    gt: Seq<BinValues>,
    est: Seq<BinValues>,
    unc: Seq<BinValues>,
) -> Seq<ScoredBin>
    decreases gt.len(),
{
    if gt.len() == 0 {
        Seq::empty()
    } else {
        let rest = scored_bins(gt.drop_last(), est, unc);
        let index = gt.last().index;
        match first_bin(est) {
            None => rest,
            Some(first) => if index < first {
                rest
            } else {
                rest.push(
                    ScoredBin {
                        gt: (gt.len() - 1) as usize,
                        est: as_position(bin_position(est, index)),
                        unc: as_position(bin_position(unc, index)),
                    },
                )
            },
        }
    }
}

/// All that is needed to score one event on one thread.
pub struct EventPlan {
    /// Event name.
    pub event_name: String,
    /// Thread ID.
    pub tid: u32,
    /// Ground truth, binned.
    pub gt: Vec<BinValues>,
    /// Estimate, binned; empty if the event was never observed.
    pub est: Vec<BinValues>,
    /// Uncertainty of the estimate, binned.
    pub unc: Vec<BinValues>,
    /// How many ground-truth bins have an estimate.
    pub covered: usize,
    /// The bins that count.
    pub scored: Vec<ScoredBin>,
}

/// The points of a series, if there is one with this key.
pub open spec fn points_for(series: Seq<RateSeries>, key: SeriesKey) -> Seq<(u64, u64)>
    decreases series.len(),
{
    if series.len() == 0 {
        Seq::empty()
    } else if series.last().key() == key {
        series.last().points@
    } else {
        points_for(series.drop_last(), key)
    }
}

/// Whether a plan is that of a ground-truth series.
pub open spec fn is_plan(
    plan: EventPlan,
    gt: RateSeries,
    est: Seq<RateSeries>,
    unc: Seq<RateSeries>,
    width: u64,
) -> bool {
    &&& (plan.event_name@, plan.tid) == gt.key()
    &&& is_binned(plan.gt@, gt.points@, width)
    &&& is_binned(plan.est@, points_for(est, gt.key()), width)
    &&& is_binned(plan.unc@, points_for(unc, gt.key()), width)
    &&& plan.covered == covered_bins(plan.gt@, plan.est@)
    &&& plan.scored@ == scored_bins(plan.gt@, plan.est@, plan.unc@)
}

fn find_points(series: &Vec<RateSeries>, name: &str, tid: u32) -> (r: Option<usize>)
    ensures
        match r {
            Some(i) => i < series@.len() && points_for(series@, (name@, tid))
                == series@[i as int].points@,
            None => points_for(series@, (name@, tid)) == Seq::<(u64, u64)>::empty(),
        },
{
    let mut n: usize = series.len();
    assert(series@.take(n as int) =~= series@);
    while n > 0
        invariant
            n <= series@.len(),
            points_for(series@, (name@, tid)) == points_for(series@.take(n as int), (name@, tid)),
        decreases n,
    {
        assert(series@.take(n as int).drop_last() =~= series@.take(n - 1));
        if series[n - 1].tid == tid && same_text(series[n - 1].event_name.as_str(), name) {
            return Some(n - 1);
        }
        n = n - 1;
    }
    None
}

fn bins_for(series: &Vec<RateSeries>, name: &str, tid: u32, width: u64) -> (r: Vec<BinValues>)
    requires
        width > 0,
    ensures
        is_binned(r@, points_for(series@, (name@, tid)), width),
{
    match find_points(series, name, tid) {
        Some(i) => bin_series(&series[i].points, width),
        None => bin_series(&Vec::new(), width),
    }
}

fn count_covered(
    gt: &Vec<BinValues>,
    table: &HashMap<u64, usize>,
    est: Ghost<Seq<BinValues>>,
) -> (r: usize)
    requires
        is_bin_index(table@, est@),
    ensures
        r == covered_bins(gt@, est@),
{
    let mut n: usize = 0;
    let mut i: usize = 0;
    assert(gt@.take(0) =~= Seq::empty());
    while i < gt.len()
        invariant
            i <= gt@.len(),
            n <= i,
            is_bin_index(table@, est@),
            n == covered_bins(gt@.take(i as int), est@),
        decreases gt@.len() - i,
    {
        assert(gt@.take(i as int + 1).drop_last() =~= gt@.take(i as int));
        if find_bin(table, gt[i].index, est).is_some() {
            n = n + 1;
        }
        i = i + 1;
    }
    assert(gt@.take(gt@.len() as int) =~= gt@);
    n
}

fn find_first(list: &Vec<BinValues>) -> (r: Option<u64>)
    ensures
        r == first_bin(list@),
{
    let mut first: Option<u64> = None;
    let mut i: usize = 0;
    assert(list@.take(0) =~= Seq::empty());
    while i < list.len()
        invariant
            i <= list@.len(),
            first == first_bin(list@.take(i as int)),
        decreases list@.len() - i,
    {
        assert(list@.take(i as int + 1).drop_last() =~= list@.take(i as int));
        let index = list[i].index;
        first = match first {
            None => Some(index),
            Some(f) => if index < f {
                Some(index)
            } else {
                Some(f)
            },
        };
        i = i + 1;
    }
    assert(list@.take(list@.len() as int) =~= list@);
    first
}

fn score_bins(
    gt: &Vec<BinValues>,
    est: &Vec<BinValues>,
    unc: &Vec<BinValues>,
    est_table: &HashMap<u64, usize>,
) -> (r: Vec<ScoredBin>)
    requires
        is_bin_index(est_table@, est@),
    ensures
        r@ == scored_bins(gt@, est@, unc@),
{
    let first = find_first(est);
    let unc_table = index_bins(unc);
    let mut r: Vec<ScoredBin> = Vec::new();
    let mut i: usize = 0;
    assert(gt@.take(0) =~= Seq::empty());
    while i < gt.len()
        invariant
            i <= gt@.len(),
            first == first_bin(est@),
            is_bin_index(est_table@, est@),
            is_bin_index(unc_table@, unc@),
            r@ == scored_bins(gt@.take(i as int), est@, unc@),
        decreases gt@.len() - i,
    {
        assert(gt@.take(i as int + 1).drop_last() =~= gt@.take(i as int));
        let index = gt[i].index;
        if let Some(f) = first {
            if index >= f {
                let e = find_bin(est_table, index, Ghost(est@));
                let u = find_bin(&unc_table, index, Ghost(unc@));
                r.push(ScoredBin { gt: i, est: e, unc: u });
            }
        }
        i = i + 1;
    }
    assert(gt@.take(gt@.len() as int) =~= gt@);
    r
}

/// Works out what one event on one thread is scored by.
pub fn plan_event(
    gt: &RateSeries,
    est: &Vec<RateSeries>,
    unc: &Vec<RateSeries>,
    width: u64,
) -> (r: EventPlan)
    requires
        width > 0,
    ensures
        is_plan(r, *gt, est@, unc@, width),
{
    let gt_bins = bin_series(&gt.points, width);
    let est_bins = bins_for(est, gt.event_name.as_str(), gt.tid, width);
    let unc_bins = bins_for(unc, gt.event_name.as_str(), gt.tid, width);
    let est_table = index_bins(&est_bins);
    let covered = count_covered(&gt_bins, &est_table, Ghost(est_bins@));
    let scored = score_bins(&gt_bins, &est_bins, &unc_bins, &est_table);
    EventPlan {
        event_name: gt.event_name.clone(),
        tid: gt.tid,
        gt: gt_bins,
        est: est_bins,
        unc: unc_bins,
        covered,
        scored,
    }
}

/// An event and a thread.
pub struct TrackName {
    /// Event name.
    pub event_name: String,
    /// Thread ID.
    pub tid: u32,
}

/// What an evaluation has to work out, and what it has to warn about.
pub struct Evaluation {
    /// Tracks of the estimate that the ground truth does not have, in order.
    pub spurious: Vec<TrackName>,
    /// What to score, in order of event name and thread.
    pub plans: Vec<EventPlan>,
}

/// Those positions whose series have points, in the order given.
pub open spec fn with_points(order: Seq<usize>, series: Seq<RateSeries>) -> Seq<usize>
    decreases order.len(),
{
    if order.len() == 0 {
        Seq::empty()
    } else {
        let rest = with_points(order.drop_last(), series);
        if series[order.last() as int].points@.len() > 0 {
            rest.push(order.last())
        } else {
            rest
        }
    }
}

/// Whether a key has a series.
pub open spec fn has_key(series: Seq<RateSeries>, key: SeriesKey) -> bool {
    exists|i: int| 0 <= i < series.len() && (#[trigger] series[i]).key() == key
}

/// Those positions whose series are not in `gt`, in the order given.
pub open spec fn not_in(order: Seq<usize>, series: Seq<RateSeries>, gt: Seq<RateSeries>) -> Seq<
    usize,
>
    decreases order.len(),
{
    if order.len() == 0 {
        Seq::empty()
    } else {
        let rest = not_in(order.drop_last(), series, gt);
        if !has_key(gt, series[order.last() as int].key()) {
            rest.push(order.last())
        } else {
            rest
        }
    }
}

/// Whether an evaluation is the one of two traces.
pub open spec fn is_evaluation(
    r: Evaluation,
    gt: Seq<RateSeries>,
    est: Seq<RateSeries>,
    unc: Seq<RateSeries>,
    width: u64,
    gt_order: Seq<usize>,
    est_order: Seq<usize>,
) -> bool {
    let scored = with_points(gt_order, gt);
    let extra = not_in(est_order, est, gt);
    &&& is_key_order(gt_order, gt)
    &&& is_key_order(est_order, est)
    &&& r.plans@.len() == scored.len()
    &&& forall|i: int|
        0 <= i < scored.len() ==> is_plan(
            #[trigger] r.plans@[i],
            gt[scored[i] as int],
            est,
            unc,
            width,
        )
    &&& r.spurious@.len() == extra.len()
    &&& forall|i: int|
        0 <= i < extra.len() ==> ((#[trigger] r.spurious@[i]).event_name@, r.spurious@[i].tid)
            == est[extra[i] as int].key()
}

/// The width of a bin of so many milliseconds, in nanoseconds.
pub open spec fn bin_width_ns(bin_ms: u64) -> u64 {
    (bin_ms * 1_000_000) as u64
}

fn contains_key(series: &Vec<RateSeries>, name: &str, tid: u32) -> (r: bool)
    ensures
        r == has_key(series@, (name@, tid)),
{
    let mut i: usize = 0;
    while i < series.len()
        invariant
            i <= series@.len(),
            forall|k: int| 0 <= k < i ==> (#[trigger] series@[k]).key() != (name@, tid),
        decreases series@.len() - i,
    {
        if series[i].tid == tid && same_text(series[i].event_name.as_str(), name) {
            assert(series@[i as int].key() == (name@, tid));
            return true;
        }
        i = i + 1;
    }
    false
}

/// Compares two traces: for every event and thread of the ground truth, in order, what it is
/// scored by; and which tracks of the estimate the ground truth does not have. Timestamps are
/// taken as they are: see [`normalize_timestamps`].
pub fn plan_evaluation(
    gt: &Vec<RateSeries>,
    est: &Vec<RateSeries>,
    unc: &Vec<RateSeries>,
    bin_ms: u64,
) -> (r: Evaluation)
    requires
        0 < bin_ms,
        bin_ms * 1_000_000 <= u64::MAX,
    ensures
        exists|gt_order: Seq<usize>, est_order: Seq<usize>| #[trigger]
            is_evaluation(r, gt@, est@, unc@, bin_width_ns(bin_ms), gt_order, est_order),
{
    let width: u64 = bin_ms * 1_000_000;
    let est_order = sort_by_key(est);
    let mut spurious: Vec<TrackName> = Vec::new();
    let mut i: usize = 0;
    assert(est_order@.take(0) =~= Seq::empty());
    while i < est_order.len()
        invariant
            i <= est_order@.len(),
            is_key_order(est_order@, est@),
            spurious@.len() == not_in(est_order@.take(i as int), est@, gt@).len(),
            forall|k: int|
                0 <= k < spurious@.len() ==> (
                (#[trigger] spurious@[k]).event_name@,
                spurious@[k].tid,
            ) == est@[not_in(est_order@.take(i as int), est@, gt@)[k] as int].key(),
        decreases est_order@.len() - i,
    {
        let ghost seen = est_order@.take(i as int);
        let ghost next = est_order@.take(i as int + 1);
        assert(next.drop_last() =~= seen);
        let s = &est[est_order[i]];
        let ghost before = spurious@;
        if !contains_key(gt, s.event_name.as_str(), s.tid) {
            spurious.push(TrackName { event_name: s.event_name.clone(), tid: s.tid });
        }
        assert forall|k: int| 0 <= k < spurious@.len() implies (
            (#[trigger] spurious@[k]).event_name@,
            spurious@[k].tid,
        ) == est@[not_in(next, est@, gt@)[k] as int].key() by {
            if k < before.len() {
                assert(spurious@[k] == before[k]);
                assert(not_in(next, est@, gt@)[k] == not_in(seen, est@, gt@)[k]);
            }
        }
        i = i + 1;
    }
    assert(est_order@.take(est_order@.len() as int) =~= est_order@);
    let gt_order = sort_by_key(gt);
    let mut plans: Vec<EventPlan> = Vec::new();
    i = 0;
    assert(gt_order@.take(0) =~= Seq::empty());
    while i < gt_order.len()
        invariant
            i <= gt_order@.len(),
            width > 0,
            is_key_order(gt_order@, gt@),
            plans@.len() == with_points(gt_order@.take(i as int), gt@).len(),
            forall|k: int|
                0 <= k < plans@.len() ==> is_plan(
                    #[trigger] plans@[k],
                    gt@[with_points(gt_order@.take(i as int), gt@)[k] as int],
                    est@,
                    unc@,
                    width,
                ),
        decreases gt_order@.len() - i,
    {
        let ghost seen = gt_order@.take(i as int);
        let ghost next = gt_order@.take(i as int + 1);
        assert(next.drop_last() =~= seen);
        let ghost before = plans@;
        let s = &gt[gt_order[i]];
        if s.points.len() > 0 {
            plans.push(plan_event(s, est, unc, width));
        }
        assert forall|k: int| 0 <= k < plans@.len() implies is_plan(
            #[trigger] plans@[k],
            gt@[with_points(next, gt@)[k] as int],
            est@,
            unc@,
            width,
        ) by {
            if k < before.len() {
                assert(plans@[k] == before[k]);
                assert(with_points(next, gt@)[k] == with_points(seen, gt@)[k]);
            }
        }
        i = i + 1;
    }
    assert(gt_order@.take(gt_order@.len() as int) =~= gt_order@);
    let r = Evaluation { spurious, plans };
    assert(is_evaluation(r, gt@, est@, unc@, bin_width_ns(bin_ms), gt_order@, est_order@));
    r
}

/// How many plans have no covered bin.
pub open spec fn uncovered(plans: Seq<EventPlan>) -> nat
    decreases plans.len(),
{
    if plans.len() == 0 {
        0
    } else {
        uncovered(plans.drop_last()) + if plans.last().covered == 0 {
            1nat
        } else {
            0
        }
    }
}

/// Counts the events without any coverage.
pub fn zero_coverage_count(plans: &Vec<EventPlan>) -> (r: usize)
    ensures
        r == uncovered(plans@),
{
    let mut n: usize = 0;
    let mut i: usize = 0;
    assert(plans@.take(0) =~= Seq::empty());
    while i < plans.len()
        invariant
            i <= plans@.len(),
            n <= i,
            n == uncovered(plans@.take(i as int)),
        decreases plans@.len() - i,
    {
        assert(plans@.take(i as int + 1).drop_last() =~= plans@.take(i as int));
        if plans[i].covered == 0 {
            n = n + 1;
        }
        i = i + 1;
    }
    assert(plans@.take(plans@.len() as int) =~= plans@);
    n
}

proof fn lemma_bin_position(list: Seq<BinValues>, index: u64)
    ensures
        match bin_position(list, index) {
            Some(i) => 0 <= i < list.len() && list[i].index == index,
            None => !has_index(list, index),
        },
    decreases list.len(),
{
    if list.len() > 0 && list.last().index != index {
        let front = list.drop_last();
        lemma_bin_position(front, index);
        if bin_position(list, index) is None && has_index(list, index) {
            let k = choose|k: int| 0 <= k < list.len() && (#[trigger] list[k]).index == index;
            assert(front[k].index == index);
        }
    }
}

/// Coverage lies between nothing and everything, and is complete exactly when every ground-truth
/// bin has an estimate.
pub proof fn coverage_bounds(gt: Seq<BinValues>, est: Seq<BinValues>)
    ensures
        covered_bins(gt, est) <= gt.len(),
        covered_bins(gt, est) == gt.len() <==> forall|i: int|
            0 <= i < gt.len() ==> has_index(est, (#[trigger] gt[i]).index),
        est.len() == 0 ==> covered_bins(gt, est) == 0,
    decreases gt.len(),
{
    if gt.len() > 0 {
        let front = gt.drop_last();
        coverage_bounds(front, est);
        lemma_bin_position(est, gt.last().index);
        if covered_bins(gt, est) == gt.len() {
            assert forall|i: int| 0 <= i < gt.len() implies has_index(
                est,
                (#[trigger] gt[i]).index,
            ) by {
                if i < front.len() {
                    assert(gt[i] == front[i]);
                } else {
                    let p = bin_position(est, gt.last().index)->0;
                    assert(est[p].index == gt[i].index);
                }
            }
        }
        if forall|i: int| 0 <= i < gt.len() ==> has_index(est, (#[trigger] gt[i]).index) {
            assert forall|i: int| 0 <= i < front.len() implies has_index(
                est,
                (#[trigger] front[i]).index,
            ) by {
                assert(front[i] == gt[i]);
            }
            assert(has_index(est, gt[gt.len() - 1].index));
        }
    }
}

/// An event that was never observed has no bin that counts, and no bin before the first
/// observation counts.
pub proof fn only_bins_after_first_observation_count(
    gt: Seq<BinValues>,
    est: Seq<BinValues>,
    unc: Seq<BinValues>,
)
    requires
        gt.len() <= usize::MAX,
    ensures
        est.len() == 0 ==> scored_bins(gt, est, unc) == Seq::<ScoredBin>::empty(),
        forall|k: int|
            0 <= k < scored_bins(gt, est, unc).len() ==> (#[trigger] scored_bins(
                gt,
                est,
                unc,
            )[k]).gt < gt.len() && first_bin(est) is Some && first_bin(est)->0
                <= gt[scored_bins(gt, est, unc)[k].gt as int].index,
    decreases gt.len(),
{
    if gt.len() > 0 {
        let front = gt.drop_last();
        only_bins_after_first_observation_count(front, est, unc);
        let rest = scored_bins(front, est, unc);
        let all = scored_bins(gt, est, unc);
        assert forall|k: int| 0 <= k < all.len() implies (#[trigger] all[k]).gt < gt.len()
            && first_bin(est) is Some && first_bin(est)->0 <= gt[all[k].gt as int].index by {
            if k < rest.len() {
                assert(all[k] == rest[k]);
                assert(front[rest[k].gt as int] == gt[rest[k].gt as int]);
            }
        }
    }
}

/// Whether an evaluation is the one of three lists of series, each shifted to begin at zero.
pub open spec fn evaluates(
    r: Evaluation,
    gt: Seq<RateSeries>,
    est: Seq<RateSeries>,
    unc: Seq<RateSeries>,
    bin_ms: u64,
) -> bool {
    exists|
        gt_zero: Seq<RateSeries>,
        est_zero: Seq<RateSeries>,
        unc_zero: Seq<RateSeries>,
        gt_order: Seq<usize>,
        est_order: Seq<usize>,
    |
        is_normalized(gt_zero, gt) && is_normalized(est_zero, est) && is_normalized(unc_zero, unc)
            && #[trigger] is_evaluation(
            r,
            gt_zero,
            est_zero,
            unc_zero,
            bin_width_ns(bin_ms),
            gt_order,
            est_order,
        )
}

/// Whether a list of series is what a trace says of rates, each event and thread once.
pub open spec fn is_series_of(list: RateTimeSeries, packets: Seq<PacketView>) -> bool {
    list.wf() && list@ == reader::rate_series(packets)
}

/// Whether a list of series is what a trace says of uncertainty, each event and thread once.
pub open spec fn is_uncertainty_of(list: RateTimeSeries, packets: Seq<PacketView>) -> bool {
    list.wf() && list@ == reader::uncertainty_series(packets)
}

proof fn lemma_by_time_in_order(points: Seq<(u64, u64)>, i: int, j: int)
    requires
        0 <= i <= j < points.len() <= usize::MAX,
    ensures
        reader::by_time(points)[i].0 <= reader::by_time(points)[j].0,
{
    let keys = reader::sample_keys(points);
    order::order_exists(keys);
    let order = order::order_of(keys);
    if i < j {
        assert(order::goes_before(
            keys[order[i] as int],
            order[i] as int,
            keys[order[j] as int],
            order[j] as int,
        ));
    }
}

proof fn lemma_named_series_in_order(
    list: RateTimeSeries,
    packets: Seq<PacketView>,
    suffix: Seq<char>,
    s: int,
    i: int,
    j: int,
)
    requires
        list.wf(),
        list@ == reader::series_named(packets, suffix),
        0 <= s < list.series@.len(),
        0 <= i <= j < list.series@[s].points@.len(),
    ensures
        list.series@[s].points@[i].0 <= list.series@[s].points@[j].0,
{
    let series = list.series@;
    let key = series[s].key();
    let p = list.position(key);
    assert(series[s].key() == key);
    assert(p >= 0 && series[p].key() == key);
    if p < s {
        assert(series[p].key() != series[s].key());
    } else if s < p {
        assert(series[s].key() != series[p].key());
    }
    assert(list@.contains_key(key));
    assert(list@[key] == series[s].points@);
    let points = reader::points_of(packets, suffix, trace::values_of(packets), key);
    assert(list@[key] == reader::by_time(points));
    assert(series[s].points@.len() == series[s].points.len());
    lemma_by_time_in_order(points, i, j);
}

/// The points of every rate series that a trace says are in order of time.
pub proof fn series_are_in_order(
    list: RateTimeSeries,
    packets: Seq<PacketView>,
    s: int,
    i: int,
    j: int,
)
    requires
        is_series_of(list, packets),
        0 <= s < list.series@.len(),
        0 <= i <= j < list.series@[s].points@.len(),
    ensures
        list.series@[s].points@[i].0 <= list.series@[s].points@[j].0,
{
    lemma_named_series_in_order(list, packets, "/rate"@, s, i, j);
}

proof fn lemma_read_series_start_earliest(
    list: RateTimeSeries,
    packets: Seq<PacketView>,
    suffix: Seq<char>,
)
    requires
        list.wf(),
        list@ == reader::series_named(packets, suffix),
    ensures
        starts_earliest(list.series@),
{
    let series = list.series@;
    assert forall|i: int, j: int|
        0 <= i < series.len() && 0 <= j < series[i].points@.len() implies series[i].points@[0].0
        <= (#[trigger] series[i].points@[j]).0 by {
        lemma_named_series_in_order(list, packets, suffix, i, 0, j);
    }
}

/// Compares an estimated trace with a ground-truth trace, bin by bin: reads both, shifts each to
/// begin at zero, and works out what every event and thread of the ground truth is scored by. The
/// uncertainty that the estimated trace holds is shifted by itself.
pub fn evaluate(ground_truth: &[u8], estimated: &[u8], bin_ms: u64) -> (r: Result<
    Evaluation,
    TraceError,
>)
    requires
        0 < bin_ms,
        bin_ms * 1_000_000 <= u64::MAX,
    ensures
        ({
            let gt = trace::trace_packets(ground_truth@, 0);
            let est = trace::trace_packets(estimated@, 0);
            match r {
                Ok(evaluation) => gt is Ok && est is Ok && exists|
                    gt_list: RateTimeSeries,
                    est_list: RateTimeSeries,
                    unc_list: RateTimeSeries,
                |
                    #[trigger] is_series_of(gt_list, gt->Ok_0) && #[trigger] is_series_of(
                        est_list,
                        est->Ok_0,
                    ) && #[trigger] is_uncertainty_of(unc_list, est->Ok_0) && evaluates(
                        evaluation,
                        gt_list.series@,
                        est_list.series@,
                        unc_list.series@,
                        bin_ms,
                    ),
                Err(e) => gt == Err::<Seq<PacketView>, TraceFault>(e@) || (gt is Ok && est == Err::<
                    Seq<PacketView>,
                    TraceFault,
                >(e@)),
            }
        }),
{
    let mut gt = match read_rate_timeseries(ground_truth) {
        Ok(list) => list,
        Err(e) => {
            return Err(e);
        },
    };
    let est_packets = match read_trace_packets(estimated) {
        Ok(packets) => packets,
        Err(e) => {
            return Err(e);
        },
    };
    let mut est = extract_rate_series(&est_packets);
    let mut unc = extract_uncertainty_series(&est_packets);
    let ghost gt_list = gt;
    let ghost est_list = est;
    let ghost unc_list = unc;
    proof {
        let gt_views = trace::trace_packets(ground_truth@, 0)->Ok_0;
        let est_views = trace::trace_packets(estimated@, 0)->Ok_0;
        lemma_read_series_start_earliest(gt, gt_views, "/rate"@);
        lemma_read_series_start_earliest(est, est_views, "/rate"@);
        lemma_read_series_start_earliest(unc, est_views, "/uncertainty"@);
    }
    normalize_timestamps(&mut gt.series);
    normalize_timestamps(&mut est.series);
    normalize_timestamps(&mut unc.series);
    let r = plan_evaluation(&gt.series, &est.series, &unc.series, bin_ms);
    proof {
        let (gt_order, est_order) = choose|gt_order: Seq<usize>, est_order: Seq<usize>| #[trigger]
            is_evaluation(
                r,
                gt.series@,
                est.series@,
                unc.series@,
                bin_width_ns(bin_ms),
                gt_order,
                est_order,
            );
        assert(is_evaluation(
            r,
            gt.series@,
            est.series@,
            unc.series@,
            bin_width_ns(bin_ms),
            gt_order,
            est_order,
        ));
        assert(evaluates(r, gt_list.series@, est_list.series@, unc_list.series@, bin_ms));
        assert(is_series_of(gt_list, trace::trace_packets(ground_truth@, 0)->Ok_0));
        assert(is_series_of(est_list, trace::trace_packets(estimated@, 0)->Ok_0));
        assert(is_uncertainty_of(unc_list, trace::trace_packets(estimated@, 0)->Ok_0));
    }
    Ok(r)
}

/// Whether `later` is `series` with every timestamp moved on by `d`.
pub open spec fn is_delayed(later: Seq<RateSeries>, series: Seq<RateSeries>, d: u64) -> bool {
    &&& later.len() == series.len()
    &&& forall|i: int|
        0 <= i < series.len() ==> (#[trigger] later[i]).key() == series[i].key()
            && later[i].points@.len() == series[i].points@.len()
    &&& forall|i: int, j: int|
        0 <= i < series.len() && 0 <= j < series[i].points@.len() ==> (
        #[trigger] later[i].points@[j]).0 == series[i].points@[j].0 + d && later[i].points@[j].1
            == series[i].points@[j].1
}

proof fn lemma_earliest_delayed(later: Seq<RateSeries>, series: Seq<RateSeries>, d: u64)
    requires
        is_delayed(later, series, d),
    ensures
        match earliest(series) {
            Some(ts) => earliest(later) is Some && earliest(later)->0 == ts + d,
            None => earliest(later) is None,
        },
        earliest(series) is None ==> forall|i: int|
            0 <= i < series.len() ==> (#[trigger] series[i]).points@.len() == 0,
    decreases series.len(),
{
    lemma_earliest(series);
    if series.len() > 0 {
        let front = series.drop_last();
        let late = later.drop_last();
        let n = series.len() - 1;
        assert(is_delayed(late, front, d)) by {
            assert forall|i: int| 0 <= i < front.len() implies (#[trigger] late[i]).key()
                == front[i].key() && late[i].points@.len() == front[i].points@.len() by {
                assert(later[i].key() == series[i].key());
            }
            assert forall|i: int, j: int|
                0 <= i < front.len() && 0 <= j < front[i].points@.len() implies (
            #[trigger] late[i].points@[j]).0 == front[i].points@[j].0 + d && late[i].points@[j].1
                == front[i].points@[j].1 by {
                assert(later[i].points@[j].0 == series[i].points@[j].0 + d);
            }
        }
        lemma_earliest_delayed(late, front, d);
        assert(later[n].key() == series[n].key());
        if series[n].points@.len() > 0 {
            assert(later[n].points@[0].0 == series[n].points@[0].0 + d);
        }
    }
}

/// Shifting to zero forgets when a trace began: moving all timestamps on by the same time changes
/// nothing of the outcome.
pub proof fn normalizing_forgets_the_start(
    zero: Seq<RateSeries>,
    later: Seq<RateSeries>,
    series: Seq<RateSeries>,
    d: u64,
)
    requires
        is_delayed(later, series, d),
    ensures
        is_normalized(zero, later) <==> is_normalized(zero, series),
{
    lemma_earliest_delayed(later, series, d);
    assert forall|i: int| 0 <= i < series.len() implies shifted(
        (#[trigger] later[i]).points@,
        origin(later),
    ) == shifted(series[i].points@, origin(series)) by {
        let a = shifted(later[i].points@, origin(later));
        let b = shifted(series[i].points@, origin(series));
        assert(later[i].key() == series[i].key());
        assert forall|j: int| 0 <= j < b.len() implies a[j] == b[j] by {
            assert(later[i].points@[j].0 == series[i].points@[j].0 + d);
        }
        assert(a =~= b);
    }
    assert forall|i: int| 0 <= i < series.len() implies (#[trigger] later[i]).key()
        == series[i].key() by {}
    if is_normalized(zero, later) {
        assert forall|i: int| 0 <= i < zero.len() implies (#[trigger] zero[i]).key()
            == series[i].key() && zero[i].points@ == shifted(series[i].points@, origin(series)) by {
            assert(later[i].key() == series[i].key());
        }
    }
    if is_normalized(zero, series) {
        assert forall|i: int| 0 <= i < zero.len() implies (#[trigger] zero[i]).key()
            == later[i].key() && zero[i].points@ == shifted(later[i].points@, origin(later)) by {
            assert(later[i].key() == series[i].key());
        }
    }
}

/// An evaluation does not depend on when the ground truth was recorded: moving all of its
/// timestamps on by the same time gives the same plans.
pub proof fn plans_ignore_when_recording_began(
    r: Evaluation,
    later: Seq<RateSeries>,
    gt: Seq<RateSeries>,
    est: Seq<RateSeries>,
    unc: Seq<RateSeries>,
    bin_ms: u64,
    d: u64,
)
    requires
        is_delayed(later, gt, d),
    ensures
        evaluates(r, later, est, unc, bin_ms) <==> evaluates(r, gt, est, unc, bin_ms),
{
    assert forall|zero: Seq<RateSeries>| #[trigger] is_normalized(zero, later) == is_normalized(
        zero,
        gt,
    ) by {
        normalizing_forgets_the_start(zero, later, gt, d);
    }
    assert forall|zero: Seq<RateSeries>| #[trigger] is_normalized(zero, gt) == is_normalized(
        zero,
        later,
    ) by {
        normalizing_forgets_the_start(zero, later, gt, d);
    }
}

proof fn lemma_points_for(series: Seq<RateSeries>, key: SeriesKey)
    ensures
        (forall|j: int| 0 <= j < series.len() ==> (#[trigger] series[j]).key() != key)
            ==> points_for(series, key) == Seq::<(u64, u64)>::empty(),
        forall|i: int|
            0 <= i < series.len() && (#[trigger] series[i]).key() == key && (forall|j: int|
                i < j < series.len() ==> (#[trigger] series[j]).key() != key) ==> points_for(
                series,
                key,
            ) == series[i].points@,
    decreases series.len(),
{
    if series.len() > 0 {
        let front = series.drop_last();
        lemma_points_for(front, key);
        let n = series.len() - 1;
        if series[n].key() != key {
            assert(forall|j: int| 0 <= j < front.len() ==> #[trigger] front[j] == series[j]);
            assert forall|i: int|
                0 <= i < series.len() && (#[trigger] series[i]).key() == key && (forall|j: int|
                    i < j < series.len() ==> (#[trigger] series[j]).key()
                        != key) implies points_for(series, key) == series[i].points@ by {
                assert(front[i].key() == key);
                assert forall|j: int| i < j < front.len() implies (#[trigger] front[j]).key()
                    != key by {
                    assert(series[j].key() != key);
                }
            }
            if forall|j: int| 0 <= j < series.len() ==> (#[trigger] series[j]).key() != key {
                assert forall|j: int| 0 <= j < front.len() implies (#[trigger] front[j]).key()
                    != key by {
                    assert(series[j].key() != key);
                }
            }
        }
    }
}

/// An event on a thread is scored by the estimate, and by the uncertainty, of the same event on
/// the same thread: where one series has that name and that thread, its points are what is binned;
/// where none has, there are no bins.
pub proof fn plans_score_the_same_event_and_thread(
    plan: EventPlan,
    gt: RateSeries,
    est: Seq<RateSeries>,
    unc: Seq<RateSeries>,
    width: u64,
)
    requires
        is_plan(plan, gt, est, unc, width),
    ensures
        plan.event_name@ == gt.event_name@,
        plan.tid == gt.tid,
        is_binned(plan.gt@, gt.points@, width),
        forall|i: int|
            0 <= i < est.len() && (#[trigger] est[i]).event_name@ == gt.event_name@ && est[i].tid
                == gt.tid && (forall|j: int|
                0 <= j < est.len() && j != i ==> (#[trigger] est[j]).event_name@ != gt.event_name@
                    || est[j].tid != gt.tid) ==> is_binned(plan.est@, est[i].points@, width),
        forall|i: int|
            0 <= i < unc.len() && (#[trigger] unc[i]).event_name@ == gt.event_name@ && unc[i].tid
                == gt.tid && (forall|j: int|
                0 <= j < unc.len() && j != i ==> (#[trigger] unc[j]).event_name@ != gt.event_name@
                    || unc[j].tid != gt.tid) ==> is_binned(plan.unc@, unc[i].points@, width),
        (forall|j: int|
            0 <= j < est.len() ==> (#[trigger] est[j]).event_name@ != gt.event_name@ || est[j].tid
                != gt.tid) ==> plan.est@.len() == 0,
        (forall|j: int|
            0 <= j < unc.len() ==> (#[trigger] unc[j]).event_name@ != gt.event_name@ || unc[j].tid
                != gt.tid) ==> plan.unc@.len() == 0,
{
    lemma_points_for(est, gt.key());
    lemma_points_for(unc, gt.key());
    lemma_no_points_no_bins(plan.est@, width);
    lemma_no_points_no_bins(plan.unc@, width);
    assert forall|i: int|
        0 <= i < est.len() && (#[trigger] est[i]).event_name@ == gt.event_name@ && est[i].tid
            == gt.tid && (forall|j: int|
            0 <= j < est.len() && j != i ==> (#[trigger] est[j]).event_name@ != gt.event_name@
                || est[j].tid != gt.tid) implies is_binned(plan.est@, est[i].points@, width) by {
        assert(est[i].key() == gt.key());
        assert forall|j: int| i < j < est.len() implies (#[trigger] est[j]).key() != gt.key() by {}
    }
    assert forall|i: int|
        0 <= i < unc.len() && (#[trigger] unc[i]).event_name@ == gt.event_name@ && unc[i].tid
            == gt.tid && (forall|j: int|
            0 <= j < unc.len() && j != i ==> (#[trigger] unc[j]).event_name@ != gt.event_name@
                || unc[j].tid != gt.tid) implies is_binned(plan.unc@, unc[i].points@, width) by {
        assert(unc[i].key() == gt.key());
        assert forall|j: int| i < j < unc.len() implies (#[trigger] unc[j]).key() != gt.key() by {}
    }
}

proof fn lemma_no_points_no_bins(list: Seq<BinValues>, width: u64)
    ensures
        is_binned(list, Seq::<(u64, u64)>::empty(), width) ==> list.len() == 0,
{
    if is_binned(list, Seq::<(u64, u64)>::empty(), width) && list.len() > 0 {
        assert(list[0].values@.len() > 0);
        assert(times_of(Seq::<(u64, u64)>::empty()).len() == 0);
        assert(values_in(Seq::<(u64, u64)>::empty(), width, list[0].index).len() == 0);
    }
}

proof fn lemma_values_in(points: Seq<(u64, u64)>, width: u64, index: u64)
    requires
        points.len() <= usize::MAX,
        width > 0,
    ensures
        values_in(points, width, index) == points.filter(
            |p: (u64, u64)| p.0 / width == index,
        ).map_values(|p: (u64, u64)| p.1),
    decreases points.len(),
{
    reveal(Seq::filter);
    let kept = points.filter(|p: (u64, u64)| p.0 / width == index);
    if points.len() == 0 {
        assert(times_of(points).len() == 0);
        assert(values_in(points, width, index) =~= kept.map_values(|p: (u64, u64)| p.1));
    } else {
        let front = points.drop_last();
        lemma_values_in(front, width, index);
        let rest = front.filter(|p: (u64, u64)| p.0 / width == index);
        assert(times_of(points).drop_last() =~= times_of(front));
        let before = bins::positions_in(times_of(front), width, index);
        bins::bins_hold_their_points(times_of(front), width, index);
        assert(times_of(points).last() == points.last().0);
        let all = values_in(points, width, index);
        let old_values = values_in(front, width, index);
        assert(old_values.len() == before.len());
        if points.last().0 / width == index {
            assert(kept == rest.push(points.last()));
            assert(all =~= old_values.push(points.last().1)) by {
                assert forall|k: int| 0 <= k < before.len() implies all[k] == old_values[k] by {
                    assert(before[k] < front.len());
                    assert(front[before[k] as int] == points[before[k] as int]);
                }
            }
            assert(kept.map_values(|p: (u64, u64)| p.1) =~= rest.map_values(
                |p: (u64, u64)| p.1,
            ).push(points.last().1));
        } else {
            assert(kept == rest);
            assert(all =~= old_values) by {
                assert forall|k: int| 0 <= k < before.len() implies all[k] == old_values[k] by {
                    assert(before[k] < front.len());
                    assert(front[before[k] as int] == points[before[k] as int]);
                }
            }
        }
    }
}

/// A bin holds the values of the points whose time, divided by the width of a bin, is its number:
/// all of them, in the order of the points. Every point has a bin, and no number has two.
pub proof fn bins_are_by_time(list: Seq<BinValues>, points: Seq<(u64, u64)>, width: u64)
    requires
        points.len() <= usize::MAX,
        width > 0,
        is_binned(list, points, width),
    ensures
        forall|i: int|
            0 <= i < list.len() ==> (#[trigger] list[i]).values@ == points.filter(
                |p: (u64, u64)| p.0 / width == list[i].index,
            ).map_values(|p: (u64, u64)| p.1) && list[i].values@.len() > 0,
        forall|p: int|
            0 <= p < points.len() ==> has_index(list, (#[trigger] points[p]).0 / width),
        forall|i: int, j: int|
            0 <= i < list.len() && 0 <= j < list.len() && (#[trigger] list[i]).index == (
            #[trigger] list[j]).index ==> i == j,
{
    assert forall|i: int| 0 <= i < list.len() implies (#[trigger] list[i]).values@ == points.filter(
        |p: (u64, u64)| p.0 / width == list[i].index,
    ).map_values(|p: (u64, u64)| p.1) && list[i].values@.len() > 0 by {
        lemma_values_in(points, width, list[i].index);
    }
    assert forall|p: int| 0 <= p < points.len() implies has_index(
        list,
        (#[trigger] points[p]).0 / width,
    ) by {
        let index = points[p].0 / width;
        bins::every_point_is_binned(times_of(points), width, p);
        let at = bins::positions_in(times_of(points), width, index);
        assert(at.contains(p as usize));
        assert(values_in(points, width, index).len() == at.len());
    }
}

/// The coverage of an event is the number of its ground-truth bins that have an estimated bin of
/// the same number.
pub proof fn coverage_counts_bins_with_an_estimate(gt: Seq<BinValues>, est: Seq<BinValues>)
    ensures
        covered_bins(gt, est) == gt.filter(|b: BinValues| has_index(est, b.index)).len(),
    decreases gt.len(),
{
    reveal(Seq::filter);
    if gt.len() > 0 {
        coverage_counts_bins_with_an_estimate(gt.drop_last(), est);
        lemma_bin_position(est, gt.last().index);
        if bin_position(est, gt.last().index) is Some {
            assert(est[bin_position(est, gt.last().index)->0].index == gt.last().index);
            assert(has_index(est, gt.last().index));
        }
    }
}

proof fn lemma_first_bin(list: Seq<BinValues>)
    ensures
        match first_bin(list) {
            Some(first) => has_index(list, first) && forall|i: int|
                0 <= i < list.len() ==> first <= (#[trigger] list[i]).index,
            None => list.len() == 0,
        },
    decreases list.len(),
{
    if list.len() > 0 {
        let front = list.drop_last();
        lemma_first_bin(front);
        let n = list.len() - 1;
        if first_bin(list) == Some(list[n].index) {
            assert(has_index(list, first_bin(list)->0));
        } else {
            let k = choose|k: int|
                0 <= k < front.len() && (#[trigger] front[k]).index == first_bin(front)->0;
            assert(list[k].index == first_bin(list)->0);
        }
        assert forall|i: int| 0 <= i < list.len() implies first_bin(list)->0 <= (
        #[trigger] list[i]).index by {
            if i < front.len() {
                assert(front[i] == list[i]);
            }
        }
    }
}

/// Whether a position is that of the bin with a number, and absent only if there is none.
pub open spec fn is_position_of(position: Option<usize>, list: Seq<BinValues>, index: u64) -> bool {
    match position {
        Some(p) => p < list.len() && list[p as int].index == index,
        None => forall|i: int| 0 <= i < list.len() ==> (#[trigger] list[i]).index != index,
    }
}

/// A ground-truth bin counts exactly if some estimated bin has its number or a lower one. The bins
/// that count keep their order, and each is held against the estimated bin and the uncertainty bin
/// of its own number.
pub proof fn bins_from_the_first_estimate_on_count(
    gt: Seq<BinValues>,
    est: Seq<BinValues>,
    unc: Seq<BinValues>,
)
    requires
        gt.len() <= usize::MAX,
        est.len() <= usize::MAX,
        unc.len() <= usize::MAX,
    ensures
        forall|g: int|
            0 <= g < gt.len() ==> (#[trigger] counts(scored_bins(gt, est, unc), g) <==> exists|
                e: int,
            |
                0 <= e < est.len() && (#[trigger] est[e]).index <= gt[g].index),
        forall|k: int|
            0 <= k < scored_bins(gt, est, unc).len() ==> is_scored(
                #[trigger] scored_bins(gt, est, unc)[k],
                gt,
                est,
                unc,
            ),
        forall|k: int, l: int|
            0 <= k < l < scored_bins(gt, est, unc).len() ==> (#[trigger] scored_bins(
                gt,
                est,
                unc,
            )[k]).gt < (#[trigger] scored_bins(gt, est, unc)[l]).gt,
    decreases gt.len(),
{
    let all = scored_bins(gt, est, unc);
    if gt.len() > 0 {
        let front = gt.drop_last();
        bins_from_the_first_estimate_on_count(front, est, unc);
        let rest = scored_bins(front, est, unc);
        let n = gt.len() - 1;
        lemma_first_bin(est);
        lemma_bin_position(est, gt[n].index);
        lemma_bin_position(unc, gt[n].index);
        let observed = exists|e: int|
            0 <= e < est.len() && (#[trigger] est[e]).index <= gt[n].index;
        if observed {
            let e = choose|e: int| 0 <= e < est.len() && (#[trigger] est[e]).index <= gt[n].index;
            assert(first_bin(est)->0 <= est[e].index);
            assert(all.len() == rest.len() + 1);
            assert(all[rest.len() as int].gt == n);
            lemma_no_index(est, gt[n].index);
            lemma_no_index(unc, gt[n].index);
            assert(is_scored(all[rest.len() as int], gt, est, unc));
        } else {
            if first_bin(est) is Some && first_bin(est)->0 <= gt[n].index {
                let e = choose|e: int|
                    0 <= e < est.len() && (#[trigger] est[e]).index == first_bin(est)->0;
                assert(est[e].index <= gt[n].index);
            }
            assert(all == rest);
        }
        assert forall|k: int| 0 <= k < rest.len() implies #[trigger] all[k] == rest[k] && is_scored(
            all[k],
            gt,
            est,
            unc,
        ) && all[k].gt < n by {
            assert(is_scored(rest[k], front, est, unc));
            assert(front[rest[k].gt as int] == gt[rest[k].gt as int]);
        }
        assert forall|k: int, l: int| 0 <= k < l < all.len() implies (#[trigger] all[k]).gt < (
        #[trigger] all[l]).gt by {
            assert(all[k] == rest[k]);
            if l < rest.len() {
                assert(all[l] == rest[l]);
            }
        }
        assert forall|g: int| 0 <= g < gt.len() implies (#[trigger] counts(all, g) <==> exists|
            e: int,
        |
            0 <= e < est.len() && (#[trigger] est[e]).index <= gt[g].index) by {
            if g < n {
                assert(counts(rest, g) <==> exists|e: int|
                    0 <= e < est.len() && (#[trigger] est[e]).index <= front[g].index);
                assert(front[g] == gt[g]);
                if exists|e: int| 0 <= e < est.len() && (#[trigger] est[e]).index <= gt[g].index {
                    let e = choose|e: int|
                        0 <= e < est.len() && (#[trigger] est[e]).index <= gt[g].index;
                    assert(est[e].index <= front[g].index);
                    let k = choose|k: int| 0 <= k < rest.len() && (#[trigger] rest[k]).gt == g;
                    assert(all[k].gt == g);
                }
                if exists|k: int| 0 <= k < all.len() && (#[trigger] all[k]).gt == g {
                    let k = choose|k: int| 0 <= k < all.len() && (#[trigger] all[k]).gt == g;
                    assert(k < rest.len());
                    assert(rest[k].gt == g);
                    let e = choose|e: int|
                        0 <= e < est.len() && (#[trigger] est[e]).index <= front[g].index;
                    assert(est[e].index <= gt[g].index);
                }
            } else {
                if exists|k: int| 0 <= k < all.len() && (#[trigger] all[k]).gt == g {
                    let k = choose|k: int| 0 <= k < all.len() && (#[trigger] all[k]).gt == g;
                    if k < rest.len() {
                        assert(all[k] == rest[k]);
                    }
                    assert(observed);
                }
            }
        }
    }
}

/// Whether a ground-truth bin is among those that count.
pub open spec fn counts(scored: Seq<ScoredBin>, g: int) -> bool {
    exists|k: int| 0 <= k < scored.len() && (#[trigger] scored[k]).gt == g
}

/// Whether a bin that counts is held against the bins of its own number.
pub open spec fn is_scored(
    bin: ScoredBin,
    gt: Seq<BinValues>,
    est: Seq<BinValues>,
    unc: Seq<BinValues>,
) -> bool {
    &&& bin.gt < gt.len()
    &&& is_position_of(bin.est, est, gt[bin.gt as int].index)
    &&& is_position_of(bin.unc, unc, gt[bin.gt as int].index)
}

proof fn lemma_no_index(list: Seq<BinValues>, index: u64)
    ensures
        !has_index(list, index) ==> forall|i: int|
            0 <= i < list.len() ==> (#[trigger] list[i]).index != index,
{
}

proof fn lemma_with_points(order: Seq<usize>, series: Seq<RateSeries>)
    ensures
        with_points(order, series) == order.filter(
            |p: usize| series[p as int].points@.len() > 0,
        ),
    decreases order.len(),
{
    reveal(Seq::filter);
    if order.len() > 0 {
        lemma_with_points(order.drop_last(), series);
    }
}

proof fn lemma_not_in(order: Seq<usize>, series: Seq<RateSeries>, gt: Seq<RateSeries>)
    ensures
        not_in(order, series, gt) == order.filter(
            |p: usize| !has_key(gt, series[p as int].key()),
        ),
    decreases order.len(),
{
    reveal(Seq::filter);
    if order.len() > 0 {
        lemma_not_in(order.drop_last(), series, gt);
    }
}

proof fn lemma_lists_all(order: Seq<usize>, n: nat, k: int)
    requires
        order.len() == n,
        n <= usize::MAX,
        order.no_duplicates(),
        forall|i: int| 0 <= i < n ==> (#[trigger] order[i]) < n,
        0 <= k < n,
    ensures
        order.contains(k as usize),
{
    let listed = order.to_set();
    order.unique_seq_to_set();
    let all = Set::new(|p: usize| p < n);
    lemma_below(n);
    assert(listed.subset_of(all));
    vstd::set_lib::lemma_subset_equality(listed, all);
    assert(listed.contains(k as usize));
}

proof fn lemma_below(n: nat)
    requires
        n <= usize::MAX,
    ensures
        Set::new(|p: usize| p < n).finite(),
        Set::new(|p: usize| p < n).len() == n,
    decreases n,
{
    let all = Set::new(|p: usize| p < n);
    if n == 0 {
        assert(all =~= Set::empty());
    } else {
        lemma_below((n - 1) as nat);
        let fewer = Set::new(|p: usize| p < n - 1);
        assert(all =~= fewer.insert((n - 1) as usize));
    }
}

/// Whether a plan is that of some event and thread of the ground truth that has points.
pub open spec fn scores_a_track(
    plan: EventPlan,
    gt: Seq<RateSeries>,
    est: Seq<RateSeries>,
    unc: Seq<RateSeries>,
    width: u64,
) -> bool {
    exists|k: int|
        0 <= k < gt.len() && (#[trigger] gt[k]).points@.len() > 0 && is_plan(
            plan,
            gt[k],
            est,
            unc,
            width,
        )
}

/// Every event and thread of the ground truth that has points is scored, and nothing else is.
/// Every track of the estimate is either one of the ground truth or reported as one that it does
/// not have.
pub proof fn every_track_is_scored_or_reported(
    r: Evaluation,
    gt: Seq<RateSeries>,
    est: Seq<RateSeries>,
    unc: Seq<RateSeries>,
    width: u64,
    gt_order: Seq<usize>,
    est_order: Seq<usize>,
    g: int,
    e: int,
)
    requires
        gt.len() <= usize::MAX,
        est.len() <= usize::MAX,
        is_evaluation(r, gt, est, unc, width, gt_order, est_order),
    ensures
        0 <= g < gt.len() && gt[g].points@.len() > 0 ==> exists|i: int|
            0 <= i < r.plans@.len() && is_plan(#[trigger] r.plans@[i], gt[g], est, unc, width),
        forall|i: int|
            0 <= i < r.plans@.len() ==> scores_a_track(
                #[trigger] r.plans@[i],
                gt,
                est,
                unc,
                width,
            ),
        r.plans@.len() == gt_order.filter(|p: usize| gt[p as int].points@.len() > 0).len(),
        0 <= e < est.len() ==> (has_key(gt, est[e].key()) || exists|i: int|
            0 <= i < r.spurious@.len() && (#[trigger] r.spurious@[i]).event_name@
                == est[e].event_name@ && r.spurious@[i].tid == est[e].tid),
        forall|i: int|
            0 <= i < r.spurious@.len() ==> !has_key(
                gt,
                ((#[trigger] r.spurious@[i]).event_name@, r.spurious@[i].tid),
            ) && has_key(est, (r.spurious@[i].event_name@, r.spurious@[i].tid)),
{
    broadcast use vstd::seq_lib::group_filter_ensures;

    lemma_with_points(gt_order, gt);
    lemma_not_in(est_order, est, gt);
    let scored = gt_order.filter(|p: usize| gt[p as int].points@.len() > 0);
    let extra = est_order.filter(|p: usize| !has_key(gt, est[p as int].key()));
    if 0 <= g < gt.len() && gt[g].points@.len() > 0 {
        lemma_lists_all(gt_order, gt.len(), g);
        let k = choose|k: int| 0 <= k < gt_order.len() && gt_order[k] == g as usize;
        assert(scored.contains(gt_order[k]));
        let i = choose|i: int| 0 <= i < scored.len() && scored[i] == g as usize;
        assert(is_plan(r.plans@[i], gt[scored[i] as int], est, unc, width));
    }
    assert forall|i: int| 0 <= i < r.plans@.len() implies scores_a_track(
        #[trigger] r.plans@[i],
        gt,
        est,
        unc,
        width,
    ) by {
        assert(is_plan(r.plans@[i], gt[scored[i] as int], est, unc, width));
        assert(scored.contains(scored[i]));
        gt_order.lemma_filter_contains_rev(
            |p: usize| gt[p as int].points@.len() > 0,
            scored[i],
        );
        let o = choose|o: int| 0 <= o < gt_order.len() && gt_order[o] == scored[i];
        assert(gt_order[o] < gt.len());
        assert(gt[scored[i] as int].points@.len() > 0);
    }
    if 0 <= e < est.len() && !has_key(gt, est[e].key()) {
        lemma_lists_all(est_order, est.len(), e);
        let k = choose|k: int| 0 <= k < est_order.len() && est_order[k] == e as usize;
        assert(extra.contains(est_order[k]));
        let i = choose|i: int| 0 <= i < extra.len() && extra[i] == e as usize;
        assert((r.spurious@[i].event_name@, r.spurious@[i].tid) == est[extra[i] as int].key());
    }
    assert forall|i: int| 0 <= i < r.spurious@.len() implies !has_key(
        gt,
        ((#[trigger] r.spurious@[i]).event_name@, r.spurious@[i].tid),
    ) && has_key(est, (r.spurious@[i].event_name@, r.spurious@[i].tid)) by {
        assert((r.spurious@[i].event_name@, r.spurious@[i].tid) == est[extra[i] as int].key());
        assert(extra.contains(extra[i]));
        est_order.lemma_filter_contains_rev(
            |p: usize| !has_key(gt, est[p as int].key()),
            extra[i],
        );
        let o = choose|o: int| 0 <= o < est_order.len() && est_order[o] == extra[i];
        assert(est_order[o] < est.len());
    }
}

/// The events without coverage are those whose ground truth shares no bin with the estimate.
pub proof fn uncovered_counts_plans_without_coverage(plans: Seq<EventPlan>)
    ensures
        uncovered(plans) == plans.filter(|p: EventPlan| p.covered == 0).len(),
    decreases plans.len(),
{
    reveal(Seq::filter);
    if plans.len() > 0 {
        uncovered_counts_plans_without_coverage(plans.drop_last());
    }
}

/// Normalizing moves every point of every series by the same time, so that the earliest of all is
/// at zero; events, threads and values stay as they are.
pub proof fn normalizing_moves_all_series_alike(
    new: Seq<RateSeries>,
    series: Seq<RateSeries>,
    i: int,
    a: int,
    k: int,
    b: int,
)
    requires
        starts_earliest(series),
        is_normalized(new, series),
        0 <= i < series.len(),
        0 <= a < series[i].points@.len(),
        0 <= k < series.len(),
        0 <= b < series[k].points@.len(),
    ensures
        new.len() == series.len(),
        new[i].event_name@ == series[i].event_name@,
        new[i].tid == series[i].tid,
        new[i].points@.len() == series[i].points@.len(),
        new[i].points@[a].1 == series[i].points@[a].1,
        new[i].points@[a].0 - new[k].points@[b].0 == series[i].points@[a].0
            - series[k].points@[b].0,
        exists|s: int, p: int|
            0 <= s < new.len() && 0 <= p < new[s].points@.len() && (
            #[trigger] new[s].points@[p]).0 == 0,
{
    lemma_earliest(series);
    assert(new[i].key() == series[i].key());
    assert(new[k].key() == series[k].key());
    assert(series[i].points@[0].0 <= series[i].points@[a].0);
    assert(series[k].points@[0].0 <= series[k].points@[b].0);
    let s = choose|s: int|
        0 <= s < series.len() && (#[trigger] series[s]).points@.len() > 0
            && series[s].points@[0].0 == earliest(series)->0;
    assert(new[s].key() == series[s].key());
    assert(new[s].points@[0].0 == 0);
}

/// A bin is as many milliseconds wide as asked for: the first one holds what comes before so many
/// milliseconds have passed.
pub proof fn the_first_bin_lasts_its_milliseconds(bin_ms: u64, time_ns: u64)
    requires
        0 < bin_ms,
        bin_ms * 1_000_000 <= u64::MAX,
    ensures
        time_ns / bin_width_ns(bin_ms) == 0 <==> time_ns / 1_000_000 < bin_ms,
{
    let w = bin_width_ns(bin_ms) as int;
    let t = time_ns as int;
    let ms = bin_ms as int;
    assert(w == ms * 1_000_000);
    assert(t / w == 0 <==> t < w) by (nonlinear_arith)
        requires
            w > 0,
            t >= 0,
    ;
}

} // verus!
