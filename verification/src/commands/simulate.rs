//! Replaying the rates of a trace: what is loaded of it, and how long a simulation runs.

use crate::commands::evaluate;
use crate::event::{self, Event, EventId, EventRegistry};
use crate::perfetto::packet::PacketView;
use crate::perfetto::reader::{read_rate_timeseries, RateSeries, RateTimeSeries};
use crate::perfetto::trace::{self, TraceError, TraceFault};
use crate::source::virtual_source::{self, TimeVaryingRates, TimedRates};
use crate::state::{self, positive, Estimate};
use crate::text::{self, decimal_text, owned, push_decimal, push_padded_right};
use vstd::prelude::*;

verus! {

/// Model of the recorded rates of one event on one thread.
pub struct TimedView {
    pub event_id: EventId,
    pub tid: u32,
    pub points: Seq<(u64, u64)>,
}

/// The model of recorded rates.
pub open spec fn timed_view(series: Seq<TimedRates>) -> Seq<TimedView> {
    series.map_values(
        |s: TimedRates| TimedView { event_id: s.event_id, tid: s.tid, points: s.points@ },
    )
}

/// The series of known events, by event ID, in order.
pub open spec fn known(list: Seq<RateSeries>, events: Seq<Event>) -> Seq<TimedView>
    decreases list.len(),
{
    if list.len() == 0 {
        Seq::empty()
    } else {
        let before = known(list.drop_last(), events);
        let s = list.last();
        match event::last_named(events, s.event_name@, events.len()) {
            Some(id) => before.push(
                TimedView { event_id: id as EventId, tid: s.tid, points: s.points@ },
            ),
            None => before,
        }
    }
}

/// The earliest first timestamp; zero if nothing is recorded.
pub open spec fn origin(series: Seq<TimedView>) -> u64 {
    match earliest(series) {
        Some(ts) => ts,
        None => 0,
    }
}

/// The earliest first timestamp, if anything is recorded.
pub open spec fn earliest(series: Seq<TimedView>) -> Option<u64>
    decreases series.len(),
{
    if series.len() == 0 {
        None
    } else {
        let rest = earliest(series.drop_last());
        let points = series.last().points;
        if points.len() == 0 {
            rest
        } else {
            match rest {
                Some(ts) if ts <= points[0].0 => Some(ts),
                _ => Some(points[0].0),
            }
        }
    }
}

/// The latest last timestamp; zero if nothing is recorded.
pub open spec fn latest(series: Seq<TimedView>) -> u64
    decreases series.len(),
{
    if series.len() == 0 {
        0
    } else {
        let rest = latest(series.drop_last());
        let points = series.last().points;
        if points.len() > 0 && points.last().0 > rest {
            points.last().0
        } else {
            rest
        }
    }
}

/// Series shifted back in time.
pub open spec fn shifted(series: Seq<TimedView>, by: u64) -> Seq<TimedView> {
    series.map_values(
        |s: TimedView| TimedView { points: evaluate::shifted(s.points, by), ..s },
    )
}

/// The rates of a trace that a simulation replays: those of known events, from time zero on.
pub open spec fn replayed(list: Seq<RateSeries>, events: Seq<Event>) -> Seq<TimedView> {
    shifted(known(list, events), origin(known(list, events)))
}

proof fn lemma_earliest(series: Seq<TimedView>, i: int)
    requires
        0 <= i < series.len(),
        series[i].points.len() > 0,
    ensures
        earliest(series) is Some,
        earliest(series)->0 <= series[i].points[0].0,
    decreases series.len(),
{
    if i < series.len() - 1 {
        lemma_earliest(series.drop_last(), i);
    }
}

/// Where a replayed series comes from.
proof fn lemma_known(list: Seq<RateSeries>, events: Seq<Event>, i: int) -> (at: int)
    requires
        0 <= i < known(list, events).len(),
    ensures
        0 <= at < list.len(),
        event::last_named(events, list[at].event_name@, events.len()) is Some,
        known(list, events)[i].event_id == event::last_named(
            events,
            list[at].event_name@,
            events.len(),
        )->0 as EventId,
        known(list, events)[i].tid == list[at].tid,
        known(list, events)[i].points == list[at].points@,
        at >= i,
        at < list.len() - 1 ==> i < known(list.drop_last(), events).len(),
    decreases list.len(),
{
    let front = list.drop_last();
    let before = known(front, events);
    if i < before.len() {
        let at = lemma_known(front, events, i);
        assert(front[at] == list[at]);
        at
    } else {
        lemma_known_len(front, events);
        list.len() - 1
    }
}

proof fn lemma_known_len(list: Seq<RateSeries>, events: Seq<Event>)
    ensures
        known(list, events).len() <= list.len(),
    decreases list.len(),
{
    if list.len() > 0 {
        lemma_known_len(list.drop_last(), events);
    }
}

proof fn lemma_named(events: Seq<Event>, name: Seq<char>, n: nat)
    requires
        n <= events.len(),
    ensures
        match event::last_named(events, name, n) {
            Some(id) => id < n && events[id as int].name@ == name,
            None => true,
        },
    decreases n,
{
    if n > 0 {
        lemma_named(events, name, (n - 1) as nat);
    }
}

/// No two replayed series are of the same event and thread.
proof fn lemma_known_distinct(list: Seq<RateSeries>, events: Seq<Event>, i: int, j: int)
    requires
        events.len() <= u32::MAX,
        forall|a: int, b: int|
            0 <= a < b < list.len() ==> (#[trigger] list[a]).key() != (#[trigger] list[b]).key(),
        0 <= i < j < known(list, events).len(),
    ensures
        known(list, events)[i].event_id != known(list, events)[j].event_id || known(
            list,
            events,
        )[i].tid != known(list, events)[j].tid,
    decreases list.len(),
{
    let front = list.drop_last();
    let before = known(front, events);
    if j < before.len() {
        assert forall|a: int, b: int| 0 <= a < b < front.len() implies (
        #[trigger] front[a]).key() != (#[trigger] front[b]).key() by {
            assert(front[a] == list[a] && front[b] == list[b]);
        }
        lemma_known_distinct(front, events, i, j);
    } else {
        let a = lemma_known(front, events, i);
        let b = list.len() - 1;
        assert(front[a] == list[a]);
        assert(list[a].key() != list[b].key());
        lemma_named(events, list[a].event_name@, events.len());
        lemma_named(events, list[b].event_name@, events.len());
    }
}

fn copy_shifted(points: &Vec<(u64, u64)>, by: u64) -> (r: Vec<(u64, u64)>)
    requires
        forall|i: int| 0 <= i < points@.len() ==> by <= (#[trigger] points@[i]).0,
    ensures
        r@ == evaluate::shifted(points@, by),
{
    let mut out: Vec<(u64, u64)> = Vec::new();
    let mut i: usize = 0;
    while i < points.len()
        invariant
            forall|i: int| 0 <= i < points@.len() ==> by <= (#[trigger] points@[i]).0,
            i <= points@.len(),
            out@.len() == i,
            forall|k: int| 0 <= k < i ==> #[trigger] out@[k] == evaluate::shifted(points@, by)[k],
        decreases points@.len() - i,
    {
        let (ts, rate) = points[i];
        assert(by <= points@[i as int].0);
        out.push((ts - by, rate));
        i = i + 1;
    }
    assert(out@ =~= evaluate::shifted(points@, by));
    out
}

/// Copies the series of known events and finds the earliest timestamp.
fn select_known(list: &Vec<RateSeries>, registry: &EventRegistry) -> (r: (
    Vec<TimedRates>,
    Option<u64>,
))
    requires
        registry.wf(),
    ensures
        timed_view(r.0@) == known(list@, registry@),
        r.1 == earliest(known(list@, registry@)),
{
    let mut out: Vec<TimedRates> = Vec::new();
    let mut first: Option<u64> = None;
    let ghost events = registry@;
    let mut i: usize = 0;
    assert(list@.take(0) =~= Seq::empty());
    assert(timed_view(out@) =~= known(list@.take(0), events));
    while i < list.len()
        invariant
            events == registry@,
            registry.wf(),
            i <= list@.len(),
            timed_view(out@) == known(list@.take(i as int), events),
            first == earliest(known(list@.take(i as int), events)),
        decreases list@.len() - i,
    {
        let s = &list[i];
        let ghost before = known(list@.take(i as int), events);
        assert(list@.take(i as int + 1).drop_last() =~= list@.take(i as int));
        assert(list@.take(i as int + 1).last() == *s);
        if let Some(id) = registry.lookup(s.event_name.as_str()) {
            let points = copy_shifted(&s.points, 0);
            assert(points@ =~= s.points@);
            let ghost view = TimedView { event_id: id, tid: s.tid, points: s.points@ };
            out.push(TimedRates { event_id: id, tid: s.tid, points });
            assert(timed_view(out@) =~= before.push(view));
            assert(before.push(view).drop_last() =~= before);
            if s.points.len() > 0 {
                let ts: u64 = s.points[0].0;
                first = match first {
                    Some(old_ts) => if old_ts <= ts {
                        Some(old_ts)
                    } else {
                        Some(ts)
                    },
                    None => Some(ts),
                };
            }
        }
        i = i + 1;
    }
    assert(list@.take(i as int) =~= list@);
    (out, first)
}

/// Loads the rates of a trace: the series of known events, shifted so that the earliest point is at
/// time zero, and the time of the latest point.
pub fn load_rates(trace: &[u8], registry: &EventRegistry) -> (r: Result<
    (TimeVaryingRates, u64),
    TraceError,
>)
    requires
        registry.wf(),
    ensures
        match r {
            Ok((rates, max_ts_ns)) => {
                &&& rates.wf()
                &&& trace::trace_packets(trace@, 0) is Ok
                &&& exists|list: RateTimeSeries| #[trigger]
                    evaluate::is_series_of(list, trace::trace_packets(trace@, 0)->Ok_0)
                        && timed_view(rates.series@) == replayed(list.series@, registry@)
                        && max_ts_ns == latest(replayed(list.series@, registry@))
            },
            Err(e) => trace::trace_packets(trace@, 0) == Err::<Seq<PacketView>, TraceFault>(e@),
        },
{
    let list = match read_rate_timeseries(trace) {
        Ok(list) => list,
        Err(e) => {
            return Err(e);
        },
    };
    let ghost packets = trace::trace_packets(trace@, 0)->Ok_0;
    assert(evaluate::is_series_of(list, packets));
    let (selected, first) = select_known(&list.series, registry);
    let by: u64 = match first {
        Some(ts) => ts,
        None => 0,
    };
    let ghost views = known(list.series@, registry@);
    let ghost expected = replayed(list.series@, registry@);
    assert(by == origin(views));
    let mut series: Vec<TimedRates> = Vec::new();
    let mut max_ts_ns: u64 = 0;
    let mut i: usize = 0;
    assert(expected.take(0) =~= Seq::empty());
    assert(timed_view(series@) =~= expected.take(0));
    while i < selected.len()
        invariant
            evaluate::is_series_of(list, packets),
            views == known(list.series@, registry@),
            expected == replayed(list.series@, registry@),
            timed_view(selected@) == views,
            by == origin(views),
            i <= selected@.len(),
            timed_view(series@) == expected.take(i as int),
            max_ts_ns == latest(expected.take(i as int)),
        decreases selected@.len() - i,
    {
        let ghost points = selected@[i as int].points@;
        assert(views[i as int].points == points);
        assert forall|k: int| 0 <= k < points.len() implies by <= (#[trigger] points[k]).0 by {
            let at = lemma_known(list.series@, registry@, i as int);
            evaluate::series_are_in_order(list, packets, at, 0, k);
            lemma_earliest(views, i as int);
        }
        let ghost before = series@;
        let moved = copy_shifted(&selected[i].points, by);
        assert(expected.take(i as int + 1).drop_last() =~= expected.take(i as int));
        assert(expected[i as int].points == moved@);
        if moved.len() > 0 {
            let ts: u64 = moved[moved.len() - 1].0;
            if ts > max_ts_ns {
                max_ts_ns = ts;
            }
        }
        series.push(
            TimedRates { event_id: selected[i].event_id, tid: selected[i].tid, points: moved },
        );
        i = i + 1;
        assert(timed_view(series@) =~= expected.take(i as int)) by {
            assert forall|k: int| 0 <= k < i implies timed_view(series@)[k] == expected[k] by {
                if k < i - 1 {
                    assert(timed_view(before)[k] == expected.take(i as int - 1)[k]);
                    assert(series@[k] == before[k]);
                } else {
                    assert(timed_view(selected@)[k] == views[k]);
                }
            }
        }
    }
    assert(expected.take(i as int) =~= expected);
    let rates = TimeVaryingRates { series };
    proof {
        assert forall|a: int, b: int| 0 <= a < b < rates.series@.len() implies (
        #[trigger] rates.series@[a]).event_id != (#[trigger] rates.series@[b]).event_id
            || rates.series@[a].tid != rates.series@[b].tid by {
            lemma_known_distinct(list.series@, registry@, a, b);
            assert(timed_view(rates.series@)[a] == expected[a]);
            assert(timed_view(rates.series@)[b] == expected[b]);
        }
        assert forall|a: int| 0 <= a < rates.series@.len() implies virtual_source::in_order(
            (#[trigger] rates.series@[a]).points@,
        ) by {
            assert(timed_view(rates.series@)[a] == expected[a]);
            let points = rates.series@[a].points@;
            assert(points == evaluate::shifted(views[a].points, by));
            let at = lemma_known(list.series@, registry@, a);
            assert forall|k: int, l: int| 0 <= k <= l < points.len() implies (
            #[trigger] points[k]).0 <= (#[trigger] points[l]).0 by {
                evaluate::series_are_in_order(list, packets, at, k, l);
                evaluate::series_are_in_order(list, packets, at, 0, k);
                evaluate::series_are_in_order(list, packets, at, 0, l);
                lemma_earliest(views, a);
            }
        }
    }
    Ok((rates, max_ts_ns))
}

proof fn lemma_shifted_earliest(series: Seq<TimedView>, by: u64)
    requires
        forall|i: int|
            0 <= i < series.len() && (#[trigger] series[i]).points.len() > 0 ==> by
                <= series[i].points[0].0,
    ensures
        earliest(shifted(series, by)) == match earliest(series) {
            Some(ts) => Some((ts - by) as u64),
            None => None,
        },
        earliest(series) is Some ==> by <= earliest(series)->0,
    decreases series.len(),
{
    if series.len() > 0 {
        let front = series.drop_last();
        assert(shifted(series, by).drop_last() =~= shifted(front, by));
        assert forall|i: int| 0 <= i < front.len() && (#[trigger] front[i]).points.len() > 0 implies by
            <= front[i].points[0].0 by {
            assert(front[i] == series[i]);
        }
        lemma_shifted_earliest(front, by);
        let last = series[series.len() - 1];
        assert(shifted(series, by).last().points.len() == last.points.len());
    }
}

/// A simulation starts where the recorded rates start: the earliest replayed point is at time zero.
pub proof fn replay_starts_at_zero(list: Seq<RateSeries>, events: Seq<Event>)
    ensures
        earliest(replayed(list, events)) is Some ==> earliest(replayed(list, events)) == Some(0u64),
{
    let series = known(list, events);
    assert forall|i: int| 0 <= i < series.len() && (#[trigger] series[i]).points.len() > 0 implies origin(
        series,
    ) <= series[i].points[0].0 by {
        lemma_earliest(series, i);
    }
    lemma_shifted_earliest(series, origin(series));
}

/// How many quanta a simulation takes: as many as it takes to cover the recorded time. A quantum of
/// zero counts as one nanosecond.
pub fn num_steps(max_ts_ns: u64, q_schedule_ns: u64) -> (r: u64)
    ensures
        ({
            let q: int = if q_schedule_ns == 0 {
                1
            } else {
                q_schedule_ns as int
            };
            r * q >= max_ts_ns && (r > 0 ==> (r - 1) * q < max_ts_ns)
        }),
{
    let q: u64 = if q_schedule_ns == 0 {
        1
    } else {
        q_schedule_ns
    };
    let whole = max_ts_ns / q;
    proof {
        vstd::arithmetic::div_mod::lemma_fundamental_div_mod(max_ts_ns as int, q as int);
        let w = whole as int;
        assert(q * w == w * q) by (nonlinear_arith);
        assert((w + 1) * q == w * q + q) by (nonlinear_arith);
        assert((w - 1) * q == w * q - q) by (nonlinear_arith);
        assert(whole <= max_ts_ns) by (nonlinear_arith)
            requires
                w * q <= max_ts_ns,
                q >= 1,
                w == whole,
        ;
        if max_ts_ns % q > 0 {
            assert(whole < u64::MAX) by (nonlinear_arith)
                requires
                    w * q + 1 <= max_ts_ns,
                    q >= 1,
                    w == whole,
                    max_ts_ns <= u64::MAX,
            ;
        }
    }
    if max_ts_ns % q > 0 {
        whole + 1
    } else {
        whole
    }
}

/// The outcome of a batch of simulations: it fails only if there was something to do and nothing
/// succeeded.
pub fn batch_outcome(total: usize, failures: usize) -> (r: Result<(), String>)
    requires
        failures <= total,
    ensures
        match r {
            Ok(()) => failures < total || total == 0,
            Err(message) => failures == total && total > 0 && message@ == "all "@ + text::decimal(
                total as nat,
            ) + " batch combos failed"@,
        },
{
    if failures == total && total > 0 {
        let mut message = owned("all ");
        push_decimal(&mut message, total as u64);
        message.append(" batch combos failed");
        Err(message)
    } else {
        Ok(())
    }
}

/// Whether the summary of a simulation shows an estimate: if it rests on samples, or its rate is
/// above zero.
pub fn is_shown(estimate: &Estimate) -> (r: bool)
    ensures
        r == (estimate.sample_count > 0 || state::is_positive(estimate.rate)),
{
    estimate.sample_count > 0 || positive(estimate.rate)
}

/// The line of an estimate in the summary of a simulation.
pub open spec fn summary_text(
    estimate: Estimate,
    rate: Seq<char>,
    uncertainty: Seq<char>,
) -> Seq<char> {
    text::padded_right(text::decimal(estimate.event_id as nat), 6) + " "@ + text::padded_right(
        text::decimal(estimate.tid as nat),
        8,
    ) + " "@ + text::padded_right(rate, 14) + " "@ + text::padded_right(uncertainty, 14) + " "@
        + text::decimal(estimate.sample_count as nat)
}

/// The line of an estimate in the summary of a simulation; its numbers come as text.
pub fn summary_line(estimate: &Estimate, rate: &str, uncertainty: &str) -> (r: String)
    ensures
        r@ == summary_text(*estimate, rate@, uncertainty@),
{
    let mut out = owned("");
    proof {
        reveal_strlit("");
    }
    push_padded_right(&mut out, decimal_text(estimate.event_id as u64).as_str(), 6);
    out.append(" ");
    push_padded_right(&mut out, decimal_text(estimate.tid as u64).as_str(), 8);
    out.append(" ");
    push_padded_right(&mut out, rate, 14);
    out.append(" ");
    push_padded_right(&mut out, uncertainty, 14);
    out.append(" ");
    push_decimal(&mut out, estimate.sample_count);
    assert(out@ =~= summary_text(*estimate, rate@, uncertainty@));
    out
}

/// Whether an event is the last with the name of a series.
pub open spec fn is_event_of(s: RateSeries, events: Seq<Event>, e: int) -> bool {
    &&& 0 <= e < events.len()
    &&& events[e].name@ == s.event_name@
    &&& forall|j: int| e < j < events.len() ==> (#[trigger] events[j]).name@ != s.event_name@
}

proof fn lemma_event_of(s: RateSeries, events: Seq<Event>)
    ensures
        forall|e: int| #[trigger]
            is_event_of(s, events, e) ==> event::last_named(events, s.event_name@, events.len())
                == Some(e as nat),
        event::last_named(events, s.event_name@, events.len()) matches Some(id) ==> is_event_of(
            s,
            events,
            id as int,
        ),
        event::last_named(events, s.event_name@, events.len()) is Some <==> exists|j: int|
            0 <= j < events.len() && (#[trigger] events[j]).name@ == s.event_name@,
{
    event::names_are_looked_up_by_position(events, s.event_name@, events.len());
}

/// The series of a trace that are replayed are those whose event is known, in the order of the
/// trace, and no others.
pub proof fn only_known_events_are_replayed(list: Seq<RateSeries>, events: Seq<Event>)
    ensures
        known(list, events).len() == list.filter(
            |s: RateSeries|
                exists|j: int|
                    0 <= j < events.len() && (#[trigger] events[j]).name@ == s.event_name@,
        ).len(),
        forall|i: int|
            0 <= i < known(list, events).len() ==> ({
                let s = list.filter(
                    |s: RateSeries|
                        exists|j: int|
                            0 <= j < events.len() && (#[trigger] events[j]).name@ == s.event_name@,
                )[i];
                let k = #[trigger] known(list, events)[i];
                &&& k.tid == s.tid
                &&& k.points == s.points@
                &&& forall|e: int| #[trigger] is_event_of(s, events, e) ==> k.event_id == e as EventId
            }),
    decreases list.len(),
{
    reveal(Seq::filter);
    if list.len() > 0 {
        let front = list.drop_last();
        only_known_events_are_replayed(front, events);
        lemma_event_of(list.last(), events);
        let before = known(front, events);
        let all = known(list, events);
        assert forall|i: int| 0 <= i < all.len() implies ({
            let s = list.filter(
                |s: RateSeries|
                    exists|j: int|
                        0 <= j < events.len() && (#[trigger] events[j]).name@ == s.event_name@,
            )[i];
            let k = #[trigger] all[i];
            &&& k.tid == s.tid
            &&& k.points == s.points@
            &&& forall|e: int| #[trigger] is_event_of(s, events, e) ==> k.event_id == e as EventId
        }) by {
            if i < before.len() {
                assert(all[i] == before[i]);
            }
        }
    }
}

proof fn lemma_known_at(list: Seq<RateSeries>, events: Seq<Event>, i: int, e: int) -> (at: int)
    requires
        0 <= i < list.len(),
        is_event_of(list[i], events, e),
    ensures
        0 <= at < known(list, events).len(),
        known(list, events)[at].event_id == e as EventId,
        known(list, events)[at].tid == list[i].tid,
        known(list, events)[at].points == list[i].points@,
    decreases list.len(),
{
    let front = list.drop_last();
    lemma_event_of(list[i], events);
    if i == list.len() - 1 {
        known(front, events).len() as int
    } else {
        assert(front[i] == list[i]);
        lemma_known_at(front, events, i, e)
    }
}

/// Whether a time is the one from which a replay counts: no replayed series begins before it, and
/// one begins then; zero if none has a point.
pub open spec fn is_origin(list: Seq<RateSeries>, events: Seq<Event>, by: u64) -> bool {
    &&& forall|i: int, e: int|
        0 <= i < list.len() && #[trigger] is_event_of(list[i], events, e) && list[i].points@.len()
            > 0 ==> by <= list[i].points@[0].0
    &&& by > 0 ==> exists|i: int, e: int|
        0 <= i < list.len() && #[trigger] is_event_of(list[i], events, e) && list[i].points@.len()
            > 0 && by == list[i].points@[0].0
}

proof fn lemma_earliest_attained(series: Seq<TimedView>)
    ensures
        earliest(series) matches Some(ts) ==> exists|i: int|
            0 <= i < series.len() && (#[trigger] series[i]).points.len() > 0
                && series[i].points[0].0 == ts,
    decreases series.len(),
{
    if series.len() > 0 {
        let front = series.drop_last();
        lemma_earliest_attained(front);
        if let Some(ts) = earliest(series) {
            if series.last().points.len() > 0 && series.last().points[0].0 == ts {
                assert(series[series.len() - 1].points[0].0 == ts);
            } else {
                let i = choose|i: int|
                    0 <= i < front.len() && (#[trigger] front[i]).points.len() > 0
                        && front[i].points[0].0 == ts;
                assert(series[i] == front[i]);
            }
        }
    }
}

/// Every series of a trace whose event is known is replayed whole: as that event, on its thread,
/// with its rates, and all times counted from the earliest one. Returns its position.
pub proof fn known_series_are_replayed_from_the_origin(
    list: RateTimeSeries,
    packets: Seq<PacketView>,
    events: Seq<Event>,
    i: int,
    e: int,
) -> (at: int)
    requires
        evaluate::is_series_of(list, packets),
        0 <= i < list.series@.len(),
        is_event_of(list.series@[i], events, e),
    ensures
        ({
            let out = replayed(list.series@, events);
            let by = origin(known(list.series@, events));
            let s = list.series@[i];
            &&& is_origin(list.series@, events, by)
            &&& 0 <= at < out.len()
            &&& out[at].event_id == e as EventId
            &&& out[at].tid == s.tid
            &&& out[at].points.len() == s.points@.len()
            &&& forall|p: int|
                0 <= p < s.points@.len() ==> (#[trigger] out[at].points[p]).0 == s.points@[p].0 - by
                    && out[at].points[p].1 == s.points@[p].1
        }),
{
    let series = list.series@;
    let views = known(series, events);
    let by = origin(views);
    let at = lemma_known_at(series, events, i, e);
    assert forall|j: int, f: int|
        0 <= j < series.len() && #[trigger] is_event_of(series[j], events, f)
            && series[j].points@.len() > 0 implies by <= series[j].points@[0].0 by {
        let k = lemma_known_at(series, events, j, f);
        lemma_earliest(views, k);
    }
    lemma_earliest_attained(views);
    if by > 0 {
        let k = choose|k: int|
            0 <= k < views.len() && (#[trigger] views[k]).points.len() > 0
                && views[k].points[0].0 == by;
        let j = lemma_known(series, events, k);
        lemma_event_of(series[j], events);
        let f = event::last_named(events, series[j].event_name@, events.len())->0 as int;
        assert(is_event_of(series[j], events, f));
    }
    let out = replayed(series, events);
    let s = series[i];
    assert forall|p: int| 0 <= p < s.points@.len() implies (#[trigger] out[at].points[p]).0
        == s.points@[p].0 - by && out[at].points[p].1 == s.points@[p].1 by {
        evaluate::series_are_in_order(list, packets, i, 0, p);
        assert(by <= s.points@[0].0);
    }
    at
}

/// The recorded time ends with the latest last point of all series; it is zero if there is none.
pub proof fn the_latest_point_ends_the_replay(series: Seq<TimedView>)
    ensures
        forall|i: int|
            0 <= i < series.len() && (#[trigger] series[i]).points.len() > 0
                ==> series[i].points.last().0 <= latest(series),
        latest(series) > 0 ==> exists|i: int|
            0 <= i < series.len() && (#[trigger] series[i]).points.len() > 0
                && series[i].points.last().0 == latest(series),
    decreases series.len(),
{
    if series.len() > 0 {
        let front = series.drop_last();
        the_latest_point_ends_the_replay(front);
        assert forall|i: int| 0 <= i < series.len() && (#[trigger] series[i]).points.len()
            > 0 implies series[i].points.last().0 <= latest(series) by {
            if i < front.len() {
                assert(front[i] == series[i]);
            }
        }
        if latest(series) > 0 {
            if latest(series) == latest(front) {
                let i = choose|i: int|
                    0 <= i < front.len() && (#[trigger] front[i]).points.len() > 0
                        && front[i].points.last().0 == latest(front);
                assert(series[i] == front[i]);
            } else {
                assert(series[series.len() - 1].points.last().0 == latest(series));
            }
        }
    }
}

} // verus!
