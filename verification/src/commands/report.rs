//! Laying out the results of an evaluation as text or JSON. Numbers come as text.

use crate::text::{
    self, decimal_text, owned, push_decimal, push_json_string, push_padded_left, push_padded_right,
};
use vstd::prelude::*;

verus! {

/// The results of one event on one thread.
pub struct EventReport {
    /// Event name.
    pub event_name: String,
    /// Thread ID.
    pub tid: u32,
    /// Normalized error, if it is defined.
    pub nrmse: Option<String>,
    /// Coverage.
    pub coverage: String,
    /// Mean ground-truth rate.
    pub mean_gt_rate: String,
    /// Calibration, if it is defined.
    pub calibration: Option<String>,
    /// Coefficient of variation of the ground truth, if it is defined.
    pub gt_cv: Option<String>,
}

/// The results of an evaluation.
pub struct Report {
    /// Name of the ground-truth trace.
    pub ground_truth: String,
    /// Name of the estimated trace.
    pub estimated: String,
    /// Bin width in milliseconds.
    pub bin_ms: u64,
    /// The results of each event and thread.
    pub events: Vec<EventReport>,
    /// Mean normalized error, if any is defined.
    pub mean_nrmse: Option<String>,
    /// How many events have no coverage at all.
    pub zero_coverage_count: usize,
    /// Mean coverage, if there is any event.
    pub mean_coverage: Option<String>,
    /// Mean calibration, if any is defined.
    pub mean_calibration: Option<String>,
}

/// A number, or what stands for a missing one.
pub open spec fn or_else(s: Option<String>, missing: Seq<char>) -> Seq<char> {
    match s {
        Some(s) => s@,
        None => missing,
    }
}

/// A number with a unit behind it, or what stands for a missing one.
pub open spec fn with_unit(s: Option<String>, unit: Seq<char>, missing: Seq<char>) -> Seq<char> {
    match s {
        Some(s) => s@ + unit,
        None => missing,
    }
}

fn text_or(s: &Option<String>, missing: &str) -> (r: String)
    ensures
        r@ == or_else(*s, missing@),
{
    match s {
        Some(s) => s.clone(),
        None => owned(missing),
    }
}

fn text_with_unit(s: &Option<String>, unit: &str, missing: &str) -> (r: String)
    ensures
        r@ == with_unit(*s, unit@, missing@),
{
    match s {
        Some(s) => {
            let mut r = s.clone();
            r.append(unit);
            r
        },
        None => owned(missing),
    }
}

/// The line of an event in the table.
pub open spec fn table_line(e: EventReport) -> Seq<char> {
    text::padded_right(e.event_name@, 32) + " "@ + text::padded_left(
        text::decimal(e.tid as nat),
        5,
    ) + "  "@ + text::padded_right(or_else(e.nrmse, "—"@), 12) + "  "@ + text::padded_right(
        e.mean_gt_rate@,
        16,
    ) + "  "@ + e.coverage@ + "%      "@ + text::padded_right(
        with_unit(e.calibration, "%"@, "—"@),
        13,
    ) + "  "@ + text::padded_right(or_else(e.gt_cv, "—"@), 10) + "\n"@
}

/// The lines of the events, in order.
pub open spec fn table_lines(events: Seq<EventReport>) -> Seq<char>
    decreases events.len(),
{
    if events.len() == 0 {
        Seq::empty()
    } else {
        table_lines(events.drop_last()) + table_line(events.last())
    }
}

/// The note on events without coverage.
pub open spec fn zero_coverage_note(n: nat) -> Seq<char> {
    if n > 0 {
        "  ["@ + text::decimal(n) + " event(s) with zero coverage]"@
    } else {
        Seq::empty()
    }
}

/// The report as a table.
pub open spec fn report_text(r: Report) -> Seq<char> {
    "Evaluation Report\n=================\nGround truth: "@ + r.ground_truth@
        + "\nEstimated:    "@ + r.estimated@ + "\nBin width:    "@ + text::decimal(
        r.bin_ms as nat,
    )
        + " ms\n\nEvent                              TID  nRMSE         Mean GT (ev/ns)   Coverage  Calibration  GT-CV\n----------------------------------------------------------------------------------------------------\n"@
        + table_lines(r.events@) + "\nMean nRMSE (headline):         "@ + with_unit(
        r.mean_nrmse,
        "  [lower is better; 0=perfect, >=1=null scheduler]"@,
        "N/A"@,
    ) + "\nMean coverage:                 "@ + with_unit(r.mean_coverage, "%"@, "N/A"@)
        + zero_coverage_note(r.zero_coverage_count as nat) + "\nMean calibration:              "@
        + with_unit(r.mean_calibration, "%"@, "N/A"@) + "\n"@
}

fn push_table_line(out: &mut String, e: &EventReport)
    ensures
        final(out)@ == old(out)@ + table_line(*e),
{
    let mut line = String::new();
    push_padded_right(&mut line, e.event_name.as_str(), 32);
    assert(line@ =~= text::padded_right(e.event_name@, 32));
    line.append(" ");
    push_padded_left(&mut line, decimal_text(e.tid as u64).as_str(), 5);
    line.append("  ");
    push_padded_right(&mut line, text_or(&e.nrmse, "—").as_str(), 12);
    line.append("  ");
    push_padded_right(&mut line, e.mean_gt_rate.as_str(), 16);
    line.append("  ");
    line.append(e.coverage.as_str());
    line.append("%      ");
    push_padded_right(&mut line, text_with_unit(&e.calibration, "%", "—").as_str(), 13);
    line.append("  ");
    push_padded_right(&mut line, text_or(&e.gt_cv, "—").as_str(), 10);
    line.append("\n");
    out.append(line.as_str());
}

/// Lays the report out as a table.
pub fn print_text(r: &Report) -> (s: String)
    ensures
        s@ == report_text(*r),
{
    let mut out = owned("Evaluation Report\n=================\nGround truth: ");
    out.append(r.ground_truth.as_str());
    out.append("\nEstimated:    ");
    out.append(r.estimated.as_str());
    out.append("\nBin width:    ");
    push_decimal(&mut out, r.bin_ms);
    out.append(
        " ms\n\nEvent                              TID  nRMSE         Mean GT (ev/ns)   Coverage  Calibration  GT-CV\n----------------------------------------------------------------------------------------------------\n",
    );
    let ghost start = out@;
    let mut i: usize = 0;
    assert(r.events@.take(0) =~= Seq::empty());
    assert(start + Seq::<char>::empty() =~= start);
    while i < r.events.len()
        invariant
            i <= r.events@.len(),
            out@ == start + table_lines(r.events@.take(i as int)),
        decreases r.events@.len() - i,
    {
        assert(r.events@.take(i as int + 1).drop_last() =~= r.events@.take(i as int));
        push_table_line(&mut out, &r.events[i]);
        i = i + 1;
        assert(out@ =~= start + table_lines(r.events@.take(i as int)));
    }
    assert(r.events@.take(r.events@.len() as int) =~= r.events@);
    out.append("\nMean nRMSE (headline):         ");
    out.append(
        text_with_unit(
            &r.mean_nrmse,
            "  [lower is better; 0=perfect, >=1=null scheduler]",
            "N/A",
        ).as_str(),
    );
    out.append("\nMean coverage:                 ");
    out.append(text_with_unit(&r.mean_coverage, "%", "N/A").as_str());
    if r.zero_coverage_count > 0 {
        let ghost before = out@;
        out.append("  [");
        push_decimal(&mut out, r.zero_coverage_count as u64);
        out.append(" event(s) with zero coverage]");
        assert(out@ =~= before + zero_coverage_note(r.zero_coverage_count as nat));
    } else {
        assert(out@ + zero_coverage_note(0) =~= out@);
    }
    out.append("\nMean calibration:              ");
    out.append(text_with_unit(&r.mean_calibration, "%", "N/A").as_str());
    out.append("\n");
    out
}

/// The JSON object of an event.
pub open spec fn json_line(e: EventReport) -> Seq<char> {
    "    {\"event\": "@ + text::json_string(e.event_name@) + ", \"tid\": "@ + text::decimal(
        e.tid as nat,
    ) + ", \"nrmse\": "@ + or_else(e.nrmse, "null"@) + ", \"coverage\": "@ + e.coverage@
        + ", \"mean_gt_rate_events_per_ns\": "@ + e.mean_gt_rate@ + ", \"calibration\": "@
        + or_else(e.calibration, "null"@) + ", \"gt_cv\": "@ + or_else(e.gt_cv, "null"@) + "}"@
}

/// The JSON objects of the events, separated by commas.
pub open spec fn json_lines(events: Seq<EventReport>) -> Seq<char>
    decreases events.len(),
{
    if events.len() == 0 {
        Seq::empty()
    } else if events.len() == 1 {
        json_line(events[0])
    } else {
        json_lines(events.drop_last()) + ",\n"@ + json_line(events.last())
    }
}

/// The report as a JSON object.
pub open spec fn report_json(r: Report) -> Seq<char> {
    "{\n  \"ground_truth\": "@ + text::json_string(r.ground_truth@) + ",\n  \"estimated\": "@
        + text::json_string(r.estimated@) + ",\n  \"bin_width_ms\": "@ + text::decimal(
        r.bin_ms as nat,
    ) + ",\n  \"per_event\": [\n"@ + json_lines(r.events@) + "\n  ],\n  \"mean_nrmse\": "@
        + or_else(r.mean_nrmse, "null"@) + ",\n  \"events_with_zero_coverage\": "@ + text::decimal(
        r.zero_coverage_count as nat,
    ) + ",\n  \"mean_coverage\": "@ + or_else(r.mean_coverage, "null"@)
        + ",\n  \"mean_calibration\": "@ + or_else(r.mean_calibration, "null"@) + "\n}\n"@
}

fn push_json_line(out: &mut String, e: &EventReport)
    ensures
        final(out)@ == old(out)@ + json_line(*e),
{
    let mut line = owned("    {\"event\": ");
    push_json_string(&mut line, e.event_name.as_str());
    line.append(", \"tid\": ");
    push_decimal(&mut line, e.tid as u64);
    line.append(", \"nrmse\": ");
    line.append(text_or(&e.nrmse, "null").as_str());
    line.append(", \"coverage\": ");
    line.append(e.coverage.as_str());
    line.append(", \"mean_gt_rate_events_per_ns\": ");
    line.append(e.mean_gt_rate.as_str());
    line.append(", \"calibration\": ");
    line.append(text_or(&e.calibration, "null").as_str());
    line.append(", \"gt_cv\": ");
    line.append(text_or(&e.gt_cv, "null").as_str());
    line.append("}");
    out.append(line.as_str());
}

/// Lays the report out as a JSON object.
pub fn print_json(r: &Report) -> (s: String)
    ensures
        s@ == report_json(*r),
{
    let mut out = owned("{\n  \"ground_truth\": ");
    push_json_string(&mut out, r.ground_truth.as_str());
    out.append(",\n  \"estimated\": ");
    push_json_string(&mut out, r.estimated.as_str());
    out.append(",\n  \"bin_width_ms\": ");
    push_decimal(&mut out, r.bin_ms);
    out.append(",\n  \"per_event\": [\n");
    let ghost start = out@;
    let mut i: usize = 0;
    assert(r.events@.take(0) =~= Seq::empty());
    assert(start + Seq::<char>::empty() =~= start);
    while i < r.events.len()
        invariant
            i <= r.events@.len(),
            out@ == start + json_lines(r.events@.take(i as int)),
        decreases r.events@.len() - i,
    {
        let ghost next = r.events@.take(i as int + 1);
        assert(next.drop_last() =~= r.events@.take(i as int));
        if i > 0 {
            out.append(",\n");
        }
        push_json_line(&mut out, &r.events[i]);
        assert(next.last() == r.events@[i as int]);
        i = i + 1;
        assert(out@ =~= start + json_lines(next));
    }
    assert(r.events@.take(r.events@.len() as int) =~= r.events@);
    out.append("\n  ],\n  \"mean_nrmse\": ");
    out.append(text_or(&r.mean_nrmse, "null").as_str());
    out.append(",\n  \"events_with_zero_coverage\": ");
    push_decimal(&mut out, r.zero_coverage_count as u64);
    out.append(",\n  \"mean_coverage\": ");
    out.append(text_or(&r.mean_coverage, "null").as_str());
    out.append(",\n  \"mean_calibration\": ");
    out.append(text_or(&r.mean_calibration, "null").as_str());
    out.append("\n}\n");
    out
}

/// Lists of events join: the lines of two lists are those of the first, then those of the second.
pub proof fn table_lines_join(a: Seq<EventReport>, b: Seq<EventReport>)
    ensures
        table_lines(a + b) == table_lines(a) + table_lines(b),
    decreases b.len(),
{
    if b.len() == 0 {
        assert(a + b =~= a);
        assert(table_lines(a) + table_lines(b) =~= table_lines(a));
    } else {
        table_lines_join(a, b.drop_last());
        assert((a + b).drop_last() =~= a + b.drop_last());
        assert((a + b).last() == b.last());
        assert(table_lines(a + b) =~= table_lines(a) + table_lines(b));
    }
}

/// An event has one line.
pub proof fn an_event_has_one_line(e: EventReport)
    ensures
        table_lines(seq![e]) == table_line(e),
        json_lines(seq![e]) == json_line(e),
{
    assert(seq![e].drop_last() =~= Seq::empty());
    assert(table_lines(Seq::empty()) + table_line(e) =~= table_line(e));
}

/// JSON objects of events join: between those of two lists stands a comma.
pub proof fn json_lines_join(a: Seq<EventReport>, b: Seq<EventReport>)
    requires
        a.len() > 0,
        b.len() > 0,
    ensures
        json_lines(a + b) == json_lines(a) + ",\n"@ + json_lines(b),
    decreases b.len(),
{
    assert((a + b).last() == b.last());
    if b.len() == 1 {
        assert((a + b).drop_last() =~= a);
        assert(json_lines(a + b) =~= json_lines(a) + ",\n"@ + json_lines(b));
    } else {
        json_lines_join(a, b.drop_last());
        assert((a + b).drop_last() =~= a + b.drop_last());
        assert(json_lines(a + b) =~= json_lines(a) + ",\n"@ + json_lines(b));
    }
}

/// A missing number is shown as such, and a present one as it is, with its unit if it has one.
pub proof fn missing_numbers_are_shown(s: Option<String>, unit: Seq<char>, missing: Seq<char>)
    ensures
        s is None ==> or_else(s, missing) == missing && with_unit(s, unit, missing) == missing,
        s matches Some(n) ==> or_else(s, missing) == n@ && with_unit(s, unit, missing) == n@ + unit,
{
}

/// The note on events without coverage is there exactly if there is one.
pub proof fn the_note_counts_uncovered_events(n: nat)
    ensures
        n == 0 ==> zero_coverage_note(n).len() == 0,
        n > 0 ==> zero_coverage_note(n) == "  ["@ + text::decimal(n)
            + " event(s) with zero coverage]"@,
{
}

} // verus!
