//! CSV rows of the sample stream as it comes from the kernel side.

use crate::sample::{self, task_name, WireSample};
use crate::text::{self, push_decimal};
use vstd::prelude::*;

verus! {

/// The header line of the sample log.
pub open spec fn log_header_text() -> Seq<char> {
    "timestamp_ns,duration_ns,pid,cpu_id,type,values_0,values_1,values_2,values_3,events_0,events_1,events_2,events_3,task\n"@
}

/// Four numbers, each followed by a comma.
pub open spec fn fields_text(values: Seq<u64>) -> Seq<char> {
    text::decimal(values[0] as nat) + ","@ + text::decimal(values[1] as nat) + ","@ + text::decimal(
        values[2] as nat,
    ) + ","@ + text::decimal(values[3] as nat) + ","@
}

/// The row of a record.
pub open spec fn log_row_text(s: WireSample) -> Seq<char> {
    text::decimal(s.timestamp_ns as nat) + ","@ + text::decimal(s.duration_ns as nat) + ","@
        + text::decimal(s.pid as nat) + ","@ + text::decimal(s.cpu_id as nat) + ","@
        + text::decimal(s.type_ as nat) + ","@ + fields_text(s.counters@) + fields_text(s.events@)
        + sample::task_text(s.task@) + "\n"@
}

fn push_fields(out: &mut String, values: &[u64; 4])
    ensures
        final(out)@ == old(out)@ + fields_text(values@),
{
    let ghost before = out@;
    push_decimal(out, values[0]);
    out.append(",");
    push_decimal(out, values[1]);
    out.append(",");
    push_decimal(out, values[2]);
    out.append(",");
    push_decimal(out, values[3]);
    out.append(",");
    assert(out@ =~= before + fields_text(values@));
}

/// The header line of the sample log.
pub fn log_header() -> (r: &'static str)
    ensures
        r@ == log_header_text(),
{
    "timestamp_ns,duration_ns,pid,cpu_id,type,values_0,values_1,values_2,values_3,events_0,events_1,events_2,events_3,task\n"
}

/// Appends the row of a record.
pub fn write_sample(out: &mut String, sample: &WireSample)
    ensures
        final(out)@ == old(out)@ + log_row_text(*sample),
{
    let ghost before = out@;
    push_decimal(out, sample.timestamp_ns);
    out.append(",");
    push_decimal(out, sample.duration_ns);
    out.append(",");
    push_decimal(out, sample.pid as u64);
    out.append(",");
    push_decimal(out, sample.cpu_id as u64);
    out.append(",");
    push_decimal(out, sample.type_ as u64);
    out.append(",");
    push_fields(out, &sample.counters);
    push_fields(out, &sample.events);
    out.append(task_name(&sample.task).as_str());
    out.append("\n");
    assert(out@ =~= before + log_row_text(*sample));
}

/// Numbers in a row, each followed by a comma.
pub open spec fn with_commas(numbers: Seq<nat>) -> Seq<char> {
    numbers.fold_left(Seq::empty(), |row: Seq<char>, n: nat| row + text::decimal(n) + ","@)
}

proof fn lemma_with_commas(numbers: Seq<nat>)
    ensures
        numbers.len() == 0 ==> with_commas(numbers) == Seq::<char>::empty(),
        numbers.len() > 0 ==> with_commas(numbers) == with_commas(numbers.drop_last())
            + text::decimal(numbers.last()) + ","@,
{
}

/// Four numbers are written in order.
pub proof fn fields_are_in_order(values: Seq<u64>)
    requires
        values.len() == 4,
    ensures
        fields_text(values) == with_commas(values.map_values(|v: u64| v as nat)),
{
    let numbers = values.map_values(|v: u64| v as nat);
    lemma_with_commas(numbers);
    lemma_with_commas(numbers.drop_last());
    lemma_with_commas(numbers.drop_last().drop_last());
    lemma_with_commas(numbers.drop_last().drop_last().drop_last());
    lemma_with_commas(numbers.drop_last().drop_last().drop_last().drop_last());
    assert(Seq::<char>::empty() + text::decimal(numbers[0]) =~= text::decimal(numbers[0]));
}

/// A row holds the columns of the header, in the order of the header: what was measured when and
/// where, the counters, the events, and the name of the task at the end of the line.
pub proof fn rows_follow_the_header(s: WireSample)
    ensures
        log_row_text(s) == with_commas(
            seq![
                s.timestamp_ns as nat,
                s.duration_ns as nat,
                s.pid as nat,
                s.cpu_id as nat,
                s.type_ as nat,
            ],
        ) + with_commas(s.counters@.map_values(|v: u64| v as nat)) + with_commas(
            s.events@.map_values(|v: u64| v as nat),
        ) + sample::task_text(s.task@) + "\n"@,
{
    let numbers = seq![
        s.timestamp_ns as nat,
        s.duration_ns as nat,
        s.pid as nat,
        s.cpu_id as nat,
        s.type_ as nat,
    ];
    lemma_with_commas(numbers);
    lemma_with_commas(numbers.drop_last());
    lemma_with_commas(numbers.drop_last().drop_last());
    lemma_with_commas(numbers.drop_last().drop_last().drop_last());
    lemma_with_commas(numbers.drop_last().drop_last().drop_last().drop_last());
    lemma_with_commas(numbers.drop_last().drop_last().drop_last().drop_last().drop_last());
    assert(Seq::<char>::empty() + text::decimal(numbers[0]) =~= text::decimal(numbers[0]));
    fields_are_in_order(s.counters@);
    fields_are_in_order(s.events@);
}

} // verus!
