//! CSV output: one row per raw sample.

use crate::sample::{self, task_name, RawSample};
use crate::text::{self, owned, push_decimal};
use vstd::prelude::*;

verus! {

/// The header line.
pub open spec fn header_text() -> Seq<char> {
    "timestamp_ns,duration_ns,cpu_id,pid,event_id,count,task\n"@
}

/// The row of a sample.
pub open spec fn row_text(s: RawSample) -> Seq<char> {
    text::decimal(s.timestamp_ns as nat) + ","@ + text::decimal(s.duration_ns as nat) + ","@
        + text::decimal(s.cpu_id as nat) + ","@ + text::decimal(s.pid as nat) + ","@
        + text::decimal(s.event_id as nat) + ","@ + text::decimal(s.count as nat) + ","@
        + sample::task_text(s.task@) + "\n"@
}

/// The rows of samples, in order.
pub open spec fn rows_text(samples: Seq<RawSample>) -> Seq<char>
    decreases samples.len(),
{
    if samples.len() == 0 {
        Seq::empty()
    } else {
        rows_text(samples.drop_last()) + row_text(samples.last())
    }
}

/// Writes samples as CSV. Rates are left to whoever reads the file.
///
/// The text gathers in the sink until [`CsvSink::take_text`] hands it out.
pub struct CsvSink {
    pending: String,
}

impl CsvSink {
    /// The text not handed out yet.
    pub closed spec fn pending_text(&self) -> Seq<char> {
        self.pending@
    }

    /// A sink that has written the header.
    pub fn new() -> (r: Self)
        ensures
            r.pending_text() == header_text(),
    {
        CsvSink { pending: owned("timestamp_ns,duration_ns,cpu_id,pid,event_id,count,task\n") }
    }

    /// Writes one row per sample.
    pub fn emit(&mut self, samples: &Vec<RawSample>)
        ensures
            final(self).pending_text() == old(self).pending_text() + rows_text(samples@),
    {
        let mut i: usize = 0;
        let ghost start = self.pending@;
        assert(samples@.take(0) =~= Seq::empty());
        assert(start + rows_text(Seq::empty()) =~= start);
        while i < samples.len()
            invariant
                i <= samples@.len(),
                self.pending@ == start + rows_text(samples@.take(i as int)),
            decreases samples@.len() - i,
        {
            let s = samples[i];
            let ghost before = self.pending@;
            assert(samples@.take(i as int + 1).drop_last() =~= samples@.take(i as int));
            push_decimal(&mut self.pending, s.timestamp_ns);
            self.pending.append(",");
            push_decimal(&mut self.pending, s.duration_ns);
            self.pending.append(",");
            push_decimal(&mut self.pending, s.cpu_id as u64);
            self.pending.append(",");
            push_decimal(&mut self.pending, s.pid as u64);
            self.pending.append(",");
            push_decimal(&mut self.pending, s.event_id as u64);
            self.pending.append(",");
            push_decimal(&mut self.pending, s.count);
            self.pending.append(",");
            self.pending.append(task_name(&s.task).as_str());
            self.pending.append("\n");
            assert(self.pending@ =~= before + row_text(s));
            i = i + 1;
            assert(self.pending@ =~= start + rows_text(samples@.take(i as int)));
        }
        assert(samples@.take(samples@.len() as int) =~= samples@);
    }

    /// Hands out the text that has gathered since the last call.
    pub fn take_text(&mut self) -> (r: String)
        ensures
            r@ == old(self).pending_text(),
            final(self).pending_text() == Seq::<char>::empty(),
    {
        let mut r = String::new();
        std::mem::swap(&mut r, &mut self.pending);
        r
    }
}

/// Rows join: the rows of samples taken together are those of the first, then those of the others.
pub proof fn rows_join(a: Seq<RawSample>, b: Seq<RawSample>)
    ensures
        rows_text(a + b) == rows_text(a) + rows_text(b),
    decreases b.len(),
{
    if b.len() == 0 {
        assert(a + b =~= a);
        assert(rows_text(a) + rows_text(b) =~= rows_text(a));
    } else {
        rows_join(a, b.drop_last());
        assert((a + b).drop_last() =~= a + b.drop_last());
        assert((a + b).last() == b.last());
        assert(rows_text(a + b) =~= rows_text(a) + rows_text(b));
    }
}

/// A sample has one row: its numbers in the order of the header, then the task name.
pub proof fn a_sample_has_one_row(s: RawSample)
    ensures
        rows_text(seq![s]) == text::decimal(s.timestamp_ns as nat) + ","@ + text::decimal(
            s.duration_ns as nat,
        ) + ","@ + text::decimal(s.cpu_id as nat) + ","@ + text::decimal(s.pid as nat) + ","@
            + text::decimal(s.event_id as nat) + ","@ + text::decimal(s.count as nat) + ","@
            + sample::task_text(s.task@) + "\n"@,
{
    assert(seq![s].drop_last() =~= Seq::empty());
    assert(rows_text(Seq::empty()) + row_text(s) =~= row_text(s));
}

} // verus!
