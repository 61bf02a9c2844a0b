//! Samples as the kernel side delivers them and as the profiler works with them.

use crate::event::EventId;
use crate::text::{self, lossy_text};
use vstd::prelude::*;
use vstd::slice::*;

verus! {

/// Number of hardware counter slots.
pub const MAX_COUNTERS: usize = 4;

/// Length of a kernel task name, terminator included.
pub const TASK_COMM_LEN: usize = 16;

/// What made the kernel side emit a sample.
#[derive(Debug, Clone, Copy, PartialEq, Eq, Structural)]
pub enum SampleType {
    /// Periodic in-flight sample.
    Intermediate,
    /// Context-switch-out sample.
    Flush,
    /// Counter baseline reset; stands for no measurement.
    Resume,
}

impl SampleType {
    /// The number that stands for this type on the wire.
    pub open spec fn wire_code(self) -> u32 {
        match self {
            SampleType::Intermediate => 0,
            SampleType::Flush => 1,
            SampleType::Resume => 2,
        }
    }

    /// The number that stands for this type on the wire.
    pub fn code(self) -> (r: u32)
        ensures
            r == self.wire_code(),
    {
        match self {
            SampleType::Intermediate => 0,
            SampleType::Flush => 1,
            SampleType::Resume => 2,
        }
    }
}

/// One record of the sample stream: absolute counter readings of all slots on one CPU.
#[derive(Debug, Clone, Copy)]
pub struct WireSample {
    /// Kernel monotonic time at which the record was emitted, in nanoseconds.
    pub timestamp_ns: u64,
    /// Duration of the interval; zero for a resume marker.
    pub duration_ns: u64,
    /// Thread group ID of the sampled task.
    pub pid: u32,
    /// Logical CPU index.
    pub cpu_id: u32,
    /// Wire code of the [`SampleType`].
    pub type_: u32,
    /// Kernel thread ID of the sampled task.
    pub tid: u32,
    /// Absolute counter readings, by slot.
    pub counters: [u64; 4],
    /// Event IDs assigned to the slots.
    pub events: [u64; 4],
    /// Null-terminated task name.
    pub task: [u8; 16],
}

/// One observation of one hardware event from one CPU in one timeslice.
///
/// Carries the event count since the last sample of this CPU and slot, and the duration of the
/// measurement interval. The rate, count over duration, is worked out downstream.
#[derive(Debug, Clone, Copy)]
pub struct RawSample {
    /// Kernel timestamp at the end of this sample interval, in nanoseconds.
    pub timestamp_ns: u64,
    /// Duration of this measurement interval in nanoseconds.
    pub duration_ns: u64,
    /// Logical CPU index on which the sample was taken.
    pub cpu_id: u32,
    /// Thread group ID of the sampled task.
    pub pid: u32,
    /// Kernel thread ID of the sampled task.
    pub tid: u32,
    /// The hardware event that was counted.
    pub event_id: EventId,
    /// Event count since the previous sample for this CPU and slot.
    pub count: u64,
    /// Null-terminated task name.
    pub task: [u8; 16],
}

/// The number that `n` bytes from `at` on stand for, lowest byte first.
pub open spec fn little_endian(data: Seq<u8>, at: int, n: nat) -> nat
    decreases n,
{
    if n == 0 {
        0
    } else {
        data[at] as nat + 256 * little_endian(data, at + 1, (n - 1) as nat)
    }
}

/// Bytes of a record in the sample stream.
pub const WIRE_SIZE: usize = 112;

/// Whether `wire` is the record that `data` starts with: all fields one after the other, numbers
/// lowest byte first.
pub open spec fn is_record(wire: WireSample, data: Seq<u8>) -> bool {
    &&& wire.timestamp_ns == little_endian(data, 0, 8)
    &&& wire.duration_ns == little_endian(data, 8, 8)
    &&& wire.pid == little_endian(data, 16, 4)
    &&& wire.cpu_id == little_endian(data, 20, 4)
    &&& wire.type_ == little_endian(data, 24, 4)
    &&& wire.tid == little_endian(data, 28, 4)
    &&& forall|s: int|
        0 <= s < 4 ==> #[trigger] wire.counters@[s] == little_endian(data, 32 + 8 * s, 8)
    &&& forall|s: int|
        0 <= s < 4 ==> #[trigger] wire.events@[s] == little_endian(data, 64 + 8 * s, 8)
    &&& wire.task@ == data.subrange(96, 112)
}

proof fn lemma_little_endian_bound(data: Seq<u8>, at: int)
    ensures
        little_endian(data, at, 4) <= u32::MAX,
        little_endian(data, at, 8) <= u64::MAX,
        little_endian(data, at, 8) == little_endian(data, at, 4) + 0x1_0000_0000 * little_endian(
            data,
            at + 4,
            4,
        ),
{
    reveal_with_fuel(little_endian, 9);
}

fn read_u32(data: &[u8], at: usize) -> (r: u32)
    requires
        at + 4 <= data@.len(),
    ensures
        r == little_endian(data@, at as int, 4),
{
    proof {
        reveal_with_fuel(little_endian, 5);
    }
    data[at] as u32 + 256 * (data[at + 1] as u32 + 256 * (data[at + 2] as u32 + 256 * (data[at
        + 3] as u32)))
}

fn read_u64(data: &[u8], at: usize) -> (r: u64)
    requires
        at + 8 <= data@.len(),
    ensures
        r == little_endian(data@, at as int, 8),
{
    proof {
        lemma_little_endian_bound(data@, at as int);
        lemma_little_endian_bound(data@, at as int + 4);
        assert(data.len() == data@.len());
    }
    read_u32(data, at) as u64 + 0x1_0000_0000 * (read_u32(data, at + 4) as u64)
}

/// Reads a record of the sample stream; `None` if there are too few bytes for one.
pub fn read_wire_sample(data: &[u8]) -> (r: Option<WireSample>)
    ensures
        match r {
            Some(wire) => data@.len() >= WIRE_SIZE && is_record(wire, data@),
            None => data@.len() < WIRE_SIZE,
        },
{
    if data.len() < WIRE_SIZE {
        return None;
    }
    let mut task: [u8; 16] = [0; 16];
    let mut i: usize = 0;
    while i < 16
        invariant
            i <= 16,
            data@.len() >= 112,
            forall|k: int| 0 <= k < i ==> #[trigger] task@[k] == data@[96 + k],
        decreases 16 - i,
    {
        task[i] = data[96 + i];
        i = i + 1;
    }
    assert(task@ =~= data@.subrange(96, 112));
    let wire = WireSample {
        timestamp_ns: read_u64(data, 0),
        duration_ns: read_u64(data, 8),
        pid: read_u32(data, 16),
        cpu_id: read_u32(data, 20),
        type_: read_u32(data, 24),
        tid: read_u32(data, 28),
        counters: [
            read_u64(data, 32),
            read_u64(data, 40),
            read_u64(data, 48),
            read_u64(data, 56),
        ],
        events: [
            read_u64(data, 64),
            read_u64(data, 72),
            read_u64(data, 80),
            read_u64(data, 88),
        ],
        task,
    };
    Some(wire)
}

/// How many bytes stand before the first zero byte.
pub open spec fn bytes_before_nul(s: Seq<u8>) -> nat
    decreases s.len(),
{
    if s.len() == 0 || s[0] == 0 {
        0
    } else {
        1 + bytes_before_nul(s.drop_first())
    }
}

/// The text of a null-terminated task name.
pub open spec fn task_text(task: Seq<u8>) -> Seq<char> {
    text::utf8_lossy(task.take(bytes_before_nul(task) as int))
}

proof fn lemma_before_nul(s: Seq<u8>, n: nat)
    requires
        n <= s.len(),
        forall|i: int| 0 <= i < n ==> s[i] != 0,
        n == s.len() || s[n as int] == 0,
    ensures
        bytes_before_nul(s) == n,
    decreases n,
{
    if n > 0 {
        assert forall|i: int| 0 <= i < n - 1 implies s.drop_first()[i] != 0 by {
            assert(s[i + 1] != 0);
        }
        lemma_before_nul(s.drop_first(), (n - 1) as nat);
    }
}

/// The task name up to its terminator, or all of it if there is none; bytes that are not UTF-8
/// are replaced.
pub fn task_name(task: &[u8; 16]) -> (r: String)
    ensures
        r@ == task_text(task@),
{
    let bytes: &[u8] = task.as_slice();
    let mut n: usize = 0;
    while n < bytes.len() && bytes[n] != 0
        invariant
            n <= bytes@.len(),
            forall|i: int| 0 <= i < n ==> bytes@[i] != 0,
        decreases bytes@.len() - n,
    {
        n = n + 1;
    }
    proof {
        lemma_before_nul(bytes@, n as nat);
    }
    assert(bytes@.subrange(0, n as int) =~= bytes@.take(n as int));
    lossy_text(slice_subrange(bytes, 0, n))
}

/// Numbers are read lowest byte first.
pub proof fn numbers_are_lowest_byte_first(data: Seq<u8>, at: int)
    ensures
        little_endian(data, at, 4) == data[at] + 0x100 * data[at + 1] + 0x1_0000 * data[at + 2]
            + 0x100_0000 * data[at + 3],
        little_endian(data, at, 8) == data[at] + 0x100 * data[at + 1] + 0x1_0000 * data[at + 2]
            + 0x100_0000 * data[at + 3] + 0x1_0000_0000 * data[at + 4] + 0x100_0000_0000 * data[at
            + 5] + 0x1_0000_0000_0000 * data[at + 6] + 0x100_0000_0000_0000 * data[at + 7],
{
    reveal_with_fuel(little_endian, 9);
}

/// The number that eight bytes stand for, lowest byte first.
pub open spec fn eight_bytes(b: Seq<u8>) -> int {
    b[0] + 0x100 * b[1] + 0x1_0000 * b[2] + 0x100_0000 * b[3] + 0x1_0000_0000 * b[4]
        + 0x100_0000_0000 * b[5] + 0x1_0000_0000_0000 * b[6] + 0x100_0000_0000_0000 * b[7]
}

/// The number that four bytes stand for, lowest byte first.
pub open spec fn four_bytes(b: Seq<u8>) -> int {
    b[0] + 0x100 * b[1] + 0x1_0000 * b[2] + 0x100_0000 * b[3]
}

/// The fields of a record follow one another without gap: two times, four numbers of four bytes,
/// the readings and the events of the slots, and the task name.
pub proof fn records_are_read_field_by_field(wire: WireSample, data: Seq<u8>, s: int)
    requires
        data.len() >= 112,
        is_record(wire, data),
        0 <= s < 4,
    ensures
        wire.timestamp_ns == eight_bytes(data.subrange(0, 8)),
        wire.duration_ns == eight_bytes(data.subrange(8, 16)),
        wire.pid == four_bytes(data.subrange(16, 20)),
        wire.cpu_id == four_bytes(data.subrange(20, 24)),
        wire.type_ == four_bytes(data.subrange(24, 28)),
        wire.tid == four_bytes(data.subrange(28, 32)),
        wire.counters@[s] == eight_bytes(data.subrange(32, 64).subrange(8 * s, 8 * s + 8)),
        wire.events@[s] == eight_bytes(data.subrange(64, 96).subrange(8 * s, 8 * s + 8)),
        forall|i: int| 0 <= i < 16 ==> #[trigger] wire.task@[i] == data[96 + i],
{
    numbers_are_lowest_byte_first(data, 0);
    numbers_are_lowest_byte_first(data, 8);
    numbers_are_lowest_byte_first(data, 16);
    numbers_are_lowest_byte_first(data, 20);
    numbers_are_lowest_byte_first(data, 24);
    numbers_are_lowest_byte_first(data, 28);
    numbers_are_lowest_byte_first(data, 32 + 8 * s);
    numbers_are_lowest_byte_first(data, 64 + 8 * s);
}

/// A task name ends before its first zero byte, or at its end if there is none.
pub proof fn task_names_end_at_the_first_zero(task: Seq<u8>, n: int)
    requires
        0 <= n <= task.len(),
        forall|i: int| 0 <= i < n ==> (#[trigger] task[i]) != 0,
        n < task.len() ==> task[n] == 0,
    ensures
        task_text(task) == text::utf8_lossy(task.take(n)),
{
    lemma_before_nul(task, n as nat);
}

/// No two types of sample have the same code.
pub proof fn type_codes_are_distinct(a: SampleType, b: SampleType)
    ensures
        a.wire_code() == b.wire_code() <==> a == b,
        SampleType::Resume.wire_code() == 2,
        SampleType::Intermediate.wire_code() == 0,
{
}

} // verus!
