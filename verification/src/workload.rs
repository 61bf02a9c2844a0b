//! Synthetic workloads that stress one part of the machine each, for trying a profiler out.
//!
//! A kernel runs a number of rounds at a time; how long to go on is up to the caller.

use crate::text::{self, decimal_text, owned, push_decimal};
use vstd::prelude::*;

verus! {

/// What a phase of a workload does.
pub enum PhaseKind {
    /// Random accesses to an array.
    CacheThrash { array_size_kb: usize },
    /// Floating-point products over vectors.
    FpHeavy { vector_size: usize },
    /// Branches on random bits.
    BranchMispredict { array_size: usize },
    /// One access per page, in random order.
    TlbThrash { num_pages: usize },
    /// Passes over a large buffer.
    MemStream { buffer_size_mb: usize },
    /// Integer divisions.
    IntDiv { divisor_range: usize },
}

/// A phase of a workload.
pub struct Phase {
    /// How long it lasts, in seconds.
    pub duration_secs: u64,
    /// How many threads run it.
    pub threads: usize,
    /// What it does.
    pub kind: PhaseKind,
}

/// The phases of a workload, in order.
pub struct WorkloadConfig {
    /// The phases.
    pub phases: Vec<Phase>,
}

impl PhaseKind {
    /// The size that the phase is set to.
    pub open spec fn size(self) -> usize {
        match self {
            PhaseKind::CacheThrash { array_size_kb } => array_size_kb,
            PhaseKind::FpHeavy { vector_size } => vector_size,
            PhaseKind::BranchMispredict { array_size } => array_size,
            PhaseKind::TlbThrash { num_pages } => num_pages,
            PhaseKind::MemStream { buffer_size_mb } => buffer_size_mb,
            PhaseKind::IntDiv { divisor_range } => divisor_range,
        }
    }

    /// The name of that size.
    pub open spec fn size_name(self) -> Seq<char> {
        match self {
            PhaseKind::CacheThrash { array_size_kb } => "array_size_kb"@,
            PhaseKind::FpHeavy { vector_size } => "vector_size"@,
            PhaseKind::BranchMispredict { array_size } => "array_size"@,
            PhaseKind::TlbThrash { num_pages } => "num_pages"@,
            PhaseKind::MemStream { buffer_size_mb } => "buffer_size_mb"@,
            PhaseKind::IntDiv { divisor_range } => "divisor_range"@,
        }
    }

    /// What a label says of the kind before its size.
    pub open spec fn label(self) -> Seq<char> {
        match self {
            PhaseKind::CacheThrash { array_size_kb } => "cache_thrash: array_size_kb="@,
            PhaseKind::FpHeavy { vector_size } => "fp_heavy: vector_size="@,
            PhaseKind::BranchMispredict { array_size } => "branch_mispredict: batch_size="@,
            PhaseKind::TlbThrash { num_pages } => "tlb_thrash: num_pages="@,
            PhaseKind::MemStream { buffer_size_mb } => "mem_stream: buffer_size_mb="@,
            PhaseKind::IntDiv { divisor_range } => "int_div: divisor_range="@,
        }
    }

    fn size_of(&self) -> (r: usize)
        ensures
            r == self.size(),
    {
        match self {
            PhaseKind::CacheThrash { array_size_kb } => *array_size_kb,
            PhaseKind::FpHeavy { vector_size } => *vector_size,
            PhaseKind::BranchMispredict { array_size } => *array_size,
            PhaseKind::TlbThrash { num_pages } => *num_pages,
            PhaseKind::MemStream { buffer_size_mb } => *buffer_size_mb,
            PhaseKind::IntDiv { divisor_range } => *divisor_range,
        }
    }

    fn size_name_of(&self) -> (r: &'static str)
        ensures
            r@ == self.size_name(),
    {
        match self {
            PhaseKind::CacheThrash { array_size_kb: _ } => "array_size_kb",
            PhaseKind::FpHeavy { vector_size: _ } => "vector_size",
            PhaseKind::BranchMispredict { array_size: _ } => "array_size",
            PhaseKind::TlbThrash { num_pages: _ } => "num_pages",
            PhaseKind::MemStream { buffer_size_mb: _ } => "buffer_size_mb",
            PhaseKind::IntDiv { divisor_range: _ } => "divisor_range",
        }
    }

    fn label_of(&self) -> (r: &'static str)
        ensures
            r@ == self.label(),
    {
        match self {
            PhaseKind::CacheThrash { array_size_kb: _ } => "cache_thrash: array_size_kb=",
            PhaseKind::FpHeavy { vector_size: _ } => "fp_heavy: vector_size=",
            PhaseKind::BranchMispredict { array_size: _ } => "branch_mispredict: batch_size=",
            PhaseKind::TlbThrash { num_pages: _ } => "tlb_thrash: num_pages=",
            PhaseKind::MemStream { buffer_size_mb: _ } => "mem_stream: buffer_size_mb=",
            PhaseKind::IntDiv { divisor_range: _ } => "int_div: divisor_range=",
        }
    }
}

/// The name of the first setting of a phase that is zero.
pub open spec fn zero_setting(phase: Phase) -> Option<Seq<char>> {
    if phase.duration_secs == 0 {
        Some("duration_secs"@)
    } else if phase.threads == 0 {
        Some("threads"@)
    } else if phase.kind.size() == 0 {
        Some(phase.kind.size_name())
    } else {
        None
    }
}

/// The complaint about phase `i`.
pub open spec fn zero_message(i: nat, setting: Seq<char>) -> Seq<char> {
    "phase "@ + text::decimal(i) + ": "@ + setting + " must be > 0"@
}

fn complaint(i: usize, setting: &str) -> (r: String)
    ensures
        r@ == zero_message(i as nat, setting@),
{
    let mut out = owned("phase ");
    push_decimal(&mut out, i as u64);
    out.append(": ");
    out.append(setting);
    out.append(" must be > 0");
    out
}

/// The complaint about a workload: that it has no phases, or about the first phase with a setting
/// of zero.
pub open spec fn complaint_about(phases: Seq<Phase>, from: nat) -> Option<Seq<char>>
    decreases phases.len() - from,
{
    if from >= phases.len() {
        None
    } else {
        match zero_setting(phases[from as int]) {
            Some(setting) => Some(zero_message(from, setting)),
            None => complaint_about(phases, from + 1),
        }
    }
}

/// Checks that a workload has phases and that no setting of any phase is zero.
pub fn validate(config: &WorkloadConfig) -> (r: Result<(), String>)
    ensures
        match r {
            Ok(()) => config.phases@.len() > 0 && complaint_about(config.phases@, 0) is None,
            Err(message) => if config.phases@.len() == 0 {
                message@ == "phases must not be empty"@
            } else {
                complaint_about(config.phases@, 0) == Some(message@)
            },
        },
{
    if config.phases.len() == 0 {
        return Err(owned("phases must not be empty"));
    }
    let mut i: usize = 0;
    while i < config.phases.len()
        invariant
            config.phases@.len() > 0,
            i <= config.phases@.len(),
            complaint_about(config.phases@, 0) == complaint_about(config.phases@, i as nat),
        decreases config.phases@.len() - i,
    {
        let phase = &config.phases[i];
        if phase.duration_secs == 0 {
            return Err(complaint(i, "duration_secs"));
        }
        if phase.threads == 0 {
            return Err(complaint(i, "threads"));
        }
        if phase.kind.size_of() == 0 {
            return Err(complaint(i, phase.kind.size_name_of()));
        }
        i = i + 1;
    }
    Ok(())
}

/// A workload is accepted exactly when it has phases and all their settings are above zero.
pub proof fn accepted_phases_are_complete(phases: Seq<Phase>, from: nat)
    ensures
        complaint_about(phases, from) is None <==> forall|i: int|
            from <= i < phases.len() ==> (#[trigger] phases[i]).duration_secs > 0
                && phases[i].threads > 0 && phases[i].kind.size() > 0,
    decreases phases.len() - from,
{
    if from < phases.len() {
        accepted_phases_are_complete(phases, from + 1);
    }
}

/// One line that says what a phase does.
pub fn phase_label(phase: &Phase) -> (r: String)
    ensures
        r@ == phase.kind.label() + text::decimal(phase.kind.size() as nat) + ", duration_secs="@
            + text::decimal(phase.duration_secs as nat) + ", threads="@ + text::decimal(
            phase.threads as nat,
        ),
{
    let mut out = owned(phase.kind.label_of());
    push_decimal(&mut out, phase.kind.size_of() as u64);
    out.append(", duration_secs=");
    push_decimal(&mut out, phase.duration_secs);
    out.append(", threads=");
    out.append(decimal_text(phase.threads as u64).as_str());
    out
}

/// First state of every generator.
pub const SEED: u64 = 0xdeadbeef;

/// The next state of the generator.
pub open spec fn xorshift(x: u64) -> u64 {
    let a = x ^ (x << 13);
    let b = a ^ (a >> 7);
    b ^ (b << 17)
}

/// Moves the generator on and returns its state.
pub fn xorshift64(state: &mut u64) -> (r: u64)
    ensures
        r == xorshift(*old(state)),
        *final(state) == r,
{
    let mut x: u64 = *state;
    x = x ^ (x << 13);
    x = x ^ (x >> 7);
    x = x ^ (x << 17);
    *state = x;
    x
}

/// The generator never reaches zero, where it would stay.
pub proof fn xorshift_avoids_zero(x: u64)
    requires
        x != 0,
    ensures
        xorshift(x) != 0,
{
    let a = x ^ (x << 13);
    let b = a ^ (a >> 7);
    assert(x != 0 ==> x ^ (x << 13) != 0) by (bit_vector);
    assert(a != 0 ==> a ^ (a >> 7) != 0) by (bit_vector);
    assert(b != 0 ==> b ^ (b << 17) != 0) by (bit_vector);
}

/// One way of taking a value in.
#[inline(never)]
pub fn bp_add(sum: u64, val: u64) -> (r: u64)
    ensures
        r == sum.wrapping_add(val),
{
    sum.wrapping_add(val)
}

/// The other way of taking a value in.
#[inline(never)]
pub fn bp_mul(sum: u64, val: u64) -> (r: u64)
    ensures
        r == sum.wrapping_mul(val | 1),
{
    sum.wrapping_mul(val | 1)
}

/// Numbers from zero up.
pub open spec fn numbers(n: nat) -> Seq<u64> {
    Seq::new(n, |i: int| i as u64)
}

fn count_up(n: usize) -> (r: Vec<u64>)
    ensures
        r@ == numbers(n as nat),
{
    let mut r: Vec<u64> = Vec::new();
    let mut i: usize = 0;
    while i < n
        invariant
            i <= n,
            r@ == numbers(i as nat),
        decreases n - i,
    {
        r.push(i as u64);
        i = i + 1;
        assert(r@ =~= numbers(i as nat));
    }
    r
}

/// Random accesses to an array.
pub struct CacheThrash {
    /// The array.
    pub data: Vec<u64>,
    /// State of the generator.
    pub rng: u64,
    /// Sum of the values read.
    pub sum: u64,
}

/// Model of [`CacheThrash`].
#[verifier::ext_equal]
pub struct CacheThrashView {
    pub data: Seq<u64>,
    pub rng: u64,
    pub sum: u64,
}

impl View for CacheThrash {
    type V = CacheThrashView;

    open spec fn view(&self) -> CacheThrashView {
        CacheThrashView { data: self.data@, rng: self.rng, sum: self.sum }
    }
}

impl CacheThrashView {
    /// One access: the entry that the generator picks is read and incremented.
    pub open spec fn next(self) -> CacheThrashView {
        let rng = xorshift(self.rng);
        let i = (rng as int) % (self.data.len() as int);
        CacheThrashView {
            data: self.data.update(i, self.data[i].wrapping_add(1)),
            rng,
            sum: self.sum.wrapping_add(self.data[i]),
        }
    }

    /// Several accesses.
    pub open spec fn after(self, rounds: nat) -> CacheThrashView
        decreases rounds,
    {
        if rounds == 0 {
            self
        } else {
            self.after((rounds - 1) as nat).next()
        }
    }
}

impl CacheThrash {
    /// An array of `array_size_kb` kilobytes that counts up.
    pub fn new(array_size_kb: usize) -> (r: Self)
        requires
            0 < array_size_kb,
            array_size_kb * 1024 <= usize::MAX,
        ensures
            r@ == (CacheThrashView {
                data: numbers((array_size_kb * 1024 / 8) as nat),
                rng: SEED,
                sum: 0,
            }),
            r.data@.len() > 0,
    {
        CacheThrash { data: count_up(array_size_kb * 1024 / 8), rng: SEED, sum: 0 }
    }
}

/// Makes `rounds` random accesses.
pub fn run_cache_thrash(kernel: &mut CacheThrash, rounds: u64)
    requires
        old(kernel).data@.len() > 0,
    ensures
        final(kernel)@ == old(kernel)@.after(rounds as nat),
        final(kernel).data@.len() == old(kernel).data@.len(),
{
    let ghost start = kernel@;
    let mut k: u64 = 0;
    while k < rounds
        invariant
            k <= rounds,
            kernel@ == start.after(k as nat),
            kernel.data@.len() == start.data.len(),
            start.data.len() > 0,
        decreases rounds - k,
    {
        let ghost before = kernel@;
        let len: usize = kernel.data.len();
        let picked = xorshift64(&mut kernel.rng);
        let idx = (picked % len as u64) as usize;
        let value = kernel.data[idx];
        kernel.sum = kernel.sum.wrapping_add(value);
        kernel.data.set(idx, value.wrapping_add(1));
        assert(kernel@ =~= before.next());
        k = k + 1;
    }
}

/// Branches on random bits.
#[derive(Clone, Copy)]
pub struct BranchMispredict {
    /// State of the generator.
    pub rng: u64,
    /// What the values were taken into.
    pub sum: u64,
}

impl BranchMispredict {
    /// One branch: bit 7 of the generator decides how its state is taken in.
    pub open spec fn next(self) -> BranchMispredict {
        let val = xorshift(self.rng);
        BranchMispredict {
            rng: val,
            sum: if val & 128 != 0 {
                self.sum.wrapping_add(val)
            } else {
                self.sum.wrapping_mul(val | 1)
            },
        }
    }

    /// Several branches.
    pub open spec fn after(self, branches: nat) -> BranchMispredict
        decreases branches,
    {
        if branches == 0 {
            self
        } else {
            self.after((branches - 1) as nat).next()
        }
    }

    /// The kernel at its start.
    pub fn new() -> (r: Self)
        ensures
            r == (BranchMispredict { rng: SEED, sum: 1 }),
    {
        BranchMispredict { rng: SEED, sum: 1 }
    }
}

/// Takes one batch of branches.
pub fn run_branch_mispredict(kernel: &mut BranchMispredict, batch_size: usize)
    ensures
        *final(kernel) == old(kernel).after(batch_size as nat),
{
    let ghost start = *kernel;
    let mut k: usize = 0;
    while k < batch_size
        invariant
            k <= batch_size,
            *kernel == start.after(k as nat),
        decreases batch_size - k,
    {
        let val = xorshift64(&mut kernel.rng);
        kernel.sum = if val & 128 != 0 {
            bp_add(kernel.sum, val)
        } else {
            bp_mul(kernel.sum, val)
        };
        k = k + 1;
    }
}

/// Bytes per page.
pub const PAGE_SIZE: usize = 4096;

/// The state of the generator after some moves.
pub open spec fn xorshift_after(x: u64, n: nat) -> u64
    decreases n,
{
    if n == 0 {
        x
    } else {
        xorshift(xorshift_after(x, (n - 1) as nat))
    }
}

/// A sequence with two entries exchanged.
pub open spec fn exchanged(s: Seq<usize>, i: int, j: int) -> Seq<usize> {
    s.update(i, s[j]).update(j, s[i])
}

/// Entries shuffled from the end down to position `i`, with generator state `x` before.
pub open spec fn shuffled_down(s: Seq<usize>, x: u64, i: int) -> Seq<usize>
    decreases i,
{
    if i < 1 {
        s
    } else {
        let y = xorshift(x);
        shuffled_down(exchanged(s, i, (y as int) % (i + 1)), y, i - 1)
    }
}

/// The order in which pages are visited.
pub open spec fn page_order(num_pages: nat, x: u64) -> Seq<usize> {
    shuffled_down(Seq::new(num_pages, |i: int| i as usize), x, num_pages - 1)
}

/// One access per page, in random order.
pub struct TlbThrash {
    /// The pages, one after the other.
    pub data: Vec<u8>,
    /// The order in which they are visited.
    pub page_order: Vec<usize>,
    /// Sum of the bytes read.
    pub sum: u64,
}

/// The bytes and the sum after visiting the first `n` pages of an order.
pub open spec fn visited(data: Seq<u8>, sum: u64, order: Seq<usize>, n: nat) -> (Seq<u8>, u64)
    decreases n,
{
    if n == 0 {
        (data, sum)
    } else {
        let (d, s) = visited(data, sum, order, (n - 1) as nat);
        let at = order[n - 1] * PAGE_SIZE;
        (d.update(at, d[at].wrapping_add(1)), s.wrapping_add(d[at] as u64))
    }
}

/// The first bytes of the pages: what the generator gives, page by page.
pub open spec fn fresh_page(i: int) -> u8 {
    xorshift_after(SEED, (i + 1) as nat) as u8
}

impl TlbThrash {
    /// Validity: every page that is visited exists.
    pub open spec fn wf(&self) -> bool {
        forall|i: int|
            0 <= i < self.page_order@.len() ==> (#[trigger] self.page_order@[i]) * PAGE_SIZE
                < self.data@.len()
    }

    /// `num_pages` pages, each with its first byte set by the generator.
    pub fn new(num_pages: usize) -> (r: Self)
        requires
            num_pages * PAGE_SIZE <= usize::MAX,
        ensures
            r.wf(),
            r.sum == 0,
            r.data@.len() == num_pages * PAGE_SIZE,
            forall|i: int|
                0 <= i < num_pages * PAGE_SIZE ==> #[trigger] r.data@[i] == if i % 4096 == 0 {
                    fresh_page(i / 4096)
                } else {
                    0
                },
            r.page_order@ == page_order(num_pages as nat, xorshift_after(SEED, num_pages as nat)),
    {
        let mut data: Vec<u8> = vec![0u8; num_pages * PAGE_SIZE];
        let mut rng: u64 = SEED;
        let mut i: usize = 0;
        while i < num_pages
            invariant
                i <= num_pages,
                num_pages * 4096 <= usize::MAX,
                data@.len() == num_pages * 4096,
                rng == xorshift_after(SEED, i as nat),
                forall|k: int|
                    0 <= k < num_pages * 4096 ==> #[trigger] data@[k] == if k % 4096 == 0 && k
                        / 4096 < i {
                        fresh_page(k / 4096)
                    } else {
                        0
                    },
            decreases num_pages - i,
        {
            let byte = #[verifier::truncate] (xorshift64(&mut rng) as u8);
            data.set(i * PAGE_SIZE, byte);
            i = i + 1;
        }
        let mut order: Vec<usize> = Vec::new();
        i = 0;
        while i < num_pages
            invariant
                i <= num_pages,
                order@ == Seq::new(i as nat, |k: int| k as usize),
            decreases num_pages - i,
        {
            order.push(i);
            i = i + 1;
            assert(order@ =~= Seq::new(i as nat, |k: int| k as usize));
        }
        let ghost first = rng;
        let ghost all = page_order(num_pages as nat, first);
        if num_pages > 0 {
            let mut at: usize = num_pages - 1;
            while at > 0
                invariant
                    at < num_pages,
                    order@.len() == num_pages,
                    all == shuffled_down(order@, rng, at as int),
                decreases at,
            {
                let ghost before = order@;
                let picked = xorshift64(&mut rng);
                let j = (picked % (at as u64 + 1)) as usize;
                let a = order[at];
                let b = order[j];
                order.set(at, b);
                order.set(j, a);
                assert(order@ =~= exchanged(before, at as int, j as int));
                at = at - 1;
            }
        }
        proof {
            shuffling_permutes(num_pages as nat, first);
            assert forall|k: int| 0 <= k < order@.len() implies (#[trigger] order@[k]) * 4096
                < data@.len() by {
                assert(order@[k] < num_pages);
            }
        }
        TlbThrash { data, page_order: order, sum: 0 }
    }
}

/// Whether `s` lists every number below `n` once.
pub open spec fn is_permutation(s: Seq<usize>, n: nat) -> bool {
    &&& s.len() == n
    &&& s.no_duplicates()
    &&& forall|i: int| 0 <= i < n ==> (#[trigger] s[i]) < n
}

proof fn lemma_shuffled_down(s: Seq<usize>, x: u64, i: int)
    requires
        is_permutation(s, s.len()),
        i < s.len(),
    ensures
        is_permutation(shuffled_down(s, x, i), s.len()),
    decreases i,
{
    if i >= 1 {
        let y = xorshift(x);
        let j = (y as int) % (i + 1);
        let t = exchanged(s, i, j);
        assert(0 <= j <= i);
        assert forall|a: int, b: int| 0 <= a < t.len() && 0 <= b < t.len() && a != b implies t[a]
            != t[b] by {
            let a0 = if a == i {
                j
            } else if a == j {
                i
            } else {
                a
            };
            let b0 = if b == i {
                j
            } else if b == j {
                i
            } else {
                b
            };
            assert(t[a] == s[a0] && t[b] == s[b0] && a0 != b0);
        }
        lemma_shuffled_down(t, y, i - 1);
    }
}

/// Pages are visited in an order that has every page once.
pub proof fn shuffling_permutes(num_pages: nat, x: u64)
    requires
        num_pages <= usize::MAX,
    ensures
        is_permutation(page_order(num_pages, x), num_pages),
{
    let s = Seq::new(num_pages, |i: int| i as usize);
    assert(is_permutation(s, num_pages));
    lemma_shuffled_down(s, x, num_pages - 1);
}

/// Visits every page once.
pub fn run_tlb_thrash(kernel: &mut TlbThrash)
    requires
        old(kernel).wf(),
    ensures
        final(kernel).wf(),
        final(kernel).page_order@ == old(kernel).page_order@,
        (final(kernel).data@, final(kernel).sum) == visited(
            old(kernel).data@,
            old(kernel).sum,
            old(kernel).page_order@,
            old(kernel).page_order@.len(),
        ),
{
    let ghost data = kernel.data@;
    let ghost sum = kernel.sum;
    let ghost order = kernel.page_order@;
    let mut i: usize = 0;
    while i < kernel.page_order.len()
        invariant
            i <= order.len(),
            kernel.page_order@ == order,
            kernel.wf(),
            kernel.data@.len() == data.len(),
            (kernel.data@, kernel.sum) == visited(data, sum, order, i as nat),
        decreases order.len() - i,
    {
        let page = kernel.page_order[i];
        assert(page * PAGE_SIZE < kernel.data@.len());
        assert(kernel.data@.len() == kernel.data.len());
        let offset = page * PAGE_SIZE;
        let byte = kernel.data[offset];
        kernel.sum = kernel.sum.wrapping_add(byte as u64);
        kernel.data.set(offset, byte.wrapping_add(1));
        i = i + 1;
    }
}

/// Passes over a large buffer.
pub struct MemStream {
    /// The buffer.
    pub data: Vec<u64>,
    /// Running sum.
    pub sum: u64,
}

/// The running sum after the first `n` entries.
pub open spec fn running_sum(data: Seq<u64>, sum: u64, n: nat) -> u64
    decreases n,
{
    if n == 0 {
        sum
    } else {
        running_sum(data, sum, (n - 1) as nat).wrapping_add(data[n - 1])
    }
}

impl MemStream {
    /// A buffer of `buffer_size_mb` megabytes that counts up.
    pub fn new(buffer_size_mb: usize) -> (r: Self)
        requires
            buffer_size_mb * 1024 * 1024 <= usize::MAX,
        ensures
            r.data@ == numbers((buffer_size_mb * 1024 * 1024 / 8) as nat),
            r.sum == 0,
    {
        MemStream { data: count_up(buffer_size_mb * 1024 * 1024 / 8), sum: 0 }
    }
}

/// Passes over the buffer once: every entry becomes the running sum up to it.
pub fn run_mem_stream(kernel: &mut MemStream)
    ensures
        final(kernel).data@ == Seq::new(
            old(kernel).data@.len(),
            |i: int| running_sum(old(kernel).data@, old(kernel).sum, (i + 1) as nat),
        ),
        final(kernel).sum == running_sum(
            old(kernel).data@,
            old(kernel).sum,
            old(kernel).data@.len(),
        ),
{
    let ghost data = kernel.data@;
    let ghost sum = kernel.sum;
    let mut i: usize = 0;
    while i < kernel.data.len()
        invariant
            i <= data.len(),
            kernel.data@.len() == data.len(),
            kernel.sum == running_sum(data, sum, i as nat),
            forall|k: int|
                0 <= k < data.len() ==> #[trigger] kernel.data@[k] == if k < i {
                    running_sum(data, sum, (k + 1) as nat)
                } else {
                    data[k]
                },
        decreases data.len() - i,
    {
        kernel.sum = kernel.sum.wrapping_add(kernel.data[i]);
        kernel.data.set(i, kernel.sum);
        i = i + 1;
    }
    assert(kernel.data@ =~= Seq::new(
        data.len(),
        |i: int| running_sum(data, sum, (i + 1) as nat),
    ));
}

/// Integer divisions.
pub struct IntDiv {
    /// The divisors, used in turn.
    pub divisors: Vec<u64>,
    /// What is divided.
    pub dividend: u64,
    /// Sum of quotients and remainders.
    pub sum: u64,
    /// Divisions so far.
    pub iter: u64,
}

/// How many divisors there are.
pub const DIVISOR_COUNT: usize = 1024;

/// Divisor `i`.
pub open spec fn divisor(divisor_range: u64, i: int) -> u64 {
    (xorshift_after(SEED, (i + 1) as nat) % divisor_range + 1) as u64
}

/// What is divided next.
pub open spec fn next_dividend(dividend: u64) -> u64 {
    dividend.wrapping_mul(6364136223846793005).wrapping_add(1)
}

/// Dividend and sum after some divisions, the first being number `iter`.
pub open spec fn divided(
    divisors: Seq<u64>,
    dividend: u64,
    sum: u64,
    iter: nat,
    rounds: nat,
) -> (u64, u64)
    decreases rounds,
{
    if rounds == 0 {
        (dividend, sum)
    } else {
        let (d, s) = divided(divisors, dividend, sum, iter, (rounds - 1) as nat);
        let next = next_dividend(d);
        let by = divisors[(iter + rounds - 1) % 1024];
        (next, s.wrapping_add(next / by).wrapping_add(next % by))
    }
}

impl IntDiv {
    /// Validity: there are as many divisors as there should be, none of them zero.
    pub open spec fn wf(&self) -> bool {
        &&& self.divisors@.len() == DIVISOR_COUNT
        &&& forall|i: int| 0 <= i < self.divisors@.len() ==> #[trigger] self.divisors@[i] > 0
    }

    /// Random divisors between one and `divisor_range`.
    pub fn new(divisor_range: u64) -> (r: Self)
        requires
            divisor_range > 0,
        ensures
            r.wf(),
            r.divisors@ == Seq::new(1024, |i: int| divisor(divisor_range, i)),
            r.dividend == 0xcafebabe,
            r.sum == 0,
            r.iter == 0,
    {
        let mut rng: u64 = SEED;
        let mut divisors: Vec<u64> = Vec::new();
        let mut i: usize = 0;
        while i < DIVISOR_COUNT
            invariant
                i <= 1024,
                divisor_range > 0,
                rng == xorshift_after(SEED, i as nat),
                divisors@.len() == i,
                forall|k: int|
                    0 <= k < i ==> #[trigger] divisors@[k] == divisor(divisor_range, k)
                        && divisors@[k] > 0,
            decreases 1024 - i,
        {
            let val = xorshift64(&mut rng);
            assert(val % divisor_range < divisor_range);
            divisors.push(val % divisor_range + 1);
            i = i + 1;
        }
        assert(divisors@ =~= Seq::new(1024, |i: int| divisor(divisor_range, i)));
        IntDiv { divisors, dividend: 0xcafebabe, sum: 0, iter: 0 }
    }
}

/// Makes `rounds` divisions.
pub fn run_int_div(kernel: &mut IntDiv, rounds: u64)
    requires
        old(kernel).wf(),
        old(kernel).iter + rounds <= u64::MAX,
    ensures
        final(kernel).wf(),
        final(kernel).divisors@ == old(kernel).divisors@,
        final(kernel).iter == old(kernel).iter + rounds,
        (final(kernel).dividend, final(kernel).sum) == divided(
            old(kernel).divisors@,
            old(kernel).dividend,
            old(kernel).sum,
            old(kernel).iter as nat,
            rounds as nat,
        ),
{
    let ghost start = *kernel;
    let mut k: u64 = 0;
    while k < rounds
        invariant
            k <= rounds,
            kernel.wf(),
            kernel.divisors@ == start.divisors@,
            kernel.iter == start.iter + k,
            start.iter + rounds <= u64::MAX,
            (kernel.dividend, kernel.sum) == divided(
                start.divisors@,
                start.dividend,
                start.sum,
                start.iter as nat,
                k as nat,
            ),
        decreases rounds - k,
    {
        let idx = (kernel.iter % DIVISOR_COUNT as u64) as usize;
        kernel.dividend = kernel.dividend.wrapping_mul(6364136223846793005).wrapping_add(1);
        let by = kernel.divisors[idx];
        assert(by > 0);
        let quotient = kernel.dividend / by;
        let remainder = kernel.dividend % by;
        kernel.sum = kernel.sum.wrapping_add(quotient).wrapping_add(remainder);
        kernel.iter = kernel.iter + 1;
        k = k + 1;
    }
}

/// The complaint about a workload is about its first incomplete phase: it names the number of the
/// phase and the first of duration, threads and size that is zero.
pub proof fn the_first_incomplete_phase_is_named(phases: Seq<Phase>, from: nat, i: int)
    requires
        from <= i < phases.len(),
        forall|j: int|
            from <= j < i ==> (#[trigger] phases[j]).duration_secs > 0 && phases[j].threads > 0
                && phases[j].kind.size() > 0,
    ensures
        phases[i].duration_secs == 0 ==> complaint_about(phases, from) == Some(
            "phase "@ + text::decimal(i as nat) + ": "@ + "duration_secs"@ + " must be > 0"@,
        ),
        phases[i].duration_secs > 0 && phases[i].threads == 0 ==> complaint_about(phases, from)
            == Some("phase "@ + text::decimal(i as nat) + ": "@ + "threads"@ + " must be > 0"@),
        phases[i].duration_secs > 0 && phases[i].threads > 0 && phases[i].kind.size() == 0
            ==> complaint_about(phases, from) == Some(
            "phase "@ + text::decimal(i as nat) + ": "@ + phases[i].kind.size_name()
                + " must be > 0"@,
        ),
    decreases i - from,
{
    if from < i {
        assert(phases[from as int].duration_secs > 0);
        the_first_incomplete_phase_is_named(phases, from + 1, i);
    }
}

/// Accesses to the array follow one another, and each reads one entry and increments it.
pub proof fn accesses_touch_one_entry(v: CacheThrashView, a: nat, b: nat)
    requires
        v.data.len() > 0,
    ensures
        v.after(a + b) == v.after(a).after(b),
        v.after(1) == v.next(),
        v.next().data.len() == v.data.len(),
        exists|i: int|
            0 <= i < v.data.len() && (#[trigger] v.next().data[i]) == v.data[i].wrapping_add(1)
                && v.next().sum == v.sum.wrapping_add(v.data[i]) && (forall|j: int|
                0 <= j < v.data.len() && j != i ==> #[trigger] v.next().data[j] == v.data[j]),
    decreases b,
{
    reveal_with_fuel(CacheThrashView::after, 2);
    let i = (xorshift(v.rng) as int) % (v.data.len() as int);
    assert(v.next().data[i] == v.data[i].wrapping_add(1));
    if b > 0 {
        accesses_touch_one_entry(v, a, (b - 1) as nat);
    }
}

/// Branches follow one another, and the generator moves on by one with each.
pub proof fn branches_follow_one_another(k: BranchMispredict, a: nat, b: nat)
    ensures
        k.after(a + b) == k.after(a).after(b),
        k.after(1) == k.next(),
        k.after(b).rng == xorshift_after(k.rng, b),
        k.next().rng & 128 != 0 ==> k.next().sum == k.sum.wrapping_add(k.next().rng),
        k.next().rng & 128 == 0 ==> k.next().sum == k.sum.wrapping_mul(k.next().rng | 1),
    decreases b,
{
    reveal_with_fuel(BranchMispredict::after, 2);
    if b > 0 {
        branches_follow_one_another(k, a, (b - 1) as nat);
    }
}

/// The generator moves on step by step.
pub proof fn generator_steps_add_up(x: u64, a: nat, b: nat)
    ensures
        xorshift_after(x, a + b) == xorshift_after(xorshift_after(x, a), b),
        xorshift_after(x, 1) == xorshift(x),
    decreases b,
{
    reveal_with_fuel(xorshift_after, 2);
    if b > 0 {
        generator_steps_add_up(x, a, (b - 1) as nat);
    }
}

/// The generator can be run backwards: no two states have the same successor.
pub proof fn generator_states_have_one_predecessor(x: u64, y: u64)
    ensures
        xorshift(x) == xorshift(y) ==> x == y,
{
    let a = x ^ (x << 13);
    let c = y ^ (y << 13);
    let b = a ^ (a >> 7);
    let d = c ^ (c >> 7);
    assert(b ^ (b << 17) == d ^ (d << 17) ==> b == d) by (bit_vector);
    assert(a ^ (a >> 7) == c ^ (c >> 7) ==> a == c) by (bit_vector);
    assert(x ^ (x << 13) == y ^ (y << 13) ==> x == y) by (bit_vector);
}

/// Visiting pages none of which comes twice increments the first byte of each and leaves all other
/// bytes alone.
pub proof fn each_page_is_visited(data: Seq<u8>, sum: u64, order: Seq<usize>, n: nat, at: int)
    requires
        n <= order.len(),
        order.no_duplicates(),
        0 <= at < data.len(),
        forall|i: int| 0 <= i < order.len() ==> (#[trigger] order[i]) * 4096 < data.len(),
    ensures
        visited(data, sum, order, n).0.len() == data.len(),
        forall|i: int|
            0 <= i < n && at == (#[trigger] order[i]) * 4096 ==> visited(
                data,
                sum,
                order,
                n,
            ).0[at] == data[at].wrapping_add(1),
        (forall|i: int| 0 <= i < n ==> at != (#[trigger] order[i]) * 4096) ==> visited(
            data,
            sum,
            order,
            n,
        ).0[at] == data[at],
    decreases n,
{
    if n > 0 {
        each_page_is_visited(data, sum, order, (n - 1) as nat, at);
        let page = order[n - 1] * 4096;
        if at == page {
            assert forall|i: int| 0 <= i < n - 1 implies at != (#[trigger] order[i]) * 4096 by {
                assert(order[i] != order[n - 1]);
            }
        }
    }
}

/// The sum of a visit grows by the first byte that each page has when its turn comes.
pub proof fn visits_sum_the_bytes_read(data: Seq<u8>, sum: u64, order: Seq<usize>, n: nat)
    requires
        0 < n <= order.len(),
        order.no_duplicates(),
        forall|i: int| 0 <= i < order.len() ==> (#[trigger] order[i]) * 4096 < data.len(),
    ensures
        visited(data, sum, order, n).1 == visited(data, sum, order, (n - 1) as nat).1.wrapping_add(
            data[order[n - 1] * 4096] as u64,
        ),
        visited(data, sum, order, 0).1 == sum,
{
    let page = order[n - 1] * 4096;
    each_page_is_visited(data, sum, order, (n - 1) as nat, page);
    assert forall|i: int| 0 <= i < n - 1 implies page != (#[trigger] order[i]) * 4096 by {
        assert(order[i] != order[n - 1]);
    }
}

/// The running sum of a buffer is that of its entries, added up from the sum before.
pub proof fn running_sums_add_up(data: Seq<u64>, sum: u64, n: nat)
    requires
        n <= data.len(),
    ensures
        running_sum(data, sum, n) == data.take(n as int).fold_left(
            sum,
            |s: u64, x: u64| s.wrapping_add(x),
        ),
    decreases n,
{
    if n > 0 {
        running_sums_add_up(data, sum, (n - 1) as nat);
        assert(data.take(n as int).drop_last() =~= data.take(n - 1));
    }
}

/// Divisors lie between one and the range.
pub proof fn divisors_lie_in_the_range(divisor_range: u64, i: int)
    requires
        divisor_range > 0,
        i >= 0,
    ensures
        1 <= divisor(divisor_range, i) <= divisor_range,
        divisor(divisor_range, i) - 1 == xorshift_after(SEED, (i + 1) as nat) % divisor_range,
{
}

/// Divisions follow one another, and the divisors are used in turn.
pub proof fn divisions_follow_one_another(
    divisors: Seq<u64>,
    dividend: u64,
    sum: u64,
    iter: nat,
    a: nat,
    b: nat,
)
    ensures
        ({
            let mid = divided(divisors, dividend, sum, iter, a);
            &&& divided(divisors, dividend, sum, iter, a + b) == divided(
                divisors,
                mid.0,
                mid.1,
                iter + a,
                b,
            )
            &&& divided(divisors, dividend, sum, iter, 1).0 == next_dividend(dividend)
            &&& divided(divisors, dividend, sum, iter, 1).1 == sum.wrapping_add(
                next_dividend(dividend) / divisors[(iter % 1024) as int],
            ).wrapping_add(next_dividend(dividend) % divisors[(iter % 1024) as int])
        }),
    decreases b,
{
    reveal_with_fuel(divided, 2);
    if b > 0 {
        divisions_follow_one_another(divisors, dividend, sum, iter, a, (b - 1) as nat);
    }
}

} // verus!
