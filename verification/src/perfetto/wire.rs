//! The container format of a trace: varint-length-prefixed packets.

use vstd::prelude::*;
use vstd::slice::*;

verus! {

/// `128^n`, the weight of the `n`-th varint byte.
pub open spec fn weight(n: nat) -> nat
    decreases n,
{
    if n == 0 {
        1
    } else {
        128 * weight((n - 1) as nat)
    }
}

/// The varint notation of a number: seven bits per byte, least significant first, with the top
/// bit set on every byte but the last.
pub open spec fn varint(v: nat) -> Seq<u8>
    decreases v,
{
    if v < 128 {
        seq![v as u8]
    } else {
        seq![(v % 128 + 128) as u8] + varint(v / 128)
    }
}

/// The number whose base-128 digits are the low seven bits of each byte, least significant first.
pub open spec fn digits_value(s: Seq<u8>) -> nat
    decreases s.len(),
{
    if s.len() == 0 {
        0
    } else {
        (s[0] % 128) as nat + 128 * digits_value(s.drop_first())
    }
}

/// How many bytes at the front of `s` have their top bit set.
pub open spec fn continuation_run(s: Seq<u8>) -> nat
    decreases s.len(),
{
    if s.len() == 0 || s[0] < 128 {
        0
    } else {
        1 + continuation_run(s.drop_first())
    }
}

/// The varint at the front of `s` as `(value, length)`: absent when no byte ends it, or when it
/// is longer than the ten bytes that a 64-bit number can take.
pub open spec fn varint_at(s: Seq<u8>) -> Option<(nat, nat)> {
    let n = continuation_run(s);
    if n < s.len() && n < 10 {
        Some((digits_value(s.take(n as int + 1)) % 0x1_0000_0000_0000_0000, n + 1))
    } else {
        None
    }
}

proof fn lemma_digits_push(s: Seq<u8>, b: u8)
    ensures
        digits_value(s.push(b)) == digits_value(s) + (b % 128) as nat * weight(s.len()),
    decreases s.len(),
{
    if s.len() == 0 {
        assert(s.push(b).drop_first() =~= Seq::<u8>::empty());
        assert(digits_value(Seq::<u8>::empty()) == 0);
        assert(weight(0) == 1);
    } else {
        assert(s.push(b).drop_first() =~= s.drop_first().push(b));
        lemma_digits_push(s.drop_first(), b);
        let w = weight((s.len() - 1) as nat);
        let d = (b % 128) as nat;
        assert(128 * (digits_value(s.drop_first()) + d * w) == 128 * digits_value(s.drop_first())
            + d * (128 * w)) by (nonlinear_arith);
    }
}

proof fn lemma_digits_bound(s: Seq<u8>)
    ensures
        digits_value(s) < weight(s.len()),
    decreases s.len(),
{
    if s.len() > 0 {
        lemma_digits_bound(s.drop_first());
    }
}

proof fn lemma_weights()
    ensures
        weight(0) == 1,
        weight(1) == 0x80,
        weight(2) == 0x4000,
        weight(3) == 0x20_0000,
        weight(4) == 0x1000_0000,
        weight(5) == 0x8_0000_0000,
        weight(6) == 0x400_0000_0000,
        weight(7) == 0x2_0000_0000_0000,
        weight(8) == 0x100_0000_0000_0000,
        weight(9) == 0x8000_0000_0000_0000,
        weight(10) == 0x40_0000_0000_0000_0000,
{
    reveal_with_fuel(weight, 11);
}

proof fn lemma_run_prefix(s: Seq<u8>, n: nat)
    requires
        n <= s.len(),
        forall|i: int| 0 <= i < n ==> s[i] >= 128,
    ensures
        continuation_run(s) == n + continuation_run(s.skip(n as int)),
    decreases n,
{
    if n == 0 {
        assert(s.skip(0) =~= s);
    } else {
        lemma_run_prefix(s.drop_first(), (n - 1) as nat);
        assert(s.drop_first().skip(n - 1) =~= s.skip(n as int));
    }
}

proof fn lemma_run_bytes(s: Seq<u8>)
    ensures
        continuation_run(s) <= s.len(),
        forall|i: int| 0 <= i < continuation_run(s) ==> s[i] >= 128,
        continuation_run(s) < s.len() ==> s[continuation_run(s) as int] < 128,
    decreases s.len(),
{
    if s.len() > 0 && s[0] >= 128 {
        lemma_run_bytes(s.drop_first());
        assert forall|i: int| 0 <= i < continuation_run(s) implies s[i] >= 128 by {
            if i > 0 {
                assert(s[i] == s.drop_first()[i - 1]);
            }
        }
    }
}

/// A varint that `a` already holds in full is read the same whatever follows `a`.
pub proof fn lemma_varint_at_prefix(a: Seq<u8>, b: Seq<u8>)
    requires
        varint_at(a) is Some,
    ensures
        varint_at(a + b) == varint_at(a),
        (varint_at(a)->0).1 <= a.len(),
{
    lemma_run_bytes(a);
    let n = continuation_run(a);
    let ab = a + b;
    assert forall|i: int| 0 <= i < n implies ab[i] >= 128 by {
        assert(ab[i] == a[i]);
    }
    lemma_run_prefix(ab, n);
    assert(ab.skip(n as int)[0] == a[n as int]);
    assert(continuation_run(ab) == n);
    assert(ab.take(n as int + 1) =~= a.take(n as int + 1));
}

proof fn lemma_varint_shape(v: nat)
    ensures
        varint(v).len() >= 1,
        digits_value(varint(v)) == v,
        continuation_run(varint(v)) == varint(v).len() - 1,
    decreases v,
{
    if v < 128 {
        assert(varint(v).drop_first() =~= Seq::<u8>::empty());
        assert(digits_value(Seq::<u8>::empty()) == 0);
    } else {
        lemma_varint_shape(v / 128);
        assert(varint(v).drop_first() =~= varint(v / 128));
    }
}

proof fn lemma_varint_len(v: nat, k: nat)
    requires
        v < weight(k),
        k >= 1,
    ensures
        varint(v).len() <= k,
    decreases k,
{
    if v >= 128 {
        if k == 1 {
            assert(weight(1) == 128 * weight(0));
        } else {
            assert(v / 128 < weight((k - 1) as nat));
            lemma_varint_len(v / 128, (k - 1) as nat);
        }
    }
}

/// Reading what was written: the varint notation of any 64-bit number is read back as that
/// number, whatever follows it.
pub proof fn varint_round_trip(v: u64, rest: Seq<u8>)
    ensures
        varint_at(varint(v as nat) + rest) == Some((v as nat, varint(v as nat).len())),
{
    lemma_varint_shape(v as nat);
    lemma_weights();
    lemma_varint_len(v as nat, 10);
    let s = varint(v as nat);
    assert(s.take(s.len() as int) =~= s);
    assert(varint_at(s) == Some((v as nat, s.len())));
    lemma_varint_at_prefix(s, rest);
}

/// Appends `value` as a varint.
pub fn write_varint(out: &mut Vec<u8>, value: u64)
    ensures
        final(out)@ == old(out)@ + varint(value as nat),
{
    let mut value: u64 = value;
    let ghost start = value;
    assert(out@ + varint(value as nat) =~= old(out)@ + varint(start as nat));
    while value >= 128
        invariant
            out@ + varint(value as nat) == old(out)@ + varint(start as nat),
        decreases value,
    {
        let ghost before = out@;
        out.push((value % 128 + 128) as u8);
        assert(out@ + varint((value / 128) as nat) =~= before + varint(value as nat));
        value = value / 128;
    }
    out.push(value as u8);
    assert(out@ =~= old(out)@ + varint(start as nat));
}

/// Decodes the varint at the front of `data`.
///
/// Returns `(value, bytes_consumed)`, or `None` if the slice is truncated or the varint is longer
/// than ten bytes.
pub fn read_varint(data: &[u8]) -> (r: Option<(u64, usize)>)
    ensures
        match r {
            Some((value, consumed)) => varint_at(data@) == Some((value as nat, consumed as nat)),
            None => varint_at(data@) is None,
        },
        r matches Some((_, consumed)) ==> consumed <= data@.len(),
{
    let mut value: u64 = 0;
    let mut place: u64 = 1;
    let mut i: usize = 0;
    proof {
        lemma_weights();
        assert(data@.take(0) =~= Seq::<u8>::empty());
    }
    while i < data.len()
        invariant
            i <= data@.len(),
            i <= 9,
            forall|j: int| 0 <= j < i ==> data@[j] >= 128,
            value == digits_value(data@.take(i as int)),
            place == weight(i as nat),
        decreases data@.len() - i,
    {
        let byte = data[i];
        proof {
            lemma_weights();
            lemma_digits_bound(data@.take(i as int));
            lemma_digits_push(data@.take(i as int), byte);
            assert(data@.take(i as int).push(byte) =~= data@.take(i as int + 1));
            lemma_run_prefix(data@, i as nat);
            assert(data@.skip(i as int)[0] == byte);
        }
        let ghost total = digits_value(data@.take(i as int + 1));
        if i == 9 {
            let low: u64 = if byte % 2 == 1 {
                0x8000_0000_0000_0000
            } else {
                0
            };
            if byte < 128 {
                assert(continuation_run(data@) == 9);
                assert(total == value + (byte % 128) as nat * 0x8000_0000_0000_0000);
                assert(total % 0x1_0000_0000_0000_0000 == value + low);
                return Some((value + low, 10));
            }
            assert(continuation_run(data@) >= 10) by {
                assert(data@.skip(9).drop_first() =~= data@.skip(10));
            }
            return None;
        }
        let digit: u64 = (byte % 128) as u64;
        assert(digit * place < 128 * place) by (nonlinear_arith)
            requires
                digit < 128,
                place > 0,
        ;
        assert(128 * place <= 0x8000_0000_0000_0000);
        assert(value + digit * place < 128 * place) by {
            assert(digit * place <= 127 * place) by (nonlinear_arith)
                requires
                    digit <= 127,
            ;
        }
        value = value + digit * place;
        if byte < 128 {
            assert(continuation_run(data@) == i);
            assert(value < 0x1_0000_0000_0000_0000);
            return Some((value, i + 1));
        }
        place = place * 128;
        i = i + 1;
    }
    proof {
        lemma_run_prefix(data@, i as nat);
    }
    None
}

/// The tag byte of a packet in the container: field 1, length-delimited.
pub const PACKET_TAG: u8 = 0x0A;

/// A packet in the container: its tag, its length as a varint, its bytes.
pub open spec fn frame(payload: Seq<u8>) -> Seq<u8> {
    seq![PACKET_TAG] + varint(payload.len()) + payload
}

/// Appends a packet to the container.
pub fn write_frame(out: &mut Vec<u8>, payload: &Vec<u8>)
    ensures
        final(out)@ == old(out)@ + frame(payload@),
{
    out.push(PACKET_TAG);
    write_varint(out, payload.len() as u64);
    let mut i: usize = 0;
    let ghost head = out@;
    while i < payload.len()
        invariant
            i <= payload@.len(),
            out@ == head + payload@.take(i as int),
        decreases payload@.len() - i,
    {
        out.push(payload[i]);
        assert(payload@.take(i as int + 1) =~= payload@.take(i as int).push(payload@[i as int]));
        assert(out@ =~= head + payload@.take(i as int + 1));
        i = i + 1;
    }
    assert(payload@.take(payload@.len() as int) =~= payload@);
    assert(out@ =~= old(out)@ + frame(payload@));
}

/// What stands at the front of a container: where the payload of its first packet begins and
/// ends, or what is wrong with it.
pub enum FrontFrame {
    /// The first packet's payload is `data[start..end]`.
    Payload { start: usize, end: usize },
    /// The first byte is not the packet tag.
    BadTag,
    /// No complete length follows the tag.
    TruncatedVarint,
    /// The length reaches beyond the end of the data.
    BeyondEnd,
}

/// Model of [`FrontFrame`].
pub enum FrontFrameView {
    Payload { start: nat, end: nat },
    BadTag,
    TruncatedVarint,
    BeyondEnd,
}

impl View for FrontFrame {
    type V = FrontFrameView;

    open spec fn view(&self) -> FrontFrameView {
        match self {
            FrontFrame::Payload { start, end } => FrontFrameView::Payload {
                start: *start as nat,
                end: *end as nat,
            },
            FrontFrame::BadTag => FrontFrameView::BadTag,
            FrontFrame::TruncatedVarint => FrontFrameView::TruncatedVarint,
            FrontFrame::BeyondEnd => FrontFrameView::BeyondEnd,
        }
    }
}

/// What stands at the front of the non-empty container `data`.
pub open spec fn front_frame(data: Seq<u8>) -> FrontFrameView {
    if data[0] != PACKET_TAG {
        FrontFrameView::BadTag
    } else {
        match varint_at(data.skip(1)) {
            None => FrontFrameView::TruncatedVarint,
            Some((len, consumed)) => if 1 + consumed + len > data.len() {
                FrontFrameView::BeyondEnd
            } else {
                FrontFrameView::Payload { start: 1 + consumed, end: 1 + consumed + len }
            },
        }
    }
}

/// Finds the first packet of `data` from `pos` on; offsets in the result count from `pos`.
pub fn read_frame(data: &[u8], pos: usize) -> (r: FrontFrame)
    requires
        pos < data@.len(),
    ensures
        r@ == front_frame(data@.skip(pos as int)),
        r matches FrontFrame::Payload { start, end } ==> 1 <= start <= end <= data@.len() - pos,
{
    let ghost rest = data@.skip(pos as int);
    assert(rest[0] == data@[pos as int]);
    if data[pos] != PACKET_TAG {
        return FrontFrame::BadTag;
    }
    let tail = slice_subrange(data, pos + 1, data.len());
    assert(tail@ =~= rest.skip(1));
    match read_varint(tail) {
        None => FrontFrame::TruncatedVarint,
        Some((len, consumed)) => {
            let left: usize = tail.len() - consumed;
            if len > left as u64 {
                FrontFrame::BeyondEnd
            } else {
                FrontFrame::Payload { start: 1 + consumed, end: 1 + consumed + len as usize }
            }
        },
    }
}

/// A packet that stands in full at the front of `a` is found there whatever follows `a`.
pub proof fn lemma_front_frame_prefix(a: Seq<u8>, b: Seq<u8>)
    requires
        a.len() > 0,
        front_frame(a) is Payload,
    ensures
        front_frame(a + b) == front_frame(a),
{
    assert((a + b).skip(1) =~= a.skip(1) + b);
    lemma_varint_at_prefix(a.skip(1), b);
}

/// Reading back a written packet: at the front of a container that begins with `frame(payload)`
/// stands exactly that payload.
pub proof fn frame_round_trip(payload: Seq<u8>, rest: Seq<u8>)
    requires
        payload.len() <= u64::MAX,
    ensures
        front_frame(frame(payload) + rest) matches FrontFrameView::Payload { start, end } && end
            == frame(payload).len() && (frame(payload) + rest).subrange(start as int, end as int)
            == payload,
{
    let n = payload.len();
    let whole = frame(payload) + rest;
    assert(whole.skip(1) =~= varint(n) + (payload + rest));
    varint_round_trip(n as u64, payload + rest);
    let head = 1 + varint(n).len();
    assert(whole.subrange(head as int, (head + n) as int) =~= payload);
}

/// Byte by byte: the bytes of a varint hold the base-128 digits of the number, the lowest first;
/// all but the last have their top bit set, and the last holds a digit other than zero unless it is
/// the only one.
pub proof fn varints_hold_the_digits(v: nat, i: nat)
    requires
        i < varint(v).len(),
    ensures
        varint(v)[i as int] % 128 == v as int / vstd::arithmetic::power::pow(128, i) % 128,
        varint(v)[i as int] >= 128 <==> i + 1 < varint(v).len(),
        i + 1 == varint(v).len() && i > 0 ==> varint(v)[i as int] != 0,
    decreases v,
{
    vstd::arithmetic::power::lemma_pow0(128);
    if v < 128 {
        assert(varint(v).len() == 1);
    } else if i == 0 {
        lemma_varint_shape(v / 128);
    } else {
        let below = (i - 1) as nat;
        assert(varint(v)[i as int] == varint(v / 128)[below as int]);
        varints_hold_the_digits(v / 128, below);
        vstd::arithmetic::power::lemma_pow_positive(128, below);
        vstd::arithmetic::div_mod::lemma_div_denominator(
            v as int,
            128,
            vstd::arithmetic::power::pow(128, below),
        );
        assert(vstd::arithmetic::power::pow(128, i) == 128 * vstd::arithmetic::power::pow(
            128,
            below,
        )) by {
            reveal(vstd::arithmetic::power::pow);
        }
    }
}

/// Digits further back weigh more: each byte 128 times as much as the one before it.
pub proof fn digits_weigh_by_position(a: Seq<u8>, b: Seq<u8>)
    ensures
        digits_value(a + b) == digits_value(a) + vstd::arithmetic::power::pow(128, a.len())
            * digits_value(b),
        a.len() == 0 ==> digits_value(a) == 0,
        a.len() == 1 ==> digits_value(a) == a[0] % 128,
    decreases a.len(),
{
    vstd::arithmetic::power::lemma_pow0(128);
    if a.len() == 0 {
        assert(a + b =~= b);
    } else {
        if a.len() == 1 {
            reveal_with_fuel(digits_value, 2);
        }
        let rest = a.drop_first();
        digits_weigh_by_position(rest, b);
        assert((a + b).drop_first() =~= rest + b);
        let p = vstd::arithmetic::power::pow(128, rest.len());
        assert(vstd::arithmetic::power::pow(128, a.len()) == 128 * p) by {
            reveal(vstd::arithmetic::power::pow);
        }
        let d = digits_value(b) as int;
        assert(128 * (p * d) == (128 * p) * d) by (nonlinear_arith);
    }
}

/// A varint ends at its first byte without the top bit, which is one of its first ten; without
/// such a byte there is none. Its value is that of its digits, modulo 2^64.
pub proof fn varints_end_at_the_first_low_byte(s: Seq<u8>, n: nat)
    requires
        n <= s.len(),
        forall|i: int| 0 <= i < n ==> s[i] >= 128,
    ensures
        n < s.len() && s[n as int] < 128 && n < 10 ==> varint_at(s) == Some(
            (
                digits_value(s.take(n as int + 1)) % 0x1_0000_0000_0000_0000,
                (n + 1) as nat,
            ),
        ),
        n >= 10 || n == s.len() ==> varint_at(s) is None,
{
    lemma_run_prefix(s, n);
    lemma_run_bytes(s);
    if n < s.len() {
        assert(s.skip(n as int)[0] == s[n as int]);
    }
}

/// A packet in the container stands behind the tag and its length.
pub proof fn frames_begin_with_tag_and_length(payload: Seq<u8>)
    requires
        payload.len() <= u64::MAX,
    ensures
        frame(payload)[0] == 0x0A,
        varint_at(frame(payload).skip(1)) matches Some((len, used)) && len == payload.len()
            && frame(payload).len() == 1 + used + len && frame(payload).skip(1 + used as int)
            == payload,
{
    let n = payload.len();
    assert(frame(payload).skip(1) =~= varint(n) + payload);
    varint_round_trip(n as u64, payload);
    assert(frame(payload).skip(1 + varint(n).len() as int) =~= payload);
}

/// The front of a container is judged by its tag first, then by its length, then by what follows.
pub proof fn fronts_are_judged_in_order(data: Seq<u8>)
    requires
        data.len() > 0,
    ensures
        front_frame(data) is BadTag <==> data[0] != 0x0A,
        front_frame(data) is TruncatedVarint <==> data[0] == 0x0A && varint_at(
            data.skip(1),
        ) is None,
        front_frame(data) matches FrontFrameView::Payload { start, end } ==> {
            &&& 1 <= start <= end <= data.len()
            &&& varint_at(data.skip(1)) == Some(((end - start) as nat, (start - 1) as nat))
        },
        front_frame(data) is BeyondEnd ==> (varint_at(data.skip(1)) matches Some((len, used)) && len
            > data.len() - 1 - used),
{
}

} // verus!
