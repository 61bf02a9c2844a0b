//! Reading the event library out of a detailed listing of events.
//!
//! An entry of the listing is a name on a line of its own, then a description in square brackets
//! that may run over several lines, then a line with the encoding, such as
//! `cpu/event=0x8a,umask=0x1/`. Lines that start no entry are passed over.

use crate::event::{Event, EventLibrary};
use crate::text::{self, lossy_text};
use vstd::prelude::*;

verus! {

/// Model of [`Event`].
#[verifier::ext_equal]
pub struct EventView {
    pub name: Seq<char>,
    pub desc: Seq<char>,
    pub event: u64,
    pub umask: u64,
}

impl View for Event {
    type V = EventView;

    open spec fn view(&self) -> EventView {
        EventView {
            name: self.name@,
            desc: self.desc@,
            event: self.event,
            umask: self.umask,
        }
    }
}

/// Whether a byte is a space or a tab.
pub open spec fn is_space(c: u8) -> bool {
    c == 32 || c == 9
}

/// Whether a byte may stand in a name: a letter, a digit, or one of `_`, `.`, `-` and `:`.
pub open spec fn is_word(c: u8) -> bool {
    ||| 48 <= c <= 57
    ||| 65 <= c <= 90
    ||| 97 <= c <= 122
    ||| c == 95
    ||| c == 46
    ||| c == 45
    ||| c == 58
}

/// The first position from `i` on that holds no space.
pub open spec fn skip_spaces(b: Seq<u8>, i: nat) -> nat
    decreases b.len() - i,
{
    if i < b.len() && is_space(b[i as int]) {
        skip_spaces(b, i + 1)
    } else {
        i
    }
}

/// The first position from `i` on that holds no byte of a name.
pub open spec fn word_end(b: Seq<u8>, i: nat) -> nat
    decreases b.len() - i,
{
    if i < b.len() && is_word(b[i as int]) {
        word_end(b, i + 1)
    } else {
        i
    }
}

/// The position behind the line that `i` stands on.
pub open spec fn next_line(b: Seq<u8>, i: nat) -> nat
    decreases b.len() - i,
{
    if i >= b.len() {
        i
    } else if b[i as int] == 10 {
        i + 1
    } else {
        next_line(b, i + 1)
    }
}

/// Whether nothing but spaces follows on the line.
pub open spec fn blank_to_end(b: Seq<u8>, i: nat) -> bool {
    let j = skip_spaces(b, i);
    j >= b.len() || b[j as int] == 10
}

/// The position of the bracket that closes a description: the first one that ends its line.
pub open spec fn desc_end(b: Seq<u8>, i: nat) -> Option<nat>
    decreases b.len() - i,
{
    if i >= b.len() {
        None
    } else if b[i as int] == 93 && blank_to_end(b, i + 1) {
        Some(i)
    } else {
        desc_end(b, i + 1)
    }
}

/// The bytes from `i` to `j`, with each line break and the spaces behind it as one space.
pub open spec fn unwrapped(b: Seq<u8>, i: nat, j: nat) -> Seq<u8>
    decreases j - i,
    via unwrapped_shrinks
{
    if i >= j || i >= b.len() {
        Seq::empty()
    } else if b[i as int] == 10 {
        seq![32u8] + unwrapped(b, skip_spaces_below(b, i + 1, j), j)
    } else {
        seq![b[i as int]] + unwrapped(b, i + 1, j)
    }
}

#[via_fn]
proof fn unwrapped_shrinks(b: Seq<u8>, i: nat, j: nat) {
    if i < j {
        lemma_skip_spaces_below(b, i + 1, j);
    }
}

proof fn lemma_skip_spaces_below(b: Seq<u8>, i: nat, j: nat)
    requires
        i <= j,
    ensures
        i <= skip_spaces_below(b, i, j) <= j,
    decreases j - i,
{
    if i < j && i < b.len() && is_space(b[i as int]) {
        lemma_skip_spaces_below(b, i + 1, j);
    }
}

/// The first position from `i` on that holds no space, or `j` if that comes first.
pub open spec fn skip_spaces_below(b: Seq<u8>, i: nat, j: nat) -> nat
    decreases j - i,
{
    if i < j && i < b.len() && is_space(b[i as int]) {
        skip_spaces_below(b, i + 1, j)
    } else {
        i
    }
}

/// The value of a digit.
pub open spec fn digit_value(c: u8) -> Option<nat> {
    if 48 <= c <= 57 {
        Some((c - 48) as nat)
    } else if 97 <= c <= 102 {
        Some((c - 87) as nat)
    } else if 65 <= c <= 70 {
        Some((c - 55) as nat)
    } else {
        None
    }
}

/// The number that the digits from `i` to `j` stand for, if all are digits to this base and the
/// number fits 64 bits.
pub open spec fn digits(b: Seq<u8>, base: nat, i: nat, j: nat) -> Option<nat>
    decreases j - i,
{
    if i >= j {
        Some(0)
    } else {
        match (digits(b, base, i, (j - 1) as nat), digit_value(b[j - 1])) {
            (Some(front), Some(last)) => if last < base && front * base + last <= u64::MAX {
                Some(front * base + last)
            } else {
                None
            },
            _ => None,
        }
    }
}

/// The number between `i` and `j`: hexadecimal behind `0x`, else decimal.
pub open spec fn number(b: Seq<u8>, i: nat, j: nat) -> Option<nat> {
    if j <= i {
        None
    } else if j > i + 2 && b[i as int] == 48 && b[i as int + 1] == 120 {
        digits(b, 16, i + 2, j)
    } else {
        digits(b, 10, i, j)
    }
}

/// The word `event`.
pub open spec fn event_word() -> Seq<u8> {
    seq![101u8, 118, 101, 110, 116]
}

/// The word `umask`.
pub open spec fn umask_word() -> Seq<u8> {
    seq![117u8, 109, 97, 115, 107]
}

/// Event number and unit mask of an encoding, each if it has one.
pub type Encoding = (Option<u64>, Option<u64>);

/// The encoding after the terms from `t` on, which end with a slash. A term is a name, or a name,
/// an equals sign and a value; `event` and `umask` must be numbers, and the last of each counts.
pub open spec fn terms(b: Seq<u8>, t: nat, so_far: Encoding) -> Option<Encoding>
    decreases b.len() - t,
    when t <= b.len()
    via terms_shrink
{
    let k = word_end(b, t);
    let has_value = k < b.len() && b[k as int] == 61;
    let end = if has_value {
        word_end(b, k + 1)
    } else {
        k
    };
    match with_term(b, t, k, end, has_value, so_far) {
        None => None,
        Some(next) => if end < b.len() && b[end as int] == 44 {
            terms(b, end + 1, next)
        } else if end < b.len() && b[end as int] == 47 {
            Some(next)
        } else {
            None
        },
    }
}

#[via_fn]
proof fn terms_shrink(b: Seq<u8>, t: nat, so_far: Encoding) {
    lemma_word_end(b, t);
    lemma_word_end(b, word_end(b, t) + 1);
}

/// The encoding after one more term.
pub open spec fn with_term(
    b: Seq<u8>,
    t: nat,
    k: nat,
    end: nat,
    has_value: bool,
    so_far: Encoding,
) -> Option<Encoding> {
    let key = b.subrange(t as int, k as int);
    if !has_value {
        Some(so_far)
    } else if key == event_word() {
        match number(b, k + 1, end) {
            Some(n) => Some((Some(n as u64), so_far.1)),
            None => None,
        }
    } else if key == umask_word() {
        match number(b, k + 1, end) {
            Some(n) => Some((so_far.0, Some(n as u64))),
            None => None,
        }
    } else {
        Some(so_far)
    }
}

/// The event of the entry that starts at `i`, and the position behind the entry.
pub open spec fn entry(b: Seq<u8>, i: nat) -> Option<(EventView, nat)> {
    let name_at = skip_spaces(b, i);
    let name_end = word_end(b, name_at);
    let open = skip_spaces(b, next_line(b, name_end));
    let encoding_at = |close: nat| skip_spaces(b, next_line(b, close));
    if name_end <= name_at || !blank_to_end(b, name_end) || open >= b.len() || b[open as int]
        != 91 {
        None
    } else {
        match desc_end(b, open + 1) {
            None => None,
            Some(close) => {
                let unit = word_end(b, encoding_at(close));
                if unit >= b.len() || b[unit as int] != 47 {
                    None
                } else {
                    match terms(b, unit + 1, (None, None)) {
                        Some((Some(event), umask)) => Some(
                            (
                                EventView {
                                    name: text::utf8_lossy(
                                        b.subrange(name_at as int, name_end as int),
                                    ),
                                    desc: text::utf8_lossy(unwrapped(b, open + 1, close)),
                                    event,
                                    umask: match umask {
                                        Some(umask) => umask,
                                        None => 0,
                                    },
                                },
                                next_line(b, unit),
                            ),
                        ),
                        _ => None,
                    }
                }
            },
        }
    }
}

/// The events listed from `i` on.
pub open spec fn listed(b: Seq<u8>, i: nat) -> Seq<EventView>
    decreases b.len() - i,
    via listed_shrinks
{
    if i >= b.len() {
        Seq::empty()
    } else {
        match entry(b, i) {
            Some((event, rest)) => seq![event] + listed(b, rest),
            None => listed(b, next_line(b, i)),
        }
    }
}

#[via_fn]
proof fn listed_shrinks(b: Seq<u8>, i: nat) {
    if i < b.len() {
        lemma_next_line(b, i);
        lemma_entry(b, i);
    }
}

proof fn lemma_skip_spaces(b: Seq<u8>, i: nat)
    ensures
        i <= skip_spaces(b, i),
        i <= b.len() ==> skip_spaces(b, i) <= b.len(),
    decreases b.len() - i,
{
    if i < b.len() && is_space(b[i as int]) {
        lemma_skip_spaces(b, i + 1);
    }
}

proof fn lemma_word_end(b: Seq<u8>, i: nat)
    ensures
        i <= word_end(b, i),
        i <= b.len() ==> word_end(b, i) <= b.len(),
    decreases b.len() - i,
{
    if i < b.len() && is_word(b[i as int]) {
        lemma_word_end(b, i + 1);
    }
}

proof fn lemma_next_line(b: Seq<u8>, i: nat)
    ensures
        i <= next_line(b, i),
        i < b.len() ==> i < next_line(b, i) <= b.len(),
    decreases b.len() - i,
{
    if i < b.len() && b[i as int] != 10 {
        lemma_next_line(b, i + 1);
    }
}

proof fn lemma_desc_end(b: Seq<u8>, i: nat)
    ensures
        match desc_end(b, i) {
            Some(j) => i <= j < b.len(),
            None => true,
        },
    decreases b.len() - i,
{
    if i < b.len() {
        lemma_desc_end(b, i + 1);
    }
}

proof fn lemma_entry(b: Seq<u8>, i: nat)
    requires
        i < b.len(),
    ensures
        match entry(b, i) {
            Some((event, rest)) => i < rest <= b.len(),
            None => true,
        },
{
    let name_at = skip_spaces(b, i);
    let name_end = word_end(b, name_at);
    lemma_skip_spaces(b, i);
    lemma_word_end(b, name_at);
    lemma_next_line(b, name_end);
    lemma_skip_spaces(b, next_line(b, name_end));
    let open = skip_spaces(b, next_line(b, name_end));
    lemma_desc_end(b, open + 1);
    if let Some(close) = desc_end(b, open + 1) {
        lemma_next_line(b, close);
        lemma_skip_spaces(b, next_line(b, close));
        lemma_word_end(b, skip_spaces(b, next_line(b, close)));
        lemma_next_line(b, word_end(b, skip_spaces(b, next_line(b, close))));
    }
}

fn after_spaces(b: &[u8], i: usize) -> (r: usize)
    requires
        i <= b@.len(),
    ensures
        r == skip_spaces(b@, i as nat),
        i <= r <= b@.len(),
{
    let mut j: usize = i;
    while j < b.len() && (b[j] == 32 || b[j] == 9)
        invariant
            i <= j <= b@.len(),
            skip_spaces(b@, i as nat) == skip_spaces(b@, j as nat),
        decreases b@.len() - j,
    {
        j = j + 1;
    }
    j
}

fn after_word(b: &[u8], i: usize) -> (r: usize)
    requires
        i <= b@.len(),
    ensures
        r == word_end(b@, i as nat),
        i <= r <= b@.len(),
{
    let mut j: usize = i;
    while j < b.len() && word_byte(b[j])
        invariant
            i <= j <= b@.len(),
            word_end(b@, i as nat) == word_end(b@, j as nat),
        decreases b@.len() - j,
    {
        j = j + 1;
    }
    j
}

fn word_byte(c: u8) -> (r: bool)
    ensures
        r == is_word(c),
{
    (48 <= c && c <= 57) || (65 <= c && c <= 90) || (97 <= c && c <= 122) || c == 95 || c == 46
        || c == 45 || c == 58
}

fn after_line(b: &[u8], i: usize) -> (r: usize)
    requires
        i <= b@.len(),
    ensures
        r == next_line(b@, i as nat),
        i <= r <= b@.len(),
        i < b@.len() ==> i < r,
{
    let mut j: usize = i;
    while j < b.len() && b[j] != 10
        invariant
            i <= j <= b@.len(),
            next_line(b@, i as nat) == next_line(b@, j as nat),
        decreases b@.len() - j,
    {
        j = j + 1;
    }
    if j < b.len() {
        j + 1
    } else {
        j
    }
}

fn is_blank_to_end(b: &[u8], i: usize) -> (r: bool)
    requires
        i <= b@.len(),
    ensures
        r == blank_to_end(b@, i as nat),
{
    let j = after_spaces(b, i);
    j >= b.len() || b[j] == 10
}

fn find_desc_end(b: &[u8], i: usize) -> (r: Option<usize>)
    requires
        i <= b@.len(),
    ensures
        match r {
            Some(j) => desc_end(b@, i as nat) == Some(j as nat) && i <= j < b@.len(),
            None => desc_end(b@, i as nat) is None,
        },
{
    let mut j: usize = i;
    while j < b.len()
        invariant
            i <= j <= b@.len(),
            desc_end(b@, i as nat) == desc_end(b@, j as nat),
        decreases b@.len() - j,
    {
        if b[j] == 93 && is_blank_to_end(b, j + 1) {
            return Some(j);
        }
        j = j + 1;
    }
    None
}

/// The bytes of a description without its line breaks.
fn unwrap_lines(b: &[u8], i: usize, end: usize) -> (r: Vec<u8>)
    requires
        i <= end <= b@.len(),
    ensures
        r@ == unwrapped(b@, i as nat, end as nat),
{
    let mut out: Vec<u8> = Vec::new();
    let mut j: usize = i;
    let ghost all = unwrapped(b@, i as nat, end as nat);
    assert(out@ + all =~= all);
    while j < end
        invariant
            i <= j <= end <= b@.len(),
            all == out@ + unwrapped(b@, j as nat, end as nat),
        decreases end - j,
    {
        let ghost before = out@;
        if b[j] == 10 {
            out.push(32);
            let ghost line = j + 1;
            let ghost rest = unwrapped(
                b@,
                skip_spaces_below(b@, line as nat, end as nat),
                end as nat,
            );
            j = j + 1;
            while j < end && (b[j] == 32 || b[j] == 9)
                invariant
                    line <= j <= end <= b@.len(),
                    skip_spaces_below(b@, line as nat, end as nat) == skip_spaces_below(
                        b@,
                        j as nat,
                        end as nat,
                    ),
                decreases end - j,
            {
                j = j + 1;
            }
            assert(skip_spaces_below(b@, j as nat, end as nat) == j);
            assert(before + (seq![32u8] + rest) =~= out@ + rest);
        } else {
            out.push(b[j]);
            assert(before + (seq![b@[j as int]] + unwrapped(b@, (j + 1) as nat, end as nat))
                =~= out@ + unwrapped(b@, (j + 1) as nat, end as nat));
            j = j + 1;
        }
    }
    assert(out@ + Seq::<u8>::empty() =~= out@);
    out
}

fn digit_of(c: u8) -> (r: Option<u64>)
    ensures
        match r {
            Some(d) => digit_value(c) == Some(d as nat) && d < 16,
            None => digit_value(c) is None,
        },
{
    if 48 <= c && c <= 57 {
        Some((c - 48) as u64)
    } else if 97 <= c && c <= 102 {
        Some((c - 87) as u64)
    } else if 65 <= c && c <= 70 {
        Some((c - 55) as u64)
    } else {
        None
    }
}

proof fn lemma_digits_stop(b: Seq<u8>, base: nat, i: nat, k: nat, j: nat)
    requires
        i <= k <= j,
        digits(b, base, i, k) is None,
    ensures
        digits(b, base, i, j) is None,
    decreases j - k,
{
    if k < j {
        assert(digits(b, base, i, k + 1) is None);
        lemma_digits_stop(b, base, i, k + 1, j);
    }
}

fn read_digits(b: &[u8], base: u64, i: usize, end: usize) -> (r: Option<u64>)
    requires
        i <= end <= b@.len(),
        2 <= base <= 16,
    ensures
        match r {
            Some(n) => digits(b@, base as nat, i as nat, end as nat) == Some(n as nat),
            None => digits(b@, base as nat, i as nat, end as nat) is None,
        },
{
    let mut n: u64 = 0;
    let mut j: usize = i;
    while j < end
        invariant
            i <= j <= end <= b@.len(),
            2 <= base <= 16,
            digits(b@, base as nat, i as nat, j as nat) == Some(n as nat),
        decreases end - j,
    {
        let d = match digit_of(b[j]) {
            Some(d) => d,
            None => {
                proof {
                    assert(digits(b@, base as nat, i as nat, (j + 1) as nat) is None);
                    lemma_digits_stop(b@, base as nat, i as nat, (j + 1) as nat, end as nat);
                }
                return None;
            },
        };
        assert(n * base <= u64::MAX * 16) by (nonlinear_arith)
            requires
                n <= u64::MAX,
                base <= 16,
        ;
        let wide: u128 = n as u128 * base as u128 + d as u128;
        if d >= base || wide > u64::MAX as u128 {
            proof {
                assert(digits(b@, base as nat, i as nat, (j + 1) as nat) is None);
                lemma_digits_stop(b@, base as nat, i as nat, (j + 1) as nat, end as nat);
            }
            return None;
        }
        n = wide as u64;
        j = j + 1;
    }
    Some(n)
}

fn read_number(b: &[u8], i: usize, end: usize) -> (r: Option<u64>)
    requires
        i <= end <= b@.len(),
    ensures
        match r {
            Some(n) => number(b@, i as nat, end as nat) == Some(n as nat),
            None => number(b@, i as nat, end as nat) is None,
        },
{
    if end <= i {
        None
    } else if end - i > 2 && b[i] == 48 && b[i + 1] == 120 {
        read_digits(b, 16, i + 2, end)
    } else {
        read_digits(b, 10, i, end)
    }
}

/// Whether the bytes from `i` to `end` are a word.
fn is_key(b: &[u8], i: usize, end: usize, key: &[u8; 5]) -> (r: bool)
    requires
        i <= end <= b@.len(),
    ensures
        r == (b@.subrange(i as int, end as int) == key@),
{
    let ghost part = b@.subrange(i as int, end as int);
    if end - i != 5 {
        assert(part.len() != key@.len());
        return false;
    }
    let mut k: usize = 0;
    while k < 5
        invariant
            k <= 5,
            i + 5 == end <= b@.len(),
            part == b@.subrange(i as int, end as int),
            forall|m: int| 0 <= m < k ==> #[trigger] part[m] == key@[m],
        decreases 5 - k,
    {
        if b[i + k] != key[k] {
            assert(part[k as int] != key@[k as int]);
            return false;
        }
        k = k + 1;
    }
    assert(part =~= key@);
    true
}

fn read_terms(b: &[u8], start: usize) -> (r: Option<(Option<u64>, Option<u64>)>)
    requires
        start <= b@.len(),
    ensures
        r == terms(b@, start as nat, (None, None)),
{
    let event_key: [u8; 5] = [101, 118, 101, 110, 116];
    let umask_key: [u8; 5] = [117, 109, 97, 115, 107];
    assert(event_key@ =~= event_word());
    assert(umask_key@ =~= umask_word());
    let mut so_far: (Option<u64>, Option<u64>) = (None, None);
    let mut t: usize = start;
    loop
        invariant
            start <= t <= b@.len(),
            event_key@ == event_word(),
            umask_key@ == umask_word(),
            terms(b@, start as nat, (None, None)) == terms(b@, t as nat, so_far),
        decreases b@.len() - t,
    {
        let k = after_word(b, t);
        let has_value = k < b.len() && b[k] == 61;
        let end: usize = if has_value {
            after_word(b, k + 1)
        } else {
            k
        };
        if has_value {
            if is_key(b, t, k, &event_key) {
                match read_number(b, k + 1, end) {
                    Some(n) => {
                        so_far = (Some(n), so_far.1);
                    },
                    None => {
                        return None;
                    },
                }
            } else if is_key(b, t, k, &umask_key) {
                match read_number(b, k + 1, end) {
                    Some(n) => {
                        so_far = (so_far.0, Some(n));
                    },
                    None => {
                        return None;
                    },
                }
            }
        }
        if end < b.len() && b[end] == 44 {
            t = end + 1;
        } else if end < b.len() && b[end] == 47 {
            return Some(so_far);
        } else {
            return None;
        }
    }
}

fn slice_text(b: &[u8], i: usize, end: usize) -> (r: String)
    requires
        i <= end <= b@.len(),
    ensures
        r@ == text::utf8_lossy(b@.subrange(i as int, end as int)),
{
    let mut part: Vec<u8> = Vec::new();
    let mut j: usize = i;
    while j < end
        invariant
            i <= j <= end <= b@.len(),
            part@ == b@.subrange(i as int, j as int),
        decreases end - j,
    {
        part.push(b[j]);
        j = j + 1;
        assert(part@ =~= b@.subrange(i as int, j as int));
    }
    lossy_text(part.as_slice())
}

/// Reads the entry that starts at `i`.
fn read_entry(b: &[u8], i: usize) -> (r: Option<(Event, usize)>)
    requires
        i < b@.len(),
    ensures
        match r {
            Some((event, rest)) => entry(b@, i as nat) == Some((event@, rest as nat)) && i < rest
                <= b@.len(),
            None => entry(b@, i as nat) is None,
        },
{
    let name_at = after_spaces(b, i);
    let name_end = after_word(b, name_at);
    if name_end <= name_at || !is_blank_to_end(b, name_end) {
        return None;
    }
    let open = after_spaces(b, after_line(b, name_end));
    if open >= b.len() || b[open] != 91 {
        return None;
    }
    let close = match find_desc_end(b, open + 1) {
        Some(close) => close,
        None => {
            return None;
        },
    };
    let unit = after_word(b, after_spaces(b, after_line(b, close)));
    if unit >= b.len() || b[unit] != 47 {
        return None;
    }
    match read_terms(b, unit + 1) {
        Some((Some(event), umask)) => {
            let desc = unwrap_lines(b, open + 1, close);
            let rest = after_line(b, unit);
            Some(
                (
                    Event {
                        name: slice_text(b, name_at, name_end),
                        desc: lossy_text(desc.as_slice()),
                        event,
                        umask: match umask {
                            Some(umask) => umask,
                            None => 0,
                        },
                    },
                    rest,
                ),
            )
        },
        _ => None,
    }
}

/// The model of some events.
pub open spec fn events_view(events: Seq<Event>) -> Seq<EventView> {
    events.map_values(|e: Event| e@)
}

impl EventLibrary {
    /// Reads the events of a listing. No listing is refused: what is no entry is passed over.
    pub fn from_bytes(input: &[u8]) -> (r: Result<EventLibrary, String>)
        ensures
            r is Ok,
            events_view(r->Ok_0.events@) == listed(input@, 0),
    {
        let mut events: Vec<Event> = Vec::new();
        let mut i: usize = 0;
        let ghost all = listed(input@, 0);
        assert(events_view(events@) + all =~= all);
        while i < input.len()
            invariant
                i <= input@.len(),
                all == events_view(events@) + listed(input@, i as nat),
            decreases input@.len() - i,
        {
            let ghost before = events_view(events@);
            match read_entry(input, i) {
                Some((event, rest)) => {
                    let ghost view = event@;
                    events.push(event);
                    assert(events_view(events@) =~= before.push(view));
                    assert(before + (seq![view] + listed(input@, rest as nat)) =~= events_view(
                        events@,
                    ) + listed(input@, rest as nat));
                    i = rest;
                },
                None => {
                    i = after_line(input, i);
                },
            }
        }
        assert(events_view(events@) + Seq::<EventView>::empty() =~= events_view(events@));
        Ok(EventLibrary { events })
    }
}

/// Spaces and tabs separate words; names are made of letters, digits and four marks.
pub proof fn words_are_made_of(c: u8)
    ensures
        is_space(c) <==> c as char == ' ' || c as char == '\t',
        is_word(c) <==> '0' <= c as char <= '9' || 'A' <= c as char <= 'Z' || 'a' <= c as char
            <= 'z' || c as char == '_' || c as char == '.' || c as char == '-' || c as char == ':',
{
}

/// Skipping spaces stops at the first byte that is none, and a word ends there where the first byte
/// stands that cannot be in it.
pub proof fn runs_end_at_the_first_other_byte(b: Seq<u8>, i: nat, j: nat)
    requires
        i <= j <= b.len(),
    ensures
        (forall|k: int| i <= k < j ==> is_space(#[trigger] b[k])) && (j == b.len() || !is_space(
            b[j as int],
        )) ==> skip_spaces(b, i) == j,
        (forall|k: int| i <= k < j ==> is_word(#[trigger] b[k])) && (j == b.len() || !is_word(
            b[j as int],
        )) ==> word_end(b, i) == j,
        (forall|k: int| i <= k < j ==> (#[trigger] b[k]) != 10) && (j < b.len() && b[j as int]
            == 10) ==> next_line(b, i) == j + 1,
        (forall|k: int| i <= k < b.len() ==> (#[trigger] b[k]) != 10) ==> next_line(b, i)
            == b.len(),
    decreases b.len() - i,
{
    if i < j {
        runs_end_at_the_first_other_byte(b, i + 1, j);
    } else if i < b.len() {
        runs_end_at_the_first_other_byte(b, i + 1, i + 1);
    }
}

/// A description ends at the first closing bracket behind which its line holds only spaces.
pub proof fn descriptions_end_with_their_line(b: Seq<u8>, i: nat, j: nat)
    requires
        i <= j <= b.len(),
        forall|k: int| i <= k < j ==> !(b[k] == 93 && #[trigger] blank_to_end(b, (k + 1) as nat)),
    ensures
        j < b.len() && b[j as int] == 93 && blank_to_end(b, j + 1) ==> desc_end(b, i) == Some(j),
        j == b.len() ==> desc_end(b, i) is None,
    decreases j - i,
{
    if i < j {
        assert(!(b[i as int] == 93 && blank_to_end(b, (i + 1) as nat)));
        descriptions_end_with_their_line(b, i + 1, j);
    }
}

/// A line is blank from a place on exactly if only spaces stand there before its end.
pub proof fn blank_lines_hold_spaces(b: Seq<u8>, i: nat, j: nat)
    requires
        i <= j <= b.len(),
        forall|k: int| i <= k < j ==> is_space(#[trigger] b[k]),
        j < b.len() ==> !is_space(b[j as int]),
    ensures
        blank_to_end(b, i) <==> (j == b.len() || b[j as int] == 10),
{
    runs_end_at_the_first_other_byte(b, i, j);
}

/// A description on one line is taken as it stands; where it is broken, the break and the spaces
/// behind it become one space.
pub proof fn broken_lines_are_joined(b: Seq<u8>, i: nat, m: nat, j: nat)
    requires
        i <= m <= j <= b.len(),
        forall|k: int| i <= k < m ==> (#[trigger] b[k]) != 10,
    ensures
        m == j ==> unwrapped(b, i, j) == b.subrange(i as int, j as int),
        m < j && b[m as int] == 10 ==> unwrapped(b, i, j) == b.subrange(i as int, m as int)
            + seq![32u8] + unwrapped(b, skip_spaces_below(b, m + 1, j), j),
    decreases m - i,
{
    if i < m {
        broken_lines_are_joined(b, i + 1, m, j);
        assert(b.subrange(i as int, m as int) =~= seq![b[i as int]] + b.subrange(
            i as int + 1,
            m as int,
        ));
        if m == j {
            assert(unwrapped(b, i, j) =~= b.subrange(i as int, j as int));
        } else if b[m as int] == 10 {
            let rest = unwrapped(b, skip_spaces_below(b, m + 1, j), j);
            assert(seq![b[i as int]] + (b.subrange(i as int + 1, m as int) + seq![32u8] + rest)
                =~= b.subrange(i as int, m as int) + seq![32u8] + rest);
        }
    } else if m == j {
        assert(b.subrange(i as int, j as int) =~= Seq::empty());
    } else if b[m as int] == 10 {
        let rest = unwrapped(b, skip_spaces_below(b, m + 1, j), j);
        assert(b.subrange(i as int, m as int) + seq![32u8] + rest =~= seq![32u8] + rest);
    }
}

/// The spaces behind a break are skipped up to the first other byte, or the end of the description.
pub proof fn spaces_behind_a_break_are_skipped(b: Seq<u8>, i: nat, m: nat, j: nat)
    requires
        i <= m <= j <= b.len(),
        forall|k: int| i <= k < m ==> is_space(#[trigger] b[k]),
        m < j ==> !is_space(b[m as int]),
    ensures
        skip_spaces_below(b, i, j) == m,
    decreases m - i,
{
    if i < m {
        spaces_behind_a_break_are_skipped(b, i + 1, m, j);
    }
}

/// Digits are those of either case up to fifteen.
pub proof fn digits_have_their_values(c: u8)
    ensures
        '0' <= c as char <= '9' ==> digit_value(c) == Some((c - '0' as u8) as nat),
        'a' <= c as char <= 'f' ==> digit_value(c) == Some((c - 'a' as u8 + 10) as nat),
        'A' <= c as char <= 'F' ==> digit_value(c) == Some((c - 'A' as u8 + 10) as nat),
        digit_value(c) matches Some(v) ==> v < 16,
        digit_value(c) is Some ==> '0' <= c as char <= '9' || 'a' <= c as char <= 'f' || 'A'
            <= c as char <= 'F',
{
}

/// Whether all bytes from `i` to `j` are digits to a base.
pub open spec fn all_digits(b: Seq<u8>, base: nat, i: nat, j: nat) -> bool {
    forall|k: int| i <= k < j ==> (digit_value(#[trigger] b[k]) matches Some(v) && v < base)
}

/// What digits stand for: each digit multiplies what stands before it by the base and adds itself.
pub open spec fn value_of(b: Seq<u8>, base: nat, i: nat, j: nat) -> nat {
    b.subrange(i as int, j as int).fold_left(
        0nat,
        |n: nat, c: u8|
            n * base + match digit_value(c) {
                Some(v) => v,
                None => 0,
            },
    )
}

/// Digits are read as the number that they stand for, the first one being the most significant, if
/// all are digits to the base and the number fits 64 bits; otherwise there is no number.
pub proof fn digits_are_read_as_their_value(b: Seq<u8>, base: nat, i: nat, j: nat)
    requires
        i <= j <= b.len(),
        base >= 1,
    ensures
        digits(b, base, i, j) == if all_digits(b, base, i, j) && value_of(b, base, i, j)
            <= u64::MAX {
            Some(value_of(b, base, i, j))
        } else {
            None
        },
    decreases j - i,
{
    let f = |n: nat, c: u8|
        n * base + match digit_value(c) {
            Some(v) => v,
            None => 0,
        };
    if i < j {
        let m = (j - 1) as nat;
        digits_are_read_as_their_value(b, base, i, m);
        assert(b.subrange(i as int, j as int).drop_last() =~= b.subrange(i as int, m as int));
        let front = value_of(b, base, i, m);
        let last = match digit_value(b[j - 1]) {
            Some(v) => v,
            None => 0,
        };
        assert(value_of(b, base, i, j) == front * base + last);
        assert(front * base + last >= front) by (nonlinear_arith)
            requires
                base >= 1,
                front >= 0,
                last >= 0,
        ;
        if all_digits(b, base, i, j) {
            assert(all_digits(b, base, i, m)) by {
                assert forall|k: int| i <= k < m implies (digit_value(#[trigger] b[k]) matches Some(
                    v,
                ) && v < base) by {}
            }
            assert(digit_value(b[j - 1]) matches Some(v) && v < base);
        } else if all_digits(b, base, i, m) {
            assert(!(digit_value(b[j - 1]) matches Some(v) && v < base)) by {
                if digit_value(b[j - 1]) matches Some(v) && v < base {
                    assert forall|k: int| i <= k < j implies (digit_value(
                        #[trigger] b[k],
                    ) matches Some(v) && v < base) by {}
                }
            }
        }
    } else {
        assert(b.subrange(i as int, j as int) =~= Seq::empty());
    }
}

/// A number behind `0x` is hexadecimal, any other decimal; nothing at all is no number.
pub proof fn numbers_are_decimal_or_hexadecimal(b: Seq<u8>, i: nat, j: nat)
    requires
        i <= j <= b.len(),
    ensures
        i == j ==> number(b, i, j) is None,
        i + 2 < j && b[i as int] as char == '0' && b[i as int + 1] as char == 'x' ==> number(
            b,
            i,
            j,
        ) == digits(b, 16, i + 2, j),
        i < j && !(i + 2 < j && b[i as int] as char == '0' && b[i as int + 1] as char == 'x')
            ==> number(b, i, j) == digits(b, 10, i, j),
{
}

/// Terms are read one after the other. The term from `t` to `end` has a value behind `k` if an
/// equals sign stands there; that of `event` or `umask` counts, and must be a number; any other
/// term is passed over. A comma means that another term follows, a slash that none does, and
/// anything else that this is no encoding.
pub proof fn terms_are_read_in_order(b: Seq<u8>, t: nat, k: nat, end: nat, so_far: Encoding)
    requires
        t <= k <= end < b.len(),
        forall|p: int| t <= p < k ==> is_word(#[trigger] b[p]),
        k == end || (b[k as int] == 61 && forall|p: int| k < p < end ==> is_word(#[trigger] b[p])),
        !is_word(b[end as int]),
        k == end ==> b[k as int] != 61,
    ensures
        ({
            let key = b.subrange(t as int, k as int).map_values(|c: u8| c as char);
            let value = number(b, k + 1, end);
            let is_event = k < end && key == "event"@;
            let is_umask = k < end && key == "umask"@;
            let after = if is_event {
                (Some(value->0 as u64), so_far.1)
            } else if is_umask {
                (so_far.0, Some(value->0 as u64))
            } else {
                so_far
            };
            &&& (is_event || is_umask) && value is None ==> terms(b, t, so_far) is None
            &&& !((is_event || is_umask) && value is None) && b[end as int] == 44 ==> terms(
                b,
                t,
                so_far,
            ) == terms(b, end + 1, after)
            &&& !((is_event || is_umask) && value is None) && b[end as int] == 47 ==> terms(
                b,
                t,
                so_far,
            ) == Some(after)
            &&& b[end as int] != 44 && b[end as int] != 47 ==> terms(b, t, so_far) is None
        }),
{
    reveal_strlit("event");
    reveal_strlit("umask");
    assert(!is_word(b[k as int]));
    runs_end_at_the_first_other_byte(b, t, k);
    assert(word_end(b, t) == k);
    if k < end {
        runs_end_at_the_first_other_byte(b, k + 1, end);
    }
    let raw = b.subrange(t as int, k as int);
    let key = raw.map_values(|c: u8| c as char);
    assert(key.len() == raw.len());
    if raw == event_word() {
        assert(key =~= "event"@);
    }
    if key == "event"@ {
        assert forall|p: int| 0 <= p < raw.len() implies raw[p] == event_word()[p] by {
            assert(key[p] == "event"@[p]);
            assert(key[p] == raw[p] as char);
        }
        assert(raw =~= event_word());
    }
    if raw == umask_word() {
        assert(key =~= "umask"@);
    }
    if key == "umask"@ {
        assert forall|p: int| 0 <= p < raw.len() implies raw[p] == umask_word()[p] by {
            assert(key[p] == "umask"@[p]);
            assert(key[p] == raw[p] as char);
        }
        assert(raw =~= umask_word());
    }
    assert("event"@[0] != "umask"@[0]);
}

/// An entry is made of a name alone on its line, a description in brackets, and a unit, a slash and
/// an encoding with an event number. What it gives is that name, the description, the event number
/// and the unit mask, zero if there is none; reading goes on behind the line of the encoding.
pub proof fn entries_give_their_parts(
    b: Seq<u8>,
    i: nat,
    name_at: nat,
    name_end: nat,
    open: nat,
    close: nat,
    unit_at: nat,
    unit: nat,
)
    requires
        i <= name_at < name_end <= b.len(),
        forall|p: int| i <= p < name_at ==> is_space(#[trigger] b[p]),
        forall|p: int| name_at <= p < name_end ==> is_word(#[trigger] b[p]),
        name_end < b.len() ==> !is_word(b[name_end as int]),
        blank_to_end(b, name_end),
        next_line(b, name_end) <= open < b.len(),
        forall|p: int| next_line(b, name_end) <= p < open ==> is_space(#[trigger] b[p]),
        b[open as int] as char == '[',
        desc_end(b, open + 1) == Some(close),
        next_line(b, close) <= unit_at <= unit < b.len(),
        forall|p: int| next_line(b, close) <= p < unit_at ==> is_space(#[trigger] b[p]),
        !is_space(b[unit_at as int]),
        forall|p: int| unit_at <= p < unit ==> is_word(#[trigger] b[p]),
        b[unit as int] as char == '/',
    ensures
        match terms(b, unit + 1, (None, None)) {
            Some((Some(event), umask)) => entry(b, i) matches Some((e, rest)) && e.name
                == text::utf8_lossy(b.subrange(name_at as int, name_end as int)) && e.desc
                == text::utf8_lossy(unwrapped(b, open + 1, close)) && e.event == event && (
            umask matches Some(m) ==> e.umask == m) && (umask is None ==> e.umask == 0) && rest
                == next_line(b, unit),
            _ => entry(b, i) is None,
        },
{
    assert(is_word(b[name_at as int]));
    assert(!is_space(b[name_at as int]));
    runs_end_at_the_first_other_byte(b, i, name_at);
    runs_end_at_the_first_other_byte(b, name_at, name_end);
    runs_end_at_the_first_other_byte(b, next_line(b, name_end), open);
    runs_end_at_the_first_other_byte(b, next_line(b, close), unit_at);
    runs_end_at_the_first_other_byte(b, unit_at, unit);
}

/// A listing is read entry by entry: where one begins, its event comes next, and reading goes on
/// behind it; where none does, the line is passed over.
pub proof fn listings_are_read_entry_by_entry(b: Seq<u8>, i: nat)
    requires
        i < b.len(),
    ensures
        match entry(b, i) {
            Some((event, rest)) => i < rest && listed(b, i).len() == 1 + listed(b, rest).len()
                && listed(b, i)[0] == event && listed(b, i).drop_first() == listed(b, rest),
            None => listed(b, i) == listed(b, next_line(b, i)),
        },
        listed(b, b.len()) == Seq::<EventView>::empty(),
{
    lemma_entry(b, i);
    if let Some((event, rest)) = entry(b, i) {
        assert(listed(b, i).drop_first() =~= listed(b, rest));
    }
}

} // verus!
