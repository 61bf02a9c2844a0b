//! Text building blocks shared by the prompt, CSV, report and trace writers.

use vstd::prelude::*;
use vstd::utf8::*;

verus! {

/// The character of a decimal digit.
pub open spec fn digit_char(d: int) -> char {
    (48 + d) as char
}

/// The decimal notation of a natural number, without leading zeros.
pub open spec fn decimal(n: nat) -> Seq<char>
    decreases n,
{
    if n < 10 {
        seq![digit_char(n as int)]
    } else {
        decimal(n / 10).push(digit_char((n % 10) as int))
    }
}

/// The upper-case hexadecimal character of a nibble.
pub open spec fn hex_char(d: int) -> char {
    if d < 10 {
        (48 + d) as char
    } else {
        (55 + d) as char
    }
}

/// The two upper-case hexadecimal characters of a byte.
pub open spec fn hex_byte(b: u8) -> Seq<char> {
    seq![hex_char(b as int / 16), hex_char(b as int % 16)]
}

/// The number that a non-empty run of digits denotes.
pub open spec fn decimal_value(s: Seq<char>) -> int
    decreases s.len(),
{
    if s.len() == 0 {
        0
    } else {
        decimal_value(s.drop_last()) * 10 + (s.last() as int - 48)
    }
}

/// Decimal notation determines the number: reading it back digit by digit gives `n`.
pub proof fn lemma_decimal_value(n: nat)
    ensures
        decimal_value(decimal(n)) == n,
        decimal(n).len() > 0,
    decreases n,
{
    if n < 10 {
        assert(decimal(n).drop_last() =~= Seq::<char>::empty());
        assert(decimal_value(Seq::<char>::empty()) == 0);
    } else {
        lemma_decimal_value(n / 10);
        assert(decimal(n).drop_last() =~= decimal(n / 10));
    }
}

/// Two numbers with the same decimal notation are equal.
pub proof fn lemma_decimal_injective(a: nat, b: nat)
    requires
        decimal(a) == decimal(b),
    ensures
        a == b,
{
    lemma_decimal_value(a);
    lemma_decimal_value(b);
}

fn digit_str(d: u64) -> (s: &'static str)
    requires
        d < 16,
    ensures
        s@ == seq![hex_char(d as int)],
{
    proof {
        reveal_strlit("0");
        reveal_strlit("1");
        reveal_strlit("2");
        reveal_strlit("3");
        reveal_strlit("4");
        reveal_strlit("5");
        reveal_strlit("6");
        reveal_strlit("7");
        reveal_strlit("8");
        reveal_strlit("9");
        reveal_strlit("A");
        reveal_strlit("B");
        reveal_strlit("C");
        reveal_strlit("D");
        reveal_strlit("E");
        reveal_strlit("F");
    }
    let s = match d {
        0 => "0",
        1 => "1",
        2 => "2",
        3 => "3",
        4 => "4",
        5 => "5",
        6 => "6",
        7 => "7",
        8 => "8",
        9 => "9",
        10 => "A",
        11 => "B",
        12 => "C",
        13 => "D",
        14 => "E",
        _ => "F",
    };
    assert(s@ =~= seq![hex_char(d as int)]);
    s
}

/// Appends the decimal notation of `n`.
pub fn push_decimal(out: &mut String, n: u64)
    ensures
        final(out)@ == old(out)@ + decimal(n as nat),
    decreases n,
{
    if n < 10 {
        out.append(digit_str(n));
        assert(out@ =~= old(out)@ + decimal(n as nat));
    } else {
        push_decimal(out, n / 10);
        out.append(digit_str(n % 10));
        assert(out@ =~= old(out)@ + decimal(n as nat));
    }
}

/// Appends the two upper-case hexadecimal digits of `b`.
pub fn push_hex_byte(out: &mut String, b: u8)
    ensures
        final(out)@ == old(out)@ + hex_byte(b),
{
    out.append(digit_str((b / 16) as u64));
    out.append(digit_str((b % 16) as u64));
    assert(out@ =~= old(out)@ + hex_byte(b));
}

/// The decimal notation of `n`.
pub fn decimal_text(n: u64) -> (s: String)
    ensures
        s@ == decimal(n as nat),
{
    let mut s = String::new();
    push_decimal(&mut s, n);
    assert(s@ =~= decimal(n as nat));
    s
}

/// A fresh string with the text of `s`.
pub fn owned(s: &str) -> (r: String)
    ensures
        r@ == s@,
{
    let mut r = String::new();
    r.append(s);
    assert(r@ =~= s@);
    r
}

/// The text of `a` followed by that of `b`.
pub fn joined(a: &str, b: &str) -> (r: String)
    ensures
        r@ == a@ + b@,
{
    let mut r = owned(a);
    r.append(b);
    r
}

/// Whether two strings hold the same text.
pub fn same_text(a: &str, b: &str) -> (r: bool)
    ensures
        r == (a@ == b@),
{
    let x = owned(a);
    let y = owned(b);
    x == y
}

/// What is left of `s` without the ending `suffix`; `None` if it does not end so.
pub open spec fn without_suffix(s: Seq<char>, suffix: Seq<char>) -> Option<Seq<char>> {
    if suffix.is_suffix_of(s) {
        Some(s.take(s.len() - suffix.len()))
    } else {
        None
    }
}

/// Takes an ending off a text.
pub fn strip_suffix(s: &str, suffix: &str) -> (r: Option<String>)
    ensures
        match r {
            Some(front) => without_suffix(s@, suffix@) == Some(front@),
            None => without_suffix(s@, suffix@) is None,
        },
{
    let n = s.unicode_len();
    let m = suffix.unicode_len();
    if m <= n && same_text(s.substring_char(n - m, n), suffix) {
        Some(owned(s.substring_char(0, n - m)))
    } else {
        None
    }
}

/// An appended ending is what is taken off again.
pub proof fn lemma_without_suffix(s: Seq<char>, suffix: Seq<char>)
    ensures
        without_suffix(s + suffix, suffix) == Some(s),
{
    let n = s.len() as int;
    assert((s + suffix).subrange(n, n + suffix.len()) =~= suffix);
    assert((s + suffix).take(n) =~= s);
}

/// The characters of a text.
pub fn chars_of(s: &str) -> (r: Vec<char>)
    ensures
        r@ == s@,
{
    let mut r: Vec<char> = Vec::new();
    for c in it: s.chars()
        invariant
            r@ == it.seq().take(it.index() as int),
            it.seq() == s@,
    {
        r.push(c);
        assert(it.seq().take(it.index() as int + 1) =~= it.seq().take(it.index() as int).push(c));
    }
    assert(s@.take(s@.len() as int) =~= s@);
    r
}

/// The text that lossy UTF-8 decoding makes of a byte sequence.
pub uninterp spec fn utf8_lossy(bytes: Seq<u8>) -> Seq<char>;

/// Calls `String::from_utf8_lossy`: decodes bytes as UTF-8, replacing what is malformed by
/// U+FFFD. The result is a function of the bytes alone, and bytes that are valid UTF-8 are
/// decoded exactly. How malformed sequences are cut up is left to the name.
#[verifier::external_body]
pub(crate) fn lossy_text(bytes: &[u8]) -> (s: String)
    ensures
        s@ == utf8_lossy(bytes@),
        valid_utf8(bytes@) ==> s@ == decode_utf8(bytes@),
{
    String::from_utf8_lossy(bytes).into_owned()
}

/// `n` times the character `c`.
pub open spec fn repeated(c: char, n: nat) -> Seq<char> {
    Seq::new(n, |i: int| c)
}

/// A text filled up with spaces behind it to a width in characters.
pub open spec fn padded_right(s: Seq<char>, width: nat) -> Seq<char> {
    if s.len() < width {
        s + repeated(' ', (width - s.len()) as nat)
    } else {
        s
    }
}

/// A text filled up with spaces before it to a width in characters.
pub open spec fn padded_left(s: Seq<char>, width: nat) -> Seq<char> {
    if s.len() < width {
        repeated(' ', (width - s.len()) as nat) + s
    } else {
        s
    }
}

/// Appends `n` spaces.
pub fn push_spaces(out: &mut String, n: usize)
    ensures
        final(out)@ == old(out)@ + repeated(' ', n as nat),
{
    let ghost start = out@;
    let mut i: usize = 0;
    assert(start + repeated(' ', 0) =~= start);
    while i < n
        invariant
            i <= n,
            out@ == start + repeated(' ', i as nat),
        decreases n - i,
    {
        out.append(" ");
        proof {
            reveal_strlit(" ");
        }
        i = i + 1;
        assert(out@ =~= start + repeated(' ', i as nat));
    }
}

/// Appends a text filled up with spaces behind it.
pub fn push_padded_right(out: &mut String, s: &str, width: usize)
    ensures
        final(out)@ == old(out)@ + padded_right(s@, width as nat),
{
    let ghost start = out@;
    let len = s.unicode_len();
    out.append(s);
    if len < width {
        push_spaces(out, width - len);
    }
    assert(out@ =~= start + padded_right(s@, width as nat));
}

/// Appends a text filled up with spaces before it.
pub fn push_padded_left(out: &mut String, s: &str, width: usize)
    ensures
        final(out)@ == old(out)@ + padded_left(s@, width as nat),
{
    let ghost start = out@;
    let len = s.unicode_len();
    if len < width {
        push_spaces(out, width - len);
    }
    out.append(s);
    assert(out@ =~= start + padded_left(s@, width as nat));
}

/// Whether text `a` sorts before text `b`: at the first difference the smaller character, or else
/// the shorter text, goes first.
pub open spec fn text_less(a: Seq<char>, b: Seq<char>) -> bool
    decreases a.len(),
{
    if b.len() == 0 {
        false
    } else if a.len() == 0 {
        true
    } else if a[0] != b[0] {
        (a[0] as int) < (b[0] as int)
    } else {
        text_less(a.drop_first(), b.drop_first())
    }
}

/// The order of texts is transitive.
pub proof fn lemma_text_transitive(a: Seq<char>, b: Seq<char>, c: Seq<char>)
    requires
        text_less(a, b),
        text_less(b, c),
    ensures
        text_less(a, c),
    decreases a.len(),
{
    if a.len() > 0 && a[0] == b[0] && b[0] == c[0] {
        lemma_text_transitive(a.drop_first(), b.drop_first(), c.drop_first());
    }
}

/// No text sorts before itself.
pub proof fn lemma_text_irreflexive(a: Seq<char>)
    ensures
        !text_less(a, a),
    decreases a.len(),
{
    if a.len() > 0 {
        lemma_text_irreflexive(a.drop_first());
    }
}

/// Of two different texts one sorts before the other.
pub proof fn lemma_text_total(a: Seq<char>, b: Seq<char>)
    ensures
        text_less(a, b) || text_less(b, a) || a == b,
    decreases a.len(),
{
    if a.len() == 0 || b.len() == 0 {
        assert(a.len() == b.len() ==> a =~= b);
    } else if a[0] == b[0] {
        lemma_text_total(a.drop_first(), b.drop_first());
        assert(a =~= seq![a[0]] + a.drop_first());
        assert(b =~= seq![b[0]] + b.drop_first());
    } else {
        assert(a[0] as int != b[0] as int);
    }
}

fn code_point(c: char) -> (r: u32)
    ensures
        r == c as int,
{
    c as u32
}

/// Compares two texts.
pub fn chars_less(a: &Vec<char>, b: &Vec<char>) -> (r: bool)
    ensures
        r == text_less(a@, b@),
{
    let mut i: usize = 0;
    assert(a@.skip(0) =~= a@);
    assert(b@.skip(0) =~= b@);
    while i < a.len() && i < b.len()
        invariant
            i <= a@.len(),
            i <= b@.len(),
            text_less(a@, b@) == text_less(a@.skip(i as int), b@.skip(i as int)),
        decreases a@.len() - i,
    {
        assert(a@.skip(i as int).drop_first() =~= a@.skip(i as int + 1));
        assert(b@.skip(i as int).drop_first() =~= b@.skip(i as int + 1));
        let x: char = a[i];
        let y: char = b[i];
        if x != y {
            return code_point(x) < code_point(y);
        }
        i = i + 1;
    }
    i < b.len()
}

/// How a character stands in a JSON string: quotes, backslashes and control characters are escaped.
pub open spec fn json_escape(c: char) -> Seq<char> {
    if c == '"' {
        seq!['\\', '"']
    } else if c == '\\' {
        seq!['\\', '\\']
    } else if c == '\n' {
        seq!['\\', 'n']
    } else if c == '\r' {
        seq!['\\', 'r']
    } else if c == '\t' {
        seq!['\\', 't']
    } else if (c as int) < 0x20 {
        seq!['\\', 'u', '0', '0'] + hex_byte(c as u8)
    } else {
        seq![c]
    }
}

/// How a text stands between the quotes of a JSON string.
pub open spec fn json_escaped(s: Seq<char>) -> Seq<char>
    decreases s.len(),
{
    if s.len() == 0 {
        Seq::empty()
    } else {
        json_escaped(s.drop_last()) + json_escape(s.last())
    }
}

/// A text as a JSON string.
pub open spec fn json_string(s: Seq<char>) -> Seq<char> {
    seq!['"'] + json_escaped(s) + seq!['"']
}

fn push_json_char(out: &mut String, c: char, plain: &str)
    requires
        plain@ == seq![c],
    ensures
        final(out)@ == old(out)@ + json_escape(c),
{
    proof {
        reveal_strlit("\\\"");
        reveal_strlit("\\\\");
        reveal_strlit("\\n");
        reveal_strlit("\\r");
        reveal_strlit("\\t");
        reveal_strlit("\\u00");
    }
    let ghost start = out@;
    if c == '"' {
        out.append("\\\"");
    } else if c == '\\' {
        out.append("\\\\");
    } else if c == '\n' {
        out.append("\\n");
    } else if c == '\r' {
        out.append("\\r");
    } else if c == '\t' {
        out.append("\\t");
    } else if code_point(c) < 0x20 {
        out.append("\\u00");
        push_hex_byte(out, code_point(c) as u8);
    } else {
        out.append(plain);
    }
    assert(out@ =~= start + json_escape(c));
}

/// Appends a text as a JSON string.
pub fn push_json_string(out: &mut String, s: &str)
    ensures
        final(out)@ == old(out)@ + json_string(s@),
{
    proof {
        reveal_strlit("\"");
    }
    let ghost start = out@;
    out.append("\"");
    let ghost opened = out@;
    let chars = chars_of(s);
    let mut i: usize = 0;
    assert(s@.take(0) =~= Seq::empty());
    assert(opened + Seq::<char>::empty() =~= opened);
    while i < chars.len()
        invariant
            chars@ == s@,
            i <= chars@.len(),
            out@ == opened + json_escaped(s@.take(i as int)),
        decreases chars@.len() - i,
    {
        assert(s@.take(i as int + 1).drop_last() =~= s@.take(i as int));
        let plain = s.substring_char(i, i + 1);
        assert(plain@ =~= seq![s@[i as int]]);
        let ghost before = out@;
        push_json_char(out, chars[i], plain);
        assert(out@ =~= opened + json_escaped(s@.take(i as int + 1)));
        i = i + 1;
    }
    assert(s@.take(s@.len() as int) =~= s@);
    out.append("\"");
    assert(out@ =~= start + json_string(s@));
}

/// The value of a hexadecimal digit.
pub open spec fn hex_value(c: char) -> Option<int> {
    if '0' <= c <= '9' {
        Some(c as int - 48)
    } else if 'A' <= c <= 'F' {
        Some(c as int - 55)
    } else if 'a' <= c <= 'f' {
        Some(c as int - 87)
    } else {
        None
    }
}

/// The character that the escape sequence at the front of `t` stands for, and its length. Escapes
/// by number are those of one sixteen-bit unit.
pub open spec fn json_unescape(t: Seq<char>) -> Option<(char, int)> {
    if t.len() < 2 {
        None
    } else if t[1] == '"' || t[1] == '\\' || t[1] == '/' {
        Some((t[1], 2))
    } else if t[1] == 'b' {
        Some((8u8 as char, 2))
    } else if t[1] == 'f' {
        Some((12u8 as char, 2))
    } else if t[1] == 'n' {
        Some(('\n', 2))
    } else if t[1] == 'r' {
        Some(('\r', 2))
    } else if t[1] == 't' {
        Some(('\t', 2))
    } else if t[1] == 'u' && t.len() >= 6 && hex_value(t[2]) is Some && hex_value(t[3]) is Some
        && hex_value(t[4]) is Some && hex_value(t[5]) is Some {
        let n = hex_value(t[2])->0 * 4096 + hex_value(t[3])->0 * 256 + hex_value(t[4])->0 * 16
            + hex_value(t[5])->0;
        if 0xD800 <= n < 0xE000 {
            None
        } else {
            Some((n as char, 6))
        }
    } else {
        None
    }
}

/// The text that stands between the quotes of a JSON string; `None` where it is malformed: it has
/// a bare quote, a bare control character or an unknown escape.
pub open spec fn json_unescaped(t: Seq<char>) -> Option<Seq<char>>
    decreases t.len(),
{
    if t.len() == 0 {
        Some(Seq::empty())
    } else if t[0] == '\\' {
        match json_unescape(t) {
            None => None,
            Some((c, n)) => if n <= 0 || n > t.len() {
                None
            } else {
                match json_unescaped(t.skip(n)) {
                    Some(rest) => Some(seq![c] + rest),
                    None => None,
                }
            },
        }
    } else if t[0] == '"' || (t[0] as int) < 0x20 {
        None
    } else {
        match json_unescaped(t.skip(1)) {
            Some(rest) => Some(seq![t[0]] + rest),
            None => None,
        }
    }
}

proof fn lemma_hex_value(d: int)
    requires
        0 <= d < 16,
    ensures
        hex_value(hex_char(d)) == Some(d),
{
}

proof fn lemma_escape_reads_back(c: char, t: Seq<char>)
    ensures
        json_unescaped(json_escape(c) + t) == match json_unescaped(t) {
            Some(rest) => Some(seq![c] + rest),
            None => None,
        },
{
    let all = json_escape(c) + t;
    let n = json_escape(c).len() as int;
    assert(all.skip(n) =~= t);
    if json_escape(c).len() == 6 {
        let code = c as int;
        lemma_hex_value(0);
        lemma_hex_value(code / 16);
        lemma_hex_value(code % 16);
        assert(all[2] == '0' && all[3] == '0');
        assert(all[4] == hex_char(code / 16) && all[5] == hex_char(code % 16));
        assert(json_unescape(all) == Some((c, 6int)));
    }
}

proof fn lemma_escaped_front(s: Seq<char>)
    requires
        s.len() > 0,
    ensures
        json_escaped(s) == json_escape(s[0]) + json_escaped(s.skip(1)),
    decreases s.len(),
{
    let last = s.last();
    if s.len() == 1 {
        assert(s.drop_last() =~= Seq::empty());
        assert(s.skip(1) =~= Seq::empty());
        assert(json_escaped(s) =~= json_escape(s[0]) + json_escaped(s.skip(1)));
    } else {
        lemma_escaped_front(s.drop_last());
        assert(s.skip(1).drop_last() =~= s.drop_last().skip(1));
        assert(json_escaped(s) =~= json_escape(s[0]) + json_escaped(s.skip(1)));
    }
}

/// Every text makes a well-formed JSON string that is read as that text.
pub proof fn json_strings_read_back(s: Seq<char>)
    ensures
        json_unescaped(json_escaped(s)) == Some(s),
    decreases s.len(),
{
    if s.len() == 0 {
        assert(s =~= Seq::empty());
    } else {
        lemma_escaped_front(s);
        lemma_escape_reads_back(s[0], json_escaped(s.skip(1)));
        json_strings_read_back(s.skip(1));
        assert(seq![s[0]] + s.skip(1) =~= s);
    }
}

/// One text sorts before another exactly if at the first place where they differ it has the smaller
/// character, or ends there.
pub proof fn the_first_difference_decides(a: Seq<char>, b: Seq<char>, i: int)
    requires
        0 <= i <= a.len(),
        i <= b.len(),
        forall|j: int| 0 <= j < i ==> (#[trigger] a[j]) == b[j],
        i == a.len() || i == b.len() || a[i] != b[i],
    ensures
        text_less(a, b) <==> (i < b.len() && (i == a.len() || (a[i] as int) < (b[i] as int))),
    decreases a.len(),
{
    if i > 0 {
        assert(a[0] == b[0]);
        let x = a.drop_first();
        let y = b.drop_first();
        assert forall|j: int| 0 <= j < i - 1 implies (#[trigger] x[j]) == y[j] by {
            assert(a[j + 1] == b[j + 1]);
        }
        the_first_difference_decides(x, y, i - 1);
    }
}

/// A filled-up text is the text with spaces on one side, as wide as asked for if the text is not
/// wider by itself.
pub proof fn filling_up_adds_spaces(s: Seq<char>, width: nat)
    ensures
        s.is_prefix_of(padded_right(s, width)),
        s.is_suffix_of(padded_left(s, width)),
        padded_right(s, width).len() == if s.len() < width {
            width
        } else {
            s.len()
        },
        padded_left(s, width).len() == padded_right(s, width).len(),
        forall|i: int|
            s.len() <= i < padded_right(s, width).len() ==> (#[trigger] padded_right(s, width)[i])
                == ' ',
        forall|i: int|
            0 <= i < padded_left(s, width).len() - s.len() ==> (#[trigger] padded_left(
                s,
                width,
            )[i]) == ' ',
{
    let left = padded_left(s, width);
    assert(left.subrange(left.len() - s.len(), left.len() as int) =~= s);
    assert(padded_right(s, width).subrange(0, s.len() as int) =~= s);
}

/// Decimal notation is made of digits, and starts with a zero only for zero itself.
pub proof fn decimals_are_digits(n: nat, i: int)
    requires
        0 <= i < decimal(n).len(),
    ensures
        '0' <= decimal(n)[i] <= '9',
        decimal(n)[0] == '0' ==> n == 0,
        n < 10 ==> decimal(n).len() == 1,
        n >= 10 ==> decimal(n).len() == decimal(n / 10).len() + 1,
    decreases n,
{
    if n >= 10 {
        lemma_decimal_value(n / 10);
        decimals_are_digits(n / 10, 0);
        if i < decimal(n / 10).len() {
            decimals_are_digits(n / 10, i);
        }
    }
}

/// An ending is taken off exactly the texts that have it, and what is left is what stood before it.
pub proof fn endings_are_taken_off(s: Seq<char>, suffix: Seq<char>)
    ensures
        match without_suffix(s, suffix) {
            Some(front) => s == front + suffix,
            None => forall|front: Seq<char>| s != #[trigger] (front + suffix),
        },
{
    if suffix.is_suffix_of(s) {
        assert(s =~= s.take(s.len() - suffix.len()) + suffix);
    } else {
        assert forall|front: Seq<char>| s != #[trigger] (front + suffix) by {
            if s == front + suffix {
                lemma_without_suffix(front, suffix);
            }
        }
    }
}

/// Texts are escaped character by character.
pub proof fn escaped_texts_join(a: Seq<char>, b: Seq<char>)
    ensures
        json_escaped(a + b) == json_escaped(a) + json_escaped(b),
    decreases b.len(),
{
    if b.len() == 0 {
        assert(a + b =~= a);
        assert(json_escaped(a) + json_escaped(b) =~= json_escaped(a));
    } else {
        escaped_texts_join(a, b.drop_last());
        assert((a + b).drop_last() =~= a + b.drop_last());
        assert((a + b).last() == b.last());
        assert(json_escaped(a + b) =~= json_escaped(a) + json_escaped(b));
    }
}

} // verus!
