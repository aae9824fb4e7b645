//! The escapes of the output formats, and the percent-decoding that reads them back.

use crate::text;
use vstd::prelude::*;

verus! {

// ── the cache escape ──

/// The upper-case hexadecimal digit for a value below sixteen.
pub open spec fn upper_digit(d: nat) -> char {
    if d < 10 {
        ('0' as nat + d) as char
    } else {
        ('A' as nat + (d - 10) as nat) as char
    }
}

/// A character in a cache file: control characters, the space and `%` become `%XX`, everything
/// else stands for itself.
pub open spec fn cache_char(c: char) -> Seq<char> {
    if c <= ' ' || c == '%' {
        seq!['%', upper_digit(c as nat / 16), upper_digit(c as nat % 16)]
    } else {
        seq![c]
    }
}

/// A text in a cache file.
pub open spec fn cache_escaped(s: Seq<char>) -> Seq<char>
    decreases s.len(),
{
    if s.len() == 0 {
        seq![]
    } else {
        cache_escaped(s.drop_last()) + cache_char(s.last())
    }
}

// ── the JSON string escape ──

/// A character inside a JSON string.
pub open spec fn json_char(c: char) -> Seq<char> {
    if c == '"' {
        seq!['\\', '"']
    } else if c == '\\' {
        seq!['\\', '\\']
    } else if c == '\n' {
        seq!['\\', 'n']
    } else if c == '\r' {
        seq!['\\', 'r']
    } else if c == '\t' {
        seq!['\\', 't']
    } else if c <= '\u{1f}' {
        seq![
            '\\',
            'u',
            '0',
            '0',
            text::digit_char(c as nat / 16),
            text::digit_char(c as nat % 16),
        ]
    } else {
        seq![c]
    }
}

/// A text inside a JSON string.
pub open spec fn json_escaped(s: Seq<char>) -> Seq<char>
    decreases s.len(),
{
    if s.len() == 0 {
        seq![]
    } else {
        json_escaped(s.drop_last()) + json_char(s.last())
    }
}

/// The hexadecimal digit for a value below sixteen, in lower case.
pub fn hex_digit(d: u8) -> (r: char)
    requires
        d < 16,
    ensures
        r == text::digit_char(d as nat),
{
    if d < 10 {
        (0x30u8 + d) as char
    } else {
        (0x61u8 + (d - 10)) as char
    }
}

/// The hexadecimal digit for a value below sixteen, in upper case.
pub fn hex_digit_upper(d: u8) -> (r: char)
    requires
        d < 16,
    ensures
        r == upper_digit(d as nat),
{
    if d < 10 {
        (0x30u8 + d) as char
    } else {
        (0x41u8 + (d - 10)) as char
    }
}

/// Appends `c` to `out` as it stands inside a JSON string.
fn push_json_char(out: &mut String, c: char)
    ensures
        final(out)@ == old(out)@ + json_char(c),
{
    if c == '"' {
        out.push('\\');
        out.push('"');
    } else if c == '\\' {
        out.push('\\');
        out.push('\\');
    } else if c == '\n' {
        out.push('\\');
        out.push('n');
    } else if c == '\r' {
        out.push('\\');
        out.push('r');
    } else if c == '\t' {
        out.push('\\');
        out.push('t');
    } else if c <= '\u{1f}' {
        let v: u8 = c as u8;
        out.push('\\');
        out.push('u');
        out.push('0');
        out.push('0');
        out.push(hex_digit(v / 16));
        out.push(hex_digit(v % 16));
    } else {
        out.push(c);
    }
    assert(out@ == old(out)@ + json_char(c));
}

/// Appends `s` to `out` as it stands inside a JSON string.
pub fn json_escape(s: &str, out: &mut String)
    ensures
        final(out)@ == old(out)@ + json_escaped(s@),
{
    for c in it: s.chars()
        invariant
            it.seq() == s@,
            out@ == old(out)@ + json_escaped(s@.take(it.index() as int)),
    {
        push_json_char(out, c);
        proof {
            let k = it.index() as int;
            assert(s@.take(k + 1).drop_last() == s@.take(k));
        }
    }
    assert(s@.take(s@.len() as int) == s@);
}

proof fn lemma_json_char_is_visible(c: char, i: int)
    requires
        0 <= i < json_char(c).len(),
    ensures
        json_char(c)[i] >= ' ',
{
}

/// No control character is left in an escaped text.
pub proof fn law_json_text_has_no_control_characters(s: Seq<char>, i: int)
    requires
        0 <= i < json_escaped(s).len(),
    ensures
        json_escaped(s)[i] >= ' ',
    decreases s.len(),
{
    if s.len() > 0 {
        let front = json_escaped(s.drop_last());
        if i < front.len() {
            law_json_text_has_no_control_characters(s.drop_last(), i);
        } else {
            lemma_json_char_is_visible(s.last(), i - front.len());
        }
    }
}

// ── percent-decoding ──

/// The value of a hexadecimal digit; of any other byte, 0.
pub open spec fn hex_value(b: u8) -> u8 {
    if 0x30 <= b <= 0x39 {
        (b - 0x30) as u8
    } else if 0x41 <= b <= 0x46 {
        (b - 0x41 + 10) as u8
    } else if 0x61 <= b <= 0x66 {
        (b - 0x61 + 10) as u8
    } else {
        0
    }
}

/// The bytes that `b` stands for: `%` and two more bytes are one byte, and, where `plus` says so, `+`
/// is a space.
pub open spec fn percent_decoded(b: Seq<u8>, plus: bool) -> Seq<u8>
    decreases b.len(),
{
    if b.len() == 0 {
        seq![]
    } else if b[0] == 0x25 && b.len() > 2 {
        seq![(hex_value(b[1]) * 16 + hex_value(b[2])) as u8] + percent_decoded(b.skip(3), plus)
    } else if b[0] == 0x2b && plus {
        seq![0x20u8] + percent_decoded(b.skip(1), plus)
    } else {
        seq![b[0]] + percent_decoded(b.skip(1), plus)
    }
}

/// The value of a hexadecimal digit, or 0.
fn hex_value_of(b: u8) -> (r: u8)
    ensures
        r == hex_value(b),
        r < 16,
{
    if 0x30 <= b && b <= 0x39 {
        b - 0x30
    } else if 0x41 <= b && b <= 0x46 {
        b - 0x41 + 10
    } else if 0x61 <= b && b <= 0x66 {
        b - 0x61 + 10
    } else {
        0
    }
}

/// The bytes that `b` stands for.
fn percent_decode(b: &[u8], plus: bool) -> (r: Vec<u8>)
    ensures
        r@ == percent_decoded(b@, plus),
{
    let n = b.len();
    let mut out: Vec<u8> = Vec::with_capacity(n);
    let mut i: usize = 0;
    proof {
        assert(b@.skip(0) == b@);
        assert(out@ + percent_decoded(b@, plus) == percent_decoded(b@, plus));
    }
    while i < n
        invariant
            n == b@.len(),
            i <= n,
            out@ + percent_decoded(b@.skip(i as int), plus) == percent_decoded(b@, plus),
        decreases n - i,
    {
        let ghost before = out@;
        let ghost rest = b@.skip(i as int);
        if b[i] == 0x25 && n - i > 2 {
            let v = hex_value_of(b[i + 1]) * 16 + hex_value_of(b[i + 2]);
            out.push(v);
            assert(rest.skip(3) == b@.skip(i + 3));
            assert(before + (seq![v] + percent_decoded(b@.skip(i + 3), plus)) == out@
                + percent_decoded(b@.skip(i + 3), plus));
            i = i + 3;
        } else {
            let v: u8 = if b[i] == 0x2b && plus {
                0x20
            } else {
                b[i]
            };
            out.push(v);
            assert(rest.skip(1) == b@.skip(i + 1));
            assert(before + (seq![v] + percent_decoded(b@.skip(i + 1), plus)) == out@
                + percent_decoded(b@.skip(i + 1), plus));
            i = i + 1;
        }
    }
    proof {
        assert(b@.skip(n as int) == Seq::<u8>::empty());
        assert(out@ + Seq::<u8>::empty() == out@);
    }
    out
}

/// A text of a cache file, decoded.
pub fn url_unescape(s: &str) -> (r: String)
    ensures
        r@ == text::utf8_text(percent_decoded(vstd::utf8::encode_utf8(s@), false)),
{
    let bytes = percent_decode(s.as_bytes(), false);
    text::text_from_utf8_lossy(bytes.as_slice())
}

/// A value of a query, decoded.
pub fn url_decode(s: &str) -> (r: String)
    ensures
        r@ == text::utf8_text(percent_decoded(vstd::utf8::encode_utf8(s@), true)),
{
    let bytes = percent_decode(s.as_bytes(), true);
    text::text_from_utf8_lossy(bytes.as_slice())
}

/// Whether the byte stands for itself.
spec fn is_plain(b: u8, plus: bool) -> bool {
    b != 0x25 && !(b == 0x2b && plus)
}

proof fn lemma_plain_prefix(a: Seq<u8>, b: Seq<u8>, plus: bool)
    requires
        forall|i: int| 0 <= i < a.len() ==> is_plain(#[trigger] a[i], plus),
    ensures
        percent_decoded(a + b, plus) == a + percent_decoded(b, plus),
    decreases a.len(),
{
    if a.len() == 0 {
        assert(a + b == b);
        assert(a + percent_decoded(b, plus) == percent_decoded(b, plus));
    } else {
        let rest = a.skip(1);
        assert forall|i: int| 0 <= i < rest.len() implies is_plain(#[trigger] rest[i], plus) by {
            assert(rest[i] == a[i + 1]);
        }
        lemma_plain_prefix(rest, b, plus);
        assert((a + b).skip(1) == rest + b);
        assert(is_plain(a[0], plus));
        assert(percent_decoded(a + b, plus) == seq![a[0]] + percent_decoded(rest + b, plus));
        assert(seq![a[0]] + (rest + percent_decoded(b, plus)) == a + percent_decoded(b, plus));
    }
}

proof fn lemma_scalar_bytes(v: u32)
    by (bit_vector)
    requires
        v <= 0x10ffff,
    ensures
        v <= 0x7f ==> (v & 0x7F) as u8 == v as u8,
        (0xC0u8 | ((v >> 6) & 0x1F) as u8) >= 0x80,
        (0xE0u8 | ((v >> 12) & 0x0F) as u8) >= 0x80,
        (0xF0u8 | ((v >> 18) & 0x07) as u8) >= 0x80,
        (0x80u8 | (v & 0x3F) as u8) >= 0x80,
        (0x80u8 | ((v >> 6) & 0x3F) as u8) >= 0x80,
        (0x80u8 | ((v >> 12) & 0x3F) as u8) >= 0x80,
{
}

/// The bytes of a character that is not escaped stand for themselves.
proof fn lemma_plain_char(c: char, plus: bool)
    requires
        c != '%',
        !(c == '+' && plus),
    ensures
        forall|i: int|
            0 <= i < vstd::utf8::encode_scalar(c as u32).len() ==> is_plain(
                #[trigger] vstd::utf8::encode_scalar(c as u32)[i],
                plus,
            ),
{
    let v = c as u32;
    lemma_scalar_bytes(v);
    assert forall|i: int| 0 <= i < vstd::utf8::encode_scalar(v).len() implies is_plain(
        #[trigger] vstd::utf8::encode_scalar(v)[i],
        plus,
    ) by {}
}

proof fn lemma_cache_escaped_front(s: Seq<char>)
    requires
        s.len() > 0,
    ensures
        cache_escaped(s) == cache_char(s[0]) + cache_escaped(s.drop_first()),
    decreases s.len(),
{
    if s.len() == 1 {
        assert(s.drop_last() == Seq::<char>::empty());
        assert(s.drop_first() == Seq::<char>::empty());
        assert(cache_escaped(s.drop_last()) == Seq::<char>::empty());
        assert(cache_escaped(s.drop_first()) == Seq::<char>::empty());
        assert(cache_escaped(s) == cache_char(s[0]) + cache_escaped(s.drop_first()));
    } else {
        lemma_cache_escaped_front(s.drop_last());
        assert(s.drop_last().drop_first() == s.drop_first().drop_last());
        assert(cache_escaped(s.drop_first()) == cache_escaped(s.drop_first().drop_last())
            + cache_char(s.last()));
        assert(cache_escaped(s) == cache_char(s[0]) + cache_escaped(s.drop_first()));
    }
}

proof fn lemma_upper_digit(d: nat)
    requires
        d < 16,
    ensures
        upper_digit(d) <= '\u{7f}',
        hex_value(upper_digit(d) as u8) == d,
        upper_digit(d) as u8 as nat == upper_digit(d) as nat,
{
}

proof fn lemma_escaped_char(c: char, tail: Seq<u8>)
    requires
        c <= ' ' || c == '%',
    ensures
        percent_decoded(vstd::utf8::encode_utf8(cache_char(c)) + tail, false)
            == vstd::utf8::encode_scalar(c as u32) + percent_decoded(tail, false),
{
    let h = upper_digit(c as nat / 16);
    let l = upper_digit(c as nat % 16);
    lemma_upper_digit(c as nat / 16);
    lemma_upper_digit(c as nat % 16);
    let empty = Seq::<char>::empty();
    text::lemma_encode_push_ascii(empty, '%');
    text::lemma_encode_push_ascii(empty.push('%'), h);
    text::lemma_encode_push_ascii(empty.push('%').push(h), l);
    assert(cache_char(c) == empty.push('%').push(h).push(l));
    let code = vstd::utf8::encode_utf8(cache_char(c));
    assert(code == seq![0x25u8, h as u8, l as u8]);
    assert((code + tail).skip(3) == tail);
    text::lemma_encode_push_ascii(empty, c);
    text::lemma_encode_one(c);
    assert(empty.push(c) == seq![c]);
    assert(vstd::utf8::encode_utf8(seq![c]) == seq![c as u8]);
    assert(hex_value(h as u8) * 16 + hex_value(l as u8) == c as nat);
}

/// What is escaped for a cache file is read back unchanged, byte for byte.
pub proof fn law_cache_escape_reads_back(s: Seq<char>)
    ensures
        percent_decoded(vstd::utf8::encode_utf8(cache_escaped(s)), false)
            == vstd::utf8::encode_utf8(s),
    decreases s.len(),
{
    if s.len() > 0 {
        let c = s[0];
        let rest = s.drop_first();
        let tail = vstd::utf8::encode_utf8(cache_escaped(rest));
        law_cache_escape_reads_back(rest);
        lemma_cache_escaped_front(s);
        text::lemma_encode_add(cache_char(c), cache_escaped(rest));
        if c <= ' ' || c == '%' {
            lemma_escaped_char(c, tail);
        } else {
            lemma_plain_char(c, false);
            text::lemma_encode_one(c);
            lemma_plain_prefix(vstd::utf8::encode_scalar(c as u32), tail, false);
        }
    }
}

/// A text without `%`, and, in a query, without `+`, is decoded to itself.
pub proof fn law_plain_text_is_decoded_to_itself(s: Seq<char>, plus: bool)
    requires
        !s.contains('%'),
        plus ==> !s.contains('+'),
    ensures
        text::utf8_text(percent_decoded(vstd::utf8::encode_utf8(s), plus)) == s,
    decreases s.len(),
{
    lemma_plain_text(s, plus);
    text::lemma_utf8_text(s);
}

proof fn lemma_plain_text(s: Seq<char>, plus: bool)
    requires
        !s.contains('%'),
        plus ==> !s.contains('+'),
    ensures
        percent_decoded(vstd::utf8::encode_utf8(s), plus) == vstd::utf8::encode_utf8(s),
    decreases s.len(),
{
    if s.len() > 0 {
        let rest = s.drop_first();
        assert forall|c: char| rest.contains(c) implies s.contains(c) by {
            let i = choose|i: int| 0 <= i < rest.len() && rest[i] == c;
            assert(s[i + 1] == c);
        }
        assert(s.contains(s[0]));
        lemma_plain_text(rest, plus);
        lemma_plain_char(s[0], plus);
        lemma_plain_prefix(
            vstd::utf8::encode_scalar(s[0] as u32),
            vstd::utf8::encode_utf8(rest),
            plus,
        );
    }
}

/// In a query, a text without `%` is decoded to the same text with a space for every `+`.
pub proof fn law_plus_signs_are_spaces(s: Seq<char>, r: Seq<char>)
    requires
        !s.contains('%'),
        r.len() == s.len(),
        forall|i: int|
            0 <= i < s.len() ==> #[trigger] r[i] == if s[i] == '+' {
                ' '
            } else {
                s[i]
            },
    ensures
        percent_decoded(vstd::utf8::encode_utf8(s), true) == vstd::utf8::encode_utf8(r),
    decreases s.len(),
{
    if s.len() > 0 {
        let rest = s.drop_first();
        let tail = r.drop_first();
        assert(!rest.contains('%')) by {
            if rest.contains('%') {
                let i = choose|i: int| 0 <= i < rest.len() && rest[i] == '%';
                assert(s[i + 1] == '%');
            }
        }
        assert forall|i: int| 0 <= i < rest.len() implies #[trigger] tail[i] == if rest[i] == '+' {
            ' '
        } else {
            rest[i]
        } by {
            assert(tail[i] == r[i + 1]);
        }
        law_plus_signs_are_spaces(rest, tail);
        assert(s.contains(s[0]));
        assert(r[0] == if s[0] == '+' {
            ' '
        } else {
            s[0]
        });
        let code = vstd::utf8::encode_utf8(rest);
        if s[0] == '+' {
            let empty = Seq::<char>::empty();
            text::lemma_encode_push_ascii(empty, '+');
            text::lemma_encode_push_ascii(empty, ' ');
            assert(empty.push('+') == seq!['+'] && empty.push(' ') == seq![' ']);
            text::lemma_encode_add(seq!['+'], rest);
            text::lemma_encode_add(seq![' '], tail);
            assert(s == seq!['+'] + rest && r == seq![' '] + tail);
            assert((seq![0x2bu8] + code).skip(1) == code);
        } else {
            lemma_plain_char(s[0], true);
            lemma_plain_prefix(vstd::utf8::encode_scalar(s[0] as u32), code, true);
        }
    }
}

} // verus!
