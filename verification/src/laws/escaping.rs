//! Escapes: what is written can be read, and what needs no escape is left alone.

use crate::escape;
use crate::text;
use vstd::prelude::*;

verus! {

// ── JSON strings ──

/// The number that four hexadecimal digits denote.
pub open spec fn four_digits(s: Seq<char>) -> nat {
    crate::laws::texts::read_numeral(s, 16)
}

/// How a reader of JSON takes one character from the front of a string's text, and how much of the
/// text that is.
pub open spec fn read_json_char(s: Seq<char>) -> (char, nat) {
    if s[0] != '\\' {
        (s[0], 1)
    } else if s[1] == 'n' {
        ('\n', 2)
    } else if s[1] == 'r' {
        ('\r', 2)
    } else if s[1] == 't' {
        ('\t', 2)
    } else if s[1] == 'u' {
        (four_digits(s.subrange(2, 6)) as char, 6)
    } else {
        (s[1], 2)
    }
}

/// A character is read back from what is written for it, whatever follows, and what is written
/// holds no bare quote.
pub proof fn law_json_characters_read_back(c: char, rest: Seq<char>)
    ensures
        read_json_char(escape::json_char(c) + rest) == (c, escape::json_char(c).len()),
        escape::json_char(c)[0] == '"' ==> false,
        c != '"' && c != '\\' && c >= ' ' ==> escape::json_char(c) == seq![c],
{
    let x = escape::json_char(c);
    let s = x + rest;
    assert(s[0] == x[0]);
    if c != '"' && c != '\\' && c != '\n' && c != '\r' && c != '\t' && c <= '\u{1f}' {
        let d = s.subrange(2, 6);
        let h = text::digit_char(c as nat / 16);
        let l = text::digit_char(c as nat % 16);
        assert(d =~= seq!['0', '0', h, l]);
        assert(d.drop_last() =~= seq!['0', '0', h]);
        assert(d.drop_last().drop_last() =~= seq!['0', '0']);
        assert(d.drop_last().drop_last().drop_last() =~= seq!['0']);
        assert(d.drop_last().drop_last().drop_last().drop_last() =~= Seq::<char>::empty());
        reveal_with_fuel(crate::laws::texts::read_numeral, 5);
        assert(four_digits(d) == c as nat);
        assert(s[1] == 'u');
    } else if x.len() > 1 {
        assert(s[1] == x[1]);
    }
}

/// A text is escaped character by character.
pub proof fn law_json_texts_are_escaped_piece_by_piece(a: Seq<char>, b: Seq<char>, c: char)
    ensures
        escape::json_escaped(a + b) == escape::json_escaped(a) + escape::json_escaped(b),
        escape::json_escaped(seq![c]) == escape::json_char(c),
        escape::json_escaped(Seq::<char>::empty()).len() == 0,
    decreases b.len(),
{
    let one = seq![c];
    assert(one.drop_last() == Seq::<char>::empty());
    assert(escape::json_escaped(one.drop_last()) == Seq::<char>::empty());
    assert(Seq::<char>::empty() + escape::json_char(c) == escape::json_char(c));
    if b.len() == 0 {
        assert(a + b == a);
    } else {
        law_json_texts_are_escaped_piece_by_piece(a, b.drop_last(), c);
        assert((a + b).drop_last() == a + b.drop_last());
    }
}

/// How a reader of JSON takes a string's text.
pub open spec fn read_json(s: Seq<char>) -> Seq<char>
    decreases s.len(),
{
    if s.len() == 0 {
        seq![]
    } else {
        let (c, n) = read_json_char(s);
        if 0 < n <= s.len() {
            seq![c] + read_json(s.skip(n as int))
        } else {
            seq![]
        }
    }
}

/// Every text is read back from its JSON string.
pub proof fn law_json_texts_read_back(s: Seq<char>)
    ensures
        read_json(escape::json_escaped(s)) == s,
    decreases s.len(),
{
    if s.len() > 0 {
        let c = s[0];
        let rest = s.drop_first();
        assert(s == seq![c] + rest);
        law_json_texts_are_escaped_piece_by_piece(seq![c], rest, c);
        let x = escape::json_char(c);
        let tail = escape::json_escaped(rest);
        law_json_characters_read_back(c, tail);
        law_json_texts_read_back(rest);
        assert((x + tail).skip(x.len() as int) == tail);
        assert(x.len() > 0);
    }
}

/// A text without quotes, backslashes and control characters is written as it is.
pub proof fn law_plain_texts_are_written_as_they_are(s: Seq<char>)
    requires
        forall|i: int| 0 <= i < s.len() ==> #[trigger] s[i] >= ' ' && s[i] != '"' && s[i] != '\\',
    ensures
        escape::json_escaped(s) == s,
    decreases s.len(),
{
    if s.len() > 0 {
        let front = s.drop_last();
        assert forall|i: int| 0 <= i < front.len() implies #[trigger] front[i] >= ' ' && front[i]
            != '"' && front[i] != '\\' by {
            assert(front[i] == s[i]);
        }
        law_plain_texts_are_written_as_they_are(front);
        assert(s[s.len() - 1] >= ' ');
        assert(s == front + seq![s.last()]);
    }
}

/// Quotes, backslashes and the three usual control characters have an escape of two characters;
/// every other control character has one of six, with its number in four hexadecimal digits.
pub proof fn law_json_escapes(c: char)
    ensures
        escape::json_char('"') == seq!['\\', '"'],
        escape::json_char('\\') == seq!['\\', '\\'],
        escape::json_char('\n') == seq!['\\', 'n'],
        escape::json_char('\r') == seq!['\\', 'r'],
        escape::json_char('\t') == seq!['\\', 't'],
        (c as nat) < 32 && c != '\n' && c != '\r' && c != '\t' ==> escape::json_char(c) == seq![
            '\\',
            'u',
            '0',
            '0',
            text::digit_char(c as nat / 16),
            text::digit_char(c as nat % 16),
        ],
{
}

// ── percent escapes ──

/// The hexadecimal digits have their values, in upper and in lower case.
pub proof fn law_hexadecimal_digits(d: nat)
    requires
        d < 16,
    ensures
        d < 10 ==> escape::hex_value((48 + d) as u8) == d,
        d >= 10 ==> escape::hex_value((55 + d) as u8) == d,
        d >= 10 ==> escape::hex_value((87 + d) as u8) == d,
        d < 10 ==> escape::upper_digit(d) as nat == 48 + d,
        d >= 10 ==> escape::upper_digit(d) as nat == 55 + d,
        d < 10 ==> text::digit_char(d) as nat == 48 + d,
        d >= 10 ==> text::digit_char(d) as nat == 87 + d,
{
}

/// What is no hexadecimal digit counts nothing.
pub proof fn law_other_bytes_have_no_value(b: u8)
    requires
        !(48 <= b <= 57),
        !(65 <= b <= 70),
        !(97 <= b <= 102),
    ensures
        escape::hex_value(b) == 0,
{
}

/// A percent sign and two digits are one byte; any other byte is itself, but for the plus sign
/// where that is a space; a percent sign with too little behind it is itself.
pub proof fn law_percent_decoding(b: Seq<u8>, x: u8, y: u8, plus: bool)
    ensures
        escape::percent_decoded(seq![0x25u8, x, y] + b, plus) == seq![
            (escape::hex_value(x) * 16 + escape::hex_value(y)) as u8,
        ] + escape::percent_decoded(b, plus),
        x != 0x25 && !(x == 0x2b && plus) ==> escape::percent_decoded(seq![x] + b, plus) == seq![x]
            + escape::percent_decoded(b, plus),
        escape::percent_decoded(seq![0x2bu8] + b, true) == seq![0x20u8] + escape::percent_decoded(
            b,
            true,
        ),
        escape::percent_decoded(seq![0x2bu8] + b, false) == seq![0x2bu8] + escape::percent_decoded(
            b,
            false,
        ),
        b.len() < 2 ==> escape::percent_decoded(seq![0x25u8] + b, plus) == seq![0x25u8]
            + escape::percent_decoded(b, plus),
        escape::percent_decoded(Seq::<u8>::empty(), plus).len() == 0,
{
    let s = seq![0x25u8, x, y] + b;
    assert(s[0] == 0x25 && s[1] == x && s[2] == y);
    assert(s.skip(3) == b);
    assert((seq![x] + b)[0] == x && (seq![x] + b).skip(1) == b);
    assert((seq![0x2bu8] + b)[0] == 0x2b && (seq![0x2bu8] + b).skip(1) == b);
    assert((seq![0x25u8] + b)[0] == 0x25 && (seq![0x25u8] + b).skip(1) == b);
}

proof fn lemma_written_characters_are_visible(c: char)
    ensures
        forall|i: int| 0 <= i < escape::cache_char(c).len() ==> #[trigger] escape::cache_char(c)[i] > ' ',
{
    if c <= ' ' || c == '%' {
        law_hexadecimal_digits(c as nat / 16);
        law_hexadecimal_digits(c as nat % 16);
    }
}

/// What is written of a name in a cache file separates no fields: it holds no white space of ASCII
/// and no control character, and a name without those and without percent signs is written as it
/// is.
pub proof fn law_cache_names_hold_no_separators(s: Seq<char>)
    ensures
        forall|i: int|
            0 <= i < escape::cache_escaped(s).len() ==> #[trigger] escape::cache_escaped(s)[i]
                > ' ',
        (forall|i: int| 0 <= i < s.len() ==> #[trigger] s[i] > ' ' && s[i] != '%')
            ==> escape::cache_escaped(s) == s,
    decreases s.len(),
{
    if s.len() > 0 {
        let front = s.drop_last();
        let c = s.last();
        law_cache_names_hold_no_separators(front);
        let x = escape::cache_escaped(front);
        let y = escape::cache_char(c);
        lemma_written_characters_are_visible(c);
        assert forall|i: int| 0 <= i < (x + y).len() implies #[trigger] (x + y)[i] > ' ' by {
            if i < x.len() {
                assert((x + y)[i] == x[i]);
            } else {
                assert((x + y)[i] == y[i - x.len()]);
            }
        }
        if forall|i: int| 0 <= i < s.len() ==> #[trigger] s[i] > ' ' && s[i] != '%' {
            assert forall|i: int| 0 <= i < front.len() implies #[trigger] front[i] > ' ' && front[i]
                != '%' by {
                assert(front[i] == s[i]);
            }
            assert(s[s.len() - 1] > ' ');
            assert(s == front + seq![c]);
        }
    }
}

/// A character that is escaped in a cache file is written with its two hexadecimal digits.
pub proof fn law_cache_escapes(c: char)
    ensures
        c <= ' ' || c == '%' ==> escape::cache_char(c).len() == 3 && escape::cache_char(c)[0] == '%'
            && escape::hex_value(escape::cache_char(c)[1] as u8) * 16 + escape::hex_value(
            escape::cache_char(c)[2] as u8,
        ) == c as nat,
        c > ' ' && c != '%' ==> escape::cache_char(c) == seq![c],
{
    if c <= ' ' || c == '%' {
        law_hexadecimal_digits(c as nat / 16);
        law_hexadecimal_digits(c as nat % 16);
    }
}

} // verus!
