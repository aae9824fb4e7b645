//! Texts: numerals, white space, lines, words, pieces and replacements.

use crate::readback;
use crate::text;
use vstd::prelude::*;

verus! {

// ── numerals ──

/// A decimal numeral is written digit by digit, the highest first: a number below ten is its digit,
/// and a digit more behind a numeral is ten times its number and the digit.
pub proof fn law_decimal_digit_by_digit(n: nat, d: nat)
    requires
        d < 10,
    ensures
        text::decimal(d) == seq![(48 + d) as char],
        n > 0 ==> text::decimal(10 * n + d) == text::decimal(n).push((48 + d) as char),
{
    assert('0' as nat == 48);
    if n > 0 {
        assert((10 * n + d) / 10 == n && (10 * n + d) % 10 == d);
    }
}

/// The value of a digit below sixteen, as it is read.
pub open spec fn read_digit(c: char) -> nat {
    if '0' <= c && c <= '9' {
        (c as nat - 48) as nat
    } else {
        (c as nat - 97 + 10) as nat
    }
}

/// The number that a numeral denotes, as it is read from the left.
pub open spec fn read_numeral(s: Seq<char>, base: nat) -> nat
    decreases s.len(),
{
    if s.len() == 0 {
        0
    } else {
        read_numeral(s.drop_last(), base) * base + read_digit(s.last())
    }
}

/// A numeral in any base up to sixteen denotes its number, with digits of that base only and no
/// leading zero.
pub proof fn law_numerals_read_back(n: nat, base: nat)
    requires
        2 <= base <= 16,
    ensures
        read_numeral(text::radix_text(n, base), base) == n,
        text::radix_text(n, base).len() > 0,
        forall|i: int|
            0 <= i < text::radix_text(n, base).len() ==> read_digit(
                #[trigger] text::radix_text(n, base)[i],
            ) < base,
        n > 0 ==> text::radix_text(n, base)[0] != '0',
    decreases n,
{
    let s = text::radix_text(n, base);
    if n < base {
        assert(s.drop_last() == Seq::<char>::empty());
        assert(read_numeral(s.drop_last(), base) == 0);
        assert(0 * base == 0) by (nonlinear_arith);
    } else {
        vstd::arithmetic::div_mod::lemma_div_decreases(n as int, base as int);
        vstd::arithmetic::div_mod::lemma_mod_bound(n as int, base as int);
        vstd::arithmetic::div_mod::lemma_fundamental_div_mod(n as int, base as int);
        assert(n / base > 0) by {
            vstd::arithmetic::div_mod::lemma_div_non_zero(n as int, base as int);
        }
        law_numerals_read_back(n / base, base);
        let front = text::radix_text(n / base, base);
        assert(s.drop_last() == front);
        assert(base * (n / base) == (n / base) * base) by (nonlinear_arith);
        assert forall|i: int| 0 <= i < s.len() implies read_digit(#[trigger] s[i]) < base by {
            if i < front.len() {
                assert(s[i] == front[i]);
            }
        }
    }
}

/// Different numbers have different numerals.
pub proof fn law_decimals_are_distinct(a: nat, b: nat)
    ensures
        text::decimal(a) == text::decimal(b) <==> a == b,
{
    law_numerals_read_back(a, 10);
    law_numerals_read_back(b, 10);
}

/// A decimal numeral is read as its number where that is not too large, also after a plus sign, and
/// not at all where it is.
pub proof fn law_numbers_are_read(n: nat, max: nat)
    ensures
        n <= max ==> text::uint_value(text::decimal(n), max) == Some(n),
        n <= max ==> text::uint_value(seq!['+'] + text::decimal(n), max) == Some(n),
        n > max ==> text::uint_value(text::decimal(n), max) is None,
        n > max ==> text::uint_value(seq!['+'] + text::decimal(n), max) is None,
{
    readback::law_decimal_reads_back(n);
    assert(text::is_digit(text::decimal(n)[0]));
    assert((seq!['+'] + text::decimal(n)).drop_first() == text::decimal(n));
    assert((seq!['+'] + text::decimal(n))[0] == '+');
}

/// Leading zeros do not matter to a number, and a digit more makes it ten times as large.
pub proof fn law_digits_have_their_weight(s: Seq<char>, d: nat, max: nat)
    requires
        s.len() > 0,
        forall|i: int| 0 <= i < s.len() ==> '0' <= #[trigger] s[i] && s[i] <= '9',
        d < 10,
        text::uint_value(s, max) is Some,
    ensures
        text::uint_value(s, max)->0 <= max,
        10 * text::uint_value(s, max)->0 + d <= max ==> text::uint_value(
            s.push((48 + d) as char),
            max,
        ) == Some(10 * text::uint_value(s, max)->0 + d),
        text::uint_value(seq!['0'] + s, max) == text::uint_value(s, max),
{
    let t = s.push((48 + d) as char);
    assert(t.drop_last() == s);
    assert(t[0] == s[0]);
    assert forall|i: int| 0 <= i < t.len() implies text::is_digit(#[trigger] t[i]) by {
        if i < s.len() {
            assert(t[i] == s[i]);
        }
    }
    let z = seq!['0'] + s;
    lemma_leading_zero(s);
    assert forall|i: int| 0 <= i < z.len() implies text::is_digit(#[trigger] z[i]) by {
        if i > 0 {
            assert(z[i] == s[i - 1]);
        }
    }
    assert('0' <= s[0]);
}

proof fn lemma_leading_zero(s: Seq<char>)
    ensures
        text::digits_value(seq!['0'] + s) == text::digits_value(s),
    decreases s.len(),
{
    let z = seq!['0'] + s;
    if s.len() > 0 {
        lemma_leading_zero(s.drop_last());
        assert(z.drop_last() == seq!['0'] + s.drop_last());
    } else {
        assert(z.drop_last() == Seq::<char>::empty());
        assert(text::digits_value(z.drop_last()) == 0);
    }
}

/// Nothing but digits, after one plus sign at most, is a number.
pub proof fn law_other_texts_are_no_numbers(s: Seq<char>, i: int, max: nat)
    requires
        s.len() == 0 || (0 <= i < s.len() && !('0' <= s[i] && s[i] <= '9') && (i > 0 || s[0] != '+'
            || s.len() == 1)),
    ensures
        text::uint_value(s, max) is None,
{
    if s.len() > 0 {
        if s[0] == '+' {
            let d = s.drop_first();
            if i > 0 {
                assert(d[i - 1] == s[i]);
                assert(!text::is_digit(d[i - 1]));
            }
        } else {
            assert(!text::is_digit(s[i]));
        }
    }
}

// ── white space ──

/// In ASCII the white space is the tab, the line feed, the two tabs after it, the carriage return
/// and the space.
pub proof fn law_ascii_white_space(c: char)
    requires
        (c as nat) < 128,
    ensures
        text::is_space(c) <==> 9 <= c as nat <= 13 || c as nat == 32,
{
}

/// Beyond ASCII the white space is what Unicode has as such.
pub proof fn law_wide_white_space(c: char)
    requires
        (c as nat) >= 128,
    ensures
        text::is_space(c) <==> c as nat == 0x85 || c as nat == 0xa0 || c as nat == 0x1680 || 0x2000
            <= c as nat <= 0x200a || c as nat == 0x2028 || c as nat == 0x2029 || c as nat == 0x202f
            || c as nat == 0x205f || c as nat == 0x3000,
{
}

/// Trimming takes white space from both ends, all of it and nothing else.
pub proof fn law_trimming(s: Seq<char>) -> (r: (Seq<char>, Seq<char>))
    ensures
        s == r.0 + text::trim(s) + r.1,
        forall|i: int| 0 <= i < r.0.len() ==> text::is_space(#[trigger] r.0[i]),
        forall|i: int| 0 <= i < r.1.len() ==> text::is_space(#[trigger] r.1[i]),
        text::trim(s).len() > 0 ==> !text::is_space(text::trim(s)[0]) && !text::is_space(
            text::trim(s).last(),
        ),
{
    let a = lemma_trim_start(s);
    let b = lemma_trim_end(text::trim_start(s));
    assert(s == a + text::trim(s) + b);
    (a, b)
}

proof fn lemma_trim_start(s: Seq<char>) -> (a: Seq<char>)
    ensures
        s == a + text::trim_start(s),
        forall|i: int| 0 <= i < a.len() ==> text::is_space(#[trigger] a[i]),
        text::trim_start(s).len() > 0 ==> !text::is_space(text::trim_start(s)[0]),
    decreases s.len(),
{
    if s.len() > 0 && text::is_space(s[0]) {
        let a = lemma_trim_start(s.drop_first());
        assert(s == seq![s[0]] + s.drop_first());
        assert(seq![s[0]] + (a + text::trim_start(s)) == seq![s[0]] + a + text::trim_start(s));
        seq![s[0]] + a
    } else {
        assert(s == Seq::<char>::empty() + s);
        Seq::empty()
    }
}

proof fn lemma_trim_end(s: Seq<char>) -> (b: Seq<char>)
    ensures
        s == text::trim_end(s) + b,
        forall|i: int| 0 <= i < b.len() ==> text::is_space(#[trigger] b[i]),
        text::trim_end(s).len() > 0 ==> !text::is_space(text::trim_end(s).last()),
        text::trim_end(s).len() > 0 ==> text::trim_end(s)[0] == s[0],
    decreases s.len(),
{
    if s.len() > 0 && text::is_space(s.last()) {
        let b = lemma_trim_end(s.drop_last());
        assert(s == s.drop_last().push(s.last()));
        assert((text::trim_end(s) + b).push(s.last()) == text::trim_end(s) + b.push(s.last()));
        b.push(s.last())
    } else {
        assert(s == s + Seq::<char>::empty());
        Seq::empty()
    }
}

// ── lines, words and pieces ──

/// A line feed ends a line, a carriage return before it is not part of the line, and what follows
/// is read in the same way.
pub proof fn law_lines(l: Seq<char>, rest: Seq<char>)
    requires
        !l.contains('\n'),
    ensures
        l.len() == 0 || l.last() != '\r' ==> text::lines(l + seq!['\n'] + rest) == seq![l]
            + text::lines(rest),
        text::lines(l + seq!['\r', '\n'] + rest) == seq![l] + text::lines(rest),
        l.len() > 0 ==> text::lines(l) == seq![l],
        text::lines(Seq::<char>::empty()).len() == 0,
{
    if l.len() == 0 || l.last() != '\r' {
        readback::lemma_lines_first(l, rest);
    }
    let s = l + seq!['\r', '\n'] + rest;
    let k = l.len() + 1;
    assert forall|i: int| 0 <= i < k implies s[i] != '\n' by {
        if i < l.len() {
            assert(l.contains(l[i]));
        }
    }
    text::lemma_find_char_is(s, '\n', k as int);
    assert(s.take(k as int) == l.push('\r'));
    assert(l.push('\r').drop_last() == l);
    assert(s.skip(k as int + 1) == rest);
    assert forall|i: int| 0 <= i < l.len() implies l[i] != '\n' by {
        assert(l.contains(l[i]));
    }
    text::lemma_find_char_is(l, '\n', l.len() as int);
}

/// White space separates words, however much of it, and nothing else does.
pub proof fn law_words(w: Seq<char>, c: char, rest: Seq<char>)
    requires
        w.len() > 0,
        forall|i: int| 0 <= i < w.len() ==> !text::is_space(#[trigger] w[i]),
        text::is_space(c),
    ensures
        text::words(w) == seq![w],
        text::words(w + seq![c] + rest) == seq![w] + text::words(rest),
        text::words(seq![c] + rest) == text::words(rest),
        text::words(Seq::<char>::empty()).len() == 0,
{
    let none = Seq::<char>::empty();
    readback::lemma_words_first(w, none);
    assert(w + none == w);
    assert(seq![w] + text::words(none) == seq![w]);
    readback::lemma_words_first(w, seq![c] + rest);
    assert(w + (seq![c] + rest) == w + seq![c] + rest);
    readback::lemma_words_skip(c, rest);
}

/// A separator ends a piece, and what follows is split in the same way.
pub proof fn law_pieces(a: Seq<char>, sep: char, rest: Seq<char>)
    requires
        !a.contains(sep),
    ensures
        text::split(a, sep) == seq![a],
        text::split(a + seq![sep] + rest, sep) == seq![a] + text::split(rest, sep),
        text::split_once(a, sep) is None,
        text::split_once(a + seq![sep] + rest, sep) == Some((a, rest)),
{
    let s = a + seq![sep] + rest;
    assert forall|i: int| 0 <= i < a.len() implies a[i] != sep && s[i] != sep by {
        assert(a.contains(a[i]));
        assert(s[i] == a[i]);
    }
    text::lemma_find_char_is(a, sep, a.len() as int);
    text::lemma_find_char_is(s, sep, a.len() as int);
    assert(s.take(a.len() as int) == a);
    assert(s.skip(a.len() as int + 1) == rest);
}

// ── searching and replacing ──

/// Where a text is found, it stands there and nowhere before; where it is not found, it stands
/// nowhere.
pub proof fn law_first_occurrence(s: Seq<char>, p: Seq<char>)
    ensures
        match text::find_text(s, p) {
            Some(i) => {
                &&& 0 <= i && i + p.len() <= s.len()
                &&& s.subrange(i, i + p.len()) == p
                &&& forall|j: int|
                    0 <= j < i && j + p.len() <= s.len() ==> #[trigger] s.subrange(j, j + p.len())
                        != p
            },
            None => forall|j: int|
                0 <= j && j + p.len() <= s.len() ==> #[trigger] s.subrange(j, j + p.len()) != p,
        },
    decreases s.len(),
{
    text::lemma_find_text(s, p);
    if p.is_prefix_of(s) {
        assert(s.subrange(0, p.len() as int) == p);
    } else {
        assert(p.len() <= s.len() ==> s.subrange(0, p.len() as int) != p);
        if s.len() > 0 {
            let t = s.drop_first();
            law_first_occurrence(t, p);
            assert forall|j: int| 0 < j && j + p.len() <= s.len() implies #[trigger] s.subrange(
                j,
                j + p.len(),
            ) == t.subrange(j - 1, j - 1 + p.len()) by {
                assert(s.subrange(j, j + p.len()) =~= t.subrange(j - 1, j - 1 + p.len()));
            }
            match text::find_text(t, p) {
                Some(i) => {
                    assert forall|j: int| 0 <= j < i + 1 && j + p.len() <= s.len() implies
                        #[trigger] s.subrange(j, j + p.len()) != p by {
                        if j > 0 {
                            assert(t.subrange(j - 1, j - 1 + p.len()) != p);
                        }
                    }
                },
                None => {
                    assert forall|j: int| 0 <= j && j + p.len() <= s.len() implies #[trigger]
                        s.subrange(j, j + p.len()) != p by {
                        if j > 0 {
                            assert(t.subrange(j - 1, j - 1 + p.len()) != p);
                        }
                    }
                },
            }
        } else {
            assert forall|j: int| 0 <= j && j + p.len() <= s.len() implies #[trigger] s.subrange(
                j,
                j + p.len(),
            ) != p by {}
        }
    }
}

/// The first occurrence is replaced, what stands before it stays, and what follows is treated in
/// the same way; a text without an occurrence stays.
pub proof fn law_replacing(s: Seq<char>, p: Seq<char>, q: Seq<char>)
    requires
        p.len() > 0,
    ensures
        match text::find_text(s, p) {
            Some(i) => text::replace(s, p, q) == s.take(i) + q + text::replace(
                s.skip(i + p.len()),
                p,
                q,
            ),
            None => text::replace(s, p, q) == s,
        },
{
    text::lemma_find_text(s, p);
}

/// Replacing one character by another changes that character everywhere and nothing else.
pub proof fn law_replacing_a_character(s: Seq<char>, a: char, b: char)
    requires
        a != b,
    ensures
        text::replace(s, seq![a], seq![b]).len() == s.len(),
        forall|i: int|
            0 <= i < s.len() ==> #[trigger] text::replace(s, seq![a], seq![b])[i] == if s[i] == a {
                b
            } else {
                s[i]
            },
    decreases s.len(),
{
    let p = seq![a];
    let q = seq![b];
    let r = text::replace(s, p, q);
    law_first_occurrence(s, p);
    law_replacing(s, p, q);
    match text::find_text(s, p) {
        Some(i) => {
            let rest = s.skip(i + 1);
            law_replacing_a_character(rest, a, b);
            assert(s.subrange(i, i + 1)[0] == s[i]);
            assert(p[0] == a);
            assert forall|j: int| 0 <= j < i implies s[j] != a by {
                if s[j] == a {
                    assert(s.subrange(j, j + 1) == p);
                }
            }
            assert forall|j: int| 0 <= j < s.len() implies #[trigger] r[j] == if s[j] == a {
                b
            } else {
                s[j]
            } by {
                if j > i {
                    assert(rest[j - i - 1] == s[j]);
                    assert(r[j] == text::replace(rest, p, q)[j - i - 1]);
                }
            }
        },
        None => {
            assert forall|j: int| 0 <= j < s.len() implies s[j] != a by {
                if s[j] == a {
                    assert(s.subrange(j, j + 1) == p);
                }
            }
        },
    }
}

/// A text is read from its UTF-8 encoding as it was.
pub proof fn law_encoded_texts_are_read_back(s: Seq<char>)
    ensures
        text::utf8_text(vstd::utf8::encode_utf8(s)) == s,
{
    text::lemma_utf8_text(s);
}

} // verus!
