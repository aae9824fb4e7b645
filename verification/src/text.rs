//! Text on character sequences: numbers, white space, splitting, searching and replacing.
//!
//! Text is modelled as `Seq<char>`. Executable code reads it from a `&str` into a vector of
//! characters once and then works on slices of that vector.

use vstd::prelude::*;

verus! {

/// `String::push` appends one character to the end of the string.
pub assume_specification[ String::push ](s: &mut String, c: char)
    ensures
        final(s)@ == old(s)@.push(c),
;

/// What `String::from_utf8_lossy` makes of bytes that are not valid UTF-8.
pub uninterp spec fn lossy_text(bytes: Seq<u8>) -> Seq<char>;

/// The text that bytes are read as: what they encode where they are valid UTF-8.
pub open spec fn utf8_text(bytes: Seq<u8>) -> Seq<char> {
    if vstd::utf8::valid_utf8(bytes) {
        vstd::utf8::decode_utf8(bytes)
    } else {
        lossy_text(bytes)
    }
}

/// `String::from_utf8_lossy`, made owned. On valid UTF-8 the text is the one that the bytes encode;
/// on anything else it is some text that depends on the bytes alone (the replacement characters
/// that stand for the malformed parts are not spelled out here).
#[verifier::external_body]
pub(crate) fn text_from_utf8_lossy(bytes: &[u8]) -> (r: String)
    ensures
        r@ == (if vstd::utf8::valid_utf8(bytes@) {
            vstd::utf8::decode_utf8(bytes@)
        } else {
            lossy_text(bytes@)
        }),
{
    String::from_utf8_lossy(bytes).into_owned()
}

// ── characters and strings ──

/// The characters of `s`, in order.
pub fn chars_of(s: &str) -> (r: Vec<char>)
    ensures
        r@ == s@,
{
    let mut out: Vec<char> = Vec::new();
    for c in it: s.chars()
        invariant
            it.seq() == s@,
            out@ == s@.take(it.index() as int),
    {
        out.push(c);
    }
    out
}

/// Appends the characters of `s` to `out`.
pub fn push_chars(out: &mut String, s: &[char])
    ensures
        final(out)@ == old(out)@ + s@,
{
    for i in 0..s.len()
        invariant
            out@ == old(out)@ + s@.take(i as int),
    {
        out.push(s[i]);
        assert(s@.take(i + 1) == s@.take(i as int).push(s@[i as int]));
    }
    assert(s@.take(s@.len() as int) == s@);
}

/// The string made of the characters of `s`.
pub fn text_of(s: &[char]) -> (r: String)
    ensures
        r@ == s@,
{
    let mut out = String::new();
    push_chars(&mut out, s);
    out
}

/// Whether two character slices hold the same text.
pub fn same_chars(a: &[char], b: &[char]) -> (r: bool)
    ensures
        r == (a@ == b@),
{
    if a.len() != b.len() {
        return false;
    }
    for i in 0..a.len()
        invariant
            a@.len() == b@.len(),
            a@.take(i as int) == b@.take(i as int),
    {
        if a[i] != b[i] {
            return false;
        }
        assert(a@.take(i + 1) == a@.take(i as int).push(a@[i as int]));
        assert(b@.take(i + 1) == b@.take(i as int).push(b@[i as int]));
    }
    assert(a@.take(a@.len() as int) == a@);
    assert(b@.take(b@.len() as int) == b@);
    true
}

/// Whether `s` holds exactly the text of `t`.
pub fn is_text(s: &[char], t: &str) -> (r: bool)
    ensures
        r == (s@ == t@),
{
    let t = chars_of(t);
    same_chars(s, t.as_slice())
}

/// The texts that a list of character slices holds.
pub open spec fn views(v: Seq<&[char]>) -> Seq<Seq<char>> {
    Seq::new(v.len(), |i: int| v[i]@)
}

// ── UTF-8 ──

/// The encoding of a concatenation is the concatenation of the encodings.
pub proof fn lemma_encode_add(a: Seq<char>, b: Seq<char>)
    ensures
        vstd::utf8::encode_utf8(a + b) == vstd::utf8::encode_utf8(a) + vstd::utf8::encode_utf8(b),
    decreases a.len(),
{
    if a.len() == 0 {
        assert(a + b == b);
        assert(vstd::utf8::encode_utf8(a) + vstd::utf8::encode_utf8(b) == vstd::utf8::encode_utf8(b));
    } else {
        assert((a + b).drop_first() == a.drop_first() + b);
        lemma_encode_add(a.drop_first(), b);
        assert(vstd::utf8::encode_utf8(a + b) == vstd::utf8::encode_scalar(a[0] as u32)
            + vstd::utf8::encode_utf8(a.drop_first() + b));
    }
}

/// Bytes that end in an encoded text, followed by another one, end in the longer text encoded.
pub proof fn lemma_append_encoded(base: Seq<u8>, a: Seq<char>, b: Seq<char>)
    ensures
        (base + vstd::utf8::encode_utf8(a)) + vstd::utf8::encode_utf8(b) == base
            + vstd::utf8::encode_utf8(a + b),
{
    lemma_encode_add(a, b);
    assert((base + vstd::utf8::encode_utf8(a)) + vstd::utf8::encode_utf8(b) =~= base + (
    vstd::utf8::encode_utf8(a) + vstd::utf8::encode_utf8(b)));
}

/// The encoding of one character.
pub proof fn lemma_encode_one(c: char)
    ensures
        vstd::utf8::encode_utf8(seq![c]) == vstd::utf8::encode_scalar(c as u32),
{
    reveal_with_fuel(vstd::utf8::encode_utf8, 2);
    assert(seq![c].drop_first() == Seq::<char>::empty());
    assert(vstd::utf8::encode_utf8(seq![c]) == vstd::utf8::encode_scalar(c as u32));
}

/// An encoded text is read as the text itself.
pub proof fn lemma_utf8_text(t: Seq<char>)
    ensures
        utf8_text(vstd::utf8::encode_utf8(t)) == t,
{
    vstd::utf8::encode_utf8_valid_utf8(t);
    vstd::utf8::encode_utf8_decode_utf8(t);
}

/// The encoding of an ASCII character is one byte.
pub proof fn lemma_encode_push_ascii(s: Seq<char>, c: char)
    requires
        c <= '\u{7f}',
    ensures
        vstd::utf8::encode_utf8(s.push(c)) == vstd::utf8::encode_utf8(s).push(c as u8),
{
    let v = c as u32;
    assert((v & 0x7F) as u8 == v as u8) by (bit_vector)
        requires
            v <= 0x7f,
    ;
    lemma_encode_one(c);
    lemma_encode_add(s, seq![c]);
    assert(s.push(c) == s + seq![c]);
    assert(vstd::utf8::encode_scalar(v) == seq![c as u8]);
    assert(vstd::utf8::encode_utf8(s) + seq![c as u8] == vstd::utf8::encode_utf8(s).push(c as u8));
}

// ── numerals ──

/// The digit for a value below sixteen.
pub open spec fn digit_char(d: nat) -> char {
    if d < 10 {
        ('0' as nat + d) as char
    } else {
        ('a' as nat + (d - 10) as nat) as char
    }
}

/// The numeral of `n` in base `base`, most significant digit first, with no leading zero.
pub open spec fn radix_text(n: nat, base: nat) -> Seq<char>
    decreases n,
{
    if base < 2 || n < base {
        seq![digit_char(n)]
    } else {
        proof {
            vstd::arithmetic::div_mod::lemma_div_decreases(n as int, base as int);
        }
        radix_text(n / base, base).push(digit_char(n % base))
    }
}

/// The decimal numeral of `n`.
pub open spec fn decimal(n: nat) -> Seq<char> {
    radix_text(n, 10)
}

/// Appends the decimal numeral of `n` to `out`.
pub fn push_decimal(out: &mut String, n: u64)
    ensures
        final(out)@ == old(out)@ + decimal(n as nat),
{
    push_long_decimal(out, n as u128);
}

/// Appends the decimal numeral of a number of up to 128 bits to `out`.
pub fn push_long_decimal(out: &mut String, n: u128)
    ensures
        final(out)@ == old(out)@ + decimal(n as nat),
{
    let mut rev: Vec<char> = Vec::new();
    let mut r: u128 = n;
    while r >= 10
        invariant
            decimal(n as nat) == decimal(r as nat) + rev@.reverse(),
        decreases r,
    {
        let d: u8 = (r % 10) as u8;
        let ghost before = rev@;
        rev.push((0x30u8 + d) as char);
        proof {
            assert(rev@.reverse() == seq![digit_char((r % 10) as nat)] + before.reverse());
        }
        r = r / 10;
    }
    let ghost before = rev@;
    rev.push((0x30u8 + r as u8) as char);
    proof {
        assert(rev@.reverse() == decimal(r as nat) + before.reverse());
    }
    let k = rev.len();
    for i in 0..k
        invariant
            k == rev@.len(),
            out@ == old(out)@ + rev@.reverse().take(i as int),
    {
        out.push(rev[k - 1 - i]);
        assert(rev@.reverse().take(i + 1) == rev@.reverse().take(i as int).push(rev@[k - 1 - i]));
    }
    assert(rev@.reverse().take(k as int) == rev@.reverse());
}

/// Whether `c` is an ASCII decimal digit.
pub open spec fn is_digit(c: char) -> bool {
    '0' <= c && c <= '9'
}

/// Whether every character is an ASCII decimal digit.
pub open spec fn all_digits(s: Seq<char>) -> bool {
    forall|i: int| 0 <= i < s.len() ==> is_digit(#[trigger] s[i])
}

/// The number that a string of decimal digits denotes.
pub open spec fn digits_value(s: Seq<char>) -> nat
    decreases s.len(),
{
    if s.len() == 0 {
        0
    } else {
        digits_value(s.drop_last()) * 10 + (s.last() as nat - '0' as nat) as nat
    }
}

/// The unsigned number that `s` denotes: an optional `+`, then one or more decimal digits with a
/// value of at most `max`.
pub open spec fn uint_value(s: Seq<char>, max: nat) -> Option<nat> {
    let d = if s.len() > 0 && s[0] == '+' { s.drop_first() } else { s };
    if d.len() > 0 && all_digits(d) && digits_value(d) <= max {
        Some(digits_value(d))
    } else {
        None
    }
}

proof fn lemma_digits_prefix(d: Seq<char>, k: int)
    requires
        0 <= k <= d.len(),
    ensures
        digits_value(d.take(k)) <= digits_value(d),
    decreases d.len(),
{
    if k == d.len() {
        assert(d.take(k) == d);
    } else {
        lemma_digits_prefix(d.drop_last(), k);
        assert(d.drop_last().take(k) == d.take(k));
    }
}

/// Reads an unsigned number of at most `max`.
pub fn parse_uint(s: &[char], max: u64) -> (r: Option<u64>)
    ensures
        match r {
            Some(v) => uint_value(s@, max as nat) == Some(v as nat),
            None => uint_value(s@, max as nat) is None,
        },
{
    let n = s.len();
    let start: usize = if n > 0 && s[0] == '+' { 1 } else { 0 };
    let ghost d = s@.skip(start as int);
    proof {
        assert(d == if s@.len() > 0 && s@[0] == '+' { s@.drop_first() } else { s@ });
    }
    if start == n {
        return None;
    }
    let mut v: u64 = 0;
    let mut i: usize = start;
    while i < n
        invariant
            start <= i <= n,
            n == s@.len(),
            d == s@.skip(start as int),
            all_digits(d.take(i - start)),
            v == digits_value(d.take(i - start)),
            v <= max,
            d == if s@.len() > 0 && s@[0] == '+' { s@.drop_first() } else { s@ },
        decreases n - i,
    {
        let c = s[i];
        proof {
            assert(d[i - start] == c);
            assert(d.take(i + 1 - start).drop_last() == d.take(i - start));
        }
        if !(c >= '0' && c <= '9') {
            return None;
        }
        let x: u64 = c as u64 - '0' as u64;
        if x > max || v > (max - x) / 10 {
            proof {
                lemma_digits_prefix(d, i + 1 - start);
            }
            return None;
        }
        v = v * 10 + x;
        i = i + 1;
        proof {
            assert forall|j: int| 0 <= j < d.take(i - start).len() implies is_digit(
                #[trigger] d.take(i - start)[j],
            ) by {
                if j < i - start - 1 {
                    assert(d.take(i - 1 - start)[j] == d.take(i - start)[j]);
                }
            }
        }
    }
    assert(d.take(n - start) == d);
    Some(v)
}

// ── white space ──

/// Whether `c` has the Unicode property `White_Space`.
pub open spec fn is_space(c: char) -> bool {
    ||| '\u{9}' <= c && c <= '\u{d}'
    ||| c == ' '
    ||| c == '\u{85}'
    ||| c == '\u{a0}'
    ||| c == '\u{1680}'
    ||| '\u{2000}' <= c && c <= '\u{200a}'
    ||| c == '\u{2028}'
    ||| c == '\u{2029}'
    ||| c == '\u{202f}'
    ||| c == '\u{205f}'
    ||| c == '\u{3000}'
}

/// Whether `c` is white space.
pub fn space(c: char) -> (r: bool)
    ensures
        r == is_space(c),
{
    ('\u{9}' <= c && c <= '\u{d}') || c == ' ' || c == '\u{85}' || c == '\u{a0}' || c == '\u{1680}'
        || ('\u{2000}' <= c && c <= '\u{200a}') || c == '\u{2028}' || c == '\u{2029}'
        || c == '\u{202f}' || c == '\u{205f}' || c == '\u{3000}'
}

/// `s` without its leading white space.
pub open spec fn trim_start(s: Seq<char>) -> Seq<char>
    decreases s.len(),
{
    if s.len() > 0 && is_space(s[0]) {
        trim_start(s.drop_first())
    } else {
        s
    }
}

/// `s` without its trailing white space.
pub open spec fn trim_end(s: Seq<char>) -> Seq<char>
    decreases s.len(),
{
    if s.len() > 0 && is_space(s.last()) {
        trim_end(s.drop_last())
    } else {
        s
    }
}

/// `s` without the white space at either end.
pub open spec fn trim(s: Seq<char>) -> Seq<char> {
    trim_end(trim_start(s))
}

/// The slice without its leading white space.
pub fn trimmed_start(s: &[char]) -> (r: &[char])
    ensures
        r@ == trim_start(s@),
{
    let n = s.len();
    let mut a: usize = 0;
    proof {
        assert(s@.skip(0) == s@);
    }
    while a < n && space(s[a])
        invariant
            a <= n,
            n == s@.len(),
            trim_start(s@) == trim_start(s@.skip(a as int)),
        decreases n - a,
    {
        assert(s@.skip(a as int).drop_first() == s@.skip(a + 1));
        a = a + 1;
    }
    assert(s@.skip(a as int) == s@.subrange(a as int, n as int));
    &s[a..n]
}

/// The slice without its trailing white space.
pub fn trimmed_end(s: &[char]) -> (r: &[char])
    ensures
        r@ == trim_end(s@),
{
    let mut b: usize = s.len();
    proof {
        assert(s@.take(b as int) == s@);
    }
    while b > 0 && space(s[b - 1])
        invariant
            b <= s@.len(),
            trim_end(s@) == trim_end(s@.take(b as int)),
        decreases b,
    {
        assert(s@.take(b as int).drop_last() == s@.take(b - 1));
        b = b - 1;
    }
    assert(s@.take(b as int) == s@.subrange(0, b as int));
    &s[0..b]
}

/// The slice without the white space at either end.
pub fn trimmed(s: &[char]) -> (r: &[char])
    ensures
        r@ == trim(s@),
{
    trimmed_end(trimmed_start(s))
}

// ── searching ──

/// The index of the first `c` in `s`, or the length of `s` where there is none.
pub open spec fn find_char(s: Seq<char>, c: char) -> int
    decreases s.len(),
{
    if s.len() == 0 || s[0] == c {
        0int
    } else {
        1 + find_char(s.drop_first(), c)
    }
}

/// The index of the first white space in `s`, or the length of `s` where there is none.
pub open spec fn find_space(s: Seq<char>) -> int
    decreases s.len(),
{
    if s.len() == 0 || is_space(s[0]) {
        0
    } else {
        1 + find_space(s.drop_first())
    }
}

/// `find_char` is where the first `c` stands.
pub proof fn lemma_find_char(s: Seq<char>, c: char)
    ensures
        0 <= find_char(s, c) <= s.len(),
        find_char(s, c) < s.len() ==> s[find_char(s, c)] == c,
        forall|i: int| 0 <= i < find_char(s, c) ==> s[i] != c,
    decreases s.len(),
{
    if s.len() > 0 && s[0] != c {
        lemma_find_char(s.drop_first(), c);
        assert forall|i: int| 0 <= i < find_char(s, c) implies s[i] != c by {
            if i > 0 {
                assert(s[i] == s.drop_first()[i - 1]);
            }
        }
    }
}

/// The only index that fits the description of `find_char` is `find_char`.
pub proof fn lemma_find_char_is(s: Seq<char>, c: char, k: int)
    requires
        0 <= k <= s.len(),
        k < s.len() ==> s[k] == c,
        forall|i: int| 0 <= i < k ==> s[i] != c,
    ensures
        find_char(s, c) == k,
{
    lemma_find_char(s, c);
}

/// `find_space` is where the first white space stands.
pub proof fn lemma_find_space(s: Seq<char>)
    ensures
        0 <= find_space(s) <= s.len(),
        find_space(s) < s.len() ==> is_space(s[find_space(s)]),
        forall|i: int| 0 <= i < find_space(s) ==> !is_space(#[trigger] s[i]),
    decreases s.len(),
{
    if s.len() > 0 && !is_space(s[0]) {
        lemma_find_space(s.drop_first());
        assert forall|i: int| 0 <= i < find_space(s) implies !is_space(#[trigger] s[i]) by {
            if i > 0 {
                assert(s[i] == s.drop_first()[i - 1]);
            }
        }
    }
}

/// The only index that fits the description of `find_space` is `find_space`.
pub proof fn lemma_find_space_is(s: Seq<char>, k: int)
    requires
        0 <= k <= s.len(),
        k < s.len() ==> is_space(s[k]),
        forall|i: int| 0 <= i < k ==> !is_space(#[trigger] s[i]),
    ensures
        find_space(s) == k,
{
    lemma_find_space(s);
    if find_space(s) < k {
        assert(is_space(s[find_space(s)]));
    }
}

/// The index of the first `c` at or after `from`, or the length of `s`.
pub fn find_from(s: &[char], from: usize, c: char) -> (r: usize)
    requires
        from <= s@.len(),
    ensures
        from <= r <= s@.len(),
        r - from == find_char(s@.skip(from as int), c),
{
    let mut i: usize = from;
    while i < s.len() && s[i] != c
        invariant
            from <= i <= s@.len(),
            forall|j: int| 0 <= j < i - from ==> s@.skip(from as int)[j] != c,
        decreases s@.len() - i,
    {
        i = i + 1;
    }
    proof {
        lemma_find_char_is(s@.skip(from as int), c, i - from);
    }
    i
}

/// The index of the first white space at or after `from`, or the length of `s`.
pub fn find_space_from(s: &[char], from: usize) -> (r: usize)
    requires
        from <= s@.len(),
    ensures
        from <= r <= s@.len(),
        r - from == find_space(s@.skip(from as int)),
{
    let mut i: usize = from;
    while i < s.len() && !space(s[i])
        invariant
            from <= i <= s@.len(),
            forall|j: int| 0 <= j < i - from ==> !is_space(#[trigger] s@.skip(from as int)[j]),
        decreases s@.len() - i,
    {
        i = i + 1;
    }
    proof {
        lemma_find_space_is(s@.skip(from as int), i - from);
    }
    i
}

/// The index at which `p` first occurs in `s`.
pub open spec fn find_text(s: Seq<char>, p: Seq<char>) -> Option<int>
    decreases s.len(),
{
    if p.is_prefix_of(s) {
        Some(0int)
    } else if s.len() == 0 {
        None
    } else {
        match find_text(s.drop_first(), p) {
            Some(i) => Some(i + 1),
            None => None,
        }
    }
}

/// Where `find_text` finds something, it stands there.
pub proof fn lemma_find_text(s: Seq<char>, p: Seq<char>)
    ensures
        match find_text(s, p) {
            Some(i) => 0 <= i && i + p.len() <= s.len() && s.subrange(i, i + p.len()) == p,
            None => true,
        },
    decreases s.len(),
{
    if p.is_prefix_of(s) {
        assert(s.subrange(0, p.len() as int) == p);
    } else if s.len() > 0 {
        lemma_find_text(s.drop_first(), p);
        match find_text(s.drop_first(), p) {
            Some(i) => {
                assert(s.subrange(i + 1, i + 1 + p.len()) == s.drop_first().subrange(
                    i,
                    i + p.len(),
                ));
            },
            None => {},
        }
    }
}

/// Whether `s` begins with `p`.
pub fn starts_with_chars(s: &[char], p: &[char]) -> (r: bool)
    ensures
        r == p@.is_prefix_of(s@),
{
    if p.len() > s.len() {
        return false;
    }
    assert(p@.is_prefix_of(s@) <==> s@.subrange(0, p@.len() as int) == p@);
    same_chars(&s[0..p.len()], p)
}

/// Whether `s` begins with the text of `p`.
pub fn starts_with(s: &[char], p: &str) -> (r: bool)
    ensures
        r == p@.is_prefix_of(s@),
{
    let p = chars_of(p);
    starts_with_chars(s, p.as_slice())
}

/// The index at or after `from` at which `p` first occurs.
pub fn find_text_from(s: &[char], from: usize, p: &[char]) -> (r: Option<usize>)
    requires
        from <= s@.len(),
    ensures
        match r {
            Some(i) => from <= i && i + p@.len() <= s@.len() && find_text(s@.skip(from as int), p@)
                == Some(i - from),
            None => find_text(s@.skip(from as int), p@) is None,
        },
{
    let n = s.len();
    let mut i: usize = from;
    loop
        invariant
            from <= i <= n,
            n == s@.len(),
            match find_text(s@.skip(i as int), p@) {
                Some(k) => find_text(s@.skip(from as int), p@) == Some(k + (i - from)),
                None => find_text(s@.skip(from as int), p@) is None,
            },
        decreases n - i,
    {
        assert(s@.skip(i as int) == s@.subrange(i as int, n as int));
        if starts_with_chars(&s[i..n], p) {
            proof {
                lemma_find_text(s@.skip(i as int), p@);
            }
            return Some(i);
        }
        if i == n {
            return None;
        }
        assert(s@.skip(i as int).drop_first() == s@.skip(i + 1));
        i = i + 1;
    }
}

/// `s` with every occurrence of `p`, taken from the left without overlap, replaced by `q`.
pub open spec fn replace(s: Seq<char>, p: Seq<char>, q: Seq<char>) -> Seq<char>
    decreases s.len(),
{
    match find_text(s, p) {
        Some(i) => if 0 <= i && 0 < p.len() && i + p.len() <= s.len() {
            s.take(i) + q + replace(s.skip(i + p.len()), p, q)
        } else {
            s
        },
        None => s,
    }
}

/// Replaces every occurrence of `p` by `q`.
pub fn replaced(s: &[char], p: &[char], q: &[char]) -> (r: Vec<char>)
    requires
        p@.len() > 0,
    ensures
        r@ == replace(s@, p@, q@),
{
    let n = s.len();
    let mut out: Vec<char> = Vec::new();
    let mut at: usize = 0;
    assert(s@.skip(0) == s@);
    loop
        invariant
            at <= n,
            n == s@.len(),
            p@.len() > 0,
            replace(s@, p@, q@) == out@ + replace(s@.skip(at as int), p@, q@),
        decreases n - at,
    {
        let ghost rest = s@.skip(at as int);
        match find_text_from(s, at, p) {
            Some(i) => {
                let ghost before = out@;
                extend_chars(&mut out, &s[at..i]);
                extend_chars(&mut out, q);
                proof {
                    assert(s@.subrange(at as int, i as int) == rest.take(i - at));
                    assert(rest.skip(i - at + p@.len()) == s@.skip(i + p@.len()));
                    assert(before + replace(rest, p@, q@) == out@ + replace(
                        s@.skip(i + p@.len()),
                        p@,
                        q@,
                    ));
                }
                at = i + p.len();
            },
            None => {
                assert(s@.subrange(at as int, n as int) == rest);
                extend_chars(&mut out, &s[at..n]);
                return out;
            },
        }
    }
}

/// Appends the characters of `s` to `out`.
pub fn extend_chars(out: &mut Vec<char>, s: &[char])
    ensures
        final(out)@ == old(out)@ + s@,
{
    for i in 0..s.len()
        invariant
            out@ == old(out)@ + s@.take(i as int),
    {
        out.push(s[i]);
        assert(s@.take(i + 1) == s@.take(i as int).push(s@[i as int]));
    }
    assert(s@.take(s@.len() as int) == s@);
}

// ── splitting ──

/// The pieces of `s` between the separators `sep`: one more than there are separators.
pub open spec fn split(s: Seq<char>, sep: char) -> Seq<Seq<char>>
    decreases s.len(),
{
    let k = find_char(s, sep);
    if 0 <= k < s.len() {
        seq![s.take(k)] + split(s.skip(k + 1), sep)
    } else {
        seq![s]
    }
}

/// Splits at every `sep`.
pub fn split_at_char<'a>(s: &'a [char], sep: char) -> (r: Vec<&'a [char]>)
    ensures
        views(r@) == split(s@, sep),
{
    let n = s.len();
    let mut out: Vec<&'a [char]> = Vec::new();
    let mut at: usize = 0;
    assert(s@.skip(0) == s@);
    assert(views(out@) == Seq::<Seq<char>>::empty());
    loop
        invariant
            at <= n,
            n == s@.len(),
            split(s@, sep) == views(out@) + split(s@.skip(at as int), sep),
        decreases n - at,
    {
        let k = find_from(s, at, sep);
        let ghost before = out@;
        let ghost rest = s@.skip(at as int);
        out.push(&s[at..k]);
        proof {
            assert(s@.subrange(at as int, k as int) == rest.take(k - at));
            assert(views(out@) == views(before).push(rest.take(k - at)));
        }
        if k == n {
            assert(rest.take(k - at) == rest);
            return out;
        }
        proof {
            assert(rest.skip(k - at + 1) == s@.skip(k + 1));
            assert(views(before) + split(rest, sep) == views(out@) + split(s@.skip(k + 1), sep));
        }
        at = k + 1;
    }
}

/// What stands before and after the first `sep`.
pub open spec fn split_once(s: Seq<char>, sep: char) -> Option<(Seq<char>, Seq<char>)> {
    let k = find_char(s, sep);
    if k < s.len() {
        Some((s.take(k), s.skip(k + 1)))
    } else {
        None
    }
}

/// Splits at the first `sep`.
pub fn split_once_at<'a>(s: &'a [char], sep: char) -> (r: Option<(&'a [char], &'a [char])>)
    ensures
        match r {
            Some((a, b)) => split_once(s@, sep) == Some((a@, b@)),
            None => split_once(s@, sep) is None,
        },
{
    let n = s.len();
    assert(s@.skip(0) == s@);
    let k = find_from(s, 0, sep);
    if k == n {
        return None;
    }
    assert(s@.subrange(0, k as int) == s@.take(k as int));
    assert(s@.subrange(k + 1, n as int) == s@.skip(k + 1));
    Some((&s[0..k], &s[k + 1..n]))
}

/// The lines of `s`: what stands before each line feed, without a carriage return directly before
/// it, and what stands after the last line feed, if that is anything.
pub open spec fn lines(s: Seq<char>) -> Seq<Seq<char>>
    decreases s.len(),
{
    let k = find_char(s, '\n');
    if s.len() == 0 {
        seq![]
    } else if 0 <= k < s.len() {
        seq![strip_cr(s.take(k))] + lines(s.skip(k + 1))
    } else {
        seq![s]
    }
}

/// `s` without a carriage return at its end.
pub open spec fn strip_cr(s: Seq<char>) -> Seq<char> {
    if s.len() > 0 && s.last() == '\r' {
        s.drop_last()
    } else {
        s
    }
}

/// Splits into lines.
pub fn lines_of<'a>(s: &'a [char]) -> (r: Vec<&'a [char]>)
    ensures
        views(r@) == lines(s@),
{
    let n = s.len();
    let mut out: Vec<&'a [char]> = Vec::new();
    let mut at: usize = 0;
    assert(s@.skip(0) == s@);
    assert(views(out@) == Seq::<Seq<char>>::empty());
    while at < n
        invariant
            at <= n,
            n == s@.len(),
            lines(s@) == views(out@) + lines(s@.skip(at as int)),
        decreases n - at,
    {
        let k = find_from(s, at, '\n');
        let ghost before = out@;
        let ghost rest = s@.skip(at as int);
        proof {
            assert(s@.subrange(at as int, k as int) == rest.take(k - at));
        }
        if k == n {
            out.push(&s[at..k]);
            proof {
                assert(rest.take(k - at) == rest);
                assert(views(out@) == views(before).push(rest));
            }
            return out;
        }
        let end: usize = if k > at && s[k - 1] == '\r' { k - 1 } else { k };
        out.push(&s[at..end]);
        proof {
            assert(s@.subrange(at as int, end as int) == strip_cr(rest.take(k - at)));
            assert(views(out@) == views(before).push(strip_cr(rest.take(k - at))));
            assert(rest.skip(k - at + 1) == s@.skip(k + 1));
            assert(views(before) + lines(rest) == views(out@) + lines(s@.skip(k + 1)));
        }
        at = k + 1;
    }
    assert(s@.skip(at as int) == Seq::<char>::empty());
    out
}

/// The maximal runs of characters that are not white space.
pub open spec fn words(s: Seq<char>) -> Seq<Seq<char>>
    decreases s.len(),
{
    if s.len() == 0 {
        seq![]
    } else if is_space(s[0]) {
        words(s.drop_first())
    } else {
        let k = find_space(s);
        if 0 < k && k <= s.len() {
            seq![s.take(k)] + words(s.skip(k))
        } else {
            seq![]
        }
    }
}

/// Splits into words.
pub fn words_of<'a>(s: &'a [char]) -> (r: Vec<&'a [char]>)
    ensures
        views(r@) == words(s@),
{
    let n = s.len();
    let mut out: Vec<&'a [char]> = Vec::new();
    let mut at: usize = 0;
    assert(s@.skip(0) == s@);
    assert(views(out@) == Seq::<Seq<char>>::empty());
    while at < n
        invariant
            at <= n,
            n == s@.len(),
            words(s@) == views(out@) + words(s@.skip(at as int)),
        decreases n - at,
    {
        let ghost rest = s@.skip(at as int);
        if space(s[at]) {
            assert(rest.drop_first() == s@.skip(at + 1));
            at = at + 1;
        } else {
            let k = find_space_from(s, at);
            let ghost before = out@;
            out.push(&s[at..k]);
            proof {
                lemma_find_space(rest);
                assert(!is_space(rest[0]));
                assert(s@.subrange(at as int, k as int) == rest.take(k - at));
                assert(views(out@) == views(before).push(rest.take(k - at)));
                assert(rest.skip(k - at) == s@.skip(k as int));
                assert(views(before) + words(rest) == views(out@) + words(s@.skip(k as int)));
            }
            at = k;
        }
    }
    assert(s@.skip(at as int) == Seq::<char>::empty());
    out
}

} // verus!
