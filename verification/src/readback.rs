//! What is written can be read back: laws that tie the writers to the readers.

use crate::arena;
use crate::arena::NodeView;
use crate::cache;
use crate::escape;
use crate::hash;
use crate::import;
use crate::import::{Kind, LineView};
use crate::json;
use crate::text;
use vstd::prelude::*;

verus! {

// ── numerals ──

/// Whether no character is white space.
pub open spec fn solid(s: Seq<char>) -> bool {
    forall|i: int| 0 <= i < s.len() ==> !text::is_space(#[trigger] s[i])
}

pub(crate) proof fn lemma_digit_char(d: nat)
    requires
        d < 16,
    ensures
        !text::is_space(text::digit_char(d)),
        d < 10 ==> text::is_digit(text::digit_char(d)) && text::digit_char(d) as nat - '0' as nat
            == d,
{
}

pub(crate) proof fn lemma_radix_solid(n: nat, base: nat)
    requires
        2 <= base <= 16,
    ensures
        text::radix_text(n, base).len() > 0,
        solid(text::radix_text(n, base)),
    decreases n,
{
    if n < base {
        lemma_digit_char(n);
    } else {
        vstd::arithmetic::div_mod::lemma_div_decreases(n as int, base as int);
        vstd::arithmetic::div_mod::lemma_mod_bound(n as int, base as int);
        lemma_radix_solid(n / base, base);
        lemma_digit_char(n % base);
    }
}

/// A decimal numeral is made of digits and denotes its number.
pub proof fn law_decimal_reads_back(n: nat)
    ensures
        text::decimal(n).len() > 0,
        text::all_digits(text::decimal(n)),
        text::digits_value(text::decimal(n)) == n,
    decreases n,
{
    if n < 10 {
        lemma_digit_char(n);
        let s = text::decimal(n);
        assert(s.drop_last() == Seq::<char>::empty());
        assert(text::digits_value(s.drop_last()) == 0);
    } else {
        vstd::arithmetic::div_mod::lemma_div_decreases(n as int, 10);
        law_decimal_reads_back(n / 10);
        lemma_digit_char(n % 10);
        let s = text::decimal(n);
        assert(s.drop_last() == text::decimal(n / 10));
        assert forall|i: int| 0 <= i < s.len() implies text::is_digit(#[trigger] s[i]) by {
            if i < s.len() - 1 {
                assert(s[i] == text::decimal(n / 10)[i]);
            }
        }
    }
}

pub(crate) proof fn lemma_number_of_decimal(n: nat)
    requires
        n <= u64::MAX,
    ensures
        import::number_or_zero(text::decimal(n)) == n,
{
    law_decimal_reads_back(n);
    assert(text::is_digit(text::decimal(n)[0]));
}

/// A size in plain digits denotes itself.
pub proof fn law_cache_size_reads_back(n: nat)
    requires
        n <= u64::MAX,
    ensures
        import::cache_value(text::decimal(n)) == n,
{
    let s = text::decimal(n);
    law_decimal_reads_back(n);
    lemma_radix_solid(n, 10);
    lemma_number_of_decimal(n);
    assert(!text::is_space(s[0]));
    assert(!text::is_space(s[s.len() - 1]));
    assert(text::is_digit(s[s.len() - 1]));
}

// ── words and lines ──

pub(crate) proof fn lemma_words_first(w: Seq<char>, rest: Seq<char>)
    requires
        w.len() > 0,
        solid(w),
        rest.len() > 0 ==> text::is_space(rest[0]),
    ensures
        text::words(w + rest) == seq![w] + text::words(rest),
{
    let s = w + rest;
    assert forall|i: int| 0 <= i < w.len() implies !text::is_space(#[trigger] s[i]) by {
        assert(s[i] == w[i]);
    }
    text::lemma_find_space_is(s, w.len() as int);
    assert(s.take(w.len() as int) == w);
    assert(s.skip(w.len() as int) == rest);
    assert(!text::is_space(s[0]));
}

pub(crate) proof fn lemma_words_skip(c: char, rest: Seq<char>)
    requires
        text::is_space(c),
    ensures
        text::words(seq![c] + rest) == text::words(rest),
{
    assert((seq![c] + rest).drop_first() == rest);
}

pub(crate) proof fn lemma_lines_first(l: Seq<char>, rest: Seq<char>)
    requires
        !l.contains('\n'),
        l.len() > 0 ==> l.last() != '\r',
    ensures
        text::lines(l + seq!['\n'] + rest) == seq![l] + text::lines(rest),
{
    let s = l + seq!['\n'] + rest;
    assert forall|i: int| 0 <= i < l.len() implies s[i] != '\n' by {
        assert(l.contains(l[i]));
    }
    text::lemma_find_char_is(s, '\n', l.len() as int);
    assert(s.take(l.len() as int) == l);
    assert(s.skip(l.len() as int + 1) == rest);
}

proof fn lemma_said_add(a: Seq<Seq<char>>, b: Seq<Seq<char>>)
    ensures
        import::said(a + b) == import::said(a) + import::said(b),
    decreases b.len(),
{
    if b.len() == 0 {
        assert(a + b == a);
        assert(import::said(a) + import::said(b) == import::said(a));
    } else {
        lemma_said_add(a, b.drop_last());
        assert((a + b).drop_last() == a + b.drop_last());
        assert((a + b).last() == b.last());
        assert(import::said(a + b) == import::said(a) + import::said(b));
    }
}

/// What a text says, line by line.
#[verifier::opaque]
pub open spec fn reads(s: Seq<char>) -> Seq<LineView> {
    import::said(text::lines(s))
}

proof fn lemma_reads_first(l: Seq<char>, rest: Seq<char>)
    requires
        !l.contains('\n'),
        l.len() > 0 ==> l.last() != '\r',
    ensures
        reads(l + seq!['\n'] + rest) == match import::line_of(l) {
            Some(v) => seq![v] + reads(rest),
            None => reads(rest),
        },
{
    reveal(reads);
    lemma_lines_first(l, rest);
    lemma_said_add(seq![l], text::lines(rest));
    assert(seq![l].drop_last() == Seq::<Seq<char>>::empty());
    assert(seq![l].last() == l);
    assert(import::said(seq![l].drop_last()) == Seq::<LineView>::empty());
    match import::line_of(l) {
        Some(v) => {
            assert(import::said(seq![l]) == seq![v]);
        },
        None => {
            assert(import::said(seq![l]) == Seq::<LineView>::empty());
            assert(Seq::<LineView>::empty() + reads(rest) == reads(rest));
        },
    }
}

pub(crate) proof fn lemma_trim_solid_ends(s: Seq<char>)
    requires
        s.len() > 0,
        !text::is_space(s[0]),
        !text::is_space(s.last()),
    ensures
        text::trim(s) == s,
{
}

proof fn lemma_trim_end_keeps_first(s: Seq<char>)
    requires
        s.len() > 0,
        !text::is_space(s[0]),
    ensures
        text::trim_end(s).len() > 0,
        text::trim_end(s)[0] == s[0],
    decreases s.len(),
{
    if text::is_space(s.last()) {
        lemma_trim_end_keeps_first(s.drop_last());
    }
}

proof fn lemma_remark(l: Seq<char>)
    requires
        l.len() > 0,
        l[0] == '#' || l[0] == '[',
    ensures
        import::line_of(l) is None,
{
    lemma_trim_end_keeps_first(l);
}

// ── lines of a cache file ──

/// A name that can be read back from a cache file: it is not empty, and no character in it is white
/// space beyond those that are escaped.
pub open spec fn readable(name: Seq<char>) -> bool {
    &&& name.len() > 0
    &&& forall|i: int| 0 <= i < name.len() ==> name[i] <= ' ' || !text::is_space(#[trigger] name[i])
}

proof fn lemma_cache_char_solid(c: char)
    requires
        c <= ' ' || !text::is_space(c),
    ensures
        escape::cache_char(c).len() > 0,
        solid(escape::cache_char(c)),
{
    if c <= ' ' || c == '%' {
        let s = escape::cache_char(c);
        assert(c as nat / 16 < 16);
        assert forall|i: int| 0 <= i < s.len() implies !text::is_space(#[trigger] s[i]) by {}
    }
}

proof fn lemma_escaped_solid(name: Seq<char>)
    requires
        forall|i: int|
            0 <= i < name.len() ==> name[i] <= ' ' || !text::is_space(#[trigger] name[i]),
    ensures
        solid(escape::cache_escaped(name)),
        name.len() > 0 ==> escape::cache_escaped(name).len() > 0,
    decreases name.len(),
{
    if name.len() > 0 {
        let front = name.drop_last();
        assert forall|i: int| 0 <= i < front.len() implies front[i] <= ' ' || !text::is_space(
            #[trigger] front[i],
        ) by {
            assert(front[i] == name[i]);
        }
        lemma_escaped_solid(front);
        assert(name[name.len() - 1] <= ' ' || !text::is_space(name[name.len() - 1]));
        lemma_cache_char_solid(name.last());
    }
}

/// Whether there is no line feed in the text, and it ends in something that is not white space.
spec fn ends_well(s: Seq<char>) -> bool {
    s.len() > 0 && !s.contains('\n') && !text::is_space(s.last())
}

proof fn lemma_solid_ends_well(s: Seq<char>)
    requires
        s.len() > 0,
        solid(s),
    ensures
        ends_well(s),
{
    if s.contains('\n') {
        let i = choose|i: int| 0 <= i < s.len() && s[i] == '\n';
        assert(!text::is_space(s[i]));
    }
    assert(!text::is_space(s[s.len() - 1]));
}

proof fn lemma_ends_well_add(a: Seq<char>, b: Seq<char>)
    requires
        !a.contains('\n'),
        ends_well(b),
    ensures
        ends_well(a + b),
{
    let s = a + b;
    if s.contains('\n') {
        let i = choose|i: int| 0 <= i < s.len() && s[i] == '\n';
        if i < a.len() {
            assert(a.contains(a[i]));
        } else {
            assert(b[i - a.len()] == '\n');
            assert(b.contains(b[i - a.len()]));
        }
    }
    assert(s.last() == b.last());
}

proof fn lemma_tail_ends_well(n: NodeView)
    ensures
        ends_well(cache::tail(n)),
        cache::tail(n) == seq!['\t'] + (text::decimal(n.size as nat) + cache::tail(n).skip(
            1 + text::decimal(n.size as nat).len() as int,
        )),
        cache::tail(n).len() > 1 + text::decimal(n.size as nat).len(),
        cache::tail(n)[1 + text::decimal(n.size as nat).len() as int] == '\t',
{
    reveal_strlit("\t");
    reveal_strlit("\t0");
    reveal_strlit("\t0x");
    reveal_strlit("\tblocks: ");
    reveal_strlit("\tlinks: ");
    let size = text::decimal(n.size as nat);
    let a = "\t"@ + size;
    let b = a + "\t"@ + text::decimal(n.uid as nat);
    let c = b + "\t"@ + text::decimal(n.gid as nat);
    let d = c + "\t0"@ + text::radix_text((n.mode & 0o7777) as nat, 8);
    let hex = text::radix_text((n.mtime as u64) as nat, 16);
    let f = d + "\t0x"@ + hex;
    lemma_radix_solid(n.size as nat, 10);
    lemma_radix_solid(n.uid as nat, 10);
    lemma_radix_solid(n.gid as nat, 10);
    lemma_radix_solid((n.mode & 0o7777) as nat, 8);
    lemma_radix_solid((n.mtime as u64) as nat, 16);
    lemma_solid_ends_well(size);
    lemma_solid_ends_well(text::decimal(n.uid as nat));
    lemma_solid_ends_well(text::decimal(n.gid as nat));
    lemma_solid_ends_well(text::radix_text((n.mode & 0o7777) as nat, 8));
    lemma_solid_ends_well(hex);
    lemma_ends_well_add("\t"@, size);
    lemma_no_feed_add(a, "\t"@);
    lemma_ends_well_add(a + "\t"@, text::decimal(n.uid as nat));
    lemma_no_feed_add(b, "\t"@);
    lemma_ends_well_add(b + "\t"@, text::decimal(n.gid as nat));
    lemma_no_feed_add(c, "\t0"@);
    lemma_ends_well_add(c + "\t0"@, text::radix_text((n.mode & 0o7777) as nat, 8));
    lemma_no_feed_add(d, "\t0x"@);
    lemma_ends_well_add(d + "\t0x"@, hex);
    assert(f == cache::fixed_fields(n));
    let g = f + cache::blocks_field(n);
    if cache::is_sparse(n) {
        lemma_radix_solid(n.blocks as nat, 10);
        lemma_solid_ends_well(text::decimal(n.blocks as nat));
        lemma_no_feed_add(f, "\tblocks: "@);
        lemma_ends_well_add(f + "\tblocks: "@, text::decimal(n.blocks as nat));
        assert(g == f + "\tblocks: "@ + text::decimal(n.blocks as nat));
    } else {
        assert(g == f);
    }
    let h = g + cache::links_field(n);
    if !n.is_dir && n.nlink > 1 {
        lemma_radix_solid(n.nlink as nat, 10);
        lemma_solid_ends_well(text::decimal(n.nlink as nat));
        lemma_no_feed_add(g, "\tlinks: "@);
        lemma_ends_well_add(g + "\tlinks: "@, text::decimal(n.nlink as nat));
        assert(h == g + "\tlinks: "@ + text::decimal(n.nlink as nat));
    } else {
        assert(h == g);
    }
    assert(h == cache::tail(n));
    let k = 1 + size.len() as int;
    assert(h[0] == '\t');
    assert(h.subrange(1, k) == size);
    assert(h[k] == '\t');
    assert(h == seq!['\t'] + (size + h.skip(k)));
}

proof fn lemma_no_feed_add(a: Seq<char>, b: Seq<char>)
    requires
        !a.contains('\n'),
        !b.contains('\n'),
    ensures
        !(a + b).contains('\n'),
{
    let s = a + b;
    if s.contains('\n') {
        let i = choose|i: int| 0 <= i < s.len() && s[i] == '\n';
        if i < a.len() {
            assert(a.contains(a[i]));
        } else {
            assert(b.contains(b[i - a.len()]));
        }
    }
}

/// The line that is written for a name says the kind, the name and the size.
proof fn lemma_line(k: char, name: Seq<char>, n: NodeView)
    requires
        k == 'D' || k == 'F' || k == 'L',
        readable(name),
    ensures
        ({
            let l = seq![k, ' '] + escape::cache_escaped(name) + cache::tail(n);
            &&& !l.contains('\n')
            &&& l.len() > 0 && l.last() != '\r'
            &&& import::line_of(l) == Some(
                LineView { kind: import::kind_of(seq![k]), name: name, size: n.size as nat },
            )
        }),
{
    let esc = escape::cache_escaped(name);
    let size = text::decimal(n.size as nat);
    let tail = cache::tail(n);
    let rest = tail.skip(1 + size.len() as int);
    let l = seq![k, ' '] + esc + tail;
    lemma_escaped_solid(name);
    lemma_tail_ends_well(n);
    lemma_solid_ends_well(esc);
    lemma_no_feed_add(seq![k, ' '], esc);
    lemma_ends_well_add(seq![k, ' '] + esc, tail);
    assert(text::is_space('\r'));
    lemma_trim_solid_ends(l);
    lemma_radix_solid(n.size as nat, 10);
    assert(rest[0] == '\t');
    lemma_words_first(size, rest);
    lemma_words_skip('\t', size + rest);
    lemma_words_first(esc, tail);
    lemma_words_skip(' ', esc + tail);
    lemma_words_first(seq![k], seq![' '] + (esc + tail));
    assert(l == seq![k] + (seq![' '] + (esc + tail)));
    let w = text::words(l);
    assert(w == seq![seq![k]] + (seq![esc] + (seq![size] + text::words(rest))));
    assert(w[0] == seq![k] && w[1] == esc && w[2] == size);
    escape::law_cache_escape_reads_back(name);
    text::lemma_utf8_text(name);
    law_cache_size_reads_back(n.size as nat);
}

/// What the line of an entry says.
pub open spec fn file_says(n: NodeView) -> LineView {
    LineView {
        kind: if n.is_link {
            Kind::Link
        } else {
            Kind::Other
        },
        name: n.name,
        size: n.size as nat,
    }
}

/// What the line of a directory says.
pub open spec fn dir_says(n: NodeView, path: Seq<char>) -> LineView {
    LineView { kind: Kind::Dir, name: path, size: n.size as nat }
}

/// The line of an entry is read back: its kind, its name and its size.
pub proof fn law_file_line_reads_back(n: NodeView, rest: Seq<char>)
    requires
        readable(n.name),
    ensures
        reads(cache::file_line(n) + rest) == seq![file_says(n)] + reads(rest),
{
    reveal_strlit("L ");
    reveal_strlit("F ");
    reveal_strlit("\n");
    let k = if n.is_link {
        'L'
    } else {
        'F'
    };
    lemma_line(k, n.name, n);
    assert(seq![k][0] == k);
    assert(seq!['D'][0] == 'D' && seq!['d'][0] == 'd' && seq!['l'][0] == 'l');
    let l = seq![k, ' '] + escape::cache_escaped(n.name) + cache::tail(n);
    lemma_reads_first(l, rest);
    assert((if n.is_link {
        "L "@
    } else {
        "F "@
    }) == seq![k, ' ']);
    assert(cache::file_line(n) + rest == l + seq!['\n'] + rest);
}

/// The line of a directory is read back: its path and its size.
pub proof fn law_dir_line_reads_back(n: NodeView, path: Seq<char>, rest: Seq<char>)
    requires
        readable(path),
    ensures
        reads(cache::dir_line(n, path) + rest) == seq![dir_says(n, path)] + reads(rest),
{
    reveal_strlit("D ");
    reveal_strlit("\n");
    lemma_line('D', path, n);
    let l = seq!['D', ' '] + escape::cache_escaped(path) + cache::tail(n);
    lemma_reads_first(l, rest);
    assert("D "@ == seq!['D', ' ']);
    assert(cache::dir_line(n, path) + rest == l + seq!['\n'] + rest);
}

// ── whole cache files ──

/// What the lines of those of the first `k` ids that are not directories say.
pub open spec fn files_say(t: Seq<NodeView>, ids: Seq<usize>, k: int) -> Seq<LineView>
    decreases k,
{
    if k <= 0 {
        seq![]
    } else {
        let n = t[ids[k - 1] as int];
        files_say(t, ids, k - 1) + if n.is_dir {
            seq![]
        } else {
            seq![file_says(n)]
        }
    }
}

/// What the lines of directory `i` and of everything below it say.
pub open spec fn tree_says(t: Seq<NodeView>, i: int, path: Seq<char>) -> Seq<LineView>
    decreases t.len() - i, 1int, 0int,
{
    let ids = hash::children(arena::parents(t), i);
    seq![dir_says(t[i], path)] + files_say(t, ids, ids.len() as int) + dirs_say(
        t,
        i,
        path,
        ids.len() as int,
    )
}

/// What the lines of those of the first `k` children of `i` that are directories say.
pub open spec fn dirs_say(t: Seq<NodeView>, i: int, path: Seq<char>, k: int) -> Seq<LineView>
    decreases t.len() - i, 0int, k,
{
    let ids = hash::children(arena::parents(t), i);
    if k <= 0 || k > ids.len() {
        seq![]
    } else {
        let c = ids[k - 1] as int;
        dirs_say(t, i, path, k - 1) + if i < c < t.len() && t[c].is_dir {
            tree_says(t, c, cache::join(path, t[c].name))
        } else {
            seq![]
        }
    }
}

proof fn lemma_files_read_back(t: Seq<NodeView>, ids: Seq<usize>, k: int, rest: Seq<char>)
    requires
        0 <= k <= ids.len(),
        forall|j: int| 0 <= j < t.len() ==> readable((#[trigger] t[j]).name),
        forall|j: int| 0 <= j < ids.len() ==> #[trigger] ids[j] < t.len(),
    ensures
        reads(cache::file_lines(t, ids, k) + rest) == files_say(t, ids, k) + reads(rest),
    decreases k,
{
    if k == 0 {
        assert(cache::file_lines(t, ids, k) + rest == rest);
        assert(files_say(t, ids, k) + reads(rest) == reads(rest));
    } else {
        let n = t[ids[k - 1] as int];
        assert(readable(n.name));
        let front = cache::file_lines(t, ids, k - 1);
        if n.is_dir {
            lemma_files_read_back(t, ids, k - 1, rest);
            assert(cache::file_lines(t, ids, k) == front);
            assert(files_say(t, ids, k) == files_say(t, ids, k - 1));
        } else {
            lemma_files_read_back(t, ids, k - 1, cache::file_line(n) + rest);
            law_file_line_reads_back(n, rest);
            assert(cache::file_lines(t, ids, k) + rest == front + (cache::file_line(n) + rest));
            assert(files_say(t, ids, k) + reads(rest) == files_say(t, ids, k - 1) + (
            seq![file_says(n)] + reads(rest)));
        }
    }
}

proof fn lemma_join_readable(path: Seq<char>, name: Seq<char>)
    requires
        readable(path),
        readable(name),
    ensures
        readable(cache::join(path, name)),
{
    reveal_strlit("/");
    lemma_trim_slashes_prefix(path);
    let p = cache::trim_slashes(path);
    let s = cache::join(path, name);
    assert forall|i: int| 0 <= i < s.len() implies s[i] <= ' ' || !text::is_space(
        #[trigger] s[i],
    ) by {
        if i < p.len() {
            assert(s[i] == path[i]);
        } else if i > p.len() {
            assert(s[i] == name[i - p.len() - 1]);
        } else {
            assert(s[i] == '/');
        }
    }
}

proof fn lemma_trim_slashes_prefix(s: Seq<char>)
    ensures
        cache::trim_slashes(s).len() <= s.len(),
        forall|i: int|
            0 <= i < cache::trim_slashes(s).len() ==> #[trigger] cache::trim_slashes(s)[i] == s[i],
    decreases s.len(),
{
    if s.len() > 0 && s.last() == '/' {
        let front = s.drop_last();
        lemma_trim_slashes_prefix(front);
        assert forall|i: int| 0 <= i < cache::trim_slashes(s).len() implies #[trigger]
        cache::trim_slashes(s)[i] == s[i] by {
            assert(cache::trim_slashes(front)[i] == front[i]);
        }
    }
}

proof fn lemma_tree_reads_back(t: Seq<NodeView>, i: int, path: Seq<char>, rest: Seq<char>)
    requires
        arena::is_arena(t),
        t.len() <= usize::MAX,
        0 <= i < t.len(),
        readable(path),
        forall|j: int| 0 <= j < t.len() ==> readable((#[trigger] t[j]).name),
    ensures
        reads(cache::dir_text(t, i, path) + rest) == tree_says(t, i, path) + reads(rest),
    decreases t.len() - i, 1int, 0int,
{
    let ids = hash::children(arena::parents(t), i);
    let n = ids.len() as int;
    assert forall|j: int| 0 <= j < ids.len() implies #[trigger] ids[j] < t.len() by {
        cache::lemma_child_in_range(t, i, j);
    }
    let files = cache::file_lines(t, ids, n);
    let dirs = cache::dirs_text(t, i, path, n);
    lemma_dirs_read_back(t, i, path, n, rest);
    lemma_files_read_back(t, ids, n, dirs + rest);
    law_dir_line_reads_back(t[i], path, files + (dirs + rest));
    assert(cache::dir_text(t, i, path) + rest == cache::dir_line(t[i], path) + (files + (dirs
        + rest)));
    assert(tree_says(t, i, path) + reads(rest) == seq![dir_says(t[i], path)] + (files_say(t, ids, n)
        + (dirs_say(t, i, path, n) + reads(rest))));
}

proof fn lemma_dirs_read_back(t: Seq<NodeView>, i: int, path: Seq<char>, k: int, rest: Seq<char>)
    requires
        arena::is_arena(t),
        t.len() <= usize::MAX,
        0 <= i < t.len(),
        0 <= k <= hash::children(arena::parents(t), i).len(),
        readable(path),
        forall|j: int| 0 <= j < t.len() ==> readable((#[trigger] t[j]).name),
    ensures
        reads(cache::dirs_text(t, i, path, k) + rest) == dirs_say(t, i, path, k) + reads(rest),
    decreases t.len() - i, 0int, k,
{
    if k == 0 {
        assert(cache::dirs_text(t, i, path, k) + rest == rest);
        assert(dirs_say(t, i, path, k) + reads(rest) == reads(rest));
    } else {
        let c = hash::children(arena::parents(t), i)[k - 1] as int;
        cache::lemma_child_in_range(t, i, k - 1);
        let front = cache::dirs_text(t, i, path, k - 1);
        if t[c].is_dir {
            let sub = cache::join(path, t[c].name);
            lemma_join_readable(path, t[c].name);
            lemma_tree_reads_back(t, c, sub, rest);
            lemma_dirs_read_back(t, i, path, k - 1, cache::dir_text(t, c, sub) + rest);
            assert(cache::dirs_text(t, i, path, k) + rest == front + (cache::dir_text(t, c, sub)
                + rest));
            assert(dirs_say(t, i, path, k) + reads(rest) == dirs_say(t, i, path, k - 1) + (
            tree_says(t, c, sub) + reads(rest)));
        } else {
            lemma_dirs_read_back(t, i, path, k - 1, rest);
            assert(cache::dirs_text(t, i, path, k) == front);
            assert(dirs_say(t, i, path, k) == dirs_say(t, i, path, k - 1));
        }
    }
}

proof fn lemma_header_says_nothing(rest: Seq<char>)
    ensures
        reads(cache::header() + rest) == reads(rest),
{
    reveal_strlit("[qdirstat 2.0 cache file]\n# Generated by sdirstat\n# Do not edit!\n#\n");
    reveal_strlit("[qdirstat 2.0 cache file]");
    reveal_strlit("# Generated by sdirstat");
    reveal_strlit("# Do not edit!");
    reveal_strlit("#");
    let a = "[qdirstat 2.0 cache file]"@;
    let b = "# Generated by sdirstat"@;
    let c = "# Do not edit!"@;
    let d = "#"@;
    let nl = seq!['\n'];
    let r3 = d + nl + rest;
    let r2 = c + nl + r3;
    let r1 = b + nl + r2;
    assert(cache::header() == a + nl + (b + nl + (c + nl + (d + nl))));
    assert(cache::header() + rest == a + nl + r1);
    lemma_remark(a);
    lemma_remark(b);
    lemma_remark(c);
    lemma_remark(d);
    lemma_reads_first(d, rest);
    lemma_reads_first(c, r3);
    lemma_reads_first(b, r2);
    lemma_reads_first(a, r1);
}

/// A cache file is read back: its lines say, in order, for every directory its path and its size,
/// and after it for each of its other entries the kind, the name and the size. The names must be
/// readable: the format has no escape for white space beyond ASCII.
pub proof fn law_cache_file_reads_back(t: Seq<NodeView>)
    requires
        arena::is_arena(t),
        t.len() <= usize::MAX,
        forall|j: int| 0 <= j < t.len() ==> readable((#[trigger] t[j]).name),
    ensures
        import::is_cache(cache::cache_text(t)),
        import::said(text::lines(cache::cache_text(t))) == tree_says(t, 0, t[0].name),
{
    reveal(reads);
    let none = Seq::<char>::empty();
    assert(readable(t[0].name));
    lemma_tree_reads_back(t, 0, t[0].name, none);
    lemma_header_says_nothing(cache::dir_text(t, 0, t[0].name));
    assert(cache::dir_text(t, 0, t[0].name) + none == cache::dir_text(t, 0, t[0].name));
    assert(reads(none) == Seq::<LineView>::empty());
    assert(tree_says(t, 0, t[0].name) + reads(none) == tree_says(t, 0, t[0].name));
    reveal_strlit("[qdirstat 2.0 cache file]\n# Generated by sdirstat\n# Do not edit!\n#\n");
    reveal_strlit("[qdirstat");
    let s = cache::cache_text(t);
    assert(s[0] == '[');
    assert(!text::is_space(s[0]));
    assert(s.subrange(0, 9) == "[qdirstat"@);
}

// ── JSON trees ──

pub(crate) proof fn lemma_find_text_is(s: Seq<char>, p: Seq<char>, i: int)
    requires
        0 <= i <= s.len(),
        p.is_prefix_of(s.skip(i)),
        forall|j: int| 0 <= j < i ==> !p.is_prefix_of(#[trigger] s.skip(j)),
    ensures
        text::find_text(s, p) == Some(i),
    decreases i,
{
    assert(s.skip(0) == s);
    if i > 0 {
        assert(!p.is_prefix_of(s.skip(0)));
        let rest = s.drop_first();
        assert(rest.skip(i - 1) == s.skip(i));
        assert forall|j: int| 0 <= j < i - 1 implies !p.is_prefix_of(#[trigger] rest.skip(j)) by {
            assert(rest.skip(j) == s.skip(j + 1));
        }
        lemma_find_text_is(rest, p, i - 1);
    }
}

/// A quote in an escaped text stands behind a backslash.
proof fn lemma_quotes_are_escaped(s: Seq<char>, j: int)
    requires
        0 <= j < escape::json_escaped(s).len(),
        escape::json_escaped(s)[j] == '"',
    ensures
        j > 0,
        escape::json_escaped(s)[j - 1] == '\\',
    decreases s.len(),
{
    if s.len() > 0 {
        let front = escape::json_escaped(s.drop_last());
        if j < front.len() {
            lemma_quotes_are_escaped(s.drop_last(), j);
        } else {
            lemma_json_char_quote(s.last(), j - front.len());
        }
    }
}

proof fn lemma_json_char_quote(c: char, i: int)
    requires
        0 <= i < escape::json_char(c).len(),
        escape::json_char(c)[i] == '"',
    ensures
        i > 0,
        escape::json_char(c)[i - 1] == '\\',
{
    if c != '"' && c != '\\' && c != '\n' && c != '\r' && c != '\t' && c <= '\u{1f}' {
        assert(c as nat / 16 < 16);
    }
}

/// What stands before a node's bytes.
spec fn before_bytes(name: Seq<char>) -> Seq<char> {
    "{\"n\":\""@ + escape::json_escaped(name) + "\","@
}

proof fn lemma_no_mark_at(name: Seq<char>, s: Seq<char>, j: int)
    requires
        s[0] == '{' && s[1] == '"' && s[2] == 'n' && s[3] == '"' && s[4] == ':' && s[5] == '"',
        forall|m: int|
            0 <= m < escape::json_escaped(name).len() ==> s[6 + m] == #[trigger] escape::json_escaped(
                name,
            )[m],
        s[6 + escape::json_escaped(name).len() as int] == '"',
        s[7 + escape::json_escaped(name).len() as int] == ',',
        0 <= j < 8 + escape::json_escaped(name).len(),
    ensures
        !(s[j] == '"' && s[j + 1] == 'v' && s[j + 2] == '"' && s[j + 3] == ':'),
{
    let esc = escape::json_escaped(name);
    let m = j - 4;
    if s[j] == '"' && s[j + 1] == 'v' && s[j + 2] == '"' && s[j + 3] == ':' {
        if m < 0 {
            assert(j == 0 || j == 1 || j == 2 || j == 3);
        } else if m < esc.len() {
            assert(s[6 + m] == esc[m]);
            lemma_quotes_are_escaped(name, m);
            assert(s[6 + (m - 1)] == esc[m - 1]);
        } else if m == esc.len() {
            assert(s[j + 3] == ',');
        } else if m == esc.len() + 1 {
            assert(s[j + 2] == ',');
        } else if m == esc.len() + 2 {
            assert(s[j + 1] == ',');
        } else {
            assert(s[j] == ',');
        }
    }
}

proof fn lemma_mark_is_first(name: Seq<char>, rest: Seq<char>)
    ensures
        text::find_text(before_bytes(name) + (import::bytes_mark() + rest), import::bytes_mark())
            == Some(before_bytes(name).len() as int),
{
    reveal_strlit("{\"n\":\"");
    reveal_strlit("\",");
    reveal_strlit("\"v\":");
    let esc = escape::json_escaped(name);
    let head = before_bytes(name);
    let p = import::bytes_mark();
    let s = head + (p + rest);
    let i = head.len() as int;
    assert(head.len() == 6 + esc.len() + 2);
    assert(s.skip(i).subrange(0, 4) == p);
    assert(s[6 + esc.len() as int] == '"');
    assert(s[7 + esc.len() as int] == ',');
    assert forall|m: int| 0 <= m < esc.len() implies s[6 + m] == #[trigger] esc[m] by {}
    assert forall|j: int| 0 <= j < i implies !p.is_prefix_of(#[trigger] s.skip(j)) by {
        lemma_no_mark_at(name, s, j);
        let w = s.skip(j);
        if p.is_prefix_of(w) {
            assert(w.subrange(0, 4)[0] == s[j]);
            assert(w.subrange(0, 4)[1] == s[j + 1]);
            assert(w.subrange(0, 4)[2] == s[j + 2]);
            assert(w.subrange(0, 4)[3] == s[j + 3]);
        }
    }
    lemma_find_text_is(s, p, i);
}

proof fn lemma_digit_run(d: Seq<char>, rest: Seq<char>)
    requires
        text::all_digits(d),
        rest.len() > 0 ==> !text::is_digit(rest[0]),
    ensures
        import::digit_run(d + rest) == d.len(),
    decreases d.len(),
{
    if d.len() == 0 {
        assert(d + rest == rest);
    } else {
        let e = d.drop_first();
        assert forall|i: int| 0 <= i < e.len() implies text::is_digit(#[trigger] e[i]) by {
            assert(e[i] == d[i + 1]);
        }
        lemma_digit_run(e, rest);
        assert((d + rest).drop_first() == e + rest);
        assert(text::is_digit(d[0]));
    }
}

/// The first number after the mark is the one that stands directly behind it.
pub(crate) proof fn lemma_first_number(d: Seq<char>, rest: Seq<char>)
    requires
        d.len() > 0,
        text::all_digits(d),
        rest.len() > 0,
        rest[0] == ',',
    ensures
        import::first_digits(import::before_mark(d + rest)) == d,
{
    reveal_strlit("\"v\":");
    let s = d + rest;
    let b = import::before_mark(s);
    text::lemma_find_text(s, import::bytes_mark());
    match text::find_text(s, import::bytes_mark()) {
        Some(i) => {
            assert(s.subrange(i, i + 4)[0] == '"');
            assert(s[i] == '"');
            if i < d.len() {
                assert(text::is_digit(d[i]));
            }
            assert(i > d.len());
            assert(b == d + rest.take(i - d.len()));
            lemma_digit_run(d, rest.take(i - d.len()));
        },
        None => {
            lemma_digit_run(d, rest);
        },
    }
    assert(text::is_digit(d[0]));
    assert(import::digits_at(b) == 0);
    assert(b.skip(0) == b);
    assert(b.take(d.len() as int) == d);
}

/// A JSON tree is read back: whatever its root is called, the bytes that are lifted from the text
/// are those of the root.
pub proof fn law_json_tree_gives_back_its_total(t: Seq<NodeView>, top: nat)
    requires
        t.len() > 0,
    ensures
        import::is_json(json::node_text(t, top, 0)),
        import::root_bytes(text::trim_start(json::node_text(t, top, 0))) == t[0].sub,
{
    reveal_strlit("{\"n\":\"");
    reveal_strlit("\",");
    reveal_strlit("\",\"v\":");
    reveal_strlit("\"v\":");
    reveal_strlit(",\"d\":");
    reveal_strlit("[qdirstat");
    let s = json::node_text(t, top, 0);
    let n = t[0];
    let d = text::decimal(n.sub as nat);
    let head = before_bytes(n.name);
    let p = import::bytes_mark();
    let k = head.len() + 4 + d.len();
    let rest = s.skip(k as int);
    let start = json::node_head(n);
    assert(start == head + (p + (d + (",\"d\":"@ + if n.is_dir {
        "1"@
    } else {
        "0"@
    }))));
    let after = s.skip(start.len() as int);
    assert(s == start + after);
    assert(s.len() > k);
    assert(rest[0] == ',');
    assert(s == head + (p + (d + rest)));
    assert(s[0] == '{');
    assert(!text::is_space(s[0]));
    assert(text::trim_start(s) == s);
    assert(!"[qdirstat"@.is_prefix_of(s)) by {
        if "[qdirstat"@.is_prefix_of(s) {
            assert(s.subrange(0, 9)[0] == '[');
        }
    }
    lemma_mark_is_first(n.name, d + rest);
    assert(s.skip(head.len() as int + 4) == d + rest);
    law_decimal_reads_back(n.sub as nat);
    lemma_first_number(d, rest);
    lemma_number_of_decimal(n.sub as nat);
}

} // verus!
