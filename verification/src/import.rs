//! Reading trees back: QDirStat cache files, JSON trees and `rclone` listings.

use crate::arena;
use crate::arena::{Cfg, Node, NodeView};
use crate::builder;
use crate::builder::{Builder, BuilderView};
use crate::escape;
use crate::summary;
use crate::text;
use vstd::prelude::*;

verus! {

// ── cache files ──

/// What a line of a cache file is about.
#[derive(Clone, Copy, PartialEq, Eq, Structural)]
pub enum Kind {
    /// A directory.
    Dir,
    /// A symbolic link.
    Link,
    /// Anything else.
    Other,
}

/// A line of a cache file: what it is about, the name, and the size.
pub struct Line {
    pub kind: Kind,
    pub name: String,
    pub size: u64,
}

/// A line as a mathematical value.
#[verifier::ext_equal]
pub struct LineView {
    pub kind: Kind,
    pub name: Seq<char>,
    pub size: nat,
}

impl View for Line {
    type V = LineView;

    open spec fn view(&self) -> LineView {
        LineView { kind: self.kind, name: self.name@, size: self.size as nat }
    }
}

/// Lines as mathematical values.
pub open spec fn line_views(v: Seq<Line>) -> Seq<LineView> {
    Seq::new(v.len(), |i: int| v[i]@)
}

/// The number that `s` denotes in 64 bits, or 0.
pub open spec fn number_or_zero(s: Seq<char>) -> nat {
    match text::uint_value(s, u64::MAX as nat) {
        Some(v) => v,
        None => 0,
    }
}

/// The size that a field denotes: a number, with `K`, `M` or `G` behind it for the powers of 1024.
pub open spec fn cache_value(field: Seq<char>) -> nat {
    let s = text::trim(field);
    if s.len() > 0 && s.last() == 'K' {
        number_or_zero(s.drop_last()) * 1024
    } else if s.len() > 0 && s.last() == 'M' {
        number_or_zero(s.drop_last()) * 0x10_0000
    } else if s.len() > 0 && s.last() == 'G' {
        number_or_zero(s.drop_last()) * 0x4000_0000
    } else {
        number_or_zero(s)
    }
}

/// The kind that the first word of a line denotes, in upper or lower case.
pub open spec fn kind_of(word: Seq<char>) -> Kind {
    if word == seq!['D'] || word == seq!['d'] {
        Kind::Dir
    } else if word == seq!['L'] || word == seq!['l'] {
        Kind::Link
    } else {
        Kind::Other
    }
}

/// What a line says: nothing where it is empty, a comment or a header, or has fewer than two words.
pub open spec fn line_of(line: Seq<char>) -> Option<LineView> {
    let l = text::trim(line);
    let w = text::words(l);
    if l.len() == 0 || l[0] == '#' || l[0] == '[' || w.len() < 2 {
        None
    } else {
        Some(
            LineView {
                kind: kind_of(w[0]),
                name: text::utf8_text(
                    escape::percent_decoded(vstd::utf8::encode_utf8(w[1]), false),
                ),
                size: if w.len() > 2 {
                    cache_value(w[2])
                } else {
                    0
                },
            },
        )
    }
}

/// What the lines say.
pub open spec fn said(ls: Seq<Seq<char>>) -> Seq<LineView>
    decreases ls.len(),
{
    if ls.len() == 0 {
        seq![]
    } else {
        match line_of(ls.last()) {
            Some(v) => said(ls.drop_last()).push(v),
            None => said(ls.drop_last()),
        }
    }
}

/// Every size can be counted in 64 bits.
pub open spec fn sizes_fit(v: Seq<LineView>) -> bool {
    forall|i: int| 0 <= i < v.len() ==> (#[trigger] v[i]).size <= u64::MAX
}

/// The size that a field denotes, if it can be counted in 64 bits.
fn cache_size_checked(field: &[char]) -> (r: Option<u64>)
    ensures
        match r {
            Some(v) => v == cache_value(field@),
            None => cache_value(field@) > u64::MAX,
        },
{
    let s = text::trimmed(field);
    let n = s.len();
    let mut mult: u64 = 1;
    if n > 0 {
        if s[n - 1] == 'K' {
            mult = 1024;
        } else if s[n - 1] == 'M' {
            mult = 0x10_0000;
        } else if s[n - 1] == 'G' {
            mult = 0x4000_0000;
        }
    }
    let end: usize = if mult == 1 {
        n
    } else {
        n - 1
    };
    proof {
        assert(s@.subrange(0, n as int) == s@);
        if mult != 1 {
            assert(s@.subrange(0, n - 1) == s@.drop_last());
        }
    }
    let v: u64 = match text::parse_uint(&s[0..end], u64::MAX) {
        Some(v) => v,
        None => 0,
    };
    v.checked_mul(mult)
}

/// The size that a field denotes.
pub fn cache_size(s: &str) -> (r: u64)
    requires
        cache_value(s@) <= u64::MAX,
    ensures
        r == cache_value(s@),
{
    let chars = text::chars_of(s);
    match cache_size_checked(chars.as_slice()) {
        Some(v) => v,
        None => 0,
    }
}

/// The kind that a word denotes.
fn kind_of_word(word: &[char]) -> (r: Kind)
    ensures
        r == kind_of(word@),
{
    proof {
        if word@.len() == 1 {
            assert(word@ == seq![word@[0]]);
        }
        assert(seq!['D'][0] == 'D' && seq!['d'][0] == 'd' && seq!['L'][0] == 'L' && seq!['l'][0]
            == 'l');
    }
    if word.len() == 1 && (word[0] == 'D' || word[0] == 'd') {
        Kind::Dir
    } else if word.len() == 1 && (word[0] == 'L' || word[0] == 'l') {
        Kind::Link
    } else {
        Kind::Other
    }
}

/// Whether a size was too large to count.
enum Reading {
    /// The line says nothing.
    Nothing,
    /// The line says this.
    Said(Line),
    /// The size cannot be counted in 64 bits.
    TooLarge,
}

/// Reads one line.
fn read_line(line: &[char]) -> (r: Reading)
    ensures
        match r {
            Reading::Nothing => line_of(line@) is None,
            Reading::Said(l) => line_of(line@) == Some(l@),
            Reading::TooLarge => line_of(line@) is Some && line_of(line@)->0.size > u64::MAX,
        },
{
    let l = text::trimmed(line);
    if l.len() == 0 || l[0] == '#' || l[0] == '[' {
        return Reading::Nothing;
    }
    let w = text::words_of(l);
    assert(text::views(w@).len() == w@.len());
    if w.len() < 2 {
        return Reading::Nothing;
    }
    assert(text::views(w@)[0] == w@[0]@ && text::views(w@)[1] == w@[1]@);
    let raw = text::text_of(w[1]);
    let name = escape::url_unescape(raw.as_str());
    let kind = kind_of_word(w[0]);
    if w.len() > 2 {
        assert(text::views(w@)[2] == w@[2]@);
        match cache_size_checked(w[2]) {
            Some(size) => Reading::Said(Line { kind: kind, name: name, size: size }),
            None => Reading::TooLarge,
        }
    } else {
        Reading::Said(Line { kind: kind, name: name, size: 0 })
    }
}

/// Reads the lines of a cache file, if every size can be counted in 64 bits.
pub fn read_lines(content: &str) -> (r: Option<Vec<Line>>)
    ensures
        match r {
            Some(v) => said(text::lines(content@)) == line_views(v@) && sizes_fit(
                said(text::lines(content@)),
            ),
            None => !sizes_fit(said(text::lines(content@))),
        },
{
    let chars = text::chars_of(content);
    let ls = text::lines_of(chars.as_slice());
    let ghost all = text::views(ls@);
    let mut out: Vec<Line> = Vec::new();
    let mut i: usize = 0;
    assert(all.take(0) == Seq::<Seq<char>>::empty());
    assert(line_views(out@) == Seq::<LineView>::empty());
    while i < ls.len()
        invariant
            i <= ls@.len(),
            all == text::views(ls@),
            all == text::lines(content@),
            line_views(out@) == said(all.take(i as int)),
        decreases ls@.len() - i,
    {
        let ghost before = out@;
        proof {
            assert(all.take(i + 1).drop_last() == all.take(i as int));
            assert(all.take(i + 1).last() == ls@[i as int]@);
        }
        match read_line(ls[i]) {
            Reading::Nothing => {},
            Reading::Said(l) => {
                out.push(l);
                assert(line_views(out@) == line_views(before).push(l@));
            },
            Reading::TooLarge => {
                proof {
                    lemma_said_prefix(all, i + 1);
                    let k = said(all.take(i as int)).len() as int;
                    assert(said(all.take(i + 1))[k] == line_of(all[i as int])->0);
                    assert(said(all)[k] == said(all.take(i + 1))[k]);
                }
                return None;
            },
        }
        i = i + 1;
    }
    assert(all.take(all.len() as int) == all);
    assert forall|k: int| 0 <= k < said(all).len() implies (#[trigger] said(all)[k]).size
        <= u64::MAX by {
        assert(line_views(out@)[k] == out@[k]@);
    }
    Some(out)
}

proof fn lemma_said_prefix(ls: Seq<Seq<char>>, k: int)
    requires
        0 <= k <= ls.len(),
    ensures
        said(ls.take(k)).len() <= said(ls).len(),
        forall|i: int| 0 <= i < said(ls.take(k)).len() ==> said(ls)[i] == #[trigger] said(
            ls.take(k),
        )[i],
    decreases ls.len(),
{
    if k == ls.len() {
        assert(ls.take(k) == ls);
    } else {
        lemma_said_prefix(ls.drop_last(), k);
        assert(ls.drop_last().take(k) == ls.take(k));
    }
}

/// The components without those at the end that are a single dot.
pub open spec fn without_dots(comps: Seq<Seq<char>>) -> Seq<Seq<char>>
    decreases comps.len(),
{
    if comps.len() > 0 && comps.last() == seq!['.'] {
        without_dots(comps.drop_last())
    } else {
        comps
    }
}

/// The directory that holds an absolute path: all components but the last. Slashes and single dots
/// at the end do not count.
pub open spec fn parent_of(path: Seq<char>) -> Seq<Seq<char>> {
    let c = without_dots(builder::components(path));
    if c.len() == 0 {
        c
    } else {
        without_dots(c.drop_last())
    }
}

/// The last component of an absolute path; the whole path where that is the root or two dots.
pub open spec fn leaf_of(path: Seq<char>) -> Seq<char> {
    let c = without_dots(builder::components(path));
    if c.len() == 0 || c.last() == seq!['.', '.'] {
        path
    } else {
        c.last()
    }
}

/// An entry of a cache file.
pub open spec fn entry_node(parent: usize, name: Seq<char>, size: u64, is_link: bool) -> NodeView {
    NodeView {
        parent: parent,
        name: name,
        own: size,
        sub: size,
        size: size,
        is_link: is_link,
        ..arena::empty_node()
    }
}

/// The tree after one more line, and the directory whose entries follow. A directory line names a
/// directory by its path and gives its own size; any other line names an entry of the directory
/// before it, or, with an absolute path, of the one that it names.
pub open spec fn with_line(b: BuilderView, cur: usize, l: LineView) -> (BuilderView, usize) {
    if l.kind == Kind::Dir {
        let (p, id) = builder::with_dir(b, builder::components(l.name));
        (builder::with_bytes(p, id, l.size as u64), id)
    } else if l.name.len() > 0 && l.name[0] == '/' {
        let (p, id) = builder::with_dir(b, parent_of(l.name));
        (
            builder::with_node(
                p,
                entry_node(id, leaf_of(l.name), l.size as u64, l.kind == Kind::Link),
            ),
            cur,
        )
    } else {
        (
            builder::with_node(b, entry_node(cur, l.name, l.size as u64, l.kind == Kind::Link)),
            cur,
        )
    }
}

/// The tree of the lines of a cache file, and the directory whose entries would follow.
pub open spec fn cache_tree(ls: Seq<LineView>) -> (BuilderView, usize)
    decreases ls.len(),
{
    if ls.len() == 0 {
        (builder::start("/"@), 0)
    } else {
        let (b, cur) = cache_tree(ls.drop_last());
        with_line(b, cur, ls.last())
    }
}

/// How many nodes the lines can add.
pub open spec fn node_bound(ls: Seq<LineView>) -> nat
    decreases ls.len(),
{
    if ls.len() == 0 {
        1
    } else {
        node_bound(ls.drop_last()) + builder::components(ls.last().name).len() + 1
    }
}

/// A tree can be made of the lines: the sizes and the nodes can be counted.
pub open spec fn cache_fits(ls: Seq<LineView>) -> bool {
    sizes_fit(ls) && node_bound(ls) < usize::MAX
}

proof fn lemma_without_dots_len(c: Seq<Seq<char>>)
    ensures
        without_dots(c).len() <= c.len(),
    decreases c.len(),
{
    if c.len() > 0 && c.last() == seq!['.'] {
        lemma_without_dots_len(c.drop_last());
    }
}

/// The directory of a path has no more components than the path.
pub proof fn lemma_parent_len(path: Seq<char>)
    ensures
        parent_of(path).len() <= builder::components(path).len(),
{
    let c = without_dots(builder::components(path));
    lemma_without_dots_len(builder::components(path));
    if c.len() > 0 {
        lemma_without_dots_len(c.drop_last());
    }
}

/// The path that a line is about: a directory's own, an entry's in directory `cur`.
pub open spec fn line_path(cur: Seq<char>, l: LineView) -> Seq<char> {
    if l.kind == Kind::Dir {
        builder::path_text(builder::components(l.name))
    } else if l.name.len() > 0 && l.name[0] == '/' {
        builder::path_text(parent_of(l.name)) + seq!['/'] + leaf_of(l.name)
    } else {
        cur + seq!['/'] + l.name
    }
}

/// The node that a line is about: a directory's own, an entry's the one that is added.
pub open spec fn line_node(b: BuilderView, cur: usize, l: LineView) -> int {
    if l.kind == Kind::Dir {
        with_line(b, cur, l).1 as int
    } else {
        with_line(b, cur, l).0.t.len() - 1
    }
}

/// A line's node stands at the line's path and brings the line's bytes; the tree stays sound, no
/// node moves, and the current directory is a directory.
pub proof fn law_line_is_at_its_path(b: BuilderView, cur: usize, l: LineView)
    requires
        builder::sound(b),
        cur < b.t.len(),
        b.t[cur as int].is_dir,
        l.size <= u64::MAX,
        b.t.len() + builder::components(l.name).len() + 1 <= usize::MAX,
    ensures
        builder::sound(with_line(b, cur, l).0),
        b.t.len() <= with_line(b, cur, l).0.t.len() <= b.t.len() + builder::components(l.name).len()
            + 1,
        with_line(b, cur, l).1 < with_line(b, cur, l).0.t.len(),
        with_line(b, cur, l).0.t[with_line(b, cur, l).1 as int].is_dir,
        0 <= line_node(b, cur, l) < with_line(b, cur, l).0.t.len(),
        builder::tree_path(with_line(b, cur, l).0.t, line_node(b, cur, l)) == line_path(
            builder::tree_path(b.t, cur as int),
            l,
        ),
        with_line(b, cur, l).0.t[line_node(b, cur, l)].sub == l.size,
        forall|i: int|
            0 <= i < b.t.len() ==> (#[trigger] with_line(b, cur, l).0.t[i]).parent == b.t[i].parent
                && with_line(b, cur, l).0.t[i].name == b.t[i].name,
{
    let v = with_line(b, cur, l).0;
    if l.kind == Kind::Dir {
        let comps = builder::components(l.name);
        builder::lemma_with_dir_sound(b, comps);
        let (p, id) = builder::with_dir(b, comps);
        builder::lemma_with_bytes_sound(p, id, l.size as u64);
        builder::lemma_tree_path(p.t, v.t, id as int);
        lemma_prefix_elements(b.t, p.t);
    } else if l.name.len() > 0 && l.name[0] == '/' {
        let comps = parent_of(l.name);
        lemma_parent_len(l.name);
        builder::lemma_with_dir_sound(b, comps);
        let (p, id) = builder::with_dir(b, comps);
        builder::lemma_with_node_sound(
            p,
            entry_node(id, leaf_of(l.name), l.size as u64, l.kind == Kind::Link),
        );
        lemma_prefix_elements(b.t, p.t);
        // the current directory is still where it was
        assert(p.t[cur as int] == b.t[cur as int]);
    } else {
        builder::lemma_with_node_sound(
            b,
            entry_node(cur, l.name, l.size as u64, l.kind == Kind::Link),
        );
    }
}

proof fn lemma_prefix_elements(a: Seq<NodeView>, b: Seq<NodeView>)
    requires
        a.is_prefix_of(b),
    ensures
        a.len() <= b.len(),
        forall|i: int| 0 <= i < a.len() ==> #[trigger] b[i] == a[i],
{
    assert forall|i: int| 0 <= i < a.len() implies #[trigger] b[i] == a[i] by {
        assert(b.subrange(0, a.len() as int)[i] == b[i]);
    }
}

/// The tree of a cache file is sound.
pub proof fn law_cache_tree_is_sound(ls: Seq<LineView>)
    requires
        cache_fits(ls),
    ensures
        builder::sound(cache_tree(ls).0),
        cache_tree(ls).0.t.len() <= node_bound(ls),
        cache_tree(ls).1 < cache_tree(ls).0.t.len(),
        cache_tree(ls).0.t[cache_tree(ls).1 as int].is_dir,
    decreases ls.len(),
{
    if ls.len() > 0 {
        let front = ls.drop_last();
        assert forall|i: int| 0 <= i < front.len() implies (#[trigger] front[i]).size <= u64::MAX by {
            assert(front[i] == ls[i]);
        }
        law_cache_tree_is_sound(front);
        let (b, cur) = cache_tree(front);
        assert(ls[ls.len() - 1].size <= u64::MAX);
        law_line_is_at_its_path(b, cur, ls.last());
    }
}

/// How many of the components are not dots at the end.
fn count_without_dots(comps: &[&[char]], n: usize) -> (r: usize)
    requires
        n <= comps@.len(),
    ensures
        r <= n,
        text::views(comps@).take(r as int) == without_dots(text::views(comps@).take(n as int)),
{
    let ghost all = text::views(comps@);
    let mut k: usize = n;
    while k > 0 && is_dot(comps[k - 1])
        invariant
            k <= n <= comps@.len(),
            all == text::views(comps@),
            without_dots(all.take(n as int)) == without_dots(all.take(k as int)),
        decreases k,
    {
        assert(all.take(k as int).drop_last() == all.take(k - 1));
        assert(all.take(k as int).last() == comps@[k - 1]@);
        k = k - 1;
    }
    proof {
        if k > 0 {
            assert(all.take(k as int).last() == comps@[k - 1]@);
        }
    }
    k
}

/// Whether the component is a single dot.
fn is_dot(c: &[char]) -> (r: bool)
    ensures
        r == (c@ == seq!['.']),
{
    proof {
        if c@.len() == 1 {
            assert(c@ == seq![c@[0]]);
        }
        assert(seq!['.'][0] == '.');
    }
    c.len() == 1 && c[0] == '.'
}

/// Whether the component is two dots.
fn is_two_dots(c: &[char]) -> (r: bool)
    ensures
        r == (c@ == seq!['.', '.']),
{
    proof {
        if c@.len() == 2 {
            assert(c@ == seq![c@[0], c@[1]]);
        }
        assert(seq!['.', '.'][0] == '.' && seq!['.', '.'][1] == '.');
    }
    c.len() == 2 && c[0] == '.' && c[1] == '.'
}

/// The node of a line that is not about a directory, in directory `parent`.
fn entry_of(parent: usize, name: String, size: u64, is_link: bool) -> (r: Node)
    ensures
        r@ == entry_node(parent, name@, size, is_link),
{
    let mut nd = Node::empty();
    nd.parent = parent;
    nd.name = name;
    nd.own = size;
    nd.sub = size;
    nd.size = size;
    nd.is_link = is_link;
    nd
}

/// The directory at an absolute path, made with all those above it where it is not there.
pub fn ensure_cache_dir(abspath: &str, b: &mut Builder) -> (r: usize)
    requires
        builder::sound(old(b)@),
    ensures
        (final(b)@, r) == builder::with_dir(old(b)@, builder::components(abspath@)),
        builder::sound(final(b)@),
{
    let chars = text::chars_of(abspath);
    let comps = builder::components_of(chars.as_slice());
    b.dir(comps.as_slice())
}

/// Adds one line to the tree.
fn add_line(b: &mut Builder, cur: usize, l: &Line) -> (r: usize)
    requires
        builder::sound(old(b)@),
        cur < old(b)@.t.len(),
        old(b)@.t[cur as int].is_dir,
        old(b)@.t.len() + builder::components(l@.name).len() + 1 <= usize::MAX,
    ensures
        (final(b)@, r) == with_line(old(b)@, cur, l@),
        builder::sound(final(b)@),
{
    let ghost before = b@;
    proof {
        law_line_is_at_its_path(before, cur, l@);
    }
    if l.kind == Kind::Dir {
        proof {
            builder::lemma_with_dir_sound(before, builder::components(l@.name));
        }
        let id = ensure_cache_dir(l.name.as_str(), b);
        b.set_bytes(id, l.size);
        return id;
    }
    let is_link = l.kind == Kind::Link;
    let chars = text::chars_of(l.name.as_str());
    if chars.len() > 0 && chars[0] == '/' {
        let comps = builder::components_of(chars.as_slice());
        let ghost all = text::views(comps@);
        let n = comps.len();
        assert(all.take(n as int) == all);
        let k = count_without_dots(comps.as_slice(), n);
        let m: usize = if k == 0 {
            0
        } else {
            count_without_dots(comps.as_slice(), k - 1)
        };
        proof {
            lemma_parent_len(l@.name);
            if k > 0 {
                assert(all.take(k as int).drop_last() == all.take(k - 1));
                assert(all.take(k as int).last() == comps@[k - 1]@);
            } else {
                assert(all.take(0) == Seq::<Seq<char>>::empty());
            }
            assert(all.take(m as int) == parent_of(l@.name));
            assert(text::views(comps@.subrange(0, m as int)) == all.take(m as int));
            builder::lemma_with_dir_sound(before, parent_of(l@.name));
        }
        let parent = b.dir(&comps[0..m]);
        let leaf = if k == 0 || is_two_dots(comps[k - 1]) {
            l.name.clone()
        } else {
            text::text_of(comps[k - 1])
        };
        assert(leaf@ == leaf_of(l@.name));
        b.add_node(entry_of(parent, leaf, l.size, is_link));
    } else {
        b.add_node(entry_of(cur, l.name.clone(), l.size, is_link));
    }
    cur
}

proof fn lemma_node_bound_grows(ls: Seq<LineView>, k: int)
    requires
        0 <= k <= ls.len(),
    ensures
        node_bound(ls.take(k)) <= node_bound(ls),
    decreases ls.len(),
{
    if k == ls.len() {
        assert(ls.take(k) == ls);
    } else {
        lemma_node_bound_grows(ls.drop_last(), k);
        assert(ls.drop_last().take(k) == ls.take(k));
    }
}

proof fn lemma_node_bound_step(all: Seq<LineView>, i: int)
    requires
        0 <= i < all.len(),
    ensures
        node_bound(all.take(i + 1)) == node_bound(all.take(i)) + builder::components(
            all[i].name,
        ).len() + 1,
        node_bound(all.take(i + 1)) <= node_bound(all),
{
    assert(all.take(i + 1).drop_last() == all.take(i));
    assert(all.take(i + 1).last() == all[i]);
    lemma_node_bound_grows(all, i + 1);
}

/// How many components a path has.
fn component_count(path: &str) -> (r: usize)
    ensures
        r == builder::components(path@).len(),
{
    let chars = text::chars_of(path);
    let comps = builder::components_of(chars.as_slice());
    assert(text::views(comps@).len() == comps@.len());
    comps.len()
}

/// Whether the nodes that lines can add to a tree can be numbered.
fn nodes_fit(ls: &Vec<Line>) -> (r: bool)
    ensures
        r == (node_bound(line_views(ls@)) < usize::MAX),
{
    let ghost all = line_views(ls@);
    let mut room: usize = usize::MAX - 1;
    let mut i: usize = 0;
    assert(all.take(0) == Seq::<LineView>::empty());
    while i < ls.len()
        invariant
            i <= ls@.len(),
            all == line_views(ls@),
            room > 0,
            room + node_bound(all.take(i as int)) == usize::MAX,
        decreases ls@.len() - i,
    {
        let n = component_count(ls[i].name.as_str());
        proof {
            lemma_node_bound_step(all, i as int);
        }
        if n >= room - 1 {
            return false;
        }
        room = room - n - 1;
        i = i + 1;
    }
    assert(all.take(all.len() as int) == all);
    true
}

/// Whether a tree can be made of a cache file.
pub fn cache_sizes_fit(content: &str) -> (r: bool)
    ensures
        r == cache_fits(said(text::lines(content@))),
{
    match read_lines(content) {
        Some(ls) => nodes_fit(&ls),
        None => false,
    }
}

/// Makes an arena of the lines of a cache file.
pub fn tree_of_lines(ls: &Vec<Line>) -> (r: Vec<Node>)
    requires
        cache_fits(line_views(ls@)),
    ensures
        arena::tree(r@) == cache_tree(line_views(ls@)).0.t,
        arena::is_arena(arena::tree(r@)),
        arena::parents_are_dirs(arena::tree(r@)),
        r@.len() <= node_bound(line_views(ls@)),
{
    let ghost all = line_views(ls@);
    let mut b = Builder::new("/");
    let mut cur: usize = 0;
    let mut i: usize = 0;
    assert(all.take(0) == Seq::<LineView>::empty());
    while i < ls.len()
        invariant
            i <= ls@.len(),
            all == line_views(ls@),
            cache_fits(all),
            builder::sound(b@),
            (b@, cur) == cache_tree(all.take(i as int)),
        decreases ls@.len() - i,
    {
        proof {
            assert(all.take(i + 1).drop_last() == all.take(i as int));
            assert(all.take(i + 1).last() == ls@[i as int]@);
            lemma_node_bound_grows(all, i as int);
            lemma_node_bound_grows(all, i + 1);
            assert forall|k: int| 0 <= k < i implies (#[trigger] all.take(i as int)[k]).size
                <= u64::MAX by {
                assert(all.take(i as int)[k] == all[k]);
            }
            law_cache_tree_is_sound(all.take(i as int));
        }
        cur = add_line(&mut b, cur, &ls[i]);
        i = i + 1;
    }
    proof {
        assert(all.take(all.len() as int) == all);
        law_cache_tree_is_sound(all);
    }
    let r = b.into_nodes();
    assert(arena::tree(r@).len() == r@.len());
    r
}

/// Reads a cache file into an arena.
pub fn parse_qdirstat_cache(content: &str) -> (r: Vec<Node>)
    requires
        cache_fits(said(text::lines(content@))),
    ensures
        arena::tree(r@) == cache_tree(said(text::lines(content@))).0.t,
        arena::is_arena(arena::tree(r@)),
        arena::parents_are_dirs(arena::tree(r@)),
        r@.len() <= node_bound(said(text::lines(content@))),
{
    match read_lines(content) {
        Some(ls) => tree_of_lines(&ls),
        None => Vec::new(),
    }
}

// ── JSON trees ──

/// What stands before a node's bytes in a JSON tree.
pub open spec fn bytes_mark() -> Seq<char> {
    "\"v\":"@
}

/// What stands before the first digit.
pub open spec fn digits_at(s: Seq<char>) -> int
    decreases s.len(),
{
    if s.len() == 0 || text::is_digit(s[0]) {
        0
    } else {
        1 + digits_at(s.drop_first())
    }
}

/// How many digits stand at the start.
pub open spec fn digit_run(s: Seq<char>) -> int
    decreases s.len(),
{
    if s.len() == 0 || !text::is_digit(s[0]) {
        0
    } else {
        1 + digit_run(s.drop_first())
    }
}

/// The first run of digits.
pub open spec fn first_digits(s: Seq<char>) -> Seq<char> {
    let d = s.skip(digits_at(s));
    d.take(digit_run(d))
}

/// What stands before the first mark.
pub open spec fn before_mark(s: Seq<char>) -> Seq<char> {
    match text::find_text(s, bytes_mark()) {
        Some(i) => s.take(i),
        None => s,
    }
}

/// The bytes of the root of a JSON tree: the first number between the first mark and the next one; 0
/// where there is none, or none that can be counted in 64 bits.
pub open spec fn root_bytes(s: Seq<char>) -> nat {
    match text::find_text(s, bytes_mark()) {
        Some(i) => number_or_zero(first_digits(before_mark(s.skip(i + bytes_mark().len())))),
        None => 0,
    }
}

/// The response that a JSON tree is wrapped in.
pub open spec fn wrapped(tree: Seq<char>) -> Seq<char> {
    "{\"scan_ms\":0,\"entries\":0,\"tree\":"@ + tree + ",\"types\":[]}"@
}

/// Whether a character is an ASCII decimal digit.
fn digit(c: char) -> (r: bool)
    ensures
        r == text::is_digit(c),
{
    '0' <= c && c <= '9'
}

/// The first run of digits.
fn first_digits_of(s: &[char]) -> (r: &[char])
    ensures
        r@ == first_digits(s@),
{
    let n = s.len();
    let mut a: usize = 0;
    assert(s@.skip(0) == s@);
    while a < n && !digit(s[a])
        invariant
            n == s@.len(),
            a <= n,
            digits_at(s@) == a + digits_at(s@.skip(a as int)),
        decreases n - a,
    {
        assert(s@.skip(a as int).drop_first() == s@.skip(a + 1));
        a = a + 1;
    }
    assert(digits_at(s@) == a);
    let ghost d = s@.skip(a as int);
    let mut b: usize = a;
    assert(d.skip(0) == d);
    while b < n && digit(s[b])
        invariant
            n == s@.len(),
            a <= b <= n,
            d == s@.skip(a as int),
            digit_run(d) == b - a + digit_run(d.skip(b - a)),
        decreases n - b,
    {
        assert(d.skip(b - a).drop_first() == d.skip(b - a + 1));
        assert(d.skip(b - a)[0] == s@[b as int]);
        b = b + 1;
    }
    proof {
        if b < n {
            assert(d.skip(b - a)[0] == s@[b as int]);
        }
        assert(digit_run(d) == b - a);
        assert(s@.subrange(a as int, b as int) == d.take(b - a));
    }
    &s[a..b]
}

/// The bytes of the root of a JSON tree.
fn root_bytes_of(s: &[char]) -> (r: u64)
    ensures
        r == root_bytes(s@),
{
    let mark = text::chars_of("\"v\":");
    let n = s.len();
    assert(s@.skip(0) == s@);
    match text::find_text_from(s, 0, mark.as_slice()) {
        None => 0,
        Some(i) => {
            let a: usize = i + mark.len();
            let ghost rest = s@.skip(a as int);
            let end: usize = match text::find_text_from(s, a, mark.as_slice()) {
                Some(j) => j,
                None => n,
            };
            proof {
                assert(s@.subrange(a as int, end as int) == before_mark(rest));
            }
            let digits = first_digits_of(&s[a..end]);
            match text::parse_uint(digits, u64::MAX) {
                Some(v) => v,
                None => 0,
            }
        },
    }
}

/// A file that was read as a report: the response, its bytes and entries, and what it was read from.
pub struct Imported {
    pub response: String,
    pub total: u64,
    pub entries: usize,
    pub source: String,
}

/// The settings with which a cache file is written out again: nothing is pruned.
pub open spec fn import_cfg() -> Cfg {
    Cfg {
        max_depth: 0x10_0000,
        top: 0x10_0000,
        threads: 1,
        apparent: false,
        no_stat: false,
        iouring: false,
        max_entries: usize::MAX,
        one_fs: false,
    }
}

/// Whether the text is a cache file.
pub open spec fn is_cache(content: Seq<char>) -> bool {
    "[qdirstat"@.is_prefix_of(text::trim_start(content))
}

/// Whether the text is a JSON tree.
pub open spec fn is_json(content: Seq<char>) -> bool {
    !is_cache(content) && text::trim_start(content).len() > 0 && text::trim_start(content)[0] == '{'
}

/// A file can be imported: where it is a cache file, its nodes and its bytes can be counted.
pub open spec fn importable(content: Seq<char>) -> bool {
    is_cache(content) ==> {
        let ls = said(text::lines(content));
        cache_fits(ls) && arena::total(cache_tree(ls).0.t) <= u64::MAX
    }
}

/// Whether a file can be imported.
pub fn can_import(content: &str) -> (r: bool)
    ensures
        r == importable(content@),
{
    let chars = text::chars_of(content);
    let t = text::trimmed_start(chars.as_slice());
    if !text::starts_with(t, "[qdirstat") {
        return true;
    }
    if !cache_sizes_fit(content) {
        return false;
    }
    let nodes = parse_qdirstat_cache(content);
    arena::total_size(nodes.as_slice()).is_some()
}

/// Why a file was not imported.
pub open spec fn unrecognized() -> Seq<char> {
    "unrecognized file (expected a QDirStat cache or a sdirstat JSON tree)"@
}

/// What reading a file as a report gives: of a cache file the tree, written out again without
/// pruning; of a JSON tree the tree as it is, wrapped; of anything else an error.
pub open spec fn is_import_of(content: Seq<char>, r: Result<Imported, String>) -> bool {
    match r {
        Ok(i) => {
            if is_cache(content) {
                let t = cache_tree(said(text::lines(content))).0.t;
                &&& i.response@ == summary::response(arena::folded(t), 0, import_cfg().top as nat)
                &&& i.total == arena::total(t)
                &&& i.entries == t.len()
                &&& i.source@ == "cache"@
            } else {
                &&& is_json(content)
                &&& i.response@ == wrapped(text::trim_start(content))
                &&& i.total == root_bytes(text::trim_start(content))
                &&& i.entries == 0
                &&& i.source@ == "json"@
            }
        },
        Err(e) => !is_cache(content) && !is_json(content) && e@ == unrecognized(),
    }
}

/// Reads a file as a report, where its nodes and bytes can be counted.
pub fn try_import(content: &str) -> (r: Option<Result<Imported, String>>)
    ensures
        match r {
            Some(x) => importable(content@) && is_import_of(content@, x),
            None => !importable(content@),
        },
{
    if can_import(content) {
        Some(import(content))
    } else {
        None
    }
}

/// Reads a file as a report.
pub fn import(content: &str) -> (r: Result<Imported, String>)
    requires
        importable(content@),
    ensures
        is_import_of(content@, r),
{
    let chars = text::chars_of(content);
    let t = text::trimmed_start(chars.as_slice());
    if text::starts_with(t, "[qdirstat") {
        let nodes = parse_qdirstat_cache(content);
        let cfg = Cfg {
            max_depth: 0x10_0000,
            top: 0x10_0000,
            threads: 1,
            apparent: false,
            no_stat: false,
            iouring: false,
            max_entries: usize::MAX,
            one_fs: false,
        };
        proof {
            summary::law_folded_types_fit(arena::tree(nodes@));
            assert(arena::tree(nodes@).len() == nodes@.len());
        }
        let (response, total, entries) = summary::finish(nodes, 0, &cfg);
        return Ok(
            Imported {
                response: response,
                total: total,
                entries: entries,
                source: "cache".to_string(),
            },
        );
    }
    if t.len() > 0 && t[0] == '{' {
        let total = root_bytes_of(t);
        let mut response = String::new();
        response.append("{\"scan_ms\":0,\"entries\":0,\"tree\":");
        text::push_chars(&mut response, t);
        response.append(",\"types\":[]}");
        assert(response@ == wrapped(t@));
        return Ok(
            Imported { response: response, total: total, entries: 0, source: "json".to_string() },
        );
    }
    Err("unrecognized file (expected a QDirStat cache or a sdirstat JSON tree)".to_string())
}

// ── rclone listings ──

/// What the lines of a listing say: a size, a tab and a path. Lines that do not are passed over.
pub open spec fn rclone_lines(ls: Seq<Seq<char>>) -> Seq<(u64, Seq<char>)>
    decreases ls.len(),
{
    if ls.len() == 0 {
        seq![]
    } else {
        let front = rclone_lines(ls.drop_last());
        match text::split_once(ls.last(), '\t') {
            Some((s, p)) => match text::uint_value(text::trim(s), u64::MAX as nat) {
                Some(v) => front.push((v as u64, p)),
                None => front,
            },
            None => front,
        }
    }
}

/// What `rclone` said when it failed, without the white space around it.
pub fn rclone_error(stderr: &[u8]) -> (r: String)
    ensures
        r@ == text::trim(text::utf8_text(stderr@)),
{
    let content = text::text_from_utf8_lossy(stderr);
    trimmed_text(content.as_str())
}

/// A text without the white space around it.
pub fn trimmed_text(content: &str) -> (r: String)
    ensures
        r@ == text::trim(content@),
{
    let chars = text::chars_of(content);
    text::text_of(text::trimmed(chars.as_slice()))
}

/// Reads the output of `rclone lsf`, one file per line.
pub fn parse_rclone(stdout: &[u8]) -> (r: Vec<(u64, String)>)
    ensures
        builder::listing(r@) == rclone_lines(text::lines(text::utf8_text(stdout@))),
{
    let content = text::text_from_utf8_lossy(stdout);
    rclone_listing(content.as_str())
}

/// Reads a listing of one file per line.
pub fn rclone_listing(content: &str) -> (r: Vec<(u64, String)>)
    ensures
        builder::listing(r@) == rclone_lines(text::lines(content@)),
{
    let chars = text::chars_of(content);
    let ls = text::lines_of(chars.as_slice());
    let ghost all = text::views(ls@);
    let mut out: Vec<(u64, String)> = Vec::new();
    let mut i: usize = 0;
    assert(all.take(0) == Seq::<Seq<char>>::empty());
    assert(builder::listing(out@) == Seq::<(u64, Seq<char>)>::empty());
    while i < ls.len()
        invariant
            i <= ls@.len(),
            all == text::views(ls@),
            builder::listing(out@) == rclone_lines(all.take(i as int)),
        decreases ls@.len() - i,
    {
        let ghost before = out@;
        proof {
            assert(all.take(i + 1).drop_last() == all.take(i as int));
            assert(all.take(i + 1).last() == ls@[i as int]@);
        }
        if let Some((s, p)) = text::split_once_at(ls[i], '\t') {
            if let Some(v) = text::parse_uint(text::trimmed(s), u64::MAX) {
                let path = text::text_of(p);
                out.push((v, path));
                assert(builder::listing(out@) == builder::listing(before).push((v, path@)));
            }
        }
        i = i + 1;
    }
    assert(all.take(all.len() as int) == all);
    out
}

} // verus!
