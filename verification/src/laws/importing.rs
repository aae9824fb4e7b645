//! Imports: cache files, JSON trees and flat listings.

use crate::arena;
use crate::arena::NodeView;
use crate::builder;
use crate::escape;
use crate::filetypes;
use crate::hash;
use crate::import;
use crate::import::{Imported, Kind, LineView};
use crate::json;
use crate::laws::folding;
use crate::laws::pruning;
use crate::laws::texts;
use crate::readback;
use crate::roundtrip;
use crate::summary;
use crate::text;
use vstd::prelude::*;

verus! {

// ── listings ──

/// A line that is a number of up to 64 bits, a tab and a path is read as that number and that path,
/// behind what stands before it.
pub proof fn law_listing_lines_are_read(ls: Seq<Seq<char>>, v: u64, p: Seq<char>)
    ensures
        import::rclone_lines(ls.push(text::decimal(v as nat) + seq!['\t'] + p))
            == import::rclone_lines(ls).push((v, p)),
{
    let s = text::decimal(v as nat);
    let l = s + seq!['\t'] + p;
    readback::law_decimal_reads_back(v as nat);
    readback::lemma_radix_solid(v as nat, 10);
    texts::law_numbers_are_read(v as nat, u64::MAX as nat);
    assert(!s.contains('\t')) by {
        if s.contains('\t') {
            let i = choose|i: int| 0 <= i < s.len() && s[i] == '\t';
            assert(text::is_digit(s[i]));
        }
    }
    texts::law_pieces(s, '\t', p);
    assert(!text::is_space(s[0]) && !text::is_space(s[s.len() - 1]));
    readback::lemma_trim_solid_ends(s);
    assert(ls.push(l).drop_last() == ls);
}

/// A line without a tab says nothing, nor does one with anything else than a number before its
/// first tab.
pub proof fn law_other_lines_say_nothing(ls: Seq<Seq<char>>, l: Seq<char>, p: Seq<char>)
    requires
        !l.contains('\t'),
        text::uint_value(text::trim(l), u64::MAX as nat) is None,
    ensures
        import::rclone_lines(ls.push(l)) == import::rclone_lines(ls),
        import::rclone_lines(ls.push(l + seq!['\t'] + p)) == import::rclone_lines(ls),
        import::rclone_lines(Seq::<Seq<char>>::empty()).len() == 0,
{
    texts::law_pieces(l, '\t', p);
    assert(ls.push(l).drop_last() == ls);
    assert(ls.push(l + seq!['\t'] + p).drop_last() == ls);
}

/// The text of a listing.
pub open spec fn listing_text(files: Seq<(u64, Seq<char>)>) -> Seq<char>
    decreases files.len(),
{
    if files.len() == 0 {
        seq![]
    } else {
        text::decimal(files[0].0 as nat) + seq!['\t'] + files[0].1 + seq!['\n'] + listing_text(
            files.drop_first(),
        )
    }
}

proof fn lemma_listing_lines(files: Seq<(u64, Seq<char>)>)
    requires
        forall|i: int|
            0 <= i < files.len() ==> !(#[trigger] files[i]).1.contains('\n') && (files[i].1.len()
                == 0 || files[i].1.last() != '\r'),
    ensures
        text::lines(listing_text(files)) == Seq::new(
            files.len(),
            |i: int| text::decimal(files[i].0 as nat) + seq!['\t'] + files[i].1,
        ),
    decreases files.len(),
{
    let expected = Seq::new(
        files.len(),
        |i: int| text::decimal(files[i].0 as nat) + seq!['\t'] + files[i].1,
    );
    if files.len() > 0 {
        let rest = files.drop_first();
        let s = text::decimal(files[0].0 as nat);
        let l = s + seq!['\t'] + files[0].1;
        readback::law_decimal_reads_back(files[0].0 as nat);
        assert(!files[0].1.contains('\n'));
        assert(!l.contains('\n')) by {
            if l.contains('\n') {
                let i = choose|i: int| 0 <= i < l.len() && l[i] == '\n';
                if i < s.len() {
                    assert(text::is_digit(s[i]));
                } else if i > s.len() {
                    assert(files[0].1[i - s.len() - 1] == '\n');
                }
            }
        }
        assert(l.last() != '\r');
        assert forall|i: int| 0 <= i < rest.len() implies !(#[trigger] rest[i]).1.contains('\n') && (
        rest[i].1.len() == 0 || rest[i].1.last() != '\r') by {
            assert(rest[i] == files[i + 1]);
        }
        lemma_listing_lines(rest);
        texts::law_lines(l, listing_text(rest));
        assert(text::lines(listing_text(files)) =~= expected);
    } else {
        texts::law_lines(Seq::<char>::empty(), Seq::<char>::empty());
        assert(text::lines(listing_text(files)) =~= expected);
    }
}

proof fn lemma_listing_read(files: Seq<(u64, Seq<char>)>)
    ensures
        import::rclone_lines(
            Seq::new(
                files.len(),
                |i: int| text::decimal(files[i].0 as nat) + seq!['\t'] + files[i].1,
            ),
        ) == files,
    decreases files.len(),
{
    let all = Seq::new(
        files.len(),
        |i: int| text::decimal(files[i].0 as nat) + seq!['\t'] + files[i].1,
    );
    if files.len() > 0 {
        let front = files.drop_last();
        lemma_listing_read(front);
        let before = Seq::new(
            front.len(),
            |i: int| text::decimal(front[i].0 as nat) + seq!['\t'] + front[i].1,
        );
        let x = files.last();
        assert(all =~= before.push(text::decimal(x.0 as nat) + seq!['\t'] + x.1));
        law_listing_lines_are_read(before, x.0, x.1);
        assert(front.push(x) == files);
    }
}

/// A listing is read back from its text, every file of it with its size: no file is left out, and
/// none is changed.
pub proof fn law_listings_are_read_back(files: Seq<(u64, Seq<char>)>)
    requires
        forall|i: int|
            0 <= i < files.len() ==> !(#[trigger] files[i]).1.contains('\n') && (files[i].1.len()
                == 0 || files[i].1.last() != '\r'),
    ensures
        import::rclone_lines(text::lines(listing_text(files))) == files,
{
    lemma_listing_lines(files);
    lemma_listing_read(files);
}

/// What is returned for a listing is what its lines say.
pub proof fn law_listings_are_returned(
    content: &str,
    files: Seq<(u64, Seq<char>)>,
    r: Vec<(u64, String)>,
    i: int,
)
    requires
        call_ensures(import::rclone_listing, (content,), r),
        content@ == listing_text(files),
        forall|i: int|
            0 <= i < files.len() ==> !(#[trigger] files[i]).1.contains('\n') && (files[i].1.len()
                == 0 || files[i].1.last() != '\r'),
        0 <= i < files.len(),
    ensures
        r@.len() == files.len(),
        r@[i].0 == files[i].0,
        r@[i].1@ == files[i].1,
{
    law_listings_are_read_back(files);
    let v = builder::listing(r@);
    assert(v.len() == r@.len());
    assert(v[i] == (r@[i].0, r@[i].1@));
}

/// A listed file counts its size, holds as many blocks as that takes, and is no directory.
pub proof fn law_listed_files(parent: usize, name: Seq<char>, size: u64)
    requires
        size + 511 <= u64::MAX,
    ensures
        ({
            let n = builder::file_node(parent, name, size);
            &&& n.parent == parent && n.name == name
            &&& n.own == size && n.sub == size && n.size == size
            &&& size <= n.blocks * 512 < size + 512
            &&& !n.is_dir && !n.is_link
        }),
{
}

/// The bytes of a listing are those of its files: each counts, unless its path is empty or made of
/// slashes.
pub proof fn law_listed_bytes_add_up(lines: Seq<(u64, Seq<char>)>, size: u64, path: Seq<char>)
    ensures
        builder::components(path).len() > 0 ==> builder::listed_bytes(lines.push((size, path)))
            == builder::listed_bytes(lines) + size,
        builder::components(path).len() == 0 ==> builder::listed_bytes(lines.push((size, path)))
            == builder::listed_bytes(lines),
        builder::listed_bytes(Seq::<(u64, Seq<char>)>::empty()) == 0,
{
    assert(lines.push((size, path)).drop_last() == lines);
}

/// The tree of a listing has a root under the given name, and a file more in the listing is a file
/// more at its path.
pub proof fn law_listing_grows_the_tree(
    root_name: Seq<char>,
    lines: Seq<(u64, Seq<char>)>,
    size: u64,
    path: Seq<char>,
)
    requires
        1 + builder::component_count(lines) + builder::components(path).len() <= usize::MAX,
        builder::components(path).len() > 0,
    ensures
        ({
            let before = builder::flat_tree(root_name, lines);
            let v = builder::flat_tree(root_name, lines.push((size, path)));
            let last = v.t.len() - 1;
            &&& before.t.is_prefix_of(v.t)
            &&& builder::tree_path(v.t, last) == builder::path_text(builder::components(path))
            &&& v.t[last].own == size && v.t[last].sub == size && !v.t[last].is_dir
            &&& v.t[last].name == builder::components(path).last()
        }),
        builder::flat_tree(root_name, Seq::<(u64, Seq<char>)>::empty()).t.len() == 1,
        builder::flat_tree(root_name, Seq::<(u64, Seq<char>)>::empty()).t[0].name == root_name,
        builder::flat_tree(root_name, Seq::<(u64, Seq<char>)>::empty()).t[0].is_dir,
{
    builder::law_listing_keeps_bytes(root_name, lines);
    assert(lines.push((size, path)).drop_last() == lines);
    let b = builder::flat_tree(root_name, lines);
    builder::law_listed_file_is_at_its_path(b, size, path);
}

// ── paths ──

/// The components of a path are its parts between slashes, none of them empty.
pub proof fn law_components(path: Seq<char>, name: Seq<char>)
    requires
        name.len() > 0,
        !name.contains('/'),
    ensures
        builder::components(path + seq!['/'] + name) == builder::components(path).push(name),
        builder::components(path + seq!['/']) == builder::components(path),
        builder::components(name) == seq![name],
        builder::components(Seq::<char>::empty()).len() == 0,
{
    let none = Seq::<char>::empty();
    roundtrip::lemma_components_add(path, name);
    roundtrip::lemma_components_add(path, none);
    roundtrip::lemma_components_of_name(name);
    roundtrip::lemma_components_of_nothing();
    assert(path + seq!['/'] + none == path + seq!['/']);
    assert(builder::components(path) + seq![name] == builder::components(path).push(name));
    assert(builder::components(path) + Seq::<Seq<char>>::empty() == builder::components(path));
}

/// The path with given components has each of them after a slash.
pub proof fn law_path_of_components(comps: Seq<Seq<char>>, name: Seq<char>)
    ensures
        builder::path_text(comps.push(name)) == builder::path_text(comps) + seq!['/'] + name,
        builder::path_text(Seq::<Seq<char>>::empty()).len() == 0,
{
    assert(comps.push(name).drop_last() == comps);
}

/// An absolute name in a cache file stands in the directory before its last part.
pub proof fn law_absolute_names(dir: Seq<char>, name: Seq<char>)
    requires
        name.len() > 0,
        !name.contains('/'),
        name != seq!['.'],
        name != seq!['.', '.'],
        builder::components(dir).len() == 0 || builder::components(dir).last() != seq!['.'],
    ensures
        import::parent_of(dir + seq!['/'] + name) == builder::components(dir),
        import::leaf_of(dir + seq!['/'] + name) == name,
{
    law_components(dir, name);
    let c = builder::components(dir).push(name);
    assert(c.last() == name);
    assert(c.drop_last() == builder::components(dir));
}

// ── cache files ──

/// The sizes of a cache file are numbers of up to 64 bits, in bytes, or with a letter in units of
/// 1024, of its square and of its cube.
pub proof fn law_sizes_with_units(n: nat)
    requires
        n <= u64::MAX,
    ensures
        import::cache_value(text::decimal(n)) == n,
        import::cache_value(text::decimal(n).push('K')) == n * 1024,
        import::cache_value(text::decimal(n).push('M')) == n * 1024 * 1024,
        import::cache_value(text::decimal(n).push('G')) == n * 1024 * 1024 * 1024,
{
    readback::law_cache_size_reads_back(n);
    readback::law_decimal_reads_back(n);
    readback::lemma_radix_solid(n, 10);
    readback::lemma_number_of_decimal(n);
    let s = text::decimal(n);
    assert(!text::is_space(s[0]));
    assert(s.push('K').drop_last() == s && s.push('M').drop_last() == s && s.push('G').drop_last()
        == s);
    assert(s.push('K')[0] == s[0] && s.push('M')[0] == s[0] && s.push('G')[0] == s[0]);
    readback::lemma_trim_solid_ends(s.push('K'));
    readback::lemma_trim_solid_ends(s.push('M'));
    readback::lemma_trim_solid_ends(s.push('G'));
}

/// A size that is no number counts nothing.
pub proof fn law_sizes_that_are_no_numbers(s: Seq<char>)
    requires
        text::trim(s) == s,
        s.len() > 0 ==> s.last() != 'K' && s.last() != 'M' && s.last() != 'G',
        text::uint_value(s, u64::MAX as nat) is None,
    ensures
        import::cache_value(s) == 0,
{
}

/// The first word of a line says what it is about: a directory, a link, or anything else.
pub proof fn law_kinds_of_lines(word: Seq<char>)
    ensures
        import::kind_of(word) == Kind::Dir <==> word == seq!['D'] || word == seq!['d'],
        import::kind_of(word) == Kind::Link <==> word == seq!['L'] || word == seq!['l'],
{
    assert(seq!['D'][0] == 'D' && seq!['d'][0] == 'd' && seq!['L'][0] == 'L' && seq!['l'][0]
        == 'l');
}

/// A line of three words, the first of them a kind, is read as that kind, the name and the size.
pub proof fn law_cache_lines_are_read(kind: char, name: Seq<char>, n: u64)
    requires
        kind == 'D' || kind == 'F' || kind == 'L',
        name.len() > 0,
        forall|i: int| 0 <= i < name.len() ==> !text::is_space(#[trigger] name[i]),
        !name.contains('%'),
    ensures
        import::line_of(seq![kind, ' '] + name + seq![' '] + text::decimal(n as nat)) == Some(
            LineView {
                kind: if kind == 'D' {
                    Kind::Dir
                } else if kind == 'L' {
                    Kind::Link
                } else {
                    Kind::Other
                },
                name: name,
                size: n as nat,
            },
        ),
        import::line_of(seq![kind, ' '] + name) == Some(
            LineView {
                kind: if kind == 'D' {
                    Kind::Dir
                } else if kind == 'L' {
                    Kind::Link
                } else {
                    Kind::Other
                },
                name: name,
                size: 0,
            },
        ),
{
    let size = text::decimal(n as nat);
    let first = seq![kind];
    let line = seq![kind, ' '] + name + seq![' '] + size;
    let short = seq![kind, ' '] + name;
    readback::law_decimal_reads_back(n as nat);
    readback::lemma_radix_solid(n as nat, 10);
    law_sizes_with_units(n as nat);
    law_kinds_of_lines(first);
    assert(first[0] == kind);
    assert(seq!['D'][0] == 'D' && seq!['L'][0] == 'L' && seq!['d'][0] == 'd' && seq!['l'][0]
        == 'l');
    let tail = name + seq![' '] + size;
    assert(line == first + seq![' '] + tail);
    assert(short == first + seq![' '] + name);
    texts::law_words(first, ' ', tail);
    texts::law_words(first, ' ', name);
    texts::law_words(name, ' ', size);
    texts::law_words(size, ' ', name);
    assert(text::words(line) =~= seq![first, name, size]);
    assert(text::words(short) =~= seq![first, name]);
    assert(line[0] == kind && short[0] == kind);
    assert(line.last() == size.last());
    assert(!text::is_space(size[size.len() - 1]));
    assert(short.last() == name.last());
    assert(!text::is_space(name[name.len() - 1]));
    readback::lemma_trim_solid_ends(line);
    readback::lemma_trim_solid_ends(short);
    escape::law_plain_text_is_decoded_to_itself(name, false);
}

/// Comments, headers, empty lines and single words say nothing.
pub proof fn law_lines_that_say_nothing(s: Seq<char>)
    requires
        text::trim(s).len() == 0 || text::trim(s)[0] == '#' || text::trim(s)[0] == '[' || text::words(
            text::trim(s),
        ).len() < 2,
    ensures
        import::line_of(s) is None,
{
}

/// What a line says comes behind what the lines before it say.
pub proof fn law_lines_are_read_in_order(ls: Seq<Seq<char>>, l: Seq<char>)
    ensures
        import::line_of(l) is Some ==> import::said(ls.push(l)) == import::said(ls).push(
            import::line_of(l)->0,
        ),
        import::line_of(l) is None ==> import::said(ls.push(l)) == import::said(ls),
        import::said(Seq::<Seq<char>>::empty()).len() == 0,
{
    assert(ls.push(l).drop_last() == ls);
}

/// An entry of a cache file counts its size, and is a link where the file says so.
pub proof fn law_cache_entries(parent: usize, name: Seq<char>, size: u64, is_link: bool)
    ensures
        ({
            let n = import::entry_node(parent, name, size, is_link);
            &&& n.parent == parent && n.name == name && n.is_link == is_link && !n.is_dir
            &&& n.own == size && n.sub == size && n.size == size
        }),
{
}

/// The tree of a cache file starts at the root, and every line about an entry adds a node with its
/// name and its size to the directory that was named last.
pub proof fn law_lines_add_entries(ls: Seq<LineView>, l: LineView)
    requires
        import::cache_fits(ls),
        l.kind != Kind::Dir,
        l.size <= u64::MAX,
        l.name.len() == 0 || l.name[0] != '/',
    ensures
        ({
            let (b, cur) = import::cache_tree(ls);
            let (v, now) = import::cache_tree(ls.push(l));
            let n = v.t.last();
            &&& v.t.drop_last() == b.t
            &&& now == cur
            &&& n.parent == cur && n.name == l.name && n.own == l.size && n.size == l.size
            &&& n.is_link == (l.kind == Kind::Link) && !n.is_dir
        }),
        import::cache_tree(Seq::<LineView>::empty()).0.t.len() == 1,
        import::cache_tree(Seq::<LineView>::empty()).0.t[0].name == "/"@,
        import::cache_tree(Seq::<LineView>::empty()).0.t[0].is_dir,
        import::cache_tree(Seq::<LineView>::empty()).1 == 0,
{
    assert(ls.push(l).drop_last() == ls);
    let (b, cur) = import::cache_tree(ls);
    let v = import::cache_tree(ls.push(l)).0;
    assert(v.t.drop_last() == b.t);
}

// ── reports ──

/// A cache file is what starts with its mark, a JSON tree what starts with a brace, both after
/// white space; what is neither is refused.
pub proof fn law_which_files_are_imported(content: Seq<char>, r: Result<Imported, String>)
    requires
        import::is_import_of(content, r),
    ensures
        r is Ok <==> "[qdirstat"@.is_prefix_of(text::trim_start(content)) || (text::trim_start(
            content,
        ).len() > 0 && text::trim_start(content)[0] == '{'),
        r is Err ==> r->Err_0@
            == "unrecognized file (expected a QDirStat cache or a sdirstat JSON tree)"@,
        r is Ok ==> r->Ok_0.source@ == if "[qdirstat"@.is_prefix_of(text::trim_start(content)) {
            "cache"@
        } else {
            "json"@
        },
{
    reveal_strlit("[qdirstat");
    if "[qdirstat"@.is_prefix_of(text::trim_start(content)) {
        assert("[qdirstat"@[0] == '[');
    }
}

proof fn lemma_folded_arena(t: Seq<NodeView>)
    requires
        arena::is_arena(t),
    ensures
        arena::is_arena(arena::folded(t)),
        arena::folded(t).len() == t.len(),
        arena::parents(arena::folded(t)) == arena::parents(t),
{
    let u = arena::folded(t);
    assert forall|k: int| 1 <= k < u.len() implies #[trigger] u[k].parent < k by {
        assert(u[k].parent == t[k].parent);
        assert(t[k].parent < k);
    }
    assert(arena::parents(u) =~= arena::parents(t));
}

proof fn lemma_written_head(u: Seq<NodeView>, top: nat, i: int)
    requires
        arena::is_arena(u),
        0 <= i < u.len() <= usize::MAX,
    ensures
        pruning::stands_in(
            "{\"n\":\""@ + escape::json_escaped(u[i].name) + "\",\"v\":"@ + text::decimal(u[i].sub as nat),
            json::node_text(u, top, i),
        ),
{
    let node = json::node_text(u, top, i);
    pruning::law_nodes_are_written_with_name_and_bytes(u, top, i);
    let part = "{\"n\":\""@ + escape::json_escaped(u[i].name) + "\",\"v\":"@ + text::decimal(
        u[i].sub as nat,
    );
    let flag = ",\"d\":"@ + (if u[i].is_dir {
        "1"@
    } else {
        "0"@
    });
    let head = part + ",\"d\":"@ + (if u[i].is_dir {
        "1"@
    } else {
        "0"@
    });
    assert(head =~= part + flag);
    let rest = node.skip(head.len() as int);
    assert(node.subrange(0, head.len() as int) == head);
    assert(node =~= head + rest);
    assert(node =~= Seq::<char>::empty() + part + (flag + rest));
}

proof fn lemma_response_starts(u: Seq<NodeView>, top: nat)
    ensures
        ("{\"scan_ms\":0,\"entries\":"@ + text::decimal(u.len()) + ",\"tree\":"@).is_prefix_of(
            summary::response(u, 0, top),
        ),
{
    reveal_strlit("{\"scan_ms\":");
    reveal_strlit(",\"entries\":");
    reveal_strlit("{\"scan_ms\":0,\"entries\":");
    texts::law_decimal_digit_by_digit(0, 0);
    let a = "{\"scan_ms\":0,\"entries\":"@ + text::decimal(u.len()) + ",\"tree\":"@;
    let b = "{\"scan_ms\":"@ + text::decimal(0) + ",\"entries\":"@ + text::decimal(u.len())
        + ",\"tree\":"@;
    assert("{\"scan_ms\":"@ + text::decimal(0) + ",\"entries\":"@
        =~= "{\"scan_ms\":0,\"entries\":"@);
    assert(b =~= a);
    assert(summary::response(u, 0, top).subrange(0, a.len() as int) =~= a);
}

proof fn lemma_tree_in_response(u: Seq<NodeView>, top: nat)
    ensures
        pruning::stands_in(json::node_text(u, top, 0), summary::response(u, 0, top)),
{
    let whole = json::node_text(u, top, 0);
    let a = "{\"scan_ms\":"@ + text::decimal(0) + ",\"entries\":"@ + text::decimal(u.len())
        + ",\"tree\":"@;
    let b = ",\"types\":"@ + filetypes::types_text(u) + "}"@;
    assert(summary::response(u, 0, top) =~= a + whole + b);
}

/// The report of a cache file has the bytes and the entries of its tree, and names every node of
/// it: nothing is left out of a directory with up to 2 to the 20th children.
pub proof fn law_imported_caches_are_whole(content: Seq<char>, r: Result<Imported, String>, i: int)
    requires
        import::is_import_of(content, r),
        import::importable(content),
        "[qdirstat"@.is_prefix_of(text::trim_start(content)),
        ({
            let t = import::cache_tree(import::said(text::lines(content))).0.t;
            &&& forall|p: int|
                0 <= p < t.len() ==> (#[trigger] hash::children(arena::parents(t), p)).len()
                    <= 1_048_576
            &&& 0 <= i < t.len()
        }),
    ensures
        r is Ok,
        ({
            let t = import::cache_tree(import::said(text::lines(content))).0.t;
            let u = arena::folded(t);
            &&& r->Ok_0.total == arena::total(t)
            &&& r->Ok_0.entries == t.len()
            &&& ("{\"scan_ms\":0,\"entries\":"@ + text::decimal(t.len())
                + ",\"tree\":"@).is_prefix_of(r->Ok_0.response@)
            &&& pruning::stands_in(
                "{\"n\":\""@ + escape::json_escaped(t[i].name) + "\",\"v\":"@ + text::decimal(
                    arena::subtree(t, i),
                ),
                r->Ok_0.response@,
            )
            &&& json::rest_text(u, 1_048_576, i).len() == 0
        }),
{
    let ls = import::said(text::lines(content));
    let t = import::cache_tree(ls).0.t;
    let u = arena::folded(t);
    let top = import::import_cfg().top as nat;
    assert(import::is_cache(content));
    import::law_cache_tree_is_sound(ls);
    folding::law_folding_changes_bytes_only(t, i);
    lemma_folded_arena(t);
    assert forall|p: int| 0 <= p < u.len() implies (#[trigger] hash::children(
        arena::parents(u),
        p,
    )).len() <= top by {
        assert(hash::children(arena::parents(t), p).len() <= 1_048_576);
    }
    pruning::law_nothing_is_pruned_below_the_limit(u, top, i);
    pruning::law_how_many_children_are_kept(u, 1_048_576, i);
    assert(hash::children(arena::parents(t), i).len() <= 1_048_576);
    lemma_written_head(u, top, i);
    lemma_tree_in_response(u, top);
    lemma_response_starts(u, top);
    let part = "{\"n\":\""@ + escape::json_escaped(t[i].name) + "\",\"v\":"@ + text::decimal(
        arena::subtree(t, i),
    );
    pruning::lemma_stands_within(part, json::node_text(u, top, i), json::node_text(u, top, 0));
    pruning::lemma_stands_within(part, json::node_text(u, top, 0), summary::response(u, 0, top));
}

/// A JSON tree is reported as it is, after the white space before it.
pub proof fn law_imported_json_is_kept(content: Seq<char>, r: Result<Imported, String>)
    requires
        import::is_import_of(content, r),
        text::trim_start(content).len() > 0,
        text::trim_start(content)[0] == '{',
    ensures
        r is Ok,
        pruning::stands_in(text::trim_start(content), r->Ok_0.response@),
        r->Ok_0.response@ == "{\"scan_ms\":0,\"entries\":0,\"tree\":"@ + text::trim_start(content)
            + ",\"types\":[]}"@,
        r->Ok_0.entries == 0,
        r->Ok_0.total == import::root_bytes(text::trim_start(content)),
{
    reveal_strlit("[qdirstat");
    if "[qdirstat"@.is_prefix_of(text::trim_start(content)) {
        assert("[qdirstat"@[0] == '[');
        assert(text::trim_start(content).subrange(0, 9)[0] == text::trim_start(content)[0]);
    }
}

/// White space around the number of a line does not matter.
pub proof fn law_numbers_may_be_padded(ls: Seq<Seq<char>>, s: Seq<char>, v: u64, p: Seq<char>)
    requires
        !s.contains('\t'),
        text::trim(s) == text::decimal(v as nat),
    ensures
        import::rclone_lines(ls.push(s + seq!['\t'] + p)) == import::rclone_lines(ls).push((v, p)),
{
    texts::law_pieces(s, '\t', p);
    texts::law_numbers_are_read(v as nat, u64::MAX as nat);
    assert(ls.push(s + seq!['\t'] + p).drop_last() == ls);
}

/// A line about a directory makes it the one whose entries follow, and gives it its size.
pub proof fn law_lines_about_directories(ls: Seq<LineView>, l: LineView, j: int)
    requires
        import::cache_fits(ls),
        l.kind == Kind::Dir,
        l.size <= u64::MAX,
        import::node_bound(ls) + builder::components(l.name).len() + 1 <= usize::MAX,
    ensures
        ({
            let b = import::cache_tree(ls).0;
            let (v, now) = import::cache_tree(ls.push(l));
            &&& now < v.t.len()
            &&& builder::tree_path(v.t, now as int) == builder::path_text(
                builder::components(l.name),
            )
            &&& v.t[now as int].is_dir
            &&& v.t[now as int].own == l.size && v.t[now as int].sub == l.size
            &&& 0 <= j < b.t.len() && j != now ==> v.t[j] == b.t[j]
        }),
{
    assert(ls.push(l).drop_last() == ls);
    import::law_cache_tree_is_sound(ls);
    let (b, cur) = import::cache_tree(ls);
    import::law_line_is_at_its_path(b, cur, l);
    builder::lemma_with_dir_sound(b, builder::components(l.name));
    let (p, id) = builder::with_dir(b, builder::components(l.name));
    if 0 <= j < b.t.len() {
        assert(p.t.subrange(0, b.t.len() as int)[j] == b.t[j]);
    }
}

/// A line about an entry with an absolute name adds it to the directory of that name, and the
/// entries that follow still belong to the directory that was named last.
pub proof fn law_lines_with_absolute_names(ls: Seq<LineView>, l: LineView)
    requires
        import::cache_fits(ls),
        l.kind != Kind::Dir,
        l.size <= u64::MAX,
        l.name.len() > 0,
        l.name[0] == '/',
        import::node_bound(ls) + builder::components(l.name).len() + 1 <= usize::MAX,
    ensures
        ({
            let cur = import::cache_tree(ls).1;
            let (v, now) = import::cache_tree(ls.push(l));
            let n = v.t.last();
            &&& now == cur
            &&& n.name == import::leaf_of(l.name)
            &&& builder::tree_path(v.t, n.parent as int) == builder::path_text(
                import::parent_of(l.name),
            )
            &&& n.own == l.size && n.sub == l.size && n.size == l.size
            &&& n.is_link == (l.kind == Kind::Link) && !n.is_dir
        }),
{
    assert(ls.push(l).drop_last() == ls);
    import::law_cache_tree_is_sound(ls);
    let (b, cur) = import::cache_tree(ls);
    let comps = import::parent_of(l.name);
    lemma_fewer_components(builder::components(l.name));
    builder::lemma_with_dir_sound(b, comps);
    let (p, id) = builder::with_dir(b, comps);
    let v = import::cache_tree(ls.push(l)).0;
    lemma_paths_stay(p.t, v.t.last(), id as int);
    assert(v.t =~= p.t.push(v.t.last()));
}

proof fn lemma_fewer_components(c: Seq<Seq<char>>)
    ensures
        import::without_dots(c).len() <= c.len(),
        c.len() > 0 ==> import::without_dots(import::without_dots(c).drop_last()).len() <= c.len()
            || import::without_dots(c).len() == 0,
    decreases c.len(),
{
    lemma_dots_only(c);
    if import::without_dots(c).len() > 0 {
        lemma_dots_only(import::without_dots(c).drop_last());
    }
}

proof fn lemma_dots_only(c: Seq<Seq<char>>)
    ensures
        import::without_dots(c).len() <= c.len(),
    decreases c.len(),
{
    if c.len() > 0 && c.last() == seq!['.'] {
        lemma_dots_only(c.drop_last());
    }
}

proof fn lemma_paths_stay(t: Seq<NodeView>, n: NodeView, i: int)
    requires
        0 <= i < t.len(),
    ensures
        builder::tree_path(t.push(n), i) == builder::tree_path(t, i),
    decreases i,
{
    if i > 0 && t[i].parent < i {
        lemma_paths_stay(t, n, t[i].parent as int);
    }
}

/// A size with a letter behind what is no number counts nothing, and white space around a size does
/// not matter.
pub proof fn law_sizes_in_other_forms(s: Seq<char>)
    requires
        text::uint_value(s, u64::MAX as nat) is None,
        s.len() > 0 ==> !text::is_space(s[0]),
    ensures
        import::cache_value(s.push('K')) == 0,
        import::cache_value(s.push('M')) == 0,
        import::cache_value(s.push('G')) == 0,
        import::cache_value(text::trim(s)) == import::cache_value(s),
{
    assert(s.push('K').drop_last() == s && s.push('M').drop_last() == s && s.push('G').drop_last()
        == s);
    if s.len() > 0 {
        assert(s.push('K')[0] == s[0] && s.push('M')[0] == s[0] && s.push('G')[0] == s[0]);
    }
    readback::lemma_trim_solid_ends(s.push('K'));
    readback::lemma_trim_solid_ends(s.push('M'));
    readback::lemma_trim_solid_ends(s.push('G'));
    let t = text::trim(s);
    let (a, b) = texts::law_trimming(s);
    if t.len() > 0 {
        readback::lemma_trim_solid_ends(t);
    } else {
        let (c, d) = texts::law_trimming(t);
        assert(text::trim(t) =~= t);
    }
}

/// A tree without a mark, or with a number behind it that is too large, has no bytes.
pub proof fn law_json_trees_without_bytes(s: Seq<char>, n: nat, rest: Seq<char>)
    requires
        n > u64::MAX,
        rest.len() > 0,
        rest[0] == ',',
    ensures
        text::find_text(s, "\"v\":"@) is None ==> import::root_bytes(s) == 0,
        import::root_bytes("\"v\":"@ + text::decimal(n) + rest) == 0,
{
    let p = "\"v\":"@;
    let d = text::decimal(n);
    let u = p + d + rest;
    readback::law_decimal_reads_back(n);
    assert(u.skip(0) =~= u);
    assert(p.is_prefix_of(u)) by {
        assert(u.subrange(0, p.len() as int) =~= p);
    }
    readback::lemma_find_text_is(u, p, 0);
    assert(u.skip(p.len() as int) =~= d + rest);
    readback::lemma_first_number(d, rest);
    texts::law_numbers_are_read(n, u64::MAX as nat);
}

/// The name in a line is decoded, byte by byte; what stands behind the size does not matter.
pub proof fn law_names_in_lines_are_decoded(
    kind: char,
    name: Seq<char>,
    n: u64,
    rest: Seq<char>,
)
    requires
        kind == 'D' || kind == 'F' || kind == 'L',
        name.len() > 0,
        forall|i: int| 0 <= i < name.len() ==> !text::is_space(#[trigger] name[i]),
        rest.len() > 0,
        !text::is_space(rest.last()),
    ensures
        ({
            let l = import::line_of(
                seq![kind, ' '] + name + seq![' '] + text::decimal(n as nat) + seq![' '] + rest,
            );
            &&& l is Some
            &&& l->0.name == text::utf8_text(
                escape::percent_decoded(vstd::utf8::encode_utf8(name), false),
            )
            &&& l->0.size == n
            &&& l->0.kind == Kind::Dir <==> kind == 'D'
            &&& l->0.kind == Kind::Link <==> kind == 'L'
        }),
{
    let size = text::decimal(n as nat);
    let first = seq![kind];
    let line = seq![kind, ' '] + name + seq![' '] + size + seq![' '] + rest;
    readback::law_decimal_reads_back(n as nat);
    readback::lemma_radix_solid(n as nat, 10);
    law_sizes_with_units(n as nat);
    law_kinds_of_lines(first);
    assert(first[0] == kind);
    assert(seq!['D'][0] == 'D' && seq!['L'][0] == 'L' && seq!['d'][0] == 'd' && seq!['l'][0]
        == 'l');
    let last = size + seq![' '] + rest;
    let tail = name + seq![' '] + last;
    assert(line =~= first + seq![' '] + tail);
    texts::law_words(first, ' ', tail);
    texts::law_words(name, ' ', last);
    texts::law_words(size, ' ', rest);
    assert(text::words(line) =~= seq![first, name, size] + text::words(rest));
    assert(text::words(line)[0] == first && text::words(line)[1] == name && text::words(line)[2]
        == size);
    assert(line[0] == kind);
    assert(line.last() == rest.last());
    readback::lemma_trim_solid_ends(line);
    if kind == 'D' {
        assert(first == seq!['D']);
    }
    if kind == 'L' {
        assert(first == seq!['L']);
    }
}

/// White space around a line does not matter.
pub proof fn law_lines_are_trimmed(line: Seq<char>)
    ensures
        import::line_of(text::trim(line)) == import::line_of(line),
{
    let t = text::trim(line);
    let (a, b) = texts::law_trimming(line);
    if t.len() > 0 {
        readback::lemma_trim_solid_ends(t);
    } else {
        let (c, d) = texts::law_trimming(t);
        assert(text::trim(t) =~= t);
    }
}

/// The root and what leads upwards have no name of their own: such a name is kept as it is written.
pub proof fn law_names_that_lead_upwards(path: Seq<char>)
    ensures
        builder::components(path).len() == 0 ==> import::leaf_of(path) == path
            && import::parent_of(path).len() == 0,
        builder::components(path).len() > 0 && builder::components(path).last() == seq!['.', '.']
            ==> import::leaf_of(path) == path,
{
    if builder::components(path).len() > 0 {
        assert(seq!['.', '.'].len() == 2 && seq!['.'].len() == 1);
    }
}

/// A single dot before the last part of a name does not matter.
pub proof fn law_dots_within_names(dir: Seq<char>, name: Seq<char>)
    requires
        name.len() > 0,
        !name.contains('/'),
        name != seq!['.'],
        builder::components(dir).len() == 0 || builder::components(dir).last() != seq!['.'],
    ensures
        import::parent_of(dir + seq!['/', '.', '/'] + name) == builder::components(dir),
{
    let dotted = dir + seq!['/'] + seq!['.'];
    assert(!seq!['.'].contains('/'));
    law_components(dir, seq!['.']);
    law_components(dotted, name);
    assert(dir + seq!['/', '.', '/'] + name =~= dotted + seq!['/'] + name);
    let c = builder::components(dir);
    let d = c.push(seq!['.']);
    assert(d.push(name).last() == name);
    assert(d.push(name).drop_last() =~= d);
    assert(d.last() == seq!['.'] && d.drop_last() =~= c);
    assert(import::without_dots(c) == c);
    assert(import::without_dots(d) == c);
    assert(import::without_dots(d.push(name)) == d.push(name));
}

} // verus!
