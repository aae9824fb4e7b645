//! What single calls return and change.

use crate::arena;
use crate::arena::{Cfg, Node, NodeView};
use crate::builder;
use crate::builder::Builder;
use crate::cache;
use crate::escape;
use crate::filetypes;
use crate::hash;
use crate::hash::{Acc, Csr};
use crate::import;
use crate::import::{Imported, LineView};
use crate::json;
use crate::laws::importing;
use crate::laws::texts;
use crate::readback;
use crate::reports;
use crate::summary;
use crate::text;
use crate::uring;
use crate::web;
use vstd::prelude::*;

verus! {

// ── trees ──

/// Folding gives every node the bytes of its whole subtree and changes nothing else.
pub proof fn law_sizes_are_folded(nodes: &mut Vec<Node>, i: int)
    requires
        arena::is_arena(arena::tree(old(nodes)@)),
        arena::total(arena::tree(old(nodes)@)) <= u64::MAX,
        call_ensures(arena::fold_sizes, (nodes,), ()),
        0 <= i < old(nodes)@.len(),
    ensures
        final(nodes)@.len() == old(nodes)@.len(),
        final(nodes)@[i]@ == (NodeView {
            sub: arena::subtree(arena::tree(old(nodes)@), i) as u64,
            ..old(nodes)@[i]@
        }),
        final(nodes)@[0]@.sub == arena::total(arena::tree(old(nodes)@)),
{
    let t = arena::tree(old(nodes)@);
    let u = arena::tree(final(nodes)@);
    assert(u.len() == final(nodes)@.len() && t.len() == old(nodes)@.len());
    assert(u[i] == final(nodes)@[i]@);
    assert(t[i] == old(nodes)@[i]@);
    assert(u[0] == final(nodes)@[0]@);
    arena::law_root_holds_everything(t);
}

/// The children of a node are listed in increasing order: those with it as their parent, and no
/// other.
pub proof fn law_children_lists(ps: &Vec<usize>, csr: Csr, i: usize, r: &[usize], c: usize)
    requires
        ps@.len() < usize::MAX,
        forall|j: int| 0 <= j < ps@.len() ==> #[trigger] ps@[j] < ps@.len(),
        call_ensures(Csr::from_parent_list, (ps,), csr),
        i < ps@.len(),
        call_ensures(Csr::of, (&csr, i), r),
    ensures
        r@.contains(c) <==> 1 <= c < ps@.len() && ps@[c as int] == i,
        forall|a: int, b: int| 0 <= a < b < r@.len() ==> r@[a] < r@[b],
{
    hash::lemma_children_below(ps@, i as int, ps@.len() as int);
    let v = hash::children_below(ps@, i as int, ps@.len() as int);
    assert(r@ == v);
    if r@.contains(c) {
        let k = choose|k: int| 0 <= k < r@.len() && r@[k] == c;
        assert(v[k] == c);
    }
    if 1 <= c < ps@.len() && ps@[c as int] == i {
        lemma_children_are_all(ps@, i as int, ps@.len() as int, c);
    }
}

proof fn lemma_children_are_all(ps: Seq<usize>, i: int, k: int, c: usize)
    requires
        1 <= c < k <= ps.len() <= usize::MAX,
        ps[c as int] == i,
    ensures
        hash::children_below(ps, i, k).contains(c),
    decreases k,
{
    let v = hash::children_below(ps, i, k);
    let rest = hash::children_below(ps, i, k - 1);
    if c == k - 1 {
        assert(v[v.len() - 1] == c);
    } else {
        lemma_children_are_all(ps, i, k - 1, c);
        let j = choose|j: int| 0 <= j < rest.len() && rest[j] == c;
        assert(v[j] == c);
    }
}

// ── texts ──

/// An escaped text is put behind what is there.
pub proof fn law_escaped_texts_are_put_in(s: &str, out: &mut String)
    requires
        call_ensures(escape::json_escape, (s, out), ()),
    ensures
        final(out)@ == old(out)@ + escape::json_escaped(s@),
{
}

/// A text without percent signs is decoded to itself; in a query its plus signs are spaces.
pub proof fn law_decoded_texts(s: &str, r: String, q: String)
    requires
        !s@.contains('%'),
        call_ensures(escape::url_unescape, (s,), r),
        call_ensures(escape::url_decode, (s,), q),
    ensures
        r@ == s@,
        q@ == text::replace(s@, seq!['+'], seq![' ']),
{
    escape::law_plain_text_is_decoded_to_itself(s@, false);
    crate::laws::requests::law_values_are_decoded(s@);
}

/// What was escaped for a cache file is decoded to what it was.
pub proof fn law_cache_names_are_read_back(s: &str, name: Seq<char>, r: String)
    requires
        s@ == escape::cache_escaped(name),
        call_ensures(escape::url_unescape, (s,), r),
    ensures
        r@ == name,
{
    escape::law_cache_escape_reads_back(name);
    texts::law_encoded_texts_are_read_back(name);
}

/// A parameter is the one of the target.
pub proof fn law_parameters_are_returned(
    target: &str,
    key: &str,
    path: Seq<char>,
    pairs: Seq<(Seq<char>, Seq<char>)>,
    i: int,
    r: Option<String>,
)
    requires
        call_ensures(web::qparam, (target, key), r),
        !path.contains('?'),
        0 <= i < pairs.len(),
        forall|j: int|
            0 <= j < pairs.len() ==> crate::laws::requests::is_plain_pair(#[trigger] pairs[j]),
        target@ == path + seq!['?'] + crate::laws::requests::query_text(pairs),
        pairs[i].0 == key@,
        forall|j: int| 0 <= j < i ==> (#[trigger] pairs[j]).0 != key@,
    ensures
        r is Some,
        r->0@ == pairs[i].1,
{
    crate::laws::requests::law_parameters_are_found(path, pairs, key@, i);
}

/// A request of bytes is read as its text.
pub proof fn law_requests_of_bytes(
    bytes: &[u8],
    content: &str,
    r: (String, String),
    s: (String, String),
)
    requires
        bytes@ == vstd::utf8::encode_utf8(content@),
        call_ensures(web::parse_request, (bytes,), r),
        call_ensures(web::request_line, (content,), s),
    ensures
        r.0@ == s.0@,
        r.1@ == s.1@,
{
    texts::law_encoded_texts_are_read_back(content@);
}

/// The head of an answer has its status, its type and its length, and ends with an empty line.
pub proof fn law_heads_of_answers(status: &str, ctype: &str, len: usize, r: String)
    requires
        call_ensures(web::http_head, (status, ctype, len), r),
    ensures
        r@ == "HTTP/1.1 "@ + status@ + "\r\nContent-Type: "@ + ctype@ + "\r\nContent-Length: "@
            + text::decimal(len as nat)
            + "\r\nAccess-Control-Allow-Origin: *\r\nConnection: close\r\n\r\n"@,
{
}

/// An error is answered with its message, without double quotes.
pub proof fn law_errors_are_answered(e: &str, r: String)
    requires
        call_ensures(web::error_body, (e,), r),
    ensures
        r@ == "{\"error\":\""@ + web::quoted(e@) + "\"}"@,
{
}

/// Paths are joined below a base and below a directory.
pub proof fn law_joined(base: &str, rest: &str, r: String, s: String)
    requires
        call_ensures(reports::join_below, (base, rest), r),
        call_ensures(cache::join_path, (base, rest), s),
        base@.len() > 0,
        base@.last() != '/',
    ensures
        r@ == base@ + seq!['/'] + rest@,
        s@ == base@ + seq!['/'] + rest@,
{
    crate::laws::keeping::law_paths_below(base@, rest@);
    crate::laws::caches::law_joined_paths(base@, rest@);
}

/// The kernel's listing is returned entry by entry, with names and kinds.
pub proof fn law_listings_are_returned(b: &[u8], r: Option<Vec<(Vec<u8>, u8)>>, i: int)
    requires
        call_ensures(uring::read_dir, (b,), r),
    ensures
        r is Some <==> uring::records(b@) is Some,
        r is Some ==> r->0@.len() == uring::records(b@)->0.len(),
        r is Some && 0 <= i < r->0@.len() ==> (r->0@[i].0@, r->0@[i].1) == uring::records(b@)->0[i],
{
    if r is Some {
        let v = uring::entry_views(r->0@);
        assert(v.len() == r->0@.len());
        if 0 <= i < r->0@.len() {
            assert(v[i] == (r->0@[i].0@, r->0@[i].1));
        }
    }
}

// ── what is written ──

/// Trees, types, directories and the fields of entries are written behind what is there.
pub proof fn law_trees_are_written(
    i: usize,
    kids: &Csr,
    nodes: &[Node],
    cfg: &Cfg,
    acc: &mut Acc,
)
    requires
        i < nodes@.len(),
        call_ensures(json::emit_json, (i, kids, nodes, cfg, acc), ()),
    ensures
        final(acc)@ == old(acc)@ + vstd::utf8::encode_utf8(
            json::node_text(arena::tree(nodes@), cfg.top as nat, i as int),
        ),
{
}

/// The types of the files are written behind what is there.
pub proof fn law_types_are_written(nodes: &[Node], acc: &mut Acc)
    requires
        call_ensures(filetypes::type_stats_into, (nodes, acc), ()),
    ensures
        final(acc)@ == old(acc)@ + vstd::utf8::encode_utf8(
            filetypes::types_text(arena::tree(nodes@)),
        ),
{
}

/// The lines of a directory are written behind what is there.
pub proof fn law_directories_are_written(
    acc: &mut Acc,
    i: usize,
    path: &str,
    kids: &Csr,
    nodes: &[Node],
)
    requires
        call_ensures(cache::cache_dir, (acc, i, path, kids, nodes), ()),
    ensures
        final(acc)@ == old(acc)@ + vstd::utf8::encode_utf8(
            cache::dir_text(arena::tree(nodes@), i as int, path@),
        ),
{
}

/// The fields of an entry are written behind what is there.
pub proof fn law_fields_are_written(acc: &mut Acc, n: &Node)
    requires
        call_ensures(cache::cache_tail, (acc, n), ()),
    ensures
        final(acc)@ == old(acc)@ + vstd::utf8::encode_utf8(cache::tail(n@)),
{
}

// ── what is imported ──

/// A size in a cache file is its number, with a letter for the unit.
pub proof fn law_sizes_are_returned(
    n: nat,
    b: &str,
    k: &str,
    m: &str,
    g: &str,
    r: (u64, u64, u64, u64),
)
    requires
        n * 1024 * 1024 * 1024 <= u64::MAX,
        b@ == text::decimal(n),
        k@ == text::decimal(n).push('K'),
        m@ == text::decimal(n).push('M'),
        g@ == text::decimal(n).push('G'),
        call_ensures(import::cache_size, (b,), r.0),
        call_ensures(import::cache_size, (k,), r.1),
        call_ensures(import::cache_size, (m,), r.2),
        call_ensures(import::cache_size, (g,), r.3),
    ensures
        r.0 == n,
        r.1 == n * 1024,
        r.2 == n * 1048576,
        r.3 == n * 1073741824,
{
    importing::law_sizes_with_units(n);
}

/// The directory that is asked for is there, at its path.
pub proof fn law_directories_are_ensured(path: &str, b: &mut Builder, r: usize)
    requires
        builder::sound(old(b)@),
        call_ensures(import::ensure_cache_dir, (path, b), r),
        old(b)@.t.len() + builder::components(path@).len() <= usize::MAX,
    ensures
        r < final(b)@.t.len(),
        final(b)@.t[r as int].is_dir,
        builder::tree_path(final(b)@.t, r as int) == builder::path_text(builder::components(path@)),
        old(b)@.t.is_prefix_of(final(b)@.t),
{
    builder::lemma_with_dir_sound(old(b)@, builder::components(path@));
}

/// The bytes of a node are replaced, those it brings and those it holds; nothing else changes.
pub proof fn law_bytes_are_set(b: &mut Builder, i: usize, bytes: u64, j: int)
    requires
        builder::sound(old(b)@),
        i < old(b)@.t.len(),
        call_ensures(Builder::set_bytes, (b, i, bytes), ()),
    ensures
        final(b)@.t.len() == old(b)@.t.len(),
        final(b)@.t[i as int] == (NodeView { own: bytes, sub: bytes, ..old(b)@.t[i as int] }),
        0 <= j < old(b)@.t.len() && j != i ==> final(b)@.t[j] == old(b)@.t[j],
{
}

/// A node is put behind the others.
pub proof fn law_nodes_are_put_in(b: &mut Builder, n: Node)
    requires
        builder::sound(old(b)@),
        n.parent < old(b)@.t.len(),
        old(b)@.t[n.parent as int].is_dir,
        call_ensures(Builder::add_node, (b, n), ()),
    ensures
        final(b)@.t == old(b)@.t.push(n@),
{
}

/// What is known of an imported entry is its name and its size; what is known of a listed file is
/// that and its blocks.
pub proof fn law_imported_nodes(parent: usize, name: Seq<char>, size: u64, is_link: bool)
    ensures
        import::entry_node(parent, name, size, is_link) == (NodeView {
            parent: parent,
            name: name,
            own: size,
            sub: size,
            size: size,
            blocks: 0,
            mtime: 0,
            uid: 0,
            gid: 0,
            mode: 0,
            nlink: 1,
            is_dir: false,
            is_link: is_link,
        }),
        builder::file_node(parent, name, size) == (NodeView {
            blocks: builder::file_node(parent, name, size).blocks,
            ..import::entry_node(parent, name, size, false)
        }),
{
}

/// A cache file is parsed into the tree of what its lines say, and a listing into the tree of its
/// files.
pub proof fn law_files_are_parsed(
    content: &str,
    r: Vec<Node>,
    root_name: &str,
    lines: &Vec<(u64, String)>,
    s: Vec<Node>,
)
    requires
        call_ensures(import::parse_qdirstat_cache, (content,), r),
        call_ensures(builder::build_tree_from_flat, (root_name, lines), s),
    ensures
        arena::tree(r@) == import::cache_tree(import::said(text::lines(content@))).0.t,
        arena::tree(s@) == builder::flat_tree(root_name@, builder::listing(lines@)).t,
{
}

/// The error of a listing is what was printed, without the white space around it.
pub proof fn law_errors_of_listings(stderr: &[u8], message: Seq<char>, r: String)
    requires
        stderr@ == vstd::utf8::encode_utf8(message),
        call_ensures(import::rclone_error, (stderr,), r),
    ensures
        exists|a: Seq<char>, b: Seq<char>|
            message == #[trigger] (a + r@ + b) && (forall|i: int|
                0 <= i < a.len() ==> text::is_space(#[trigger] a[i])) && (forall|i: int|
                0 <= i < b.len() ==> text::is_space(#[trigger] b[i])),
        r@.len() > 0 ==> !text::is_space(r@[0]) && !text::is_space(r@.last()),
{
    texts::law_encoded_texts_are_read_back(message);
    let (a, b) = texts::law_trimming(message);
    assert(message == a + r@ + b);
}

/// A listing of bytes is read like its text.
pub proof fn law_listings_of_bytes(
    stdout: &[u8],
    files: Seq<(u64, Seq<char>)>,
    r: Vec<(u64, String)>,
    i: int,
)
    requires
        stdout@ == vstd::utf8::encode_utf8(importing::listing_text(files)),
        call_ensures(import::parse_rclone, (stdout,), r),
        forall|i: int|
            0 <= i < files.len() ==> !(#[trigger] files[i]).1.contains('\n') && (files[i].1.len()
                == 0 || files[i].1.last() != '\r'),
        0 <= i < files.len(),
    ensures
        r@.len() == files.len(),
        r@[i].0 == files[i].0,
        r@[i].1@ == files[i].1,
{
    texts::law_encoded_texts_are_read_back(importing::listing_text(files));
    importing::law_listings_are_read_back(files);
    let v = builder::listing(r@);
    assert(v.len() == r@.len());
    assert(v[i] == (r@[i].0, r@[i].1@));
}

/// Every file that is no cache file can be tried; a cache file can be where its sizes, its nodes
/// and its bytes can be counted.
pub proof fn law_what_can_be_imported(content: &str, r: Option<Result<Imported, String>>, c: bool)
    requires
        call_ensures(import::try_import, (content,), r),
        call_ensures(import::can_import, (content,), c),
    ensures
        r is Some <==> c,
        r is Some ==> import::is_import_of(content@, r->0),
        !"[qdirstat"@.is_prefix_of(text::trim_start(content@)) ==> c,
        "[qdirstat"@.is_prefix_of(text::trim_start(content@)) ==> (c <==> import::cache_fits(
            import::said(text::lines(content@)),
        ) && arena::total(import::cache_tree(import::said(text::lines(content@))).0.t) <= u64::MAX),
{
}

/// A line more still fits where its size does, and its node and those of the directories on its
/// path can be counted.
pub proof fn law_lines_that_fit(ls: Seq<LineView>, l: LineView)
    requires
        import::cache_fits(ls),
        l.size <= u64::MAX,
        import::node_bound(ls) + builder::components(l.name).len() + 1 < usize::MAX,
    ensures
        import::cache_fits(ls.push(l)),
        import::node_bound(ls.push(l)) == import::node_bound(ls) + builder::components(l.name).len()
            + 1,
        import::node_bound(Seq::<LineView>::empty()) == 1,
        import::cache_fits(Seq::<LineView>::empty()),
{
    assert(ls.push(l).drop_last() == ls);
    assert forall|i: int| 0 <= i < ls.push(l).len() implies (#[trigger] ls.push(l)[i]).size
        <= u64::MAX by {
        if i < ls.len() {
            assert(ls.push(l)[i] == ls[i]);
        }
    }
}

/// A listing fits where no size is within 511 bytes of the largest number and the components of its
/// paths can be counted.
pub proof fn law_listings_that_fit(lines: &Vec<(u64, String)>, r: bool)
    requires
        call_ensures(builder::flat_listing_fits, (lines,), r),
        forall|i: int| 0 <= i < lines@.len() ==> (#[trigger] lines@[i]).0 + 511 <= u64::MAX,
        1 + builder::component_count(builder::listing(lines@)) <= usize::MAX,
    ensures
        r,
{
    let v = builder::listing(lines@);
    assert forall|i: int|
        0 <= i < v.len() && builder::components((#[trigger] v[i]).1).len() > 0 implies v[i].0 + 511
        <= u64::MAX by {
        assert(v[i].0 == lines@[i].0);
        assert(lines@[i].0 + 511 <= u64::MAX);
    }
}

/// The directory of an absolute name, and what it is called there, do not change with a slash or a
/// single dot more at its end.
pub proof fn law_endings_of_names(path: Seq<char>)
    requires
        builder::components(path).len() > 0,
        builder::components(path).last() != seq!['.'],
        builder::components(path).last() != seq!['.', '.'],
    ensures
        import::parent_of(path + seq!['/']) == import::parent_of(path),
        import::leaf_of(path + seq!['/']) == import::leaf_of(path),
        import::parent_of(path + seq!['/', '.']) == import::parent_of(path),
        import::leaf_of(path + seq!['/', '.']) == import::leaf_of(path),
        import::leaf_of(path) == builder::components(path).last(),
{
    importing::law_components(path, seq!['.']);
    assert(!seq!['.'].contains('/'));
    assert(path + seq!['/', '.'] =~= path + seq!['/'] + seq!['.']);
    let c = builder::components(path);
    assert(c.push(seq!['.']).drop_last() =~= c);
    assert(c.push(seq!['.']).last() == seq!['.']);
}

/// The bytes of a JSON tree are the first number behind the first mark.
pub proof fn law_bytes_of_json_trees(n: nat, rest: Seq<char>)
    requires
        n <= u64::MAX,
        rest.len() > 0,
        rest[0] == ',',
    ensures
        import::root_bytes("\"v\":"@ + text::decimal(n) + rest) == n,
{
    let p = "\"v\":"@;
    let d = text::decimal(n);
    let s = p + d + rest;
    readback::law_decimal_reads_back(n);
    assert(s.skip(0) =~= s);
    assert(p.is_prefix_of(s)) by {
        assert(s.subrange(0, p.len() as int) =~= p);
    }
    readback::lemma_find_text_is(s, p, 0);
    assert(s.skip(p.len() as int) =~= d + rest);
    readback::lemma_first_number(d, rest);
    readback::lemma_number_of_decimal(n);
}

// ── summaries ──

/// A tree can be summed up where every node stands behind a directory that is its parent, and its
/// nodes and its bytes can be counted.
pub proof fn law_what_can_be_summed_up(nodes: &[Node], r: bool)
    requires
        call_ensures(summary::can_finish, (nodes,), r),
    ensures
        r <==> arena::is_arena(arena::tree(nodes@)) && arena::parents_are_dirs(arena::tree(nodes@))
            && nodes@.len() < usize::MAX && arena::total(arena::tree(nodes@)) <= u64::MAX,
{
}

} // verus!
