//! A tree that is written to a cache file and read again is the same tree: every entry is there once,
//! every directory once, and nothing else but the directories above the root.

use crate::arena;
use crate::arena::NodeView;
use crate::builder;
use crate::builder::BuilderView;
use crate::cache;
use crate::hash;
use crate::import;
use crate::import::{Kind, LineView};
use crate::readback;
use crate::roundtrip;
use crate::sums;
use crate::text;
use vstd::prelude::*;

verus! {

/// What is kept of an entry that is no directory.
#[verifier::ext_equal]
pub struct FileView {
    /// Its path.
    pub path: Seq<char>,
    /// The bytes that count for it.
    pub own: u64,
    /// Its size.
    pub size: u64,
    /// Whether it is a link.
    pub is_link: bool,
}

/// The entries among the first `k` nodes of a tree that was read which are no directories.
pub open spec fn read_files(u: Seq<NodeView>, k: int) -> Seq<FileView>
    decreases k,
{
    if k <= 0 {
        seq![]
    } else if u[k - 1].is_dir {
        read_files(u, k - 1)
    } else {
        let n = u[k - 1];
        read_files(u, k - 1).push(
            FileView {
                path: builder::tree_path(u, k - 1),
                own: n.own,
                size: n.size,
                is_link: n.is_link,
            },
        )
    }
}

/// What a node of a written tree that is no directory is read as: its size counts.
pub open spec fn written_file(t: Seq<NodeView>, j: int) -> FileView {
    FileView {
        path: roundtrip::node_path(t, j),
        own: t[j].size,
        size: t[j].size,
        is_link: t[j].is_link,
    }
}

/// The entries among the first `k` nodes of a written tree which are no directories; the root is one.
pub open spec fn written_files(t: Seq<NodeView>, k: int) -> Seq<FileView>
    decreases k,
{
    if k <= 1 {
        seq![]
    } else if t[k - 1].is_dir {
        written_files(t, k - 1)
    } else {
        written_files(t, k - 1).push(written_file(t, k - 1))
    }
}

// ── what the lines say of entries ──

/// The directory whose entries follow the lines, where those of `cur` come first.
spec fn current_from(cur: Seq<char>, ls: Seq<LineView>) -> Seq<char>
    decreases ls.len(),
{
    if ls.len() == 0 {
        cur
    } else if ls.last().kind == Kind::Dir {
        builder::path_text(builder::components(ls.last().name))
    } else {
        current_from(cur, ls.drop_last())
    }
}

/// What a line that is not about a directory says, after those about directory `cur`.
spec fn said_file(cur: Seq<char>, l: LineView) -> FileView {
    FileView {
        path: import::line_path(cur, l),
        own: l.size as u64,
        size: l.size as u64,
        is_link: l.kind == Kind::Link,
    }
}

/// The entries that lines speak of, where those of directory `cur` come first.
spec fn said_files(cur: Seq<char>, ls: Seq<LineView>) -> Seq<FileView>
    decreases ls.len(),
{
    if ls.len() == 0 {
        seq![]
    } else if ls.last().kind == Kind::Dir {
        said_files(cur, ls.drop_last())
    } else {
        said_files(cur, ls.drop_last()).push(
            said_file(current_from(cur, ls.drop_last()), ls.last()),
        )
    }
}

proof fn lemma_said_add(cur: Seq<char>, a: Seq<LineView>, b: Seq<LineView>)
    ensures
        current_from(cur, a + b) == current_from(current_from(cur, a), b),
        said_files(cur, a + b) == said_files(cur, a) + said_files(current_from(cur, a), b),
    decreases b.len(),
{
    if b.len() == 0 {
        assert(a + b == a);
    } else {
        lemma_said_add(cur, a, b.drop_last());
        assert((a + b).drop_last() == a + b.drop_last());
        assert((a + b).last() == b.last());
    }
}

proof fn lemma_said_current(ls: Seq<LineView>)
    ensures
        current_from(seq![], ls) == roundtrip::current_path(ls),
    decreases ls.len(),
{
    if ls.len() > 0 {
        lemma_said_current(ls.drop_last());
    }
}

// ── reading ──

/// The two trees agree on the first `k` nodes, but for the bytes of directories.
spec fn agree(t: Seq<NodeView>, u: Seq<NodeView>) -> bool {
    &&& t.len() <= u.len()
    &&& forall|j: int|
        0 <= j < t.len() ==> (#[trigger] t[j]).parent == u[j].parent && t[j].name == u[j].name
            && t[j].is_dir == u[j].is_dir && (!t[j].is_dir ==> t[j] == u[j])
}

proof fn lemma_read_files_agree(t: Seq<NodeView>, u: Seq<NodeView>, k: int)
    requires
        agree(t, u),
        0 <= k <= t.len(),
    ensures
        read_files(u, k) == read_files(t, k),
    decreases k,
{
    if k > 0 {
        lemma_read_files_agree(t, u, k - 1);
        builder::lemma_tree_path(t, u, k - 1);
        assert(t[k - 1].is_dir == u[k - 1].is_dir);
    }
}

proof fn lemma_read_files_dirs(u: Seq<NodeView>, k: int, m: int)
    requires
        0 <= k <= m <= u.len(),
        forall|j: int| k <= j < m ==> (#[trigger] u[j]).is_dir,
    ensures
        read_files(u, m) == read_files(u, k),
    decreases m,
{
    if k < m {
        lemma_read_files_dirs(u, k, m - 1);
        assert(u[m - 1].is_dir);
    }
}

/// All directories but the root are known, each under its path, and count what they bring.
spec fn dirs_known(b: BuilderView) -> bool {
    &&& forall|d: int|
        0 < d < b.t.len() && (#[trigger] b.t[d]).is_dir ==> b.dirs.contains_key(
            builder::tree_path(b.t, d),
        ) && b.dirs[builder::tree_path(b.t, d)] == d
    &&& forall|d: int| 0 <= d < b.t.len() ==> (#[trigger] b.t[d]).own == b.t[d].sub
}

/// Whether all directories stand at paths that are in `ok`.
spec fn dirs_within(b: BuilderView, ok: spec_fn(Seq<char>) -> bool) -> bool {
    forall|d: int|
        0 <= d < b.t.len() && (#[trigger] b.t[d]).is_dir ==> ok(builder::tree_path(b.t, d))
}

/// Whether the directory with these components and all those above it are in `ok`.
spec fn all_within(comps: Seq<Seq<char>>, ok: spec_fn(Seq<char>) -> bool) -> bool {
    forall|m: int| 0 <= m <= comps.len() ==> ok(builder::path_text(#[trigger] comps.take(m)))
}

/// Asking for a directory adds directories only, each once, and none but that one and those above it.
proof fn lemma_with_dir(b: BuilderView, comps: Seq<Seq<char>>, ok: spec_fn(Seq<char>) -> bool)
    requires
        builder::sound(b),
        dirs_known(b),
        dirs_within(b, ok),
        all_within(comps, ok),
        b.t.len() + comps.len() <= usize::MAX,
    ensures
        agree(b.t, builder::with_dir(b, comps).0.t),
        forall|j: int|
            b.t.len() <= j < builder::with_dir(b, comps).0.t.len() ==> (
            #[trigger] builder::with_dir(b, comps).0.t[j]).is_dir,
        dirs_known(builder::with_dir(b, comps).0),
        dirs_within(builder::with_dir(b, comps).0, ok),
    decreases comps.len(),
{
    if comps.len() > 0 {
        let front = comps.drop_last();
        assert forall|m: int| 0 <= m <= front.len() implies ok(
            builder::path_text(#[trigger] front.take(m)),
        ) by {
            assert(front.take(m) == comps.take(m));
        }
        lemma_with_dir(b, front, ok);
        builder::lemma_with_dir_sound(b, front);
        let (p, id) = builder::with_dir(b, front);
        let v = builder::with_dir(b, comps).0;
        let key = builder::path_text(comps);
        if !p.dirs.contains_key(key) {
            let n = builder::dir_node(id, comps.last());
            builder::lemma_with_node_sound(p, n);
            assert(v.t == p.t.push(n));
            assert(comps.take(comps.len() as int) == comps);
            assert forall|d: int| 0 <= d < v.t.len() && (#[trigger] v.t[d]).is_dir implies {
                &&& ok(builder::tree_path(v.t, d))
                &&& d > 0 ==> v.dirs.contains_key(builder::tree_path(v.t, d))
                    && v.dirs[builder::tree_path(v.t, d)] == d
            } by {
                if d < p.t.len() {
                    assert(v.t[d] == p.t[d]);
                    builder::lemma_tree_path(p.t, v.t, d);
                } else {
                    assert(builder::tree_path(v.t, d) == key);
                }
            }
            assert forall|d: int| 0 <= d < v.t.len() implies (#[trigger] v.t[d]).own
                == v.t[d].sub by {
                if d < p.t.len() {
                    assert(v.t[d] == p.t[d]);
                }
            }
        }
    }
}

/// Whether the directories that the lines name are in `ok`, with those above them, and no other line
/// names a path.
spec fn lines_within(ls: Seq<LineView>, ok: spec_fn(Seq<char>) -> bool) -> bool {
    forall|k: int|
        0 <= k < ls.len() ==> if (#[trigger] ls[k]).kind == Kind::Dir {
            all_within(builder::components(ls[k].name), ok)
        } else {
            !(ls[k].name.len() > 0 && ls[k].name[0] == '/')
        }
}

proof fn lemma_dir_line(b: BuilderView, l: LineView, ok: spec_fn(Seq<char>) -> bool, cur: usize)
    requires
        builder::sound(b),
        dirs_known(b),
        dirs_within(b, ok),
        l.kind == Kind::Dir,
        all_within(builder::components(l.name), ok),
        b.t.len() + builder::components(l.name).len() <= usize::MAX,
    ensures
        ({
            let v = import::with_line(b, cur, l).0;
            &&& dirs_known(v)
            &&& dirs_within(v, ok)
            &&& read_files(v.t, v.t.len() as int) == read_files(b.t, b.t.len() as int)
            &&& v.t[0].name == b.t[0].name
        }),
{
    let comps = builder::components(l.name);
    let v = import::with_line(b, cur, l).0;
    let (p, id) = builder::with_dir(b, comps);
    builder::lemma_with_dir_sound(b, comps);
    lemma_with_dir(b, comps, ok);
    assert forall|j: int| 0 <= j < p.t.len() implies (#[trigger] p.t[j]).parent == v.t[j].parent
        && p.t[j].name == v.t[j].name && p.t[j].is_dir == v.t[j].is_dir && (!p.t[j].is_dir
        ==> p.t[j] == v.t[j]) by {}
    assert(agree(p.t, v.t));
    lemma_read_files_agree(p.t, v.t, v.t.len() as int);
    lemma_read_files_dirs(p.t, b.t.len() as int, p.t.len() as int);
    lemma_read_files_agree(b.t, p.t, b.t.len() as int);
    assert(b.t[0].name == p.t[0].name);
    assert forall|d: int| 0 <= d < v.t.len() && (#[trigger] v.t[d]).is_dir implies {
        &&& ok(builder::tree_path(v.t, d))
        &&& d > 0 ==> v.dirs.contains_key(builder::tree_path(v.t, d)) && v.dirs[builder::tree_path(
            v.t,
            d,
        )] == d
    } by {
        assert(p.t[d].is_dir);
        builder::lemma_tree_path(p.t, v.t, d);
    }
    assert forall|d: int| 0 <= d < v.t.len() implies (#[trigger] v.t[d]).own == v.t[d].sub by {
        assert(p.t[d].own == p.t[d].sub);
    }
}

proof fn lemma_entry_line(b: BuilderView, l: LineView, ok: spec_fn(Seq<char>) -> bool, cur: usize)
    requires
        builder::sound(b),
        cur < b.t.len(),
        b.t[cur as int].is_dir,
        dirs_known(b),
        dirs_within(b, ok),
        l.kind != Kind::Dir,
        !(l.name.len() > 0 && l.name[0] == '/'),
    ensures
        ({
            let v = import::with_line(b, cur, l).0;
            &&& dirs_known(v)
            &&& dirs_within(v, ok)
            &&& read_files(v.t, v.t.len() as int) == read_files(b.t, b.t.len() as int).push(
                said_file(builder::tree_path(b.t, cur as int), l),
            )
            &&& v.t[0].name == b.t[0].name
        }),
{
    let v = import::with_line(b, cur, l).0;
    let n = import::entry_node(cur, l.name, l.size as u64, l.kind == Kind::Link);
    assert(v.t == b.t.push(n));
    builder::lemma_with_node_sound(b, n);
    assert(agree(b.t, v.t));
    lemma_read_files_agree(b.t, v.t, b.t.len() as int);
    assert forall|d: int| 0 <= d < v.t.len() && (#[trigger] v.t[d]).is_dir implies {
        &&& ok(builder::tree_path(v.t, d))
        &&& d > 0 ==> v.dirs.contains_key(builder::tree_path(v.t, d)) && v.dirs[builder::tree_path(
            v.t,
            d,
        )] == d
    } by {
        assert(v.t[d] == b.t[d]);
        builder::lemma_tree_path(b.t, v.t, d);
    }
    assert forall|d: int| 0 <= d < v.t.len() implies (#[trigger] v.t[d]).own == v.t[d].sub by {
        if d < b.t.len() {
            assert(v.t[d] == b.t[d]);
        }
    }
}

/// What is read from lines: the entries that they speak of, in order, and no directories but those
/// that they name and those above them.
proof fn lemma_read(ls: Seq<LineView>, ok: spec_fn(Seq<char>) -> bool)
    requires
        import::cache_fits(ls),
        lines_within(ls, ok),
        ok(seq![]),
    ensures
        ({
            let b = import::cache_tree(ls).0;
            &&& dirs_known(b)
            &&& dirs_within(b, ok)
            &&& read_files(b.t, b.t.len() as int) == said_files(seq![], ls)
            &&& b.t[0].name == "/"@
        }),
    decreases ls.len(),
{
    if ls.len() == 0 {
        let b = builder::start("/"@);
        assert(read_files(b.t, 0) == Seq::<FileView>::empty());
        assert(b.t[0].is_dir);
        assert(read_files(b.t, 1) == read_files(b.t, 0));
    } else {
        let front = ls.drop_last();
        let l = ls.last();
        assert forall|k: int| 0 <= k < front.len() implies if (#[trigger] front[k]).kind
            == Kind::Dir {
            all_within(builder::components(front[k].name), ok)
        } else {
            !(front[k].name.len() > 0 && front[k].name[0] == '/')
        } by {
            assert(front[k] == ls[k]);
        }
        assert(ls[ls.len() - 1] == l);
        roundtrip::lemma_fits_front(ls);
        lemma_read(front, ok);
        import::law_cache_tree_is_sound(front);
        let (b, cur) = import::cache_tree(front);
        if l.kind == Kind::Dir {
            lemma_dir_line(b, l, ok, cur);
        } else {
            roundtrip::lemma_current_path(front);
            lemma_said_current(front);
            lemma_entry_line(b, l, ok, cur);
        }
    }
}

// ── writing ──

/// The components of a node's path: those of the root's, and the names on the way.
spec fn node_comps(t: Seq<NodeView>, i: int) -> Seq<Seq<char>>
    decreases i,
{
    if i <= 0 || i >= t.len() || t[i].parent >= i {
        builder::components(t[0].name)
    } else {
        node_comps(t, t[i].parent as int).push(t[i].name)
    }
}

proof fn lemma_node_comps(t: Seq<NodeView>, i: int)
    ensures
        builder::path_text(node_comps(t, i)) == roundtrip::node_path(t, i),
    decreases i,
{
    if !(i <= 0 || i >= t.len() || t[i].parent >= i) {
        let p = node_comps(t, t[i].parent as int);
        lemma_node_comps(t, t[i].parent as int);
        assert(p.push(t[i].name).drop_last() == p);
    }
}

/// Whether there is a directory of the tree at the path.
pub open spec fn is_dir_path(t: Seq<NodeView>, path: Seq<char>) -> bool {
    exists|i: int|
        0 <= i < t.len() && (i == 0 || t[i].is_dir) && #[trigger] roundtrip::node_path(t, i) == path
}

/// Whether the path is that of a directory above the root of the tree.
pub open spec fn is_above_root(t: Seq<NodeView>, path: Seq<char>) -> bool {
    exists|m: int|
        0 <= m < builder::components(t[0].name).len() && builder::path_text(
            #[trigger] builder::components(t[0].name).take(m),
        ) == path
}

spec fn may_be(t: Seq<NodeView>) -> spec_fn(Seq<char>) -> bool {
    |path: Seq<char>| is_dir_path(t, path) || is_above_root(t, path)
}

proof fn lemma_comps_within(t: Seq<NodeView>, i: int)
    requires
        arena::is_arena(t),
        arena::parents_are_dirs(t),
        0 <= i < t.len(),
        i == 0 || t[i].is_dir,
    ensures
        all_within(node_comps(t, i), may_be(t)),
    decreases i,
{
    let comps = node_comps(t, i);
    lemma_node_comps(t, i);
    assert forall|m: int| 0 <= m <= comps.len() implies may_be(t)(
        builder::path_text(#[trigger] comps.take(m)),
    ) by {
        if m == comps.len() {
            assert(comps.take(m) == comps);
            assert(is_dir_path(t, roundtrip::node_path(t, i)));
        } else if i > 0 {
            let p = t[i].parent as int;
            assert(t[t[i].parent as int].is_dir);
            lemma_comps_within(t, p);
            assert(comps.take(m) == node_comps(t, p).take(m));
        } else {
            assert(is_above_root(t, builder::path_text(comps.take(m))));
        }
    }
}

proof fn lemma_files_within(t: Seq<NodeView>, ids: Seq<usize>, k: int, x: int)
    requires
        roundtrip::names_read_back(t),
        0 <= k <= ids.len(),
        forall|j: int| 0 <= j < ids.len() ==> 1 <= #[trigger] ids[j] < t.len(),
        0 <= x < readback::files_say(t, ids, k).len(),
    ensures
        ({
            let l = readback::files_say(t, ids, k)[x];
            l.kind != Kind::Dir && l.name.len() > 0 && l.name[0] != '/'
        }),
    decreases k,
{
    let before = readback::files_say(t, ids, k - 1);
    if x < before.len() {
        lemma_files_within(t, ids, k - 1, x);
        assert(readback::files_say(t, ids, k)[x] == before[x]);
    } else {
        let c = ids[k - 1] as int;
        assert(roundtrip::is_name(t[c].name));
        assert(t[c].name.contains(t[c].name[0]));
    }
}

proof fn lemma_tree_within(t: Seq<NodeView>, i: int, path: Seq<char>)
    requires
        arena::is_arena(t),
        arena::parents_are_dirs(t),
        t.len() <= usize::MAX,
        roundtrip::names_read_back(t),
        0 <= i < t.len(),
        i == 0 || t[i].is_dir,
        builder::components(path) == node_comps(t, i),
    ensures
        lines_within(readback::tree_says(t, i, path), may_be(t)),
    decreases t.len() - i, 1int, 0int,
{
    let ids = hash::children(arena::parents(t), i);
    let n = ids.len() as int;
    let files = readback::files_say(t, ids, n);
    let dirs = readback::dirs_say(t, i, path, n);
    let s = readback::tree_says(t, i, path);
    lemma_dirs_within(t, i, path, n);
    lemma_comps_within(t, i);
    assert forall|j: int| 0 <= j < ids.len() implies 1 <= #[trigger] ids[j] < t.len() by {
        cache::lemma_child_in_range(t, i, j);
    }
    assert forall|k: int| 0 <= k < s.len() implies if (#[trigger] s[k]).kind == Kind::Dir {
        all_within(builder::components(s[k].name), may_be(t))
    } else {
        !(s[k].name.len() > 0 && s[k].name[0] == '/')
    } by {
        if k == 0 {
            assert(s[0] == readback::dir_says(t[i], path));
        } else if k < 1 + files.len() {
            assert(s[k] == files[k - 1]);
            lemma_files_within(t, ids, n, k - 1);
        } else {
            assert(s[k] == dirs[k - 1 - files.len()]);
        }
    }
}

proof fn lemma_dirs_within(t: Seq<NodeView>, i: int, path: Seq<char>, k: int)
    requires
        arena::is_arena(t),
        arena::parents_are_dirs(t),
        t.len() <= usize::MAX,
        roundtrip::names_read_back(t),
        0 <= i < t.len(),
        0 <= k <= hash::children(arena::parents(t), i).len(),
        builder::components(path) == node_comps(t, i),
    ensures
        lines_within(readback::dirs_say(t, i, path, k), may_be(t)),
    decreases t.len() - i, 0int, k,
{
    if k > 0 {
        let before = readback::dirs_say(t, i, path, k - 1);
        let c = hash::children(arena::parents(t), i)[k - 1] as int;
        cache::lemma_child_in_range(t, i, k - 1);
        lemma_dirs_within(t, i, path, k - 1);
        let s = readback::dirs_say(t, i, path, k);
        if t[c].is_dir {
            let sub = cache::join(path, t[c].name);
            assert(roundtrip::is_name(t[c].name));
            roundtrip::lemma_join_path(path, t[c].name);
            lemma_tree_within(t, c, sub);
            let more = readback::tree_says(t, c, sub);
            assert(s == before + more);
            assert forall|x: int| 0 <= x < s.len() implies if (#[trigger] s[x]).kind == Kind::Dir {
                all_within(builder::components(s[x].name), may_be(t))
            } else {
                !(s[x].name.len() > 0 && s[x].name[0] == '/')
            } by {
                if x < before.len() {
                    assert(s[x] == before[x]);
                } else {
                    assert(s[x] == more[x - before.len()]);
                }
            }
        } else {
            assert(s == before);
        }
    }
}

// ── each entry once ──

/// The tree in which the nodes that are written as `x` bring one byte, and all others none.
spec fn marked(t: Seq<NodeView>, x: FileView) -> Seq<NodeView> {
    Seq::new(
        t.len(),
        |j: int|
            NodeView {
                sub: if j > 0 && !t[j].is_dir && written_file(t, j) == x {
                    1
                } else {
                    0
                },
                ..t[j]
            },
    )
}

proof fn lemma_marked(t: Seq<NodeView>, x: FileView)
    requires
        arena::is_arena(t),
    ensures
        arena::is_arena(marked(t, x)),
        arena::parents(marked(t, x)) == arena::parents(t),
{
    let m = marked(t, x);
    assert forall|i: int| 1 <= i < m.len() implies #[trigger] m[i].parent < i by {
        assert(t[i].parent < i);
    }
    assert(arena::parents(m) =~= arena::parents(t));
}

/// An entry that is no directory has nothing below it.
proof fn lemma_marked_file(t: Seq<NodeView>, x: FileView, c: int)
    requires
        arena::is_arena(t),
        arena::parents_are_dirs(t),
        t.len() <= usize::MAX,
        0 <= c < t.len(),
        !t[c].is_dir,
    ensures
        arena::subtree(marked(t, x), c) == marked(t, x)[c].sub,
{
    let m = marked(t, x);
    lemma_marked(t, x);
    arena::law_subtree_is_own_plus_children(m, c);
    let ids = hash::children(arena::parents(t), c);
    if ids.len() > 0 {
        cache::lemma_child_in_range(t, c, 0);
        let k = ids[0] as int;
        assert(t[t[k].parent as int].is_dir);
    }
}

/// How often `x` is written below those of the first `k` ids that are directories, or are not.
spec fn marks(t: Seq<NodeView>, x: FileView, ids: Seq<usize>, k: int, dirs: bool) -> nat
    decreases k,
{
    if k <= 0 {
        0
    } else {
        marks(t, x, ids, k - 1, dirs) + if t[ids[k - 1] as int].is_dir == dirs {
            arena::subtree(marked(t, x), ids[k - 1] as int)
        } else {
            0
        }
    }
}

proof fn lemma_marks(t: Seq<NodeView>, x: FileView, ids: Seq<usize>, k: int)
    requires
        0 <= k <= ids.len(),
    ensures
        arena::sum_below(marked(t, x), ids.take(k)) == marks(t, x, ids, k, true) + marks(
            t,
            x,
            ids,
            k,
            false,
        ),
    decreases k,
{
    if k > 0 {
        lemma_marks(t, x, ids, k - 1);
        assert(ids.take(k).drop_last() == ids.take(k - 1));
        assert(ids.take(k).last() == ids[k - 1]);
    }
}

proof fn lemma_count_push(s: Seq<FileView>, a: FileView, x: FileView)
    ensures
        sums::count_in(s.push(a), x) == sums::count_in(s, x) + if a == x {
            1nat
        } else {
            0
        },
{
    sums::lemma_sum_push(s, a, sums::one_for(x));
}

proof fn lemma_count_add(s: Seq<FileView>, a: Seq<FileView>, x: FileView)
    ensures
        sums::count_in(s + a, x) == sums::count_in(s, x) + sums::count_in(a, x),
{
    sums::lemma_sum_add(s, a, sums::one_for(x));
}

proof fn lemma_count_files(t: Seq<NodeView>, i: int, k: int, x: FileView)
    requires
        arena::is_arena(t),
        arena::parents_are_dirs(t),
        t.len() <= usize::MAX,
        roundtrip::names_read_back(t),
        0 <= i < t.len(),
        0 <= k <= hash::children(arena::parents(t), i).len(),
    ensures
        ({
            let ids = hash::children(arena::parents(t), i);
            let files = readback::files_say(t, ids, k);
            let path = roundtrip::node_path(t, i);
            &&& current_from(path, files) == path
            &&& sums::count_in(said_files(path, files), x) == marks(t, x, ids, k, false)
        }),
    decreases k,
{
    let ids = hash::children(arena::parents(t), i);
    let path = roundtrip::node_path(t, i);
    if k > 0 {
        let before = readback::files_say(t, ids, k - 1);
        let files = readback::files_say(t, ids, k);
        let c = ids[k - 1] as int;
        cache::lemma_child_in_range(t, i, k - 1);
        lemma_count_files(t, i, k - 1, x);
        if !t[c].is_dir {
            let l = readback::file_says(t[c]);
            assert(files == before.push(l));
            assert(files.drop_last() == before);
            assert(roundtrip::is_name(t[c].name));
            assert(t[c].name.contains(t[c].name[0]));
            assert(roundtrip::node_path(t, c) == path + seq!['/'] + t[c].name);
            assert(said_file(path, l) == written_file(t, c));
            lemma_count_push(said_files(path, before), written_file(t, c), x);
            lemma_marked_file(t, x, c);
        } else {
            assert(files == before);
        }
    }
}

proof fn lemma_count_tree(t: Seq<NodeView>, i: int, path: Seq<char>, cur: Seq<char>, x: FileView)
    requires
        arena::is_arena(t),
        arena::parents_are_dirs(t),
        t.len() <= usize::MAX,
        roundtrip::names_read_back(t),
        0 <= i < t.len(),
        i == 0 || t[i].is_dir,
        builder::components(path) == node_comps(t, i),
    ensures
        sums::count_in(said_files(cur, readback::tree_says(t, i, path)), x) == arena::subtree(
            marked(t, x),
            i,
        ),
    decreases t.len() - i, 1int, 0int,
{
    let ids = hash::children(arena::parents(t), i);
    let n = ids.len() as int;
    let here = roundtrip::node_path(t, i);
    let first = seq![readback::dir_says(t[i], path)];
    let files = readback::files_say(t, ids, n);
    let dirs = readback::dirs_say(t, i, path, n);
    lemma_node_comps(t, i);
    assert(first.drop_last() == Seq::<LineView>::empty());
    assert(first.last() == readback::dir_says(t[i], path));
    assert(current_from(cur, first) == here);
    assert(said_files(cur, Seq::<LineView>::empty()) == Seq::<FileView>::empty());
    assert(said_files(cur, first) == Seq::<FileView>::empty());
    lemma_said_add(cur, first, files);
    lemma_said_add(cur, first + files, dirs);
    lemma_count_files(t, i, n, x);
    lemma_count_dirs(t, i, path, n, here, x);
    assert(said_files(cur, first + files) == said_files(here, files));
    lemma_count_add(said_files(here, files), said_files(here, dirs), x);
    lemma_marked(t, x);
    arena::law_subtree_is_own_plus_children(marked(t, x), i);
    lemma_marks(t, x, ids, n);
    assert(ids.take(n) == ids);
}

proof fn lemma_count_dirs(
    t: Seq<NodeView>,
    i: int,
    path: Seq<char>,
    k: int,
    cur: Seq<char>,
    x: FileView,
)
    requires
        arena::is_arena(t),
        arena::parents_are_dirs(t),
        t.len() <= usize::MAX,
        roundtrip::names_read_back(t),
        0 <= i < t.len(),
        0 <= k <= hash::children(arena::parents(t), i).len(),
        builder::components(path) == node_comps(t, i),
    ensures
        sums::count_in(said_files(cur, readback::dirs_say(t, i, path, k)), x) == marks(
            t,
            x,
            hash::children(arena::parents(t), i),
            k,
            true,
        ),
    decreases t.len() - i, 0int, k,
{
    if k > 0 {
        let before = readback::dirs_say(t, i, path, k - 1);
        let c = hash::children(arena::parents(t), i)[k - 1] as int;
        cache::lemma_child_in_range(t, i, k - 1);
        lemma_count_dirs(t, i, path, k - 1, cur, x);
        let s = readback::dirs_say(t, i, path, k);
        if t[c].is_dir {
            let sub = cache::join(path, t[c].name);
            let more = readback::tree_says(t, c, sub);
            let then = current_from(cur, before);
            assert(roundtrip::is_name(t[c].name));
            roundtrip::lemma_join_path(path, t[c].name);
            lemma_count_tree(t, c, sub, then, x);
            assert(s == before + more);
            lemma_said_add(cur, before, more);
            lemma_count_add(said_files(cur, before), said_files(then, more), x);
        } else {
            assert(s == before);
        }
    }
}

proof fn lemma_count_written(t: Seq<NodeView>, x: FileView, k: int)
    requires
        0 <= k <= t.len(),
    ensures
        sums::count_in(written_files(t, k), x) == arena::sum_subs(marked(t, x), k),
    decreases k,
{
    if k > 0 {
        lemma_count_written(t, x, k - 1);
        if k > 1 && !t[k - 1].is_dir {
            lemma_count_push(written_files(t, k - 1), written_file(t, k - 1), x);
        }
    }
}

/// A tree that is written to a cache file and read again is the same tree.
///
/// The entries that are no directories are the written ones, each as often as it was written, at its
/// path, with its size, and as a link where it is one. There is one directory at most at a path, and
/// directories stand nowhere but at the paths of the written ones and of those above the root. That
/// every written directory is there, and with which bytes, is stated by
/// [`roundtrip::law_written_directories_are_read_back`] and
/// [`roundtrip::law_written_directories_keep_their_size`].
pub proof fn law_written_trees_are_read_back(t: Seq<NodeView>)
    requires
        arena::is_arena(t),
        arena::parents_are_dirs(t),
        t.len() <= usize::MAX,
        roundtrip::names_read_back(t),
        import::cache_fits(readback::tree_says(t, 0, t[0].name)),
    ensures
        ({
            let u = import::cache_tree(import::said(text::lines(cache::cache_text(t)))).0.t;
            &&& arena::is_arena(u)
            &&& arena::parents_are_dirs(u)
            &&& u[0].name == "/"@
            &&& read_files(u, u.len() as int).to_multiset() == written_files(
                t,
                t.len() as int,
            ).to_multiset()
            &&& forall|d: int|
                0 <= d < u.len() && (#[trigger] u[d]).is_dir ==> is_dir_path(
                    t,
                    builder::tree_path(u, d),
                ) || is_above_root(t, builder::tree_path(u, d))
            &&& forall|a: int, b: int|
                0 <= a < u.len() && 0 <= b < u.len() && (#[trigger] u[a]).is_dir && (
                #[trigger] u[b]).is_dir && builder::tree_path(u, a) == builder::tree_path(u, b)
                    ==> a == b
            &&& forall|d: int| 0 <= d < u.len() ==> (#[trigger] u[d]).own == u[d].sub
        }),
{
    let ls = readback::tree_says(t, 0, t[0].name);
    roundtrip::lemma_all_readable(t);
    readback::law_cache_file_reads_back(t);
    let b = import::cache_tree(ls).0;
    let u = b.t;
    lemma_tree_within(t, 0, t[0].name);
    lemma_comps_within(t, 0);
    assert(node_comps(t, 0).take(0) == Seq::<Seq<char>>::empty());
    assert(may_be(t)(builder::path_text(node_comps(t, 0).take(0))));
    lemma_read(ls, may_be(t));
    import::law_cache_tree_is_sound(ls);
    assert forall|x: FileView| #[trigger]
        sums::count_in(read_files(u, u.len() as int), x) == sums::count_in(
            written_files(t, t.len() as int),
            x,
        ) by {
        lemma_count_tree(t, 0, t[0].name, seq![], x);
        lemma_count_written(t, x, t.len() as int);
        lemma_marked(t, x);
        arena::law_root_holds_everything(marked(t, x));
    }
    sums::lemma_same_counts(read_files(u, u.len() as int), written_files(t, t.len() as int));
    assert forall|d: int| 0 <= d < u.len() && (#[trigger] u[d]).is_dir implies is_dir_path(
        t,
        builder::tree_path(u, d),
    ) || is_above_root(t, builder::tree_path(u, d)) by {
        assert(may_be(t)(builder::tree_path(u, d)));
    }
    assert forall|a: int, c: int|
        0 <= a < u.len() && 0 <= c < u.len() && (#[trigger] u[a]).is_dir && (
        #[trigger] u[c]).is_dir && builder::tree_path(u, a) == builder::tree_path(
            u,
            c,
        ) implies a == c by {
        if a > 0 {
            assert(u[a].parent < a);
            assert(builder::tree_path(u, a).len() > 0);
        }
        if c > 0 {
            assert(u[c].parent < c);
            assert(builder::tree_path(u, c).len() > 0);
        }
    }
}

/// Every directory of a written tree has one directory at its path when the file is read, and, where
/// no other directory of the tree has that path, its own size counts for it.
pub proof fn law_written_directories_are_read_back_once(t: Seq<NodeView>, j: int) -> (d: int)
    requires
        arena::is_arena(t),
        arena::parents_are_dirs(t),
        t.len() <= usize::MAX,
        roundtrip::names_read_back(t),
        import::cache_fits(readback::tree_says(t, 0, t[0].name)),
        0 <= j < t.len(),
        j == 0 || t[j].is_dir,
    ensures
        ({
            let u = import::cache_tree(import::said(text::lines(cache::cache_text(t)))).0.t;
            &&& 0 <= d < u.len()
            &&& u[d].is_dir
            &&& builder::tree_path(u, d) == roundtrip::node_path(t, j)
            &&& forall|a: int|
                0 <= a < u.len() && (#[trigger] u[a]).is_dir && builder::tree_path(u, a)
                    == roundtrip::node_path(t, j) ==> a == d
            &&& (forall|i: int|
                0 <= i < t.len() && (i == 0 || t[i].is_dir) && #[trigger] roundtrip::node_path(t, i)
                    == roundtrip::node_path(t, j) ==> i == j) ==> u[d].own == t[j].size
        }),
{
    let u = import::cache_tree(import::said(text::lines(cache::cache_text(t)))).0.t;
    let path = roundtrip::node_path(t, j);
    law_written_trees_are_read_back(t);
    roundtrip::law_written_directories_are_read_back(t, j);
    let d = choose|d: int|
        0 <= d < u.len() && #[trigger] builder::tree_path(u, d) == path && u[d].is_dir;
    if forall|i: int|
        0 <= i < t.len() && (i == 0 || t[i].is_dir) && #[trigger] roundtrip::node_path(t, i)
            == path ==> i == j {
        roundtrip::law_written_directories_keep_their_size(t, j);
        let e = choose|e: int|
            0 <= e < u.len() && #[trigger] builder::tree_path(u, e) == path && u[e].is_dir
                && u[e].sub == t[j].size as nat;
        assert(u[d].is_dir && u[e].is_dir);
        assert(e == d);
    }
    d
}

} // verus!
