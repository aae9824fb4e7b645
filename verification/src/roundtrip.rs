//! What becomes of a tree that is written to a cache file and read again: every entry is there, at
//! its path and with its size.

use crate::arena;
use crate::arena::NodeView;
use crate::builder;
use crate::builder::BuilderView;
use crate::cache;
use crate::hash;
use crate::import;
use crate::import::{Kind, LineView};
use crate::readback;
use crate::text;
use vstd::prelude::*;

verus! {

// ── where the lines of a cache file end up ──

/// The path of the directory whose entries follow the lines.
pub open spec fn current_path(ls: Seq<LineView>) -> Seq<char>
    decreases ls.len(),
{
    if ls.len() == 0 {
        seq![]
    } else if ls.last().kind == Kind::Dir {
        builder::path_text(builder::components(ls.last().name))
    } else {
        current_path(ls.drop_last())
    }
}

/// The bytes that the last of the lines about the directory at `path` gives it.
pub open spec fn dir_bytes(ls: Seq<LineView>, path: Seq<char>) -> nat
    decreases ls.len(),
{
    if ls.len() == 0 {
        0
    } else if ls.last().kind == Kind::Dir && builder::path_text(
        builder::components(ls.last().name),
    ) == path {
        ls.last().size
    } else {
        dir_bytes(ls.drop_last(), path)
    }
}

/// Whether the tree has an entry that is no directory at the path, with these bytes.
pub open spec fn holds_entry(t: Seq<NodeView>, path: Seq<char>, bytes: nat, is_link: bool) -> bool {
    exists|j: int|
        0 <= j < t.len() && #[trigger] builder::tree_path(t, j) == path && !t[j].is_dir && t[j].sub
            == bytes && t[j].is_link == is_link
}

/// Whether the tree has a directory at the path, with these bytes of its own.
pub open spec fn holds_dir(t: Seq<NodeView>, path: Seq<char>, bytes: nat) -> bool {
    exists|j: int|
        0 <= j < t.len() && #[trigger] builder::tree_path(t, j) == path && t[j].is_dir && t[j].sub
            == bytes
}

pub(crate) proof fn lemma_fits_front(ls: Seq<LineView>)
    requires
        ls.len() > 0,
        import::cache_fits(ls),
    ensures
        import::cache_fits(ls.drop_last()),
        ls.last().size <= u64::MAX,
{
    let front = ls.drop_last();
    assert forall|i: int| 0 <= i < front.len() implies (#[trigger] front[i]).size <= u64::MAX by {
        assert(front[i] == ls[i]);
    }
    assert(ls[ls.len() - 1].size <= u64::MAX);
}

pub(crate) proof fn lemma_current_path(ls: Seq<LineView>)
    requires
        import::cache_fits(ls),
    ensures
        builder::tree_path(import::cache_tree(ls).0.t, import::cache_tree(ls).1 as int)
            == current_path(ls),
    decreases ls.len(),
{
    if ls.len() > 0 {
        let front = ls.drop_last();
        let l = ls.last();
        lemma_fits_front(ls);
        lemma_current_path(front);
        import::law_cache_tree_is_sound(front);
        let (b, cur) = import::cache_tree(front);
        import::law_line_is_at_its_path(b, cur, l);
        if l.kind != Kind::Dir {
            builder::lemma_tree_path(b.t, import::with_line(b, cur, l).0.t, cur as int);
        }
    }
}

/// A line changes no entry that is there and is no directory.
proof fn lemma_entries_stay(b: BuilderView, cur: usize, l: LineView, j: int)
    requires
        builder::sound(b),
        cur < b.t.len(),
        b.t[cur as int].is_dir,
        l.size <= u64::MAX,
        b.t.len() + builder::components(l.name).len() + 1 <= usize::MAX,
        0 <= j < b.t.len(),
        !b.t[j].is_dir,
    ensures
        j < import::with_line(b, cur, l).0.t.len(),
        import::with_line(b, cur, l).0.t[j] == b.t[j],
        builder::tree_path(import::with_line(b, cur, l).0.t, j) == builder::tree_path(b.t, j),
{
    let v = import::with_line(b, cur, l).0;
    import::law_line_is_at_its_path(b, cur, l);
    builder::lemma_tree_path(b.t, v.t, j);
    if l.kind == Kind::Dir {
        let comps = builder::components(l.name);
        builder::lemma_with_dir_sound(b, comps);
        let (p, id) = builder::with_dir(b, comps);
        lemma_prefix(b.t, p.t, j);
    } else if l.name.len() > 0 && l.name[0] == '/' {
        let comps = import::parent_of(l.name);
        import::lemma_parent_len(l.name);
        builder::lemma_with_dir_sound(b, comps);
        lemma_prefix(b.t, builder::with_dir(b, comps).0.t, j);
    }
}

pub(crate) proof fn lemma_prefix(a: Seq<NodeView>, b: Seq<NodeView>, j: int)
    requires
        a.is_prefix_of(b),
        0 <= j < a.len(),
    ensures
        a.len() <= b.len(),
        b[j] == a[j],
{
    assert(b.subrange(0, a.len() as int)[j] == b[j]);
}

/// A line about an entry that is no directory has its node in the tree that is read: at its name in
/// the directory before it, or at its absolute path, and with its bytes.
pub proof fn law_entry_lines_are_kept(ls: Seq<LineView>, k: int)
    requires
        import::cache_fits(ls),
        0 <= k < ls.len(),
        ls[k].kind != Kind::Dir,
    ensures
        holds_entry(
            import::cache_tree(ls).0.t,
            import::line_path(current_path(ls.take(k)), ls[k]),
            ls[k].size,
            ls[k].kind == Kind::Link,
        ),
    decreases ls.len(),
{
    let front = ls.drop_last();
    let l = ls.last();
    lemma_fits_front(ls);
    import::law_cache_tree_is_sound(front);
    let (b, cur) = import::cache_tree(front);
    import::law_line_is_at_its_path(b, cur, l);
    let v = import::with_line(b, cur, l).0;
    let path = import::line_path(current_path(ls.take(k)), ls[k]);
    if k == front.len() {
        lemma_current_path(front);
        assert(ls.take(k) == front);
        let j = import::line_node(b, cur, l);
        assert(builder::tree_path(v.t, j) == path);
        assert(!v.t[j].is_dir && v.t[j].sub == l.size);
    } else {
        assert(front[k] == ls[k]);
        law_entry_lines_are_kept(front, k);
        assert(front.take(k) == ls.take(k));
        let j = choose|j: int|
            0 <= j < b.t.len() && #[trigger] builder::tree_path(b.t, j) == path && !b.t[j].is_dir
                && b.t[j].sub == ls[k].size && b.t[j].is_link == (ls[k].kind == Kind::Link);
        lemma_entries_stay(b, cur, l, j);
        assert(builder::tree_path(v.t, j) == path);
    }
}

// ── the bytes of directories ──

proof fn lemma_path_text_empty(comps: Seq<Seq<char>>)
    ensures
        builder::path_text(comps).len() == 0 <==> comps.len() == 0,
{
}

/// No directory is known under the empty path.
spec fn keys_full(b: BuilderView) -> bool {
    forall|key: Seq<char>| #[trigger] b.dirs.contains_key(key) ==> key.len() > 0
}

/// What asking for a directory does to the directories that are known.
proof fn lemma_with_dir_keys(b: BuilderView, comps: Seq<Seq<char>>)
    requires
        builder::sound(b),
        keys_full(b),
        b.t.len() + comps.len() <= usize::MAX,
    ensures
        keys_full(builder::with_dir(b, comps).0),
        comps.len() == 0 ==> builder::with_dir(b, comps).1 == 0,
        comps.len() > 0 ==> builder::with_dir(b, comps).0.dirs.contains_key(
            builder::path_text(comps),
        ) && builder::with_dir(b, comps).0.dirs[builder::path_text(comps)] == builder::with_dir(
            b,
            comps,
        ).1,
        forall|key: Seq<char>| #[trigger]
            b.dirs.contains_key(key) ==> builder::with_dir(b, comps).0.dirs.contains_key(key)
                && builder::with_dir(b, comps).0.dirs[key] == b.dirs[key],
        forall|key: Seq<char>|
            #![trigger builder::with_dir(b, comps).0.dirs.contains_key(key)]
            builder::with_dir(b, comps).0.dirs.contains_key(key) && !b.dirs.contains_key(key) ==> {
                let v = builder::with_dir(b, comps).0;
                v.dirs[key] < v.t.len() && v.t[v.dirs[key] as int].sub == 0
            },
        builder::with_dir(b, comps).0.t[0] == b.t[0],
    decreases comps.len(),
{
    if comps.len() > 0 {
        let front = comps.drop_last();
        lemma_with_dir_keys(b, front);
        builder::lemma_with_dir_sound(b, front);
        lemma_path_text_empty(comps);
        let (p, id) = builder::with_dir(b, front);
        let v = builder::with_dir(b, comps).0;
        let key = builder::path_text(comps);
        if !p.dirs.contains_key(key) {
            assert(v.t == p.t.push(builder::dir_node(id, comps.last())));
            assert forall|k: Seq<char>| #[trigger]
                v.dirs.contains_key(k) && !b.dirs.contains_key(k) implies v.dirs[k] < v.t.len()
                && v.t[v.dirs[k] as int].sub == 0 by {
                if k != key {
                    assert(p.dirs.contains_key(k));
                }
            }
        }
    }
}

/// Every directory that is known holds the bytes of the last line about it.
spec fn bytes_match(b: BuilderView, ls: Seq<LineView>) -> bool {
    &&& keys_full(b)
    &&& forall|key: Seq<char>| #[trigger]
        b.dirs.contains_key(key) ==> b.t[b.dirs[key] as int].sub == dir_bytes(ls, key)
    &&& b.t[0].sub == dir_bytes(ls, seq![])
    &&& forall|key: Seq<char>|
        #![trigger b.dirs.contains_key(key)]
        !b.dirs.contains_key(key) && key.len() > 0 ==> dir_bytes(ls, key) == 0
}

/// Directories that come without a line of their own hold nothing.
proof fn lemma_with_dir_bytes(b: BuilderView, comps: Seq<Seq<char>>, ls: Seq<LineView>)
    requires
        builder::sound(b),
        bytes_match(b, ls),
        b.t.len() + comps.len() <= usize::MAX,
    ensures
        bytes_match(builder::with_dir(b, comps).0, ls),
{
    lemma_with_dir_keys(b, comps);
    builder::lemma_with_dir_sound(b, comps);
    let v = builder::with_dir(b, comps).0;
    assert forall|key: Seq<char>| #[trigger] v.dirs.contains_key(key) implies v.t[
        v.dirs[key] as int].sub == dir_bytes(ls, key) by {
        if b.dirs.contains_key(key) {
            lemma_prefix(b.t, v.t, b.dirs[key] as int);
        }
    }
    assert forall|key: Seq<char>|
        #![trigger v.dirs.contains_key(key)]
        !v.dirs.contains_key(key) && key.len() > 0 implies dir_bytes(ls, key) == 0 by {
        assert(!b.dirs.contains_key(key));
    }
}

proof fn lemma_bytes_match(ls: Seq<LineView>)
    requires
        import::cache_fits(ls),
    ensures
        bytes_match(import::cache_tree(ls).0, ls),
    decreases ls.len(),
{
    if ls.len() == 0 {
        return;
    }
    let front = ls.drop_last();
    let l = ls.last();
    lemma_fits_front(ls);
    lemma_bytes_match(front);
    import::law_cache_tree_is_sound(front);
    let (b, cur) = import::cache_tree(front);
    let v = import::with_line(b, cur, l).0;
    import::law_line_is_at_its_path(b, cur, l);
    if l.kind == Kind::Dir {
        let comps = builder::components(l.name);
        let path = builder::path_text(comps);
        lemma_with_dir_bytes(b, comps, front);
        lemma_with_dir_keys(b, comps);
        builder::lemma_with_dir_sound(b, comps);
        lemma_path_text_empty(comps);
        let (p, id) = builder::with_dir(b, comps);
        assert forall|key: Seq<char>| #[trigger] v.dirs.contains_key(key) implies v.t[
            v.dirs[key] as int].sub == dir_bytes(ls, key) by {
            assert(p.dirs.contains_key(key));
            assert(builder::tree_path(p.t, p.dirs[key] as int) == key);
            assert(builder::tree_path(p.t, id as int) == path);
        }
        assert(v.t[0].sub == dir_bytes(ls, seq![])) by {
            if comps.len() > 0 {
                assert(builder::tree_path(p.t, 0) == Seq::<char>::empty());
                assert(path != Seq::<char>::empty());
            } else {
                assert(path == Seq::<char>::empty());
            }
        }
        assert forall|key: Seq<char>|
            #![trigger v.dirs.contains_key(key)]
            !v.dirs.contains_key(key) && key.len() > 0 implies dir_bytes(ls, key) == 0 by {
            assert(!p.dirs.contains_key(key));
        }
    } else {
        assert forall|key: Seq<char>| dir_bytes(ls, key) == #[trigger] dir_bytes(front, key) by {}
        let p = if l.name.len() > 0 && l.name[0] == '/' {
            import::lemma_parent_len(l.name);
            lemma_with_dir_bytes(b, import::parent_of(l.name), front);
            builder::lemma_with_dir_sound(b, import::parent_of(l.name));
            builder::with_dir(b, import::parent_of(l.name)).0
        } else {
            b
        };
        assert(v.dirs == p.dirs);
        assert forall|key: Seq<char>| #[trigger] v.dirs.contains_key(key) implies v.t[
            v.dirs[key] as int].sub == dir_bytes(ls, key) by {
            assert(p.dirs.contains_key(key));
            assert(v.t[p.dirs[key] as int] == p.t[p.dirs[key] as int]);
        }
        assert(v.t[0] == p.t[0]);
        assert forall|key: Seq<char>|
            #![trigger v.dirs.contains_key(key)]
            !v.dirs.contains_key(key) && key.len() > 0 implies dir_bytes(ls, key) == 0 by {
            assert(!p.dirs.contains_key(key));
        }
    }
}

/// The directory of a line is known once the line has been read.
proof fn lemma_dir_is_known(ls: Seq<LineView>, k: int)
    requires
        import::cache_fits(ls),
        0 <= k < ls.len(),
        ls[k].kind == Kind::Dir,
        builder::components(ls[k].name).len() > 0,
    ensures
        import::cache_tree(ls).0.dirs.contains_key(
            builder::path_text(builder::components(ls[k].name)),
        ),
    decreases ls.len(),
{
    let front = ls.drop_last();
    let l = ls.last();
    lemma_fits_front(ls);
    import::law_cache_tree_is_sound(front);
    lemma_bytes_match(front);
    let (b, cur) = import::cache_tree(front);
    let path = builder::path_text(builder::components(ls[k].name));
    if k < front.len() {
        assert(front[k] == ls[k]);
        lemma_dir_is_known(front, k);
        assert(b.dirs.contains_key(path));
    }
    if l.kind == Kind::Dir {
        lemma_with_dir_keys(b, builder::components(l.name));
    } else if l.name.len() > 0 && l.name[0] == '/' {
        import::lemma_parent_len(l.name);
        lemma_with_dir_keys(b, import::parent_of(l.name));
    }
}

/// A line about a directory has its node in the tree that is read: at its path, with the bytes that
/// the last line about that path gives.
pub proof fn law_dir_lines_are_kept(ls: Seq<LineView>, k: int)
    requires
        import::cache_fits(ls),
        0 <= k < ls.len(),
        ls[k].kind == Kind::Dir,
    ensures
        holds_dir(
            import::cache_tree(ls).0.t,
            builder::path_text(builder::components(ls[k].name)),
            dir_bytes(ls, builder::path_text(builder::components(ls[k].name))),
        ),
{
    let comps = builder::components(ls[k].name);
    let path = builder::path_text(comps);
    lemma_bytes_match(ls);
    import::law_cache_tree_is_sound(ls);
    let b = import::cache_tree(ls).0;
    if comps.len() == 0 {
        assert(path == Seq::<char>::empty());
        assert(builder::tree_path(b.t, 0) == path);
    } else {
        lemma_dir_is_known(ls, k);
        let j = b.dirs[path] as int;
        assert(builder::tree_path(b.t, j) == path);
    }
}

// ── paths of a written tree ──

/// A name that can be told from the names around it in a path.
pub open spec fn is_name(name: Seq<char>) -> bool {
    readback::readable(name) && !name.contains('/')
}

/// The names of a tree can be read back, and all but the root's, which is a path, are names.
pub open spec fn names_read_back(t: Seq<NodeView>) -> bool {
    &&& t.len() > 0
    &&& readback::readable(t[0].name)
    &&& forall|j: int| 1 <= j < t.len() ==> is_name((#[trigger] t[j]).name)
}

/// The path of a node: that of the root, and the names on the way, each after a slash.
pub open spec fn node_path(t: Seq<NodeView>, i: int) -> Seq<char>
    decreases i,
{
    if i <= 0 || i >= t.len() || t[i].parent >= i {
        builder::path_text(builder::components(t[0].name))
    } else {
        node_path(t, t[i].parent as int) + seq!['/'] + t[i].name
    }
}

proof fn lemma_split_add(a: Seq<char>, b: Seq<char>)
    ensures
        text::split(a + seq!['/'] + b, '/') == text::split(a, '/') + text::split(b, '/'),
    decreases a.len(),
{
    let s = a + seq!['/'] + b;
    text::lemma_find_char(a, '/');
    let k = text::find_char(a, '/');
    if k < a.len() {
        let rest = a.skip(k + 1);
        assert forall|i: int| 0 <= i < k implies s[i] != '/' by {
            assert(s[i] == a[i]);
        }
        text::lemma_find_char_is(s, '/', k);
        lemma_split_add(rest, b);
        assert(s.take(k) == a.take(k));
        assert(s.skip(k + 1) == rest + seq!['/'] + b);
        assert(seq![a.take(k)] + (text::split(rest, '/') + text::split(b, '/')) == (seq![a.take(k)]
            + text::split(rest, '/')) + text::split(b, '/'));
    } else {
        assert forall|i: int| 0 <= i < a.len() implies s[i] != '/' by {
            assert(s[i] == a[i]);
        }
        text::lemma_find_char_is(s, '/', a.len() as int);
        assert(s.take(a.len() as int) == a);
        assert(s.skip(a.len() as int + 1) == b);
    }
}

proof fn lemma_nonempty_add(a: Seq<Seq<char>>, b: Seq<Seq<char>>)
    ensures
        builder::nonempty(a + b) == builder::nonempty(a) + builder::nonempty(b),
    decreases b.len(),
{
    if b.len() == 0 {
        assert(a + b == a);
        assert(builder::nonempty(a) + builder::nonempty(b) == builder::nonempty(a));
    } else {
        lemma_nonempty_add(a, b.drop_last());
        assert((a + b).drop_last() == a + b.drop_last());
        assert((a + b).last() == b.last());
        assert(builder::nonempty(a + b) == builder::nonempty(a) + builder::nonempty(b));
    }
}

pub(crate) proof fn lemma_components_add(a: Seq<char>, b: Seq<char>)
    ensures
        builder::components(a + seq!['/'] + b) == builder::components(a) + builder::components(b),
{
    lemma_split_add(a, b);
    lemma_nonempty_add(text::split(a, '/'), text::split(b, '/'));
}

pub(crate) proof fn lemma_components_of_name(name: Seq<char>)
    requires
        name.len() > 0,
        !name.contains('/'),
    ensures
        builder::components(name) == seq![name],
{
    assert forall|i: int| 0 <= i < name.len() implies name[i] != '/' by {
        assert(name.contains(name[i]));
    }
    text::lemma_find_char_is(name, '/', name.len() as int);
    assert(text::split(name, '/') == seq![name]);
    assert(seq![name].drop_last() == Seq::<Seq<char>>::empty());
    assert(builder::nonempty(seq![name].drop_last()) == Seq::<Seq<char>>::empty());
    assert(builder::nonempty(seq![name]) == seq![name]);
}

pub(crate) proof fn lemma_components_of_nothing()
    ensures
        builder::components(seq![]) == Seq::<Seq<char>>::empty(),
{
    let none = Seq::<char>::empty();
    let one = seq![none];
    assert(text::split(none, '/') == one);
    assert(one.drop_last() == Seq::<Seq<char>>::empty());
    assert(one.last().len() == 0);
    assert(builder::nonempty(one) == builder::nonempty(one.drop_last()));
}

proof fn lemma_components_trimmed(p: Seq<char>)
    ensures
        builder::components(cache::trim_slashes(p)) == builder::components(p),
    decreases p.len(),
{
    if p.len() > 0 && p.last() == '/' {
        let front = p.drop_last();
        lemma_components_trimmed(front);
        let none = Seq::<char>::empty();
        lemma_components_add(front, none);
        lemma_components_of_nothing();
        assert(p == front + seq!['/'] + none);
        assert(builder::components(front) + Seq::<Seq<char>>::empty() == builder::components(
            front,
        ));
    }
}

pub(crate) proof fn lemma_join_path(p: Seq<char>, name: Seq<char>)
    requires
        is_name(name),
    ensures
        builder::components(cache::join(p, name)) == builder::components(p).push(name),
        builder::path_text(builder::components(cache::join(p, name))) == builder::path_text(
            builder::components(p),
        ) + seq!['/'] + name,
{
    reveal_strlit("/");
    assert("/"@ == seq!['/']);
    lemma_components_trimmed(p);
    lemma_components_add(cache::trim_slashes(p), name);
    lemma_components_of_name(name);
    let c = builder::components(p) + seq![name];
    assert(c.drop_last() == builder::components(p));
    assert(c.last() == name);
    assert(c == builder::components(p).push(name));
}

// ── where the lines of a written tree stand ──

/// Whether the lines of directory `i` stand in `ls` after the first `at` lines, under a path that
/// is the directory's.
spec fn stands_at(ls: Seq<LineView>, t: Seq<NodeView>, i: int, path: Seq<char>, at: int) -> bool {
    &&& builder::path_text(builder::components(path)) == node_path(t, i)
    &&& 0 <= at
    &&& at + readback::tree_says(t, i, path).len() <= ls.len()
    &&& ls.subrange(at, at + readback::tree_says(t, i, path).len()) == readback::tree_says(
        t,
        i,
        path,
    )
}

/// Whether the lines of directory `i` stand somewhere in `ls`.
spec fn stands(ls: Seq<LineView>, t: Seq<NodeView>, i: int) -> bool {
    exists|path: Seq<char>, at: int| stands_at(ls, t, i, path, at)
}

/// A part of a part of a sequence.
proof fn lemma_part(ls: Seq<LineView>, at: int, a: Seq<LineView>, b: Seq<LineView>, c: Seq<LineView>)
    requires
        0 <= at,
        at + (a + b + c).len() <= ls.len(),
        ls.subrange(at, at + (a + b + c).len()) == a + b + c,
    ensures
        ls.subrange(at + a.len(), at + a.len() + b.len()) == b,
{
    let whole = a + b + c;
    let part = ls.subrange(at + a.len(), at + a.len() + b.len());
    assert forall|x: int| 0 <= x < b.len() implies #[trigger] part[x] == b[x] by {
        assert(whole[a.len() + x] == b[x]);
        assert(ls.subrange(at, at + whole.len())[a.len() + x] == ls[at + a.len() + x]);
    }
    assert(part =~= b);
}

/// The lines of the `k`-th child of `i`, a directory, within those of all directories below `i`.
proof fn lemma_child_in_dirs(t: Seq<NodeView>, i: int, path: Seq<char>, k: int, m: int) -> (r: (
    Seq<LineView>,
    Seq<LineView>,
))
    requires
        arena::is_arena(t),
        t.len() <= usize::MAX,
        0 <= i < t.len(),
        0 < k <= m <= hash::children(arena::parents(t), i).len(),
        t[hash::children(arena::parents(t), i)[k - 1] as int].is_dir,
    ensures
        readback::dirs_say(t, i, path, m) == r.0 + readback::tree_says(
            t,
            hash::children(arena::parents(t), i)[k - 1] as int,
            cache::join(path, t[hash::children(arena::parents(t), i)[k - 1] as int].name),
        ) + r.1,
    decreases m,
{
    let ids = hash::children(arena::parents(t), i);
    let c = ids[k - 1] as int;
    let sub = readback::tree_says(t, c, cache::join(path, t[c].name));
    if k == m {
        cache::lemma_child_in_range(t, i, k - 1);
        let none = Seq::<LineView>::empty();
        let before = readback::dirs_say(t, i, path, k - 1);
        assert(readback::dirs_say(t, i, path, m) == before + sub);
        assert(before + sub + none == before + sub);
        (before, none)
    } else {
        let (a, b) = lemma_child_in_dirs(t, i, path, k, m - 1);
        let d = ids[m - 1] as int;
        let more = if i < d < t.len() && t[d].is_dir {
            readback::tree_says(t, d, cache::join(path, t[d].name))
        } else {
            seq![]
        };
        assert(readback::dirs_say(t, i, path, m) == readback::dirs_say(t, i, path, m - 1) + more);
        assert(a + sub + b + more == a + sub + (b + more));
        (a, b + more)
    }
}

/// Where a child stands in the list of children.
proof fn lemma_child_index(t: Seq<NodeView>, j: int) -> (k: int)
    requires
        arena::is_arena(t),
        t.len() <= usize::MAX,
        1 <= j < t.len(),
    ensures
        0 < k <= hash::children(arena::parents(t), t[j].parent as int).len(),
        hash::children(arena::parents(t), t[j].parent as int)[k - 1] == j,
{
    let p = t[j].parent as int;
    let ps = arena::parents(t);
    let ids = hash::children(ps, p);
    hash::lemma_children_complete(ps, j, t.len() as int);
    let k = choose|k: int| 0 <= k < ids.len() && ids[k] == j as usize;
    k + 1
}

/// The lines of every directory of a written tree stand in the file.
proof fn lemma_dir_stands(t: Seq<NodeView>, j: int)
    requires
        arena::is_arena(t),
        arena::parents_are_dirs(t),
        t.len() <= usize::MAX,
        names_read_back(t),
        0 <= j < t.len(),
        j == 0 || t[j].is_dir,
    ensures
        stands(readback::tree_says(t, 0, t[0].name), t, j),
    decreases j,
{
    let ls = readback::tree_says(t, 0, t[0].name);
    if j == 0 {
        assert(ls.subrange(0, ls.len() as int) == ls);
        assert(stands_at(ls, t, 0, t[0].name, 0));
    } else {
        let p = t[j].parent as int;
        assert(t[t[j].parent as int].is_dir);
        lemma_dir_stands(t, p);
        let (path, at) = choose|path: Seq<char>, at: int| stands_at(ls, t, p, path, at);
        let k = lemma_child_index(t, j);
        let ids = hash::children(arena::parents(t), p);
        let n = ids.len() as int;
        let (a, b) = lemma_child_in_dirs(t, p, path, k, n);
        let sub = cache::join(path, t[j].name);
        let x = readback::tree_says(t, j, sub);
        let head = seq![readback::dir_says(t[p], path)] + readback::files_say(t, ids, n);
        assert(readback::tree_says(t, p, path) == head + readback::dirs_say(t, p, path, n));
        assert(readback::tree_says(t, p, path) == (head + a) + x + b);
        lemma_part(ls, at, head + a, x, b);
        assert(is_name(t[j].name));
        lemma_join_path(path, t[j].name);
        assert(stands_at(ls, t, j, sub, at + (head + a).len()));
    }
}

/// The line of the `k`-th child of a directory within those of all its entries that are no
/// directories.
proof fn lemma_file_in_files(t: Seq<NodeView>, ids: Seq<usize>, k: int, m: int) -> (r: int)
    requires
        0 < k <= m <= ids.len(),
        !t[ids[k - 1] as int].is_dir,
    ensures
        0 <= r < readback::files_say(t, ids, m).len(),
        readback::files_say(t, ids, m)[r] == readback::file_says(t[ids[k - 1] as int]),
    decreases m,
{
    if k == m {
        readback::files_say(t, ids, m - 1).len() as int
    } else {
        let r = lemma_file_in_files(t, ids, k, m - 1);
        assert(readback::files_say(t, ids, m)[r] == readback::files_say(t, ids, m - 1)[r]);
        r
    }
}

proof fn lemma_files_are_no_dirs(t: Seq<NodeView>, ids: Seq<usize>, m: int, r: int)
    requires
        0 <= m <= ids.len(),
        0 <= r < readback::files_say(t, ids, m).len(),
    ensures
        readback::files_say(t, ids, m)[r].kind != Kind::Dir,
    decreases m,
{
    if m > 0 && r < readback::files_say(t, ids, m - 1).len() {
        lemma_files_are_no_dirs(t, ids, m - 1, r);
    }
}

/// After the line of a directory, and lines about other things, its entries still follow.
proof fn lemma_current_stays(ls: Seq<LineView>, at: int, k: int)
    requires
        0 <= at < k <= ls.len(),
        ls[at].kind == Kind::Dir,
        forall|x: int| at < x < k ==> (#[trigger] ls[x]).kind != Kind::Dir,
    ensures
        current_path(ls.take(k)) == builder::path_text(builder::components(ls[at].name)),
    decreases k,
{
    let s = ls.take(k);
    assert(s.last() == ls[k - 1]);
    if k - 1 > at {
        assert(s.drop_last() == ls.take(k - 1));
        lemma_current_stays(ls, at, k - 1);
    }
}

/// An entry of a written tree that is no directory is there when the file is read: at its path, with
/// its size, and as a link where it is one.
pub proof fn law_written_entries_are_read_back(t: Seq<NodeView>, j: int)
    requires
        arena::is_arena(t),
        arena::parents_are_dirs(t),
        t.len() <= usize::MAX,
        names_read_back(t),
        import::cache_fits(readback::tree_says(t, 0, t[0].name)),
        1 <= j < t.len(),
        !t[j].is_dir,
    ensures
        holds_entry(
            import::cache_tree(import::said(text::lines(cache::cache_text(t)))).0.t,
            node_path(t, j),
            t[j].size as nat,
            t[j].is_link,
        ),
{
    let ls = readback::tree_says(t, 0, t[0].name);
    lemma_all_readable(t);
    readback::law_cache_file_reads_back(t);
    let p = t[j].parent as int;
    assert(t[t[j].parent as int].is_dir);
    lemma_dir_stands(t, p);
    let (path, at) = choose|path: Seq<char>, at: int| stands_at(ls, t, p, path, at);
    let k = lemma_child_index(t, j);
    let ids = hash::children(arena::parents(t), p);
    let n = ids.len() as int;
    let files = readback::files_say(t, ids, n);
    let dirs = readback::dirs_say(t, p, path, n);
    let first = seq![readback::dir_says(t[p], path)];
    let none = Seq::<LineView>::empty();
    assert(readback::tree_says(t, p, path) == none + first + (files + dirs));
    assert(readback::tree_says(t, p, path) == first + files + dirs);
    lemma_part(ls, at, none, first, files + dirs);
    lemma_part(ls, at, first, files, dirs);
    assert(ls[at] == ls.subrange(at, at + 1)[0]);
    let r = lemma_file_in_files(t, ids, k, n);
    let x = at + 1 + r;
    let part = ls.subrange(at + 1, at + 1 + files.len());
    assert(part == files);
    assert(ls[x] == part[r]);
    assert forall|y: int| at < y < x implies (#[trigger] ls[y]).kind != Kind::Dir by {
        lemma_files_are_no_dirs(t, ids, n, y - at - 1);
        assert(ls[y] == part[y - at - 1]);
    }
    lemma_current_stays(ls, at, x);
    law_entry_lines_are_kept(ls, x);
    assert(is_name(t[j].name));
    assert(t[j].name[0] != '/') by {
        assert(t[j].name.contains(t[j].name[0]));
    }
}

pub(crate) proof fn lemma_all_readable(t: Seq<NodeView>)
    requires
        names_read_back(t),
    ensures
        forall|j: int| 0 <= j < t.len() ==> readback::readable((#[trigger] t[j]).name),
{
    assert forall|j: int| 0 <= j < t.len() implies readback::readable((#[trigger] t[j]).name) by {
        if j > 0 {
            assert(is_name(t[j].name));
        }
    }
}

/// Every directory of a written tree is there when the file is read, at its path.
pub proof fn law_written_directories_are_read_back(t: Seq<NodeView>, j: int)
    requires
        arena::is_arena(t),
        arena::parents_are_dirs(t),
        t.len() <= usize::MAX,
        names_read_back(t),
        import::cache_fits(readback::tree_says(t, 0, t[0].name)),
        0 <= j < t.len(),
        j == 0 || t[j].is_dir,
    ensures
        holds_dir(
            import::cache_tree(import::said(text::lines(cache::cache_text(t)))).0.t,
            node_path(t, j),
            dir_bytes(import::said(text::lines(cache::cache_text(t))), node_path(t, j)),
        ),
{
    let ls = readback::tree_says(t, 0, t[0].name);
    lemma_all_readable(t);
    readback::law_cache_file_reads_back(t);
    lemma_dir_stands(t, j);
    let (path, at) = choose|path: Seq<char>, at: int| stands_at(ls, t, j, path, at);
    lemma_first_line(ls, t, j, path, at);
    law_dir_lines_are_kept(ls, at);
}

proof fn lemma_first_line(ls: Seq<LineView>, t: Seq<NodeView>, j: int, path: Seq<char>, at: int)
    requires
        stands_at(ls, t, j, path, at),
    ensures
        at < ls.len(),
        ls[at] == readback::dir_says(t[j], path),
{
    let s = readback::tree_says(t, j, path);
    assert(s[0] == readback::dir_says(t[j], path));
    assert(ls.subrange(at, at + s.len())[0] == ls[at]);
}

/// Whether a line about a directory is the line of one of the tree's directories.
spec fn is_dir_of(l: LineView, t: Seq<NodeView>) -> bool {
    exists|i: int|
        0 <= i < t.len() && (i == 0 || t[i].is_dir) && l.size == t[i].size
            && builder::path_text(builder::components(l.name)) == #[trigger] node_path(t, i)
}

proof fn lemma_dir_lines_are_of_the_tree(t: Seq<NodeView>, i: int, path: Seq<char>, x: int)
    requires
        arena::is_arena(t),
        t.len() <= usize::MAX,
        names_read_back(t),
        0 <= i < t.len(),
        i == 0 || t[i].is_dir,
        builder::path_text(builder::components(path)) == node_path(t, i),
        0 <= x < readback::tree_says(t, i, path).len(),
        readback::tree_says(t, i, path)[x].kind == Kind::Dir,
    ensures
        is_dir_of(readback::tree_says(t, i, path)[x], t),
    decreases t.len() - i, 1int, 0int,
{
    let ids = hash::children(arena::parents(t), i);
    let n = ids.len() as int;
    let files = readback::files_say(t, ids, n);
    let s = readback::tree_says(t, i, path);
    if x == 0 {
        assert(s[0] == readback::dir_says(t[i], path));
        assert(node_path(t, i) == builder::path_text(builder::components(s[0].name)));
    } else if x < 1 + files.len() {
        lemma_files_are_no_dirs(t, ids, n, x - 1);
        assert(s[x] == files[x - 1]);
    } else {
        let y = x - 1 - files.len();
        assert(s[x] == readback::dirs_say(t, i, path, n)[y]);
        lemma_dirs_lines_are_of_the_tree(t, i, path, n, y);
    }
}

proof fn lemma_dirs_lines_are_of_the_tree(
    t: Seq<NodeView>,
    i: int,
    path: Seq<char>,
    k: int,
    y: int,
)
    requires
        arena::is_arena(t),
        t.len() <= usize::MAX,
        names_read_back(t),
        0 <= i < t.len(),
        0 <= k <= hash::children(arena::parents(t), i).len(),
        builder::path_text(builder::components(path)) == node_path(t, i),
        0 <= y < readback::dirs_say(t, i, path, k).len(),
        readback::dirs_say(t, i, path, k)[y].kind == Kind::Dir,
    ensures
        is_dir_of(readback::dirs_say(t, i, path, k)[y], t),
    decreases t.len() - i, 0int, k,
{
    if k > 0 {
        let before = readback::dirs_say(t, i, path, k - 1);
        let ps = arena::parents(t);
        let c = hash::children(ps, i)[k - 1] as int;
        cache::lemma_child_in_range(t, i, k - 1);
        hash::lemma_children_below(ps, i, t.len() as int);
        assert(ps[c] == t[c].parent);
        if y < before.len() {
            lemma_dirs_lines_are_of_the_tree(t, i, path, k - 1, y);
        } else if t[c].is_dir {
            let sub = cache::join(path, t[c].name);
            assert(is_name(t[c].name));
            lemma_join_path(path, t[c].name);
            assert(node_path(t, c) == node_path(t, i) + seq!['/'] + t[c].name);
            lemma_dir_lines_are_of_the_tree(t, c, sub, y - before.len());
        }
    }
}

proof fn lemma_dir_bytes_are(ls: Seq<LineView>, path: Seq<char>, bytes: nat, k: int)
    requires
        0 <= k < ls.len(),
        ls[k].kind == Kind::Dir,
        builder::path_text(builder::components(ls[k].name)) == path,
        forall|x: int|
            0 <= x < ls.len() && (#[trigger] ls[x]).kind == Kind::Dir && builder::path_text(
                builder::components(ls[x].name),
            ) == path ==> ls[x].size == bytes,
    ensures
        dir_bytes(ls, path) == bytes,
    decreases ls.len(),
{
    let l = ls.last();
    assert(ls[ls.len() - 1] == l);
    if !(l.kind == Kind::Dir && builder::path_text(builder::components(l.name)) == path) {
        let front = ls.drop_last();
        assert(front[k] == ls[k]);
        assert forall|x: int|
            0 <= x < front.len() && (#[trigger] front[x]).kind == Kind::Dir && builder::path_text(
                builder::components(front[x].name),
            ) == path implies front[x].size == bytes by {
            assert(front[x] == ls[x]);
        }
        lemma_dir_bytes_are(front, path, bytes, k);
    }
}

/// Where no two directories have the same path, every directory of a written tree is read back with
/// its own size.
pub proof fn law_written_directories_keep_their_size(t: Seq<NodeView>, j: int)
    requires
        arena::is_arena(t),
        arena::parents_are_dirs(t),
        t.len() <= usize::MAX,
        names_read_back(t),
        import::cache_fits(readback::tree_says(t, 0, t[0].name)),
        0 <= j < t.len(),
        j == 0 || t[j].is_dir,
        forall|i: int|
            0 <= i < t.len() && (i == 0 || t[i].is_dir) && #[trigger] node_path(t, i) == node_path(
                t,
                j,
            ) ==> i == j,
    ensures
        holds_dir(
            import::cache_tree(import::said(text::lines(cache::cache_text(t)))).0.t,
            node_path(t, j),
            t[j].size as nat,
        ),
{
    let ls = readback::tree_says(t, 0, t[0].name);
    law_written_directories_are_read_back(t, j);
    lemma_all_readable(t);
    readback::law_cache_file_reads_back(t);
    lemma_dir_stands(t, j);
    let (path, at) = choose|path: Seq<char>, at: int| stands_at(ls, t, j, path, at);
    lemma_first_line(ls, t, j, path, at);
    assert forall|x: int|
        0 <= x < ls.len() && (#[trigger] ls[x]).kind == Kind::Dir && builder::path_text(
            builder::components(ls[x].name),
        ) == node_path(t, j) implies ls[x].size == t[j].size as nat by {
        lemma_dir_lines_are_of_the_tree(t, 0, t[0].name, x);
        let i = choose|i: int|
            0 <= i < t.len() && (i == 0 || t[i].is_dir) && ls[x].size == t[i].size
                && builder::path_text(builder::components(ls[x].name)) == #[trigger] node_path(
                t,
                i,
            );
        assert(i == j);
    }
    lemma_dir_bytes_are(ls, node_path(t, j), t[j].size as nat, at);
}

} // verus!
