//! Trees from listings of paths.

use crate::arena;
use crate::arena::{Node, NodeView};
use crate::text;
use vstd::hash_map::StringHashMap;
use vstd::prelude::*;

verus! {

// ── paths ──

/// The texts that are not empty.
pub open spec fn nonempty(v: Seq<Seq<char>>) -> Seq<Seq<char>>
    decreases v.len(),
{
    if v.len() == 0 {
        seq![]
    } else if v.last().len() == 0 {
        nonempty(v.drop_last())
    } else {
        nonempty(v.drop_last()).push(v.last())
    }
}

/// The components of a path: what stands between its slashes.
pub open spec fn components(path: Seq<char>) -> Seq<Seq<char>> {
    nonempty(text::split(path, '/'))
}

/// The path with the given components, each after a slash.
pub open spec fn path_text(comps: Seq<Seq<char>>) -> Seq<char>
    decreases comps.len(),
{
    if comps.len() == 0 {
        seq![]
    } else {
        path_text(comps.drop_last()) + seq!['/'] + comps.last()
    }
}

/// Splits a path into its components.
pub fn components_of<'a>(path: &'a [char]) -> (r: Vec<&'a [char]>)
    ensures
        text::views(r@) == components(path@),
{
    let pieces = text::split_at_char(path, '/');
    let ghost all = text::views(pieces@);
    let mut out: Vec<&'a [char]> = Vec::new();
    let mut i: usize = 0;
    assert(all.take(0) == Seq::<Seq<char>>::empty());
    assert(text::views(out@) == Seq::<Seq<char>>::empty());
    while i < pieces.len()
        invariant
            i <= pieces@.len(),
            all == text::views(pieces@),
            text::views(out@) == nonempty(all.take(i as int)),
        decreases pieces@.len() - i,
    {
        let ghost before = out@;
        proof {
            assert(all.take(i + 1).drop_last() == all.take(i as int));
            assert(all.take(i + 1).last() == pieces@[i as int]@);
        }
        if pieces[i].len() > 0 {
            out.push(pieces[i]);
            assert(text::views(out@) == text::views(before).push(pieces@[i as int]@));
        }
        i = i + 1;
    }
    assert(all.take(all.len() as int) == all);
    out
}

/// The path of node `i`: the names on the way from the root, each after a slash.
pub open spec fn tree_path(t: Seq<NodeView>, i: int) -> Seq<char>
    decreases i,
{
    if i <= 0 || i >= t.len() || t[i].parent >= i {
        seq![]
    } else {
        tree_path(t, t[i].parent as int) + seq!['/'] + t[i].name
    }
}

/// A node's path depends on the names and parents up to it alone.
pub proof fn lemma_tree_path(t: Seq<NodeView>, u: Seq<NodeView>, i: int)
    requires
        t.len() <= u.len(),
        i < t.len(),
        forall|j: int|
            0 <= j < t.len() ==> (#[trigger] t[j]).parent == u[j].parent && t[j].name == u[j].name,
    ensures
        tree_path(t, i) == tree_path(u, i),
    decreases i,
{
    if i > 0 {
        assert(t[i].parent == u[i].parent);
        if t[i].parent < i {
            lemma_tree_path(t, u, t[i].parent as int);
        }
    }
}

// ── the tree under construction ──

/// A tree under construction: its nodes, and which of them is the directory at a path.
#[verifier::ext_equal]
pub struct BuilderView {
    pub t: Seq<NodeView>,
    pub dirs: Map<Seq<char>, usize>,
}

/// A directory of which only the name is known.
pub open spec fn dir_node(parent: usize, name: Seq<char>) -> NodeView {
    NodeView { parent: parent, name: name, is_dir: true, ..arena::empty_node() }
}

/// The tree that holds the root alone.
pub open spec fn start(root_name: Seq<char>) -> BuilderView {
    BuilderView { t: seq![dir_node(0, root_name)], dirs: Map::empty() }
}

/// The tree with the directory at `comps` and all those above it, and which node it is.
pub open spec fn with_dir(b: BuilderView, comps: Seq<Seq<char>>) -> (BuilderView, usize)
    decreases comps.len(),
{
    if comps.len() == 0 {
        (b, 0)
    } else {
        let (p, id) = with_dir(b, comps.drop_last());
        let key = path_text(comps);
        if p.dirs.contains_key(key) {
            (p, p.dirs[key])
        } else {
            (
                BuilderView {
                    t: p.t.push(dir_node(id, comps.last())),
                    dirs: p.dirs.insert(key, p.t.len() as usize),
                },
                p.t.len() as usize,
            )
        }
    }
}

/// The tree with one more node.
pub open spec fn with_node(b: BuilderView, n: NodeView) -> BuilderView {
    BuilderView { t: b.t.push(n), dirs: b.dirs }
}

/// The tree is an arena in which only directories have children, and every directory stands at the
/// path under which it is known.
pub open spec fn sound(b: BuilderView) -> bool {
    &&& arena::is_arena(b.t)
    &&& arena::parents_are_dirs(b.t)
    &&& b.t[0].is_dir
    &&& forall|key: Seq<char>| #[trigger]
        b.dirs.contains_key(key) ==> b.dirs[key] < b.t.len() && b.t[b.dirs[key] as int].is_dir
            && tree_path(b.t, b.dirs[key] as int) == key
}

/// A node added below a directory keeps the tree sound, and leaves every path as it is.
pub proof fn lemma_with_node_sound(b: BuilderView, n: NodeView)
    requires
        sound(b),
        n.parent < b.t.len(),
        b.t[n.parent as int].is_dir,
    ensures
        sound(with_node(b, n)),
        tree_path(with_node(b, n).t, b.t.len() as int) == tree_path(b.t, n.parent as int) + seq!['/']
            + n.name,
{
    let v = with_node(b, n);
    assert forall|i: int| 1 <= i < v.t.len() implies #[trigger] v.t[i].parent < i by {
        if i < b.t.len() {
            assert(v.t[i] == b.t[i]);
        }
    }
    assert forall|i: int| 1 <= i < v.t.len() implies v.t[#[trigger] v.t[i].parent as int].is_dir by {
        if i < b.t.len() {
            assert(v.t[i] == b.t[i]);
            assert(b.t[b.t[i].parent as int].is_dir);
        }
    }
    assert forall|key: Seq<char>| #[trigger] v.dirs.contains_key(key) implies v.dirs[key]
        < v.t.len() && v.t[v.dirs[key] as int].is_dir && tree_path(v.t, v.dirs[key] as int)
        == key by {
        assert(b.dirs.contains_key(key));
        lemma_tree_path(b.t, v.t, b.dirs[key] as int);
    }
    lemma_tree_path(b.t, v.t, n.parent as int);
}

/// Asking for a directory adds at most one node per component.
pub proof fn lemma_with_dir_len(b: BuilderView, comps: Seq<Seq<char>>)
    ensures
        b.t.len() <= with_dir(b, comps).0.t.len() <= b.t.len() + comps.len(),
    decreases comps.len(),
{
    if comps.len() > 0 {
        lemma_with_dir_len(b, comps.drop_last());
    }
}

/// Asking for a directory keeps the tree sound, keeps every node that was there, and yields a
/// directory that stands at the path that was asked for; the nodes that are added bring no bytes.
pub proof fn lemma_with_dir_keeps(b: BuilderView, comps: Seq<Seq<char>>)
    requires
        sound(b),
        with_dir(b, comps).0.t.len() <= usize::MAX,
    ensures
        sound(with_dir(b, comps).0),
        b.t.is_prefix_of(with_dir(b, comps).0.t),
        with_dir(b, comps).1 < with_dir(b, comps).0.t.len(),
        with_dir(b, comps).0.t[with_dir(b, comps).1 as int].is_dir,
        tree_path(with_dir(b, comps).0.t, with_dir(b, comps).1 as int) == path_text(comps),
        arena::total(with_dir(b, comps).0.t) == arena::total(b.t),
    decreases comps.len(),
{
    if comps.len() > 0 {
        let front = comps.drop_last();
        lemma_with_dir_keeps(b, front);
        let (p, id) = with_dir(b, front);
        let key = path_text(comps);
        if !p.dirs.contains_key(key) {
            let n = dir_node(id, comps.last());
            let fresh = p.t.len() as usize;
            lemma_with_node_sound(p, n);
            lemma_total_push(p.t, n);
            let mid = with_node(p, n);
            let v = with_dir(b, comps).0;
            assert(v.t == mid.t);
            assert(v.dirs == p.dirs.insert(key, fresh));
            assert forall|k: Seq<char>| #[trigger] v.dirs.contains_key(k) implies v.dirs[k]
                < v.t.len() && v.t[v.dirs[k] as int].is_dir && tree_path(v.t, v.dirs[k] as int)
                == k by {
                if k != key {
                    assert(mid.dirs.contains_key(k));
                }
            }
        }
    }
}

/// Asking for a directory where there is room for it and all those above it.
pub proof fn lemma_with_dir_sound(b: BuilderView, comps: Seq<Seq<char>>)
    requires
        sound(b),
        b.t.len() + comps.len() <= usize::MAX,
    ensures
        sound(with_dir(b, comps).0),
        b.t.is_prefix_of(with_dir(b, comps).0.t),
        with_dir(b, comps).0.t.len() <= b.t.len() + comps.len(),
        with_dir(b, comps).1 < with_dir(b, comps).0.t.len(),
        with_dir(b, comps).0.t[with_dir(b, comps).1 as int].is_dir,
        tree_path(with_dir(b, comps).0.t, with_dir(b, comps).1 as int) == path_text(comps),
        arena::total(with_dir(b, comps).0.t) == arena::total(b.t),
{
    lemma_with_dir_len(b, comps);
    lemma_with_dir_keeps(b, comps);
}

/// The directories that are known stay known.
proof fn lemma_known_stays(b: BuilderView, comps: Seq<Seq<char>>)
    ensures
        b.dirs.submap_of(with_dir(b, comps).0.dirs),
        comps.len() > 0 ==> with_dir(b, comps).0.dirs.contains_key(path_text(comps)) && with_dir(
            b,
            comps,
        ).0.dirs[path_text(comps)] == with_dir(b, comps).1,
    decreases comps.len(),
{
    if comps.len() > 0 {
        lemma_known_stays(b, comps.drop_last());
    }
}

/// Where all directories on the way are known, nothing is added.
proof fn lemma_known_is_found(b: BuilderView, w: BuilderView, comps: Seq<Seq<char>>)
    requires
        with_dir(b, comps).0.dirs.submap_of(w.dirs),
    ensures
        with_dir(w, comps) == (w, with_dir(b, comps).1),
    decreases comps.len(),
{
    if comps.len() > 0 {
        let front = comps.drop_last();
        let p = with_dir(b, front).0;
        let v = with_dir(b, comps).0;
        lemma_known_stays(b, comps);
        assert(p.dirs.submap_of(v.dirs));
        assert forall|key: Seq<char>| #[trigger] p.dirs.dom().contains(key) implies w.dirs.dom().contains(
            key,
        ) && p.dirs[key] == w.dirs[key] by {
            assert(v.dirs.dom().contains(key));
        }
        assert(p.dirs.submap_of(w.dirs));
        lemma_known_is_found(b, w, front);
        assert(w.dirs.contains_key(path_text(comps)));
    }
}

/// Asking for a directory twice changes nothing: the second time the same node is found, and neither
/// the nodes nor the known directories change.
pub proof fn law_asking_twice_changes_nothing(b: BuilderView, comps: Seq<Seq<char>>)
    ensures
        with_dir(with_dir(b, comps).0, comps) == with_dir(b, comps),
{
    lemma_known_is_found(b, with_dir(b, comps).0, comps);
}

/// How many of the directory with these components and those above it are not known.
pub open spec fn unknown_dirs(b: BuilderView, comps: Seq<Seq<char>>) -> nat
    decreases comps.len(),
{
    if comps.len() == 0 {
        0
    } else {
        unknown_dirs(b, comps.drop_last()) + if b.dirs.contains_key(path_text(comps)) {
            0nat
        } else {
            1
        }
    }
}

proof fn lemma_path_text_grows(comps: Seq<Seq<char>>)
    requires
        comps.len() > 0,
    ensures
        path_text(comps.drop_last()).len() < path_text(comps).len(),
{
}

/// What is known after asking: what was, and the directories on the way.
proof fn lemma_known_after(b: BuilderView, comps: Seq<Seq<char>>, key: Seq<char>)
    requires
        with_dir(b, comps).0.dirs.contains_key(key),
    ensures
        b.dirs.contains_key(key) || key.len() <= path_text(comps).len(),
    decreases comps.len(),
{
    if comps.len() > 0 {
        lemma_path_text_grows(comps);
        if with_dir(b, comps.drop_last()).0.dirs.contains_key(key) {
            lemma_known_after(b, comps.drop_last(), key);
        }
    }
}

/// Asking for a directory keeps the nodes that were there, and adds a directory without bytes for it
/// and for each of those above it that were not known, each after the one that holds it. The root is
/// found where there is no component, and only there.
pub proof fn law_missing_directories_are_added_once(b: BuilderView, comps: Seq<Seq<char>>)
    requires
        sound(b),
        with_dir(b, comps).0.t.len() <= usize::MAX,
    ensures
        ({
            let (v, id) = with_dir(b, comps);
            &&& b.t.is_prefix_of(v.t)
            &&& v.t.len() == b.t.len() + unknown_dirs(b, comps)
            &&& forall|j: int|
                b.t.len() <= j < v.t.len() ==> (#[trigger] v.t[j]).parent < j && v.t[j] == dir_node(
                    v.t[j].parent,
                    v.t[j].name,
                )
            &&& id == 0 <==> comps.len() == 0
        }),
    decreases comps.len(),
{
    lemma_with_dir_keeps(b, comps);
    let (v, id) = with_dir(b, comps);
    if comps.len() > 0 {
        let front = comps.drop_last();
        let key = path_text(comps);
        let (p, at) = with_dir(b, front);
        law_missing_directories_are_added_once(b, front);
        lemma_with_dir_keeps(b, front);
        lemma_path_text_grows(comps);
        lemma_known_stays(b, front);
        assert(p.dirs.contains_key(key) <==> b.dirs.contains_key(key)) by {
            if p.dirs.contains_key(key) {
                lemma_known_after(b, front, key);
            }
        }
        assert(id != 0) by {
            assert(tree_path(v.t, 0).len() == 0);
            assert(tree_path(v.t, id as int).len() > 0);
        }
        assert forall|j: int| b.t.len() <= j < v.t.len() implies (#[trigger] v.t[j]).parent < j
            && v.t[j] == dir_node(v.t[j].parent, v.t[j].name) by {
            if j < p.t.len() {
                assert(v.t[j] == p.t[j]);
            } else {
                assert(v.t[j] == dir_node(at, comps.last()));
            }
        }
    }
}

proof fn lemma_sum_prefix(t: Seq<NodeView>, u: Seq<NodeView>, k: int)
    requires
        k <= t.len(),
        t.is_prefix_of(u),
    ensures
        arena::sum_subs(t, k) == arena::sum_subs(u, k),
    decreases k,
{
    if k > 0 {
        lemma_sum_prefix(t, u, k - 1);
        assert(u.subrange(0, t.len() as int)[k - 1] == u[k - 1]);
    }
}

/// One more node brings its bytes.
pub proof fn lemma_total_push(t: Seq<NodeView>, n: NodeView)
    ensures
        arena::total(t.push(n)) == arena::total(t) + n.sub as nat,
{
    assert(t.is_prefix_of(t.push(n)));
    lemma_sum_prefix(t, t.push(n), t.len() as int);
}

/// A tree under construction.
pub struct Builder {
    nodes: Vec<Node>,
    dirs: StringHashMap<usize>,
}

impl View for Builder {
    type V = BuilderView;

    closed spec fn view(&self) -> BuilderView {
        BuilderView { t: arena::tree(self.nodes@), dirs: self.dirs@ }
    }
}

proof fn lemma_tree_push(nodes: Seq<Node>, n: Node)
    ensures
        arena::tree(nodes.push(n)) == arena::tree(nodes).push(n@),
{
}

impl Builder {
    /// The tree that holds the root alone.
    pub fn new(root_name: &str) -> (r: Builder)
        ensures
            r@ == start(root_name@),
            sound(r@),
    {
        let mut root = Node::empty();
        root.name = root_name.to_string();
        root.is_dir = true;
        let mut nodes: Vec<Node> = Vec::new();
        nodes.push(root);
        let r = Builder { nodes: nodes, dirs: StringHashMap::new() };
        proof {
            assert(root@ == dir_node(0, root_name@));
            assert(r@.t == seq![root@]);
            assert(r@.dirs == Map::<Seq<char>, usize>::empty());
        }
        r
    }

    /// The directory at `comps`, made with all those above it where it is not there.
    pub fn dir(&mut self, comps: &[&[char]]) -> (r: usize)
        requires
            sound(old(self)@),
        ensures
            (final(self)@, r) == with_dir(old(self)@, text::views(comps@)),
            sound(final(self)@),
    {
        let ghost b = self@;
        let ghost all = text::views(comps@);
        let mut parent: usize = 0;
        let mut path = String::new();
        let n = comps.len();
        assert(all.take(0) == Seq::<Seq<char>>::empty());
        let mut i: usize = 0;
        while i < n
            invariant
                n == comps@.len(),
                i <= n,
                all == text::views(comps@),
                sound(b),
                (self@, parent) == with_dir(b, all.take(i as int)),
                path@ == path_text(all.take(i as int)),
            decreases n - i,
        {
            let ghost before = self@;
            let ghost part = all.take(i + 1);
            proof {
                assert(part.drop_last() == all.take(i as int));
                assert(part.last() == comps@[i as int]@);
            }
            path.push('/');
            text::push_chars(&mut path, comps[i]);
            assert(path@ == path_text(part));
            match self.dirs.get(path.as_str()) {
                Some(id) => {
                    parent = *id;
                },
                None => {
                    let id = self.nodes.len();
                    let mut nd = Node::empty();
                    nd.parent = parent;
                    nd.name = text::text_of(comps[i]);
                    nd.is_dir = true;
                    proof {
                        assert(nd@ == dir_node(parent, comps@[i as int]@));
                        lemma_tree_push(self.nodes@, nd);
                    }
                    self.nodes.push(nd);
                    self.dirs.insert(path.clone(), id);
                    assert(self@.t == before.t.push(nd@));
                    assert(self@.dirs == before.dirs.insert(path@, id));
                    parent = id;
                },
            }
            i = i + 1;
        }
        let count = self.nodes.len();
        proof {
            assert(all.take(n as int) == all);
            assert(with_dir(b, all).0.t.len() == count);
            lemma_with_dir_keeps(b, all);
        }
        parent
    }

    /// Adds a node below a directory.
    pub fn add_node(&mut self, n: Node)
        requires
            sound(old(self)@),
            n@.parent < old(self)@.t.len(),
            old(self)@.t[n@.parent as int].is_dir,
        ensures
            final(self)@ == with_node(old(self)@, n@),
            sound(final(self)@),
    {
        proof {
            lemma_with_node_sound(self@, n@);
            lemma_tree_push(self.nodes@, n);
        }
        self.nodes.push(n);
    }

    /// Sets the bytes that node `i` brings.
    pub fn set_bytes(&mut self, i: usize, bytes: u64)
        requires
            sound(old(self)@),
            i < old(self)@.t.len(),
        ensures
            final(self)@ == with_bytes(old(self)@, i, bytes),
            sound(final(self)@),
    {
        let ghost before = self@;
        self.nodes[i].own = bytes;
        self.nodes[i].sub = bytes;
        proof {
            assert(self@.t == with_bytes(before, i, bytes).t);
            lemma_with_bytes_sound(before, i, bytes);
        }
    }

    /// The nodes.
    pub fn into_nodes(self) -> (r: Vec<Node>)
        ensures
            arena::tree(r@) == self@.t,
    {
        self.nodes
    }
}

/// The tree in which node `i` brings `bytes` bytes.
pub open spec fn with_bytes(b: BuilderView, i: usize, bytes: u64) -> BuilderView {
    BuilderView {
        t: b.t.update(i as int, NodeView { own: bytes, sub: bytes, ..b.t[i as int] }),
        dirs: b.dirs,
    }
}

/// The bytes of a node do not matter to the shape of the tree.
pub proof fn lemma_with_bytes_sound(b: BuilderView, i: usize, bytes: u64)
    requires
        sound(b),
        i < b.t.len(),
    ensures
        sound(with_bytes(b, i, bytes)),
{
    let v = with_bytes(b, i, bytes);
    assert forall|j: int| 1 <= j < v.t.len() implies #[trigger] v.t[j].parent < j by {
        assert(b.t[j].parent < j);
    }
    assert forall|j: int| 1 <= j < v.t.len() implies v.t[#[trigger] v.t[j].parent as int].is_dir by {
        assert(b.t[b.t[j].parent as int].is_dir);
    }
    assert forall|key: Seq<char>| #[trigger] v.dirs.contains_key(key) implies v.dirs[key]
        < v.t.len() && v.t[v.dirs[key] as int].is_dir && tree_path(v.t, v.dirs[key] as int)
        == key by {
        assert(b.dirs.contains_key(key));
        lemma_tree_path(b.t, v.t, b.dirs[key] as int);
    }
}

// ── flat listings ──

/// A file of which the name and the size are known.
pub open spec fn file_node(parent: usize, name: Seq<char>, size: u64) -> NodeView {
    NodeView {
        parent: parent,
        name: name,
        own: size,
        sub: size,
        size: size,
        blocks: ((size + 511) / 512) as u64,
        ..arena::empty_node()
    }
}

/// The tree with a file at `path`; nothing where the path has no components.
pub open spec fn with_file(b: BuilderView, size: u64, path: Seq<char>) -> BuilderView {
    let comps = components(path);
    if comps.len() == 0 {
        b
    } else {
        let (p, id) = with_dir(b, comps.drop_last());
        with_node(p, file_node(id, comps.last(), size))
    }
}

/// The sizes and paths of a listing, as mathematical values.
pub open spec fn listing(lines: Seq<(u64, String)>) -> Seq<(u64, Seq<char>)> {
    Seq::new(lines.len(), |i: int| (lines[i].0, lines[i].1@))
}

/// The tree of a listing.
pub open spec fn flat_tree(root_name: Seq<char>, lines: Seq<(u64, Seq<char>)>) -> BuilderView
    decreases lines.len(),
{
    if lines.len() == 0 {
        start(root_name)
    } else {
        with_file(flat_tree(root_name, lines.drop_last()), lines.last().0, lines.last().1)
    }
}

/// How many components the paths of a listing have, all together.
pub open spec fn component_count(lines: Seq<(u64, Seq<char>)>) -> nat
    decreases lines.len(),
{
    if lines.len() == 0 {
        0
    } else {
        component_count(lines.drop_last()) + components(lines.last().1).len()
    }
}

/// The bytes of the files of a listing.
pub open spec fn listed_bytes(lines: Seq<(u64, Seq<char>)>) -> nat
    decreases lines.len(),
{
    if lines.len() == 0 {
        0
    } else {
        listed_bytes(lines.drop_last()) + if components(lines.last().1).len() == 0 {
            0
        } else {
            lines.last().0 as nat
        }
    }
}

/// The sizes can be rounded up to blocks, and the nodes can be counted.
pub open spec fn listing_fits(lines: Seq<(u64, Seq<char>)>) -> bool {
    &&& forall|i: int|
        0 <= i < lines.len() && components((#[trigger] lines[i]).1).len() > 0 ==> lines[i].0 + 511
            <= u64::MAX
    &&& 1 + component_count(lines) <= usize::MAX
}

/// A listed file becomes a leaf at its path, with its size; what was in the tree before stays, and
/// nothing else brings bytes.
pub proof fn law_listed_file_is_at_its_path(b: BuilderView, size: u64, path: Seq<char>)
    requires
        sound(b),
        components(path).len() > 0,
        b.t.len() + components(path).len() <= usize::MAX,
    ensures
        sound(with_file(b, size, path)),
        b.t.is_prefix_of(with_file(b, size, path).t),
        with_file(b, size, path).t.len() <= b.t.len() + components(path).len(),
        with_file(b, size, path).t.last().sub == size,
        !with_file(b, size, path).t.last().is_dir,
        tree_path(with_file(b, size, path).t, with_file(b, size, path).t.len() - 1) == path_text(
            components(path),
        ),
        arena::total(with_file(b, size, path).t) == arena::total(b.t) + size,
{
    let comps = components(path);
    lemma_with_dir_sound(b, comps.drop_last());
    let (p, id) = with_dir(b, comps.drop_last());
    let n = file_node(id, comps.last(), size);
    lemma_with_node_sound(p, n);
    lemma_total_push(p.t, n);
    assert(with_file(b, size, path).t.subrange(0, b.t.len() as int) == p.t.subrange(
        0,
        b.t.len() as int,
    ));
}

/// The tree of a listing is sound and brings exactly the bytes of the listing.
pub proof fn law_listing_keeps_bytes(root_name: Seq<char>, lines: Seq<(u64, Seq<char>)>)
    requires
        1 + component_count(lines) <= usize::MAX,
    ensures
        sound(flat_tree(root_name, lines)),
        flat_tree(root_name, lines).t.len() <= 1 + component_count(lines),
        arena::total(flat_tree(root_name, lines).t) == listed_bytes(lines),
    decreases lines.len(),
{
    if lines.len() == 0 {
        reveal_with_fuel(arena::sum_subs, 2);
    } else {
        law_listing_keeps_bytes(root_name, lines.drop_last());
        let b = flat_tree(root_name, lines.drop_last());
        if components(lines.last().1).len() > 0 {
            law_listed_file_is_at_its_path(b, lines.last().0, lines.last().1);
        }
    }
}

proof fn lemma_component_count_grows(lines: Seq<(u64, Seq<char>)>, k: int)
    requires
        0 <= k <= lines.len(),
    ensures
        component_count(lines.take(k)) <= component_count(lines),
    decreases lines.len(),
{
    if k == lines.len() {
        assert(lines.take(k) == lines);
    } else {
        lemma_component_count_grows(lines.drop_last(), k);
        assert(lines.drop_last().take(k) == lines.take(k));
    }
}

/// Whether a tree can be built of a listing.
pub fn flat_listing_fits(lines: &Vec<(u64, String)>) -> (r: bool)
    ensures
        r == listing_fits(listing(lines@)),
{
    let ghost all = listing(lines@);
    let mut room: usize = usize::MAX - 1;
    let mut i: usize = 0;
    assert(all.take(0) == Seq::<(u64, Seq<char>)>::empty());
    while i < lines.len()
        invariant
            i <= lines@.len(),
            all == listing(lines@),
            room + 1 + component_count(all.take(i as int)) == usize::MAX,
            forall|k: int|
                0 <= k < i && components((#[trigger] all[k]).1).len() > 0 ==> all[k].0 + 511
                    <= u64::MAX,
        decreases lines@.len() - i,
    {
        let chars = text::chars_of(lines[i].1.as_str());
        let n = components_of(chars.as_slice()).len();
        proof {
            assert(all.take(i + 1).drop_last() == all.take(i as int));
            assert(all[i as int] == (lines@[i as int].0, chars@));
            lemma_component_count_grows(all, i + 1);
        }
        assert(n == components(all[i as int].1).len());
        if n > 0 && lines[i].0 > u64::MAX - 511 {
            return false;
        }
        if n > room {
            return false;
        }
        room = room - n;
        i = i + 1;
    }
    assert(all.take(all.len() as int) == all);
    true
}

/// Builds the tree of a listing of files: sizes, and paths with `/` between their components.
pub fn build_tree_from_flat(root_name: &str, lines: &Vec<(u64, String)>) -> (r: Vec<Node>)
    requires
        listing_fits(listing(lines@)),
    ensures
        arena::tree(r@) == flat_tree(root_name@, listing(lines@)).t,
        arena::is_arena(arena::tree(r@)),
        arena::parents_are_dirs(arena::tree(r@)),
{
    let ghost all = listing(lines@);
    let mut b = Builder::new(root_name);
    let mut i: usize = 0;
    assert(all.take(0) == Seq::<(u64, Seq<char>)>::empty());
    while i < lines.len()
        invariant
            i <= lines@.len(),
            all == listing(lines@),
            listing_fits(all),
            sound(b@),
            b@ == flat_tree(root_name@, all.take(i as int)),
        decreases lines@.len() - i,
    {
        let chars = text::chars_of(lines[i].1.as_str());
        let comps = components_of(chars.as_slice());
        let ghost before = b@;
        proof {
            assert(all.take(i + 1).drop_last() == all.take(i as int));
            assert(all.take(i + 1).last() == all[i as int]);
            assert(all[i as int] == (lines@[i as int].0, chars@));
            assert(text::views(comps@).len() == comps@.len());
            lemma_component_count_grows(all, i as int);
            lemma_component_count_grows(all, i + 1);
            law_listing_keeps_bytes(root_name@, all.take(i as int));
        }
        let n = comps.len();
        if n > 0 {
            let size = lines[i].0;
            let parent = b.dir(&comps[0..n - 1]);
            proof {
                assert(text::views(comps@.subrange(0, n - 1)) == text::views(comps@).drop_last());
                lemma_with_dir_sound(before, text::views(comps@).drop_last());
            }
            let mut nd = Node::empty();
            nd.parent = parent;
            nd.name = text::text_of(comps[n - 1]);
            nd.own = size;
            nd.sub = size;
            nd.size = size;
            nd.blocks = (size + 511) / 512;
            assert(nd@ == file_node(parent, text::views(comps@).last(), size));
            b.add_node(nd);
        }
        i = i + 1;
    }
    assert(all.take(all.len() as int) == all);
    b.into_nodes()
}

} // verus!
