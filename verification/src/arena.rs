//! The directory tree as a flat arena of nodes, and the fold that sums sizes up the tree.
//!
//! A node is named by its index. Index 0 is the root, and a parent's index is below that of each
//! of its children, so one pass from the last node to the first sums every subtree.

use crate::hash;
use vstd::prelude::*;

verus! {

/// One entry of a scanned tree.
pub struct Node {
    /// The index of the directory that holds the entry; of no meaning for the root.
    pub parent: usize,
    /// The entry's base name; for the root, the path that was scanned.
    pub name: String,
    /// The bytes that count for the entry itself, in the chosen metric.
    pub own: u64,
    /// The bytes that count for the entry and everything below it, once folded.
    pub sub: u64,
    /// The apparent size.
    pub size: u64,
    /// The number of allocated 512-byte blocks.
    pub blocks: u64,
    /// The modification time in seconds.
    pub mtime: i64,
    /// The owner.
    pub uid: u32,
    /// The group.
    pub gid: u32,
    /// Type and permission bits.
    pub mode: u32,
    /// The number of hard links.
    pub nlink: u64,
    /// Whether the entry is a directory.
    pub is_dir: bool,
    /// Whether the entry is a symbolic link.
    pub is_link: bool,
}

/// A node as a mathematical value: its name is a sequence of characters.
pub struct NodeView {
    pub parent: usize,
    pub name: Seq<char>,
    pub own: u64,
    pub sub: u64,
    pub size: u64,
    pub blocks: u64,
    pub mtime: i64,
    pub uid: u32,
    pub gid: u32,
    pub mode: u32,
    pub nlink: u64,
    pub is_dir: bool,
    pub is_link: bool,
}

impl View for Node {
    type V = NodeView;

    open spec fn view(&self) -> NodeView {
        NodeView {
            parent: self.parent,
            name: self.name@,
            own: self.own,
            sub: self.sub,
            size: self.size,
            blocks: self.blocks,
            mtime: self.mtime,
            uid: self.uid,
            gid: self.gid,
            mode: self.mode,
            nlink: self.nlink,
            is_dir: self.is_dir,
            is_link: self.is_link,
        }
    }
}

/// The node with no name, no size and one link.
pub open spec fn empty_node() -> NodeView {
    NodeView {
        parent: 0,
        name: seq![],
        own: 0,
        sub: 0,
        size: 0,
        blocks: 0,
        mtime: 0,
        uid: 0,
        gid: 0,
        mode: 0,
        nlink: 1,
        is_dir: false,
        is_link: false,
    }
}

impl Node {
    /// A node with no name, no size and one link.
    pub fn empty() -> (r: Node)
        ensures
            r@ == empty_node(),
    {
        Node {
            parent: 0,
            name: String::new(),
            own: 0,
            sub: 0,
            size: 0,
            blocks: 0,
            mtime: 0,
            uid: 0,
            gid: 0,
            mode: 0,
            nlink: 1,
            is_dir: false,
            is_link: false,
        }
    }
}

/// The settings of a scan.
#[derive(Clone, Copy)]
pub struct Cfg {
    /// The depth at which a directory is no longer listed; the root has depth 1.
    pub max_depth: u32,
    /// How many children of a directory are kept in pruned output.
    pub top: usize,
    /// The number of worker threads; 0 lets the machine decide.
    pub threads: usize,
    /// Count apparent sizes instead of allocated ones.
    pub apparent: bool,
    /// Do not ask for metadata at all.
    pub no_stat: bool,
    /// Use the io_uring backend.
    pub iouring: bool,
    /// Stop listing directories once there are this many entries.
    pub max_entries: usize,
    /// Do not cross mount boundaries.
    pub one_fs: bool,
}

/// The entry ceiling when none is asked for.
pub const DEFAULT_MAX_ENTRIES: usize = 32_000_000;

// ── trees ──

/// The tree that a list of nodes holds.
pub open spec fn tree(nodes: Seq<Node>) -> Seq<NodeView> {
    Seq::new(nodes.len(), |i: int| nodes[i]@)
}

/// The parent of every node.
pub open spec fn parents(t: Seq<NodeView>) -> Seq<usize> {
    Seq::new(t.len(), |i: int| t[i].parent)
}

/// There is a root, and every other node stands after its parent.
pub open spec fn is_arena(t: Seq<NodeView>) -> bool {
    &&& t.len() > 0
    &&& forall|i: int| 1 <= i < t.len() ==> #[trigger] t[i].parent < i
}

/// Only directories have children.
pub open spec fn parents_are_dirs(t: Seq<NodeView>) -> bool {
    forall|i: int| 1 <= i < t.len() ==> t[#[trigger] t[i].parent as int].is_dir
}

/// The bytes of node `i` and of everything below it, from the bytes that each node brings.
pub open spec fn subtree(t: Seq<NodeView>, i: int) -> nat
    decreases t.len() - i, 0int,
{
    if i < 0 || i >= t.len() {
        0
    } else {
        t[i].sub as nat + kids_from(t, i, i + 1)
    }
}

/// The bytes below those children of `i` whose index is at least `k`.
pub open spec fn kids_from(t: Seq<NodeView>, i: int, k: int) -> nat
    decreases t.len() - k, 1int,
{
    if k < 0 || k >= t.len() {
        0
    } else if t[k].parent == i {
        subtree(t, k) + kids_from(t, i, k + 1)
    } else {
        kids_from(t, i, k + 1)
    }
}

/// The bytes that the first `k` nodes bring.
pub open spec fn sum_subs(t: Seq<NodeView>, k: int) -> nat
    decreases k,
{
    if k <= 0 {
        0
    } else {
        sum_subs(t, k - 1) + t[k - 1].sub as nat
    }
}

/// The bytes that all nodes bring.
pub open spec fn total(t: Seq<NodeView>) -> nat {
    sum_subs(t, t.len() as int)
}

/// The tree in which every node holds the bytes of its subtree.
pub open spec fn folded(t: Seq<NodeView>) -> Seq<NodeView> {
    Seq::new(t.len(), |i: int| NodeView { sub: subtree(t, i) as u64, ..t[i] })
}

/// The sum over the first `k` nodes when the nodes from `k` on have been folded into their parents.
spec fn sum_partial(t: Seq<NodeView>, m: int, k: int) -> nat
    decreases m,
{
    if m <= 0 {
        0
    } else {
        sum_partial(t, m - 1, k) + t[m - 1].sub as nat + kids_from(t, m - 1, k)
    }
}

proof fn lemma_partial_step(t: Seq<NodeView>, m: int, k: int)
    requires
        0 <= m <= k < t.len(),
    ensures
        sum_partial(t, m, k) == sum_partial(t, m, k + 1) + if t[k].parent < m {
            subtree(t, k)
        } else {
            0
        },
    decreases m,
{
    if m > 0 {
        lemma_partial_step(t, m - 1, k);
    }
}

proof fn lemma_partial_end(t: Seq<NodeView>, m: int)
    requires
        0 <= m <= t.len(),
    ensures
        sum_partial(t, m, t.len() as int) == sum_subs(t, m),
    decreases m,
{
    if m > 0 {
        lemma_partial_end(t, m - 1);
    }
}

/// Folding nodes into their parents moves bytes but neither adds nor loses any.
proof fn lemma_partial(t: Seq<NodeView>, k: int)
    requires
        is_arena(t),
        1 <= k <= t.len(),
    ensures
        sum_partial(t, k, k) == total(t),
    decreases t.len() - k,
{
    if k == t.len() {
        lemma_partial_end(t, k);
    } else {
        lemma_partial(t, k + 1);
        lemma_partial_step(t, k, k);
        lemma_kids_below_self(t, k, k + 1);
        assert(sum_partial(t, k + 1, k + 1) == sum_partial(t, k, k + 1) + subtree(t, k));
    }
}

proof fn lemma_kids_below_self(t: Seq<NodeView>, i: int, k: int)
    requires
        0 <= i < t.len(),
        k == i + 1,
    ensures
        t[i].sub as nat + kids_from(t, i, k) == subtree(t, i),
{
}

proof fn lemma_partial_member(t: Seq<NodeView>, m: int, k: int, j: int)
    requires
        0 <= j < m,
    ensures
        t[j].sub as nat + kids_from(t, j, k) <= sum_partial(t, m, k),
    decreases m,
{
    if j < m - 1 {
        lemma_partial_member(t, m - 1, k, j);
    }
}

/// The root's subtree holds every byte: nothing is counted twice and nothing is left out.
pub proof fn law_root_holds_everything(t: Seq<NodeView>)
    requires
        is_arena(t),
    ensures
        subtree(t, 0) == total(t),
{
    lemma_partial(t, 1);
    assert(sum_partial(t, 1, 1) == sum_partial(t, 0, 1) + t[0].sub as nat + kids_from(t, 0, 1));
}

/// No subtree holds more bytes than the whole tree.
pub proof fn law_subtree_is_bounded(t: Seq<NodeView>, i: int)
    requires
        is_arena(t),
        0 <= i < t.len(),
    ensures
        subtree(t, i) <= total(t),
{
    lemma_partial(t, i + 1);
    lemma_partial_member(t, i + 1, i + 1, i);
}

/// The bytes below a list of nodes.
pub open spec fn sum_below(t: Seq<NodeView>, ids: Seq<usize>) -> nat
    decreases ids.len(),
{
    if ids.len() == 0 {
        0
    } else {
        sum_below(t, ids.drop_last()) + subtree(t, ids.last() as int)
    }
}

proof fn lemma_kids_split(t: Seq<NodeView>, i: int, k: int)
    requires
        is_arena(t),
        t.len() <= usize::MAX,
        1 <= k <= t.len(),
    ensures
        kids_from(t, i, 1) == sum_below(t, hash::children_below(parents(t), i, k)) + kids_from(
            t,
            i,
            k,
        ),
    decreases k,
{
    if k > 1 {
        lemma_kids_split(t, i, k - 1);
        let rest = hash::children_below(parents(t), i, k - 1);
        if t[k - 1].parent == i {
            assert(rest.push((k - 1) as usize).drop_last() == rest);
        }
    }
}

proof fn lemma_kids_skip(t: Seq<NodeView>, i: int, k: int)
    requires
        is_arena(t),
        0 <= i < t.len(),
        1 <= k <= i + 1,
    ensures
        kids_from(t, i, k) == kids_from(t, i, i + 1),
    decreases i + 1 - k,
{
    if k < i + 1 {
        lemma_kids_skip(t, i, k + 1);
        assert(t[k].parent < k);
    }
}

/// The size fold: a subtree is the node's own bytes and the subtrees of its children.
pub proof fn law_subtree_is_own_plus_children(t: Seq<NodeView>, i: int)
    requires
        is_arena(t),
        t.len() <= usize::MAX,
        0 <= i < t.len(),
    ensures
        subtree(t, i) == t[i].sub as nat + sum_below(t, hash::children(parents(t), i)),
{
    lemma_kids_skip(t, i, 1);
    lemma_kids_split(t, i, t.len() as int);
}

/// Sums every node's bytes into its ancestors, in one pass from the last node to the first.
pub fn fold_sizes(nodes: &mut Vec<Node>)
    requires
        is_arena(tree(old(nodes)@)),
        total(tree(old(nodes)@)) <= u64::MAX,
    ensures
        tree(final(nodes)@) == folded(tree(old(nodes)@)),
        is_arena(tree(final(nodes)@)),
{
    let ghost t = tree(nodes@);
    let n = nodes.len();
    let mut i: usize = n;
    proof {
        assert forall|j: int| 0 <= j < n implies kids_from(t, j, n as int) == 0 by {}
    }
    while i > 1
        invariant
            n == nodes@.len(),
            n == t.len(),
            1 <= i <= n,
            is_arena(t),
            total(t) <= u64::MAX,
            forall|j: int|
                0 <= j < n ==> (#[trigger] nodes@[j])@ == (NodeView {
                    sub: if j >= i {
                        subtree(t, j) as u64
                    } else {
                        (t[j].sub + kids_from(t, j, i as int)) as u64
                    },
                    ..t[j]
                }),
        decreases i,
    {
        i = i - 1;
        let ghost before = nodes@;
        assert(nodes@[i as int]@.parent == t[i as int].parent);
        let s = nodes[i].sub;
        let p = nodes[i].parent;
        proof {
            law_subtree_is_bounded(t, i as int);
            lemma_partial(t, i as int);
            lemma_partial_member(t, i as int, i as int, p as int);
            lemma_partial(t, i + 1);
            lemma_partial_member(t, i + 1, i + 1, p as int);
            lemma_kids_below_self(t, i as int, i + 1);
            assert(before[p as int]@.sub == (t[p as int].sub + kids_from(t, p as int, i + 1)) as u64);
            assert(kids_from(t, p as int, i as int) == subtree(t, i as int) + kids_from(
                t,
                p as int,
                i + 1,
            ));
        }
        nodes[p].sub = nodes[p].sub + s;
        proof {
            assert forall|j: int| 0 <= j < n implies (#[trigger] nodes@[j])@ == (NodeView {
                sub: if j >= i {
                    subtree(t, j) as u64
                } else {
                    (t[j].sub + kids_from(t, j, i as int)) as u64
                },
                ..t[j]
            }) by {
                assert(before[j]@.sub == if j >= i + 1 {
                    subtree(t, j) as u64
                } else {
                    (t[j].sub + kids_from(t, j, i + 1)) as u64
                });
                if j != p {
                    assert(nodes@[j] == before[j]);
                }
            }
        }
    }
    proof {
        assert forall|j: int| 0 <= j < n implies tree(nodes@)[j] == folded(t)[j] by {
            assert(nodes@[j]@.parent == t[j].parent);
        }
        assert(tree(nodes@) == folded(t));
        assert forall|i: int| 1 <= i < n implies #[trigger] folded(t)[i].parent < i by {
            assert(t[i].parent < i);
        }
    }
}

/// The bytes that all nodes bring, if they can be counted in 64 bits.
pub fn total_size(nodes: &[Node]) -> (r: Option<u64>)
    ensures
        match r {
            Some(v) => v == total(tree(nodes@)),
            None => total(tree(nodes@)) > u64::MAX,
        },
{
    let ghost t = tree(nodes@);
    let n = nodes.len();
    let mut sum: u64 = 0;
    let mut i: usize = 0;
    while i < n
        invariant
            n == nodes@.len(),
            t == tree(nodes@),
            i <= n,
            sum == sum_subs(t, i as int),
        decreases n - i,
    {
        assert(t[i as int].sub == nodes@[i as int].sub);
        let s = nodes[i].sub;
        if s > u64::MAX - sum {
            proof {
                lemma_sum_subs_grow(t, i + 1, n as int);
            }
            return None;
        }
        sum = sum + s;
        i = i + 1;
    }
    Some(sum)
}

proof fn lemma_sum_subs_grow(t: Seq<NodeView>, k: int, m: int)
    requires
        k <= m,
    ensures
        sum_subs(t, k) <= sum_subs(t, m),
    decreases m - k,
{
    if k < m {
        lemma_sum_subs_grow(t, k, m - 1);
    }
}

} // verus!
