//! The metadata of an entry, the records that a walk collects, and the arena made of them.

use crate::arena;
use crate::arena::{Cfg, Node, NodeView};
use crate::uring::Stat;
use vstd::prelude::*;

verus! {

/// The metadata of an entry. Where a platform knows less, the allocated size is the apparent one and
/// every file has one link.
#[derive(Clone, Copy)]
pub struct FileMeta {
    /// The bytes that count for the entry, in the chosen metric.
    pub own: u64,
    /// The apparent size.
    pub size: u64,
    /// The number of allocated 512-byte blocks.
    pub blocks: u64,
    /// The modification time in seconds.
    pub mtime: i64,
    /// The owner.
    pub uid: u32,
    /// The group.
    pub gid: u32,
    /// Type and permission bits.
    pub mode: u32,
    /// The number of hard links.
    pub nlink: u64,
    /// The device.
    pub dev: u64,
    /// The inode.
    pub ino: u64,
}

/// The bytes that count for a file: its apparent size, or what is allocated for it.
pub open spec fn own_bytes(m: Stat, apparent: bool) -> nat {
    if apparent {
        m.size as nat
    } else {
        m.blocks as nat * 512
    }
}

/// The metadata of a file, from its `stat`.
pub open spec fn meta_of(m: Stat, apparent: bool) -> FileMeta {
    FileMeta {
        own: own_bytes(m, apparent) as u64,
        size: m.size,
        blocks: m.blocks,
        mtime: m.mtime,
        uid: m.uid,
        gid: m.gid,
        mode: m.mode,
        nlink: m.nlink,
        dev: m.dev,
        ino: m.ino,
    }
}

/// The metadata of a file from its `stat`.
pub fn read_meta(m: &Stat, apparent: bool) -> (r: FileMeta)
    requires
        own_bytes(*m, apparent) <= u64::MAX,
    ensures
        r == meta_of(*m, apparent),
        r.own == own_bytes(*m, apparent),
        apparent ==> r.own == m.size,
        !apparent ==> r.own == m.blocks * 512,
        r.size == m.size,
        r.blocks == m.blocks,
        r.mtime == m.mtime,
        r.uid == m.uid,
        r.gid == m.gid,
        r.mode == m.mode,
        r.nlink == m.nlink,
        r.dev == m.dev,
        r.ino == m.ino,
{
    FileMeta {
        own: if apparent {
            m.size
        } else {
            m.blocks * 512
        },
        size: m.size,
        blocks: m.blocks,
        mtime: m.mtime,
        uid: m.uid,
        gid: m.gid,
        mode: m.mode,
        nlink: m.nlink,
        dev: m.dev,
        ino: m.ino,
    }
}

/// The metadata of a file where only its size, its modification time and its kind are known.
pub fn read_meta_portable(size: u64, mtime: Option<i64>, is_dir: bool) -> (r: FileMeta)
    requires
        size + 511 <= u64::MAX,
    ensures
        r == (FileMeta {
            own: size,
            size: size,
            blocks: ((size + 511) / 512) as u64,
            mtime: match mtime {
                Some(t) => t,
                None => 0,
            },
            uid: 0,
            gid: 0,
            mode: if is_dir {
                0o040000
            } else {
                0o100000
            },
            nlink: 1,
            dev: 0,
            ino: 0,
        }),
{
    FileMeta {
        own: size,
        size: size,
        blocks: (size + 511) / 512,
        mtime: match mtime {
            Some(t) => t,
            None => 0,
        },
        uid: 0,
        gid: 0,
        mode: if is_dir {
            0o040000
        } else {
            0o100000
        },
        nlink: 1,
        dev: 0,
        ino: 0,
    }
}

/// The device of a path, from what its metadata says: 0 where there is none, so that without device
/// numbers everything is on one file system.
pub fn path_dev(dev: Option<u64>) -> (r: u64)
    ensures
        r == match dev {
            Some(d) => d,
            None => 0,
        },
{
    match dev {
        Some(d) => d,
        None => 0,
    }
}

/// `node` with the metadata of its own file.
pub open spec fn with_meta(n: NodeView, m: FileMeta) -> NodeView {
    NodeView {
        own: m.own,
        sub: m.own,
        size: m.size,
        blocks: m.blocks,
        mtime: m.mtime,
        uid: m.uid,
        gid: m.gid,
        mode: m.mode,
        nlink: m.nlink,
        ..n
    }
}

/// Gives a node its own metadata, where there is any: the top directory itself counts too.
pub fn fill_root(node: &mut Node, meta: Option<FileMeta>)
    ensures
        final(node)@ == match meta {
            Some(m) => with_meta(old(node)@, m),
            None => old(node)@,
        },
{
    match meta {
        Some(m) => {
            node.own = m.own;
            node.sub = m.own;
            node.size = m.size;
            node.blocks = m.blocks;
            node.mtime = m.mtime;
            node.uid = m.uid;
            node.gid = m.gid;
            node.mode = m.mode;
            node.nlink = m.nlink;
        },
        None => {},
    }
}

/// One entry as a walk finds it.
pub struct Rec {
    /// The index of the entry.
    pub id: usize,
    /// The index of its directory.
    pub parent: usize,
    /// Its base name.
    pub name: String,
    /// The bytes that count for it.
    pub own: u64,
    /// The apparent size.
    pub size: u64,
    /// The number of allocated 512-byte blocks.
    pub blocks: u64,
    /// The modification time in seconds.
    pub mtime: i64,
    /// The owner.
    pub uid: u32,
    /// The group.
    pub gid: u32,
    /// Type and permission bits.
    pub mode: u32,
    /// The number of hard links.
    pub nlink: u64,
    /// Whether the entry is a directory.
    pub is_dir: bool,
    /// Whether the entry is a symbolic link.
    pub is_link: bool,
}

/// A record as a mathematical value: an index, and the node that belongs there.
pub struct RecView {
    pub id: usize,
    pub node: NodeView,
}

impl View for Rec {
    type V = RecView;

    open spec fn view(&self) -> RecView {
        RecView {
            id: self.id,
            node: NodeView {
                parent: self.parent,
                name: self.name@,
                own: self.own,
                sub: self.own,
                size: self.size,
                blocks: self.blocks,
                mtime: self.mtime,
                uid: self.uid,
                gid: self.gid,
                mode: self.mode,
                nlink: self.nlink,
                is_dir: self.is_dir,
                is_link: self.is_link,
            },
        }
    }
}

/// The records as mathematical values.
pub open spec fn rec_views(recs: Seq<Rec>) -> Seq<RecView> {
    Seq::new(recs.len(), |i: int| recs[i]@)
}

/// The buckets of records, one after the other.
pub open spec fn flat(recs: Seq<Vec<Rec>>) -> Seq<RecView>
    decreases recs.len(),
{
    if recs.len() == 0 {
        seq![]
    } else {
        flat(recs.drop_last()) + rec_views(recs.last()@)
    }
}

/// `t` with each record's node in its place; of two records for one place the later one counts.
pub open spec fn place(t: Seq<NodeView>, recs: Seq<RecView>) -> Seq<NodeView>
    decreases recs.len(),
{
    if recs.len() == 0 {
        t
    } else {
        place(t, recs.drop_last()).update(recs.last().id as int, recs.last().node)
    }
}

/// The node of the top directory.
pub open spec fn root_node(name: Seq<char>, meta: Option<FileMeta>) -> NodeView {
    let n = NodeView { name: name, is_dir: true, ..arena::empty_node() };
    match meta {
        Some(m) => with_meta(n, m),
        None => n,
    }
}

/// `n` places: the root, and empty nodes.
pub open spec fn blank(n: nat, root: NodeView) -> Seq<NodeView> {
    Seq::new(
        n,
        |i: int|
            if i == 0 {
                root
            } else {
                arena::empty_node()
            },
    )
}

/// Placing records keeps the number of places.
pub proof fn lemma_place_len(t: Seq<NodeView>, recs: Seq<RecView>)
    requires
        forall|k: int| 0 <= k < recs.len() ==> (#[trigger] recs[k]).id < t.len(),
    ensures
        place(t, recs).len() == t.len(),
    decreases recs.len(),
{
    if recs.len() > 0 {
        let front = recs.drop_last();
        assert forall|k: int| 0 <= k < front.len() implies (#[trigger] front[k]).id < t.len() by {
            assert(front[k] == recs[k]);
        }
        lemma_place_len(t, front);
        assert(recs[recs.len() - 1].id < t.len());
    }
}

proof fn lemma_place_concat(t: Seq<NodeView>, a: Seq<RecView>, b: Seq<RecView>)
    ensures
        place(t, a + b) == place(place(t, a), b),
    decreases b.len(),
{
    if b.len() == 0 {
        assert(a + b == a);
    } else {
        lemma_place_concat(t, a, b.drop_last());
        assert((a + b).drop_last() == a + b.drop_last());
        assert((a + b).last() == b.last());
    }
}

/// Where every place but the root's has its record, in order, the arena holds exactly the root and
/// the records.
pub proof fn law_dense_records_fill_the_arena(root: NodeView, recs: Seq<RecView>, n: nat, i: int)
    requires
        recs.len() < n,
        forall|k: int| 0 <= k < recs.len() ==> (#[trigger] recs[k]).id == k + 1,
        0 <= i < n,
    ensures
        place(blank(n, root), recs)[i] == (if i == 0 {
            root
        } else if i <= recs.len() {
            recs[i - 1].node
        } else {
            arena::empty_node()
        }),
    decreases recs.len(),
{
    lemma_place_len(blank(n, root), recs);
    if recs.len() > 0 {
        let front = recs.drop_last();
        assert forall|k: int| 0 <= k < front.len() implies (#[trigger] front[k]).id == k + 1 by {
            assert(front[k] == recs[k]);
        }
        lemma_place_len(blank(n, root), front);
        law_dense_records_fill_the_arena(root, front, n, i);
        assert(recs[recs.len() - 1].id == recs.len());
        if 1 <= i <= front.len() {
            assert(front[i - 1] == recs[i - 1]);
        }
    }
}

fn place_rec(nodes: &mut Vec<Node>, rec: Rec)
    requires
        rec.id < old(nodes)@.len(),
    ensures
        arena::tree(final(nodes)@) == arena::tree(old(nodes)@).update(rec@.id as int, rec@.node),
{
    let id = rec.id;
    nodes[id] = Node {
        parent: rec.parent,
        name: rec.name,
        own: rec.own,
        sub: rec.own,
        size: rec.size,
        blocks: rec.blocks,
        mtime: rec.mtime,
        uid: rec.uid,
        gid: rec.gid,
        mode: rec.mode,
        nlink: rec.nlink,
        is_dir: rec.is_dir,
        is_link: rec.is_link,
    };
    proof {
        assert(arena::tree(nodes@) == arena::tree(old(nodes)@).update(rec@.id as int, rec@.node));
    }
}

fn place_bucket(nodes: &mut Vec<Node>, bucket: Vec<Rec>)
    requires
        forall|k: int| 0 <= k < bucket@.len() ==> (#[trigger] bucket@[k]).id < old(nodes)@.len(),
    ensures
        arena::tree(final(nodes)@) == place(arena::tree(old(nodes)@), rec_views(bucket@)),
        final(nodes)@.len() == old(nodes)@.len(),
{
    let ghost t = arena::tree(nodes@);
    let ghost all = rec_views(bucket@);
    proof {
        assert(all.take(0) == Seq::<RecView>::empty());
    }
    for rec in it: bucket
        invariant
            it.seq() == bucket@,
            all == rec_views(bucket@),
            nodes@.len() == t.len(),
            forall|k: int| 0 <= k < bucket@.len() ==> (#[trigger] bucket@[k]).id < t.len(),
            arena::tree(nodes@) == place(t, all.take(it.index() as int)),
    {
        proof {
            let k = it.index() as int;
            assert(rec == bucket@[k]);
            assert(all.take(k + 1).drop_last() == all.take(k));
            assert(all.take(k + 1).last() == all[k]);
        }
        let ghost before = nodes@;
        place_rec(nodes, rec);
        proof {
            assert(arena::tree(before).len() == t.len());
            assert(arena::tree(nodes@).len() == t.len());
        }
    }
    proof {
        assert(all.take(bucket@.len() as int) == all);
    }
}

proof fn lemma_bucket_in_flat(recs: Seq<Vec<Rec>>, b: int, k: int)
    requires
        0 <= b < recs.len(),
        0 <= k < recs[b]@.len(),
    ensures
        flat(recs).contains(recs[b]@[k]@),
    decreases recs.len(),
{
    if b == recs.len() - 1 {
        let i = flat(recs.drop_last()).len() + k;
        assert(flat(recs)[i] == recs[b]@[k]@);
    } else {
        lemma_bucket_in_flat(recs.drop_last(), b, k);
        let i = choose|i: int|
            0 <= i < flat(recs.drop_last()).len() && flat(recs.drop_last())[i] == recs[b]@[k]@;
        assert(flat(recs)[i] == recs[b]@[k]@);
    }
}

/// Puts the records into an arena of `n` nodes, the root and the entries at their indices.
pub fn assemble(n: usize, recs: Vec<Vec<Rec>>, root_name: String, root_meta: Option<FileMeta>) -> (r:
    Vec<Node>)
    requires
        n > 0,
        forall|k: int| 0 <= k < flat(recs@).len() ==> (#[trigger] flat(recs@)[k]).id < n,
    ensures
        arena::tree(r@) == place(blank(n as nat, root_node(root_name@, root_meta)), flat(recs@)),
{
    let ghost name = root_name@;
    let ghost buckets = recs@;
    let mut root = Node::empty();
    root.name = root_name;
    root.is_dir = true;
    fill_root(&mut root, root_meta);
    let ghost top = root@;
    let mut nodes: Vec<Node> = Vec::with_capacity(n);
    nodes.push(root);
    while nodes.len() < n
        invariant
            1 <= nodes@.len() <= n,
            nodes@[0]@ == top,
            forall|i: int| 1 <= i < nodes@.len() ==> (#[trigger] nodes@[i])@ == arena::empty_node(),
        decreases n - nodes@.len(),
    {
        nodes.push(Node::empty());
    }
    let ghost start = blank(n as nat, top);
    proof {
        assert(arena::tree(nodes@) == start);
        assert(flat(buckets.take(0)) == Seq::<RecView>::empty());
    }
    for bucket in it: recs
        invariant
            it.seq() == buckets,
            buckets == recs@,
            start.len() == n,
            forall|k: int| 0 <= k < flat(buckets).len() ==> (#[trigger] flat(buckets)[k]).id < n,
            nodes@.len() == n,
            arena::tree(nodes@) == place(start, flat(buckets.take(it.index() as int))),
    {
        proof {
            let b = it.index() as int;
            assert(bucket == buckets[b]);
            assert(buckets.take(b + 1).drop_last() == buckets.take(b));
            assert(buckets.take(b + 1).last() == buckets[b]);
            assert forall|k: int| 0 <= k < bucket@.len() implies (#[trigger] bucket@[k]).id < n by {
                lemma_bucket_in_flat(buckets, b, k);
                let i = choose|i: int|
                    0 <= i < flat(buckets).len() && flat(buckets)[i] == buckets[b]@[k]@;
                assert(flat(buckets)[i].id < n);
            }
            lemma_place_concat(start, flat(buckets.take(b)), rec_views(bucket@));
        }
        place_bucket(&mut nodes, bucket);
    }
    proof {
        assert(buckets.take(buckets.len() as int) == buckets);
    }
    nodes
}

/// The ways to scan.
#[derive(Clone, Copy, PartialEq, Eq, Structural)]
pub enum Backend {
    /// One `lstat` per entry.
    Portable,
    /// Batches of `statx` through io_uring.
    IoUring,
}

/// Which way to scan: io_uring where it is asked for and the platform has it.
pub fn scan_backend(cfg: &Cfg, available: bool) -> (r: Backend)
    ensures
        r == (if cfg.iouring && available {
            Backend::IoUring
        } else {
            Backend::Portable
        }),
{
    if cfg.iouring && available {
        Backend::IoUring
    } else {
        Backend::Portable
    }
}

} // verus!
