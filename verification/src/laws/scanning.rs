//! Scanning: which bytes count, which entries are entered, and what a node tells of its file.

use crate::arena;
use crate::arena::{Cfg, NodeView};
use crate::records;
use crate::records::{Backend, FileMeta, RecView};
use crate::uring::Stat;
use crate::walk;
use crate::walk::{Entry, Job, WalkView};
use vstd::prelude::*;

verus! {

/// In the allocated metric a file counts its blocks of 512 bytes, whatever its size is.
pub proof fn law_allocated_bytes_are_the_blocks(a: &Stat, b: &Stat, x: FileMeta, y: FileMeta)
    requires
        call_ensures(records::read_meta, (a, false), x),
        call_ensures(records::read_meta, (b, false), y),
    ensures
        x.own == a.blocks * 512,
        a.blocks == b.blocks ==> x.own == y.own,
        a.blocks < b.blocks ==> x.own < y.own,
{
}

/// In the apparent metric a file counts its size, whatever its blocks are.
pub proof fn law_apparent_bytes_are_the_size(a: &Stat, b: &Stat, x: FileMeta, y: FileMeta)
    requires
        call_ensures(records::read_meta, (a, true), x),
        call_ensures(records::read_meta, (b, true), y),
    ensures
        x.own == a.size,
        a.size == b.size ==> x.own == y.own,
{
}

/// The metadata of a file are those of its `stat`, in either metric.
pub proof fn law_metadata_are_those_of_the_file(m: &Stat, apparent: bool, x: FileMeta)
    requires
        call_ensures(records::read_meta, (m, apparent), x),
    ensures
        x.size == m.size && x.blocks == m.blocks && x.mtime == m.mtime,
        x.uid == m.uid && x.gid == m.gid && x.mode == m.mode,
        x.nlink == m.nlink && x.dev == m.dev && x.ino == m.ino,
{
}

/// Where only the size is known, it counts, and the blocks are the fewest that hold it.
pub proof fn law_portable_metadata(size: u64, mtime: Option<i64>, is_dir: bool, x: FileMeta)
    requires
        call_ensures(records::read_meta_portable, (size, mtime, is_dir), x),
    ensures
        x.own == size && x.size == size,
        size <= x.blocks * 512 < size + 512,
        x.nlink == 1,
        x.uid == 0 && x.gid == 0 && x.dev == 0 && x.ino == 0,
        is_dir ==> x.mode == 0o040000,
        !is_dir ==> x.mode == 0o100000,
        mtime is Some ==> x.mtime == mtime->0,
        mtime is None ==> x.mtime == 0,
{
}

/// An entry is named, and is a directory or a link, as `statx` says; a failed request is neither,
/// and counts nothing.
pub proof fn law_entries_are_what_statx_says(
    path: u64,
    name: String,
    st: Option<Stat>,
    apparent: bool,
    e: Entry<u64>,
)
    requires
        call_ensures(walk::named_entry::<u64>, (path, name, st, apparent), e),
    ensures
        e.path == path && e.name == name,
        st is None ==> !e.is_dir && !e.is_link && e.meta is None,
        st is Some ==> e.is_dir == st->0.is_dir && e.is_link == st->0.is_link && e.meta is Some,
        st is Some && !apparent && st->0.blocks * 512 <= u64::MAX ==> e.meta->0.own
            == st->0.blocks * 512,
        st is Some && apparent ==> e.meta->0.own == st->0.size,
        st is Some ==> e.meta->0.size == st->0.size && e.meta->0.ino == st->0.ino
            && e.meta->0.dev == st->0.dev,
{
}

/// A node tells of a file what its metadata say, and the same where it counts nothing because
/// another name of it counted before.
pub proof fn law_nodes_carry_the_metadata<P>(e: Entry<P>, parent: usize, seen: Set<u128>)
    ensures
        ({
            let n = walk::node_of(e, parent, seen);
            &&& n.parent == parent && n.name == e.name@
            &&& n.is_dir == e.is_dir && n.is_link == e.is_link
            &&& n.own == n.sub
            &&& n.own == walk::own_of(e, seen)
            &&& e.meta is Some ==> {
                let m = e.meta->0;
                &&& n.size == m.size && n.blocks == m.blocks && n.mtime == m.mtime
                &&& n.uid == m.uid && n.gid == m.gid && n.mode == m.mode && n.nlink == m.nlink
                &&& n.own == m.own || n.own == 0
            }
            &&& e.meta is None ==> {
                &&& n.own == 0 && n.size == 0 && n.blocks == 0 && n.mtime == 0
                &&& n.uid == 0 && n.gid == 0 && n.mode == 0 && n.nlink == 1
            }
        }),
{
}

/// The top directory is a directory under its name, with the metadata that are known of it.
pub proof fn law_the_root_is_a_directory(name: Seq<char>, meta: Option<FileMeta>)
    ensures
        ({
            let n = records::root_node(name, meta);
            &&& n.name == name && n.is_dir && !n.is_link
            &&& n.own == n.sub
            &&& meta is Some ==> n.own == meta->0.own && n.size == meta->0.size && n.mtime
                == meta->0.mtime && n.blocks == meta->0.blocks && n.mode == meta->0.mode && n.uid
                == meta->0.uid && n.gid == meta->0.gid && n.nlink == meta->0.nlink
            &&& meta is None ==> n.own == 0 && n.size == 0 && n.blocks == 0 && n.mtime == 0
        }),
{
}

/// Directories, and files with one name, always count, whatever was counted before.
pub proof fn law_directories_and_single_names_always_count<P>(e: Entry<P>, seen: Set<u128>)
    requires
        e.meta is Some,
        e.is_dir || e.meta->0.nlink <= 1,
    ensures
        walk::own_of(e, seen) == e.meta->0.own,
{
}

/// A file with several names counts where none of its names was counted before, and only there.
pub proof fn law_several_names_count_the_first_time<P>(e: Entry<P>, f: Entry<P>, seen: Set<u128>)
    requires
        e.meta is Some,
        !e.is_dir,
        e.meta->0.nlink > 1,
        f.meta is Some,
        !f.is_dir,
        f.meta->0.nlink > 1,
        seen == Set::<u128>::empty().insert(walk::link_key(f.meta->0)),
    ensures
        walk::own_of(e, Set::empty()) == e.meta->0.own,
        e.meta->0.dev == f.meta->0.dev && e.meta->0.ino == f.meta->0.ino ==> walk::own_of(e, seen)
            == 0,
        !(e.meta->0.dev == f.meta->0.dev && e.meta->0.ino == f.meta->0.ino) ==> walk::own_of(
            e,
            seen,
        ) == e.meta->0.own,
{
    law_links_are_told_apart(e.meta->0, f.meta->0);
}

/// Whatever was counted before, a file with several names counts nothing once one of them was
/// counted, and its bytes until then; without metadata an entry never counts.
pub proof fn law_counted_names_are_remembered<P>(e: Entry<P>, seen: Set<u128>)
    ensures
        e.meta is None ==> walk::own_of(e, seen) == 0,
        e.meta is Some && !e.is_dir && e.meta->0.nlink > 1 && seen.contains(
            walk::link_key(e.meta->0),
        ) ==> walk::own_of(e, seen) == 0,
        e.meta is Some && !seen.contains(walk::link_key(e.meta->0)) ==> walk::own_of(e, seen)
            == e.meta->0.own,
{
}

/// Files are told apart by device and inode together.
pub proof fn law_links_are_told_apart(a: FileMeta, b: FileMeta)
    ensures
        walk::link_key(a) == walk::link_key(b) <==> a.dev == b.dev && a.ino == b.ino,
{
    assert(a.dev * 0x1_0000_0000_0000_0000 + a.ino <= u128::MAX);
    assert(b.dev * 0x1_0000_0000_0000_0000 + b.ino <= u128::MAX);
}

/// The walk goes into every directory that is no link, unless it stays on one file system and the
/// directory is on another one.
pub proof fn law_which_entries_are_entered<P>(e: Entry<P>, one_fs: bool, root_dev: u64)
    ensures
        walk::descends(e, one_fs, root_dev) ==> e.is_dir && !e.is_link,
        !one_fs ==> (walk::descends(e, one_fs, root_dev) <==> e.is_dir && !e.is_link),
        one_fs && e.meta is Some ==> (walk::descends(e, one_fs, root_dev) <==> e.is_dir
            && !e.is_link && e.meta->0.dev == root_dev),
        one_fs && e.meta is None ==> (walk::descends(e, one_fs, root_dev) <==> e.is_dir
            && !e.is_link),
{
}

/// A listed entry gets the next number and a record; if it is entered, it is queued under its path,
/// one deeper than its directory, with the worker that listed it.
pub proof fn law_listed_entries_are_recorded_and_queued<P>(
    w: WalkView<P>,
    t: int,
    parent: usize,
    depth: u32,
    e: Entry<P>,
    one_fs: bool,
    root_dev: u64,
)
    requires
        0 <= t < w.queues.len(),
        w.recs.len() + 1 < usize::MAX,
        depth < u32::MAX,
    ensures
        ({
            let v = walk::with_entry(w, t, parent, depth, e, one_fs, root_dev);
            &&& v.recs.len() == w.recs.len() + 1
            &&& v.recs.take(w.recs.len() as int) == w.recs
            &&& v.recs.last().id == w.recs.len() + 1
            &&& v.recs.last().node.parent == parent
            &&& v.recs.last().node.name == e.name@
            &&& v.queues.len() == w.queues.len()
            &&& forall|q: int|
                0 <= q < w.queues.len() && q != t ==> #[trigger] v.queues[q] == w.queues[q]
            &&& v.recs.last().node == walk::node_of(e, parent, w.seen)
            &&& v.finished == w.finished && v.running == w.running
            &&& !e.is_dir && e.meta is Some && e.meta->0.nlink > 1 ==> v.seen == w.seen.insert(
                walk::link_key(e.meta->0),
            )
            &&& e.is_dir || e.meta is None || e.meta->0.nlink <= 1 ==> v.seen == w.seen
            &&& walk::descends(e, one_fs, root_dev) ==> {
                &&& v.queues[t] == w.queues[t].push(
                    Job { path: e.path, id: (w.recs.len() + 1) as usize, depth: (depth + 1) as u32 },
                )
                &&& v.active == w.active + 1
                &&& v.dirs == w.dirs.insert((w.recs.len() + 1) as usize)
            }
            &&& !walk::descends(e, one_fs, root_dev) ==> v.queues == w.queues
                && v.active == w.active
                && v.dirs == w.dirs
            &&& e.is_dir && !e.is_link && !one_fs ==> {
                &&& v.queues[t] == w.queues[t].push(
                    Job { path: e.path, id: (w.recs.len() + 1) as usize, depth: (depth + 1) as u32 },
                )
                &&& v.active == w.active + 1
            }
            &&& !e.is_dir || e.is_link ==> v.queues[t] == w.queues[t] && v.active == w.active
        }),
{
    let v = walk::with_entry(w, t, parent, depth, e, one_fs, root_dev);
    assert(v.recs.take(w.recs.len() as int) =~= w.recs);
}

/// A worker takes from its own queue as long as that holds anything, the newest directory first.
pub proof fn law_own_queue_first<P>(w: WalkView<P>, t: int)
    requires
        0 <= t < w.queues.len(),
        w.queues[t].len() > 0,
    ensures
        walk::source(w.queues, t, 0) == Some(t),
        walk::taken_job(w, t) == w.queues[t].last(),
        walk::taken(w, t).queues[t] == w.queues[t].drop_last(),
{
    vstd::arithmetic::div_mod::lemma_small_mod(t as nat, w.queues.len());
}

/// A worker whose queue is empty takes the oldest directory of another queue, and never from one
/// that is empty.
pub proof fn law_oldest_of_another_queue<P>(w: WalkView<P>, t: int)
    requires
        0 <= t < w.queues.len(),
        w.queues[t].len() == 0,
    ensures
        match walk::source(w.queues, t, 0) {
            Some(q) => {
                &&& 0 <= q < w.queues.len()
                &&& q != t
                &&& w.queues[q].len() > 0
                &&& walk::taken_job(w, t) == w.queues[q].first()
                &&& walk::taken(w, t).queues[q] == w.queues[q].drop_first()
                &&& walk::taken(w, t).running == w.running.insert(w.queues[q].first().id)
            },
            None => forall|q: int| 0 <= q < w.queues.len() ==> (#[trigger] w.queues[q]).len() == 0,
        },
{
    lemma_source_holds(w.queues, t, 0);
    if walk::source(w.queues, t, 0) is None {
        walk::law_nothing_is_overlooked(w.queues, t);
    }
}

proof fn lemma_source_holds<P>(queues: Seq<Seq<Job<P>>>, t: int, k: int)
    requires
        0 <= t < queues.len(),
        0 <= k,
    ensures
        match walk::source(queues, t, k) {
            Some(q) => 0 <= q < queues.len() && queues[q].len() > 0,
            None => true,
        },
    decreases queues.len() - k,
{
    if k < queues.len() {
        vstd::arithmetic::div_mod::lemma_mod_bound(t + k, queues.len() as int);
        lemma_source_holds(queues, t, k + 1);
    }
}

/// Other queues are looked at in turn, from the one behind the worker's own on: those that are
/// passed over are empty.
pub proof fn law_queues_are_looked_at_in_turn<P>(w: WalkView<P>, t: int, d: int)
    requires
        0 <= t < w.queues.len(),
        0 <= d < w.queues.len(),
        w.queues[(t + d) % (w.queues.len() as int)].len() > 0,
        forall|j: int|
            0 <= j < d ==> (#[trigger] w.queues[(t + j) % (w.queues.len() as int)]).len() == 0,
    ensures
        walk::source(w.queues, t, 0) == Some((t + d) % (w.queues.len() as int)),
{
    lemma_source_in_turn(w.queues, t, 0, d);
}

proof fn lemma_source_in_turn<P>(queues: Seq<Seq<Job<P>>>, t: int, k: int, d: int)
    requires
        0 <= t < queues.len(),
        0 <= k <= d < queues.len(),
        queues[(t + d) % (queues.len() as int)].len() > 0,
        forall|j: int| k <= j < d ==> (#[trigger] queues[(t + j) % (queues.len() as int)]).len() == 0,
    ensures
        walk::source(queues, t, k) == Some((t + d) % (queues.len() as int)),
    decreases d - k,
{
    if k < d {
        assert(queues[(t + k) % (queues.len() as int)].len() == 0);
        lemma_source_in_turn(queues, t, k + 1, d);
    }
}

/// A directory is listed where it is above the depth limit and fewer entries than the limit were
/// found, the top directory included.
pub proof fn law_which_directories_are_listed<P>(
    w: WalkView<P>,
    depth: u32,
    max_depth: u32,
    max_entries: usize,
)
    ensures
        walk::listable(w, depth, max_depth, max_entries) <==> depth < max_depth && w.recs.len() + 1
            < max_entries,
{
}

/// The number of workers is the one that is asked for; where none is, the machine's; else eight.
pub proof fn law_number_of_workers(cfg: &Cfg, available: Option<usize>, r: usize)
    requires
        call_ensures(walk::worker_count, (cfg, available), r),
    ensures
        cfg.threads > 0 ==> r == cfg.threads,
        cfg.threads == 0 && available is Some ==> r == available->0,
        cfg.threads == 0 && available is None ==> r == 8,
{
}

/// The ring is used where it is asked for and there is one.
pub proof fn law_which_backend(cfg: &Cfg, available: bool, r: Backend)
    requires
        call_ensures(records::scan_backend, (cfg, available), r),
    ensures
        r is IoUring <==> cfg.iouring && available,
        r is Portable <==> !cfg.iouring || !available,
{
}

/// An arena of records starts with the top directory, and every record stands at its number.
pub proof fn law_records_stand_at_their_numbers(root: NodeView, recs: Seq<RecView>, i: int)
    requires
        0 <= i < recs.len(),
        forall|k: int| 0 <= k < recs.len() ==> (#[trigger] recs[k]).id == k + 1,
    ensures
        walk::found_tree(root, recs).len() == recs.len() + 1,
        walk::found_tree(root, recs)[0] == root,
        walk::found_tree(root, recs)[recs[i].id as int] == recs[i].node,
        records::place(records::blank((recs.len() + 1) as nat, root), recs)[recs[i].id as int]
            == recs[i].node,
{
    records::law_dense_records_fill_the_arena(root, recs, (recs.len() + 1) as nat, i + 1);
}

/// An empty node has nothing but one link.
pub proof fn law_empty_nodes_are_empty()
    ensures
        ({
            let n = arena::empty_node();
            &&& n.own == 0 && n.sub == 0 && n.size == 0 && n.blocks == 0 && n.nlink == 1
            &&& n.name.len() == 0 && !n.is_dir && !n.is_link && n.mode == 0 && n.mtime == 0
            &&& n.parent == 0 && n.uid == 0 && n.gid == 0
        }),
{
}

} // verus!
