//! Walks: which directories are listed, by whom, and what is made of their entries.

use crate::arena;
use crate::arena::{Cfg, Node, NodeView};
use crate::laws::rings;
use crate::laws::scanning;
use crate::records;
use crate::records::{FileMeta, Rec};
use crate::uring::Stat;
use crate::walk;
use crate::walk::{Entry, Job, Next, Walk};
use vstd::prelude::*;

verus! {

/// A walk starts with its root, at depth 1, in the queue of the first worker; it keeps the depth,
/// the ceiling and the file system that are asked for.
pub proof fn law_new_walks<P>(root: P, workers: usize, cfg: &Cfg, dev: u64, w: Walk<P>, i: int)
    requires
        workers > 0,
        call_ensures(Walk::<P>::new, (root, workers, cfg, dev), w),
    ensures
        w@.queues.len() == workers,
        w@.queues[0].len() == 1,
        w@.queues[0][0] == (Job { path: root, id: 0, depth: 1 }),
        1 <= i < workers ==> w@.queues[i].len() == 0,
        w@.recs.len() == 0 && w@.active == 1,
        w.depth_limit() == cfg.max_depth,
        w.entry_limit() == cfg.max_entries,
        w.stays() == cfg.one_fs,
        w.device() == dev,
{
}

/// A worker takes the directory that it queued last; where it has none, it waits while others are
/// at work, and stops when none is.
pub proof fn law_workers_take_directories<P>(w: &mut Walk<P>, t: usize, r: Next<P>)
    requires
        walk::sound(old(w)@),
        t < old(w)@.queues.len(),
        call_ensures(Walk::<P>::next_job, (w, t), r),
    ensures
        old(w)@.queues[t as int].len() > 0 ==> r is List && r->List_0 == old(
            w,
        )@.queues[t as int].last(),
        r is Done ==> old(w)@.active == 0,
        r is Retry ==> old(w)@.active > 0,
        r is List <==> exists|q: int|
            0 <= q < old(w)@.queues.len() && (#[trigger] old(w)@.queues[q]).len() > 0,
        r is List ==> final(w)@.running.contains(r->List_0.id),
        final(w)@.recs == old(w)@.recs,
{
    if old(w)@.queues[t as int].len() > 0 {
        scanning::law_own_queue_first(old(w)@, t as int);
        assert(old(w)@.queues[t as int].len() > 0);
    }
    if r is List {
        let q = walk::source(old(w)@.queues, t as int, 0)->0;
        lemma_sources_are_full(old(w)@.queues, t as int, 0);
        assert(old(w)@.queues[q].len() > 0);
    } else {
        walk::law_nothing_is_overlooked(old(w)@.queues, t as int);
    }
}

proof fn lemma_sources_are_full<P>(queues: Seq<Seq<Job<P>>>, t: int, k: int)
    ensures
        walk::source(queues, t, k) is Some ==> queues[walk::source(queues, t, k)->0].len() > 0,
    decreases queues.len() - k,
{
    if k < queues.len() && queues[(t + k) % (queues.len() as int)].len() == 0 {
        lemma_sources_are_full(queues, t, k + 1);
    }
}

/// A directory is listed above the greatest depth and while there are fewer entries than the
/// ceiling; the root counts as an entry.
pub proof fn law_listing_is_limited<P>(w: &Walk<P>, job: &Job<P>, r: bool, n: usize)
    requires
        walk::sound(w@),
        call_ensures(Walk::<P>::may_list, (w, job), r),
        call_ensures(Walk::<P>::entries, (w,), n),
    ensures
        r <==> job.depth < w.depth_limit() && n < w.entry_limit(),
        n == 1 + w@.recs.len(),
{
}

proof fn lemma_recorded<P>(
    w: walk::WalkView<P>,
    t: int,
    parent: usize,
    depth: u32,
    entries: Seq<Entry<P>>,
    one_fs: bool,
    dev: u64,
    i: int,
)
    requires
        0 <= i < entries.len(),
    ensures
        ({
            let v = walk::with_entries(w, t, parent, depth, entries, one_fs, dev);
            &&& v.recs.len() == w.recs.len() + entries.len()
            &&& v.recs[w.recs.len() + i].node.name == entries[i].name@
            &&& v.recs[w.recs.len() + i].node.parent == parent
            &&& v.recs[w.recs.len() + i].node.is_dir == entries[i].is_dir
            &&& v.recs[w.recs.len() + i].node.is_link == entries[i].is_link
        }),
    decreases entries.len(),
{
    let front = entries.drop_last();
    if i < front.len() {
        lemma_recorded(w, t, parent, depth, front, one_fs, dev, i);
        assert(front[i] == entries[i]);
    } else {
        lemma_record_count(w, t, parent, depth, front, one_fs, dev);
        assert(entries.last() == entries[i]);
    }
}

proof fn lemma_record_count<P>(
    w: walk::WalkView<P>,
    t: int,
    parent: usize,
    depth: u32,
    entries: Seq<Entry<P>>,
    one_fs: bool,
    dev: u64,
)
    ensures
        walk::with_entries(w, t, parent, depth, entries, one_fs, dev).recs.len() == w.recs.len()
            + entries.len(),
    decreases entries.len(),
{
    if entries.len() > 0 {
        lemma_record_count(w, t, parent, depth, entries.drop_last(), one_fs, dev);
    }
}

/// The entries of a directory are recorded in their order, each under the directory, and the
/// directory is listed.
pub proof fn law_listings_are_recorded<P>(
    w: &mut Walk<P>,
    t: usize,
    job: Job<P>,
    entries: Vec<Entry<P>>,
    i: int,
)
    requires
        walk::sound(old(w)@),
        t < old(w)@.queues.len(),
        old(w)@.running.contains(job.id),
        entries@.len() > 0 ==> job.depth < u32::MAX,
        call_ensures(Walk::<P>::finish_dir, (w, t, job, entries), ()),
        0 <= i < entries@.len(),
    ensures
        final(w)@.recs.len() == old(w)@.recs.len() + entries@.len(),
        final(w)@.recs[old(w)@.recs.len() + i].node.name == entries@[i].name@,
        final(w)@.recs[old(w)@.recs.len() + i].node.parent == job.id,
        final(w)@.recs[old(w)@.recs.len() + i].node.is_dir == entries@[i].is_dir,
        final(w)@.recs[old(w)@.recs.len() + i].node.is_link == entries@[i].is_link,
        final(w)@.finished.contains(job.id),
        !final(w)@.running.contains(job.id),
{
    lemma_recorded(
        old(w)@,
        t as int,
        job.id,
        job.depth,
        entries@,
        old(w).stays(),
        old(w).device(),
        i,
    );
}

/// The tree of a walk has the root first and then the records, in their order.
pub proof fn law_trees_of_walks<P>(
    w: Walk<P>,
    name: String,
    meta: Option<FileMeta>,
    r: Vec<Node>,
    i: int,
)
    requires
        walk::sound(w@),
        call_ensures(Walk::<P>::into_arena, (w, name, meta), r),
    ensures
        r@.len() == w@.recs.len() + 1,
        r@[0]@.name == name@ && r@[0]@.is_dir,
        meta is Some ==> r@[0]@.own == meta->0.own && r@[0]@.size == meta->0.size,
        0 <= i < w@.recs.len() ==> r@[i + 1]@ == w@.recs[i].node,
{
    let t = arena::tree(r@);
    assert(t.len() == r@.len());
    assert(t[0] == r@[0]@);
    if 0 <= i < w@.recs.len() {
        assert(t[i + 1] == r@[i + 1]@);
    }
}

/// Renumbering changes the devices alone, each from the one form of its number to the other.
pub proof fn law_renumbered_entries<P>(
    entries: Vec<Entry<P>>,
    r: Vec<Entry<P>>,
    i: int,
    major: u32,
    minor: u32,
)
    requires
        call_ensures(walk::renumber_devices::<P>, (entries,), r),
        0 <= i < entries@.len(),
        entries@[i].meta is Some,
        entries@[i].meta->0.dev == minor % 256 + (major % 4096) * 0x100 + (minor / 256) * 0x10_0000
            + (major / 4096) * 0x1000_0000_0000,
    ensures
        r@.len() == entries@.len(),
        r@[i].meta is Some,
        r@[i].meta->0 == (FileMeta {
            dev: (major * 0x1_0000_0000 + minor) as u64,
            ..entries@[i].meta->0
        }),
        r@[i] == (Entry { meta: r@[i].meta, ..entries@[i] }),
{
    let d = entries@[i].meta->0.dev;
    crate::uring::law_statx_tells_devices_apart(d, d);
    rings::lemma_parts_of_devices(major as u64, minor as u64, d);
    assert(major == (major / 4096) * 4096 + major % 4096);
    assert(minor == (minor / 256) * 256 + minor % 256);
}

/// An entry without metadata keeps none when its device is renumbered.
pub proof fn law_renumbered_entries_without_metadata<P>(
    entries: Vec<Entry<P>>,
    r: Vec<Entry<P>>,
    i: int,
)
    requires
        call_ensures(walk::renumber_devices::<P>, (entries,), r),
        0 <= i < entries@.len(),
        entries@[i].meta is None,
    ensures
        r@[i] == entries@[i],
{
}

/// An entry that the kernel answered about has its name from the bytes of the listing, and its kind
/// and bytes from the answer.
pub proof fn law_answered_entries<P>(
    path: P,
    name: &[u8],
    text_of_name: Seq<char>,
    st: Option<Stat>,
    apparent: bool,
    e: Entry<P>,
)
    requires
        name@ == vstd::utf8::encode_utf8(text_of_name),
        st is Some ==> st->0.blocks * 512 <= u64::MAX,
        call_ensures(walk::statx_entry::<P>, (path, name, st, apparent), e),
    ensures
        e.path == path,
        e.name@ == text_of_name,
        st is None ==> !e.is_dir && !e.is_link && e.meta is None,
        st is Some ==> e.is_dir == st->0.is_dir && e.is_link == st->0.is_link && e.meta is Some,
        st is Some && apparent ==> e.meta->0.own == st->0.size,
        st is Some && !apparent ==> e.meta->0.own == 512 * st->0.blocks,
{
    crate::laws::texts::law_encoded_texts_are_read_back(text_of_name);
}

// ── records ──

/// The device of a path is the one that was found, or 0.
pub proof fn law_devices_of_paths(d: u64, r: u64, s: u64)
    requires
        call_ensures(records::path_dev, (Some(d),), r),
        call_ensures(records::path_dev, (None,), s),
    ensures
        r == d,
        s == 0,
{
}

/// The root takes over the metadata that were found, and stays as it is where there are none.
pub proof fn law_roots_are_filled(node: &mut Node, meta: Option<FileMeta>)
    requires
        call_ensures(records::fill_root, (node, meta), ()),
    ensures
        meta is None ==> final(node)@ == old(node)@,
        meta is Some ==> final(node)@ == (NodeView {
            own: meta->0.own,
            sub: meta->0.own,
            size: meta->0.size,
            blocks: meta->0.blocks,
            mtime: meta->0.mtime,
            uid: meta->0.uid,
            gid: meta->0.gid,
            mode: meta->0.mode,
            nlink: meta->0.nlink,
            ..old(node)@
        }),
{
}

/// The records of one worker are put at their places: each is found there, unless a later one has
/// the same place; the root stays first.
pub proof fn law_records_are_placed(
    n: usize,
    recs: Vec<Vec<Rec>>,
    name: String,
    meta: Option<FileMeta>,
    r: Vec<Node>,
    k: int,
)
    requires
        n > 0,
        forall|k: int|
            0 <= k < records::flat(recs@).len() ==> 0 < (#[trigger] records::flat(recs@)[k]).id < n,
        call_ensures(records::assemble, (n, recs, name, meta), r),
        0 <= k < records::flat(recs@).len(),
        forall|j: int|
            k < j < records::flat(recs@).len() ==> (#[trigger] records::flat(recs@)[j]).id
                != records::flat(recs@)[k].id,
    ensures
        r@.len() == n,
        r@[0]@.name == name@ && r@[0]@.is_dir,
        r@[records::flat(recs@)[k].id as int]@ == records::flat(recs@)[k].node,
{
    let all = records::flat(recs@);
    let b = records::blank(n as nat, records::root_node(name@, meta));
    lemma_placed(b, all, k);
    lemma_place_keeps(b, all, 0);
    let t = arena::tree(r@);
    assert(t.len() == r@.len());
    assert(t[0] == r@[0]@);
    assert(0 < all[k].id < n);
    assert(t[all[k].id as int] == r@[all[k].id as int]@);
}

proof fn lemma_place_keeps(b: Seq<NodeView>, recs: Seq<records::RecView>, i: int)
    requires
        forall|k: int| 0 <= k < recs.len() ==> 0 <= (#[trigger] recs[k]).id < b.len() && recs[k].id != i,
    ensures
        records::place(b, recs).len() == b.len(),
        0 <= i < b.len() ==> records::place(b, recs)[i] == b[i],
    decreases recs.len(),
{
    if recs.len() > 0 {
        let front = recs.drop_last();
        assert forall|k: int| 0 <= k < front.len() implies 0 <= (#[trigger] front[k]).id < b.len()
            && front[k].id != i by {
            assert(front[k] == recs[k]);
        }
        lemma_place_keeps(b, front, i);
        assert(recs[recs.len() - 1].id != i);
    }
}

proof fn lemma_placed(b: Seq<NodeView>, recs: Seq<records::RecView>, k: int)
    requires
        0 <= k < recs.len(),
        forall|j: int| 0 <= j < recs.len() ==> 0 < (#[trigger] recs[j]).id < b.len(),
        forall|j: int| k < j < recs.len() ==> (#[trigger] recs[j]).id != recs[k].id,
    ensures
        records::place(b, recs).len() == b.len(),
        records::place(b, recs)[recs[k].id as int] == recs[k].node,
    decreases recs.len(),
{
    let front = recs.drop_last();
    assert forall|j: int| 0 <= j < front.len() implies 0 < (#[trigger] front[j]).id < b.len() by {
        assert(front[j] == recs[j]);
    }
    assert(recs[recs.len() - 1].id > 0);
    if k < front.len() {
        assert forall|j: int| k < j < front.len() implies (#[trigger] front[j]).id
            != front[k].id by {
            assert(front[j] == recs[j]);
        }
        lemma_placed(b, front, k);
        assert(recs[recs.len() - 1].id != recs[k].id);
        assert(front[k] == recs[k]);
        assert(recs[k].id < b.len());
    } else {
        lemma_place_keeps(b, front, 0);
        assert(recs[k].id < b.len());
    }
}

/// The records of all workers count, one worker's behind the other's.
pub proof fn law_records_of_workers(recs: Seq<Vec<Rec>>, more: Vec<Rec>, i: int)
    ensures
        records::flat(recs.push(more)).len() == records::flat(recs).len() + more@.len(),
        0 <= i < more@.len() ==> records::flat(recs.push(more))[records::flat(recs).len() + i]
            == more@[i]@,
        0 <= i < records::flat(recs).len() ==> records::flat(recs.push(more))[i] == records::flat(
            recs,
        )[i],
        records::flat(Seq::<Vec<Rec>>::empty()).len() == 0,
{
    assert(recs.push(more).drop_last() == recs);
    assert(recs.push(more).last() == more);
}

/// A directory without entries is done: it is listed, one directory less is left, and nothing is
/// recorded.
pub proof fn law_empty_directories_are_done<P>(
    w: &mut Walk<P>,
    t: usize,
    job: Job<P>,
    entries: Vec<Entry<P>>,
)
    requires
        walk::sound(old(w)@),
        t < old(w)@.queues.len(),
        old(w)@.running.contains(job.id),
        entries@.len() == 0,
        call_ensures(Walk::<P>::finish_dir, (w, t, job, entries), ()),
    ensures
        final(w)@.recs == old(w)@.recs,
        final(w)@.queues == old(w)@.queues,
        final(w)@.active == old(w)@.active - 1,
        final(w)@.finished == old(w)@.finished.insert(job.id),
        final(w)@.running == old(w)@.running.remove(job.id),
{
    lemma_running_is_active(old(w)@, job.id);
}

proof fn lemma_running_is_active<P>(w: walk::WalkView<P>, id: usize)
    requires
        walk::sound(w),
        w.running.contains(id),
    ensures
        w.active > 0,
{
    assert(w.running.len() > 0) by {
        if w.running.len() == 0 {
            assert(w.running =~= Set::<usize>::empty());
        }
    }
}

} // verus!
