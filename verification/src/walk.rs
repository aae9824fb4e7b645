//! The parallel walk over a directory tree: which worker lists which directory next, what a listing
//! adds, and when the walk is over.
//!
//! Every worker has a queue of its own and takes from its back; a worker whose queue is empty takes
//! from the front of another one. An entry's index is handed out when it is found, so a directory's
//! index is always below those of its entries.

use crate::arena;
use crate::arena::{Cfg, Node, NodeView};
use crate::records;
use crate::records::{FileMeta, Rec, RecView};
use crate::text;
use crate::uring;
use crate::uring::Stat;
use std::collections::HashSet;
use std::collections::VecDeque;
use vstd::prelude::*;

verus! {

broadcast use vstd::std_specs::hash::group_hash_axioms;

/// A directory that is to be listed.
pub struct Job<P> {
    /// Where it is.
    pub path: P,
    /// Its index.
    pub id: usize,
    /// Its depth; the top directory has depth 1.
    pub depth: u32,
}

/// One entry of a listing.
pub struct Entry<P> {
    /// Where it is.
    pub path: P,
    /// Its base name.
    pub name: String,
    /// Whether it is a directory.
    pub is_dir: bool,
    /// Whether it is a symbolic link.
    pub is_link: bool,
    /// Its metadata, where they could be read and were asked for.
    pub meta: Option<FileMeta>,
}

/// What a worker does next.
pub enum Next<P> {
    /// List this directory.
    List(Job<P>),
    /// Try again: others are at work and may find more directories.
    Retry,
    /// Stop: every directory has been listed.
    Done,
}

/// The state of a walk as a mathematical value.
#[verifier::ext_equal]
pub struct WalkView<P> {
    /// The queues of the workers.
    pub queues: Seq<Seq<Job<P>>>,
    /// The records found so far.
    pub recs: Seq<RecView>,
    /// The files with several links that were counted.
    pub seen: Set<u128>,
    /// How many directories are queued or being listed.
    pub active: nat,
    /// The directories that were ever queued.
    pub dirs: Set<usize>,
    /// The directories that are being listed.
    pub running: Set<usize>,
    /// The directories that have been listed.
    pub finished: Set<usize>,
}

/// The number that stands for a file with several links: its device and its inode.
pub open spec fn link_key(m: FileMeta) -> u128 {
    (m.dev * 0x1_0000_0000_0000_0000 + m.ino) as u128
}

/// Whether the entry is a file with several links.
pub open spec fn is_linked<P>(e: Entry<P>) -> bool {
    !e.is_dir && e.meta is Some && e.meta->0.nlink > 1
}

/// The bytes that count for an entry: those of a file with several links count once.
pub open spec fn own_of<P>(e: Entry<P>, seen: Set<u128>) -> u64 {
    match e.meta {
        None => 0,
        Some(m) => if is_linked(e) && seen.contains(link_key(m)) {
            0
        } else {
            m.own
        },
    }
}

/// The node of an entry in directory `parent`.
pub open spec fn node_of<P>(e: Entry<P>, parent: usize, seen: Set<u128>) -> NodeView {
    let bare = NodeView {
        parent: parent,
        name: e.name@,
        is_dir: e.is_dir,
        is_link: e.is_link,
        ..arena::empty_node()
    };
    match e.meta {
        None => bare,
        Some(m) => NodeView {
            own: own_of(e, seen),
            sub: own_of(e, seen),
            ..records::with_meta(bare, m)
        },
    }
}

/// Whether the walk goes into the entry: into directories, not through links, and, if it stays on
/// one file system, not onto another device.
pub open spec fn descends<P>(e: Entry<P>, one_fs: bool, root_dev: u64) -> bool {
    e.is_dir && !e.is_link && !(one_fs && e.meta is Some && e.meta->0.dev != root_dev)
}

/// The index that the next entry gets.
pub open spec fn next_id<P>(w: WalkView<P>) -> nat {
    w.recs.len() + 1
}

/// The walk after one more entry of directory `parent` at depth `depth`, which worker `t` lists.
pub open spec fn with_entry<P>(
    w: WalkView<P>,
    t: int,
    parent: usize,
    depth: u32,
    e: Entry<P>,
    one_fs: bool,
    root_dev: u64,
) -> WalkView<P> {
    let id = next_id(w) as usize;
    let d = descends(e, one_fs, root_dev);
    WalkView {
        queues: if d {
            w.queues.update(
                t,
                w.queues[t].push(Job { path: e.path, id: id, depth: (depth + 1) as u32 }),
            )
        } else {
            w.queues
        },
        recs: w.recs.push(RecView { id: id, node: node_of(e, parent, w.seen) }),
        seen: if is_linked(e) {
            w.seen.insert(link_key(e.meta->0))
        } else {
            w.seen
        },
        active: if d {
            w.active + 1
        } else {
            w.active
        },
        dirs: if d {
            w.dirs.insert(id)
        } else {
            w.dirs
        },
        running: w.running,
        finished: w.finished,
    }
}

/// The walk after the entries of a directory.
pub open spec fn with_entries<P>(
    w: WalkView<P>,
    t: int,
    parent: usize,
    depth: u32,
    entries: Seq<Entry<P>>,
    one_fs: bool,
    root_dev: u64,
) -> WalkView<P>
    decreases entries.len(),
{
    if entries.len() == 0 {
        w
    } else {
        with_entry(
            with_entries(w, t, parent, depth, entries.drop_last(), one_fs, root_dev),
            t,
            parent,
            depth,
            entries.last(),
            one_fs,
            root_dev,
        )
    }
}

/// The walk after directory `id` has been listed.
pub open spec fn without_running<P>(w: WalkView<P>, id: usize) -> WalkView<P> {
    WalkView {
        active: (w.active - 1) as nat,
        running: w.running.remove(id),
        finished: w.finished.insert(id),
        ..w
    }
}

/// How many directories are queued.
pub open spec fn queued<P>(queues: Seq<Seq<Job<P>>>) -> nat
    decreases queues.len(),
{
    if queues.len() == 0 {
        0
    } else {
        queued(queues.drop_last()) + queues.last().len()
    }
}

/// The queue from which worker `t` takes, looking at its own and then at those after it, from the
/// `k`-th one on.
pub open spec fn source<P>(queues: Seq<Seq<Job<P>>>, t: int, k: int) -> Option<int>
    decreases queues.len() - k,
{
    if k >= queues.len() {
        None
    } else if queues[(t + k) % (queues.len() as int)].len() > 0 {
        Some((t + k) % (queues.len() as int))
    } else {
        source(queues, t, k + 1)
    }
}

/// The state of a walk of `workers` workers before anything was done: the top directory is queued
/// with the first one.
pub open spec fn start<P>(root: P, workers: nat) -> WalkView<P> {
    WalkView {
        queues: Seq::new(
            workers,
            |q: int|
                if q == 0 {
                    seq![Job { path: root, id: 0, depth: 1 }]
                } else {
                    seq![]
                },
        ),
        recs: seq![],
        seen: Set::empty(),
        active: 1,
        dirs: set![0usize],
        running: Set::empty(),
        finished: Set::empty(),
    }
}

/// The directory that worker `t` takes: the newest of its own queue, else the oldest of the first
/// queue after its own that is not empty.
pub open spec fn taken_job<P>(w: WalkView<P>, t: int) -> Job<P> {
    let q = source(w.queues, t, 0)->0;
    if q == t {
        w.queues[q].last()
    } else {
        w.queues[q].first()
    }
}

/// The walk after worker `t` took a directory.
pub open spec fn taken<P>(w: WalkView<P>, t: int) -> WalkView<P> {
    let q = source(w.queues, t, 0)->0;
    WalkView {
        queues: w.queues.update(
            q,
            if q == t {
                w.queues[q].drop_last()
            } else {
                w.queues[q].drop_first()
            },
        ),
        running: w.running.insert(taken_job(w, t).id),
        ..w
    }
}

/// Whether a directory at depth `depth` is listed.
pub open spec fn listable<P>(w: WalkView<P>, depth: u32, max_depth: u32, max_entries: usize) -> bool {
    depth < max_depth && next_id(w) < max_entries
}

/// The arena of the records: the top directory, and every entry at its index.
pub open spec fn found_tree(root: NodeView, recs: Seq<RecView>) -> Seq<NodeView> {
    seq![root] + Seq::new(recs.len(), |i: int| recs[i].node)
}

/// Whether index `id` belongs to a directory that was found.
pub open spec fn is_found_dir<P>(w: WalkView<P>, id: int) -> bool {
    0 <= id <= w.recs.len() && (id == 0 || w.recs[id - 1].node.is_dir)
}

/// Every queued directory waits: it is neither being listed nor listed.
pub open spec fn all_waiting<P>(w: WalkView<P>) -> bool {
    forall|q: int, i: int|
        0 <= q < w.queues.len() && 0 <= i < w.queues[q].len() ==> {
            let id = (#[trigger] w.queues[q][i]).id;
            w.dirs.contains(id) && !w.running.contains(id) && !w.finished.contains(id)
        }
}

/// No directory is queued twice.
pub open spec fn distinct<P>(queues: Seq<Seq<Job<P>>>) -> bool {
    forall|q: int, i: int, r: int, j: int|
        0 <= q < queues.len() && 0 <= i < queues[q].len() && 0 <= r < queues.len() && 0 <= j
            < queues[r].len() && (q != r || i != j) ==> (#[trigger] queues[q][i]).id != (
        #[trigger] queues[r][j]).id
}

/// The records are numbered in order, an entry stands after its directory, and every directory that
/// was queued is either still queued, once, or being listed, or listed.
pub open spec fn sound<P>(w: WalkView<P>) -> bool {
    &&& w.queues.len() > 0
    &&& w.recs.len() < usize::MAX
    &&& forall|i: int| 0 <= i < w.recs.len() ==> (#[trigger] w.recs[i]).id == i + 1
    &&& forall|i: int|
        0 <= i < w.recs.len() ==> (#[trigger] w.recs[i]).node.parent <= i && is_found_dir(
            w,
            w.recs[i].node.parent as int,
        )
    &&& w.dirs.finite()
    &&& w.running.finite()
    &&& w.finished.finite()
    &&& forall|id: usize| #[trigger] w.dirs.contains(id) ==> is_found_dir(w, id as int)
    &&& w.running.subset_of(w.dirs)
    &&& w.finished.subset_of(w.dirs)
    &&& w.running.disjoint(w.finished)
    &&& w.dirs.len() == w.finished.len() + w.active
    &&& w.active == queued(w.queues) + w.running.len()
    &&& w.dirs.len() <= next_id(w)
    &&& all_waiting(w)
    &&& distinct(w.queues)
}

proof fn lemma_queued_update<P>(queues: Seq<Seq<Job<P>>>, q: int, v: Seq<Job<P>>)
    requires
        0 <= q < queues.len(),
    ensures
        queued(queues.update(q, v)) == queued(queues) - queues[q].len() + v.len(),
    decreases queues.len(),
{
    let u = queues.update(q, v);
    if q == queues.len() - 1 {
        assert(u.drop_last() == queues.drop_last());
    } else {
        lemma_queued_update(queues.drop_last(), q, v);
        assert(u.drop_last() == queues.drop_last().update(q, v));
    }
}

proof fn lemma_queued_empty<P>(queues: Seq<Seq<Job<P>>>)
    requires
        forall|q: int| 0 <= q < queues.len() ==> (#[trigger] queues[q]).len() == 0,
    ensures
        queued(queues) == 0,
    decreases queues.len(),
{
    if queues.len() > 0 {
        lemma_queued_empty(queues.drop_last());
    }
}

/// Where a queue is not empty, something is queued.
pub(crate) proof fn lemma_queued_has<P>(queues: Seq<Seq<Job<P>>>, q: int)
    requires
        0 <= q < queues.len(),
    ensures
        queued(queues) >= queues[q].len(),
    decreases queues.len(),
{
    if q < queues.len() - 1 {
        lemma_queued_has(queues.drop_last(), q);
    }
}

proof fn lemma_source_none<P>(queues: Seq<Seq<Job<P>>>, t: int, k: int, j: int)
    requires
        0 <= t < queues.len(),
        source(queues, t, k) is None,
        k <= j < queues.len(),
    ensures
        queues[(t + j) % (queues.len() as int)].len() == 0,
    decreases queues.len() - k,
{
    if k < j {
        lemma_source_none(queues, t, k + 1, j);
    }
}

/// A worker that finds nothing has looked everywhere.
pub proof fn law_nothing_is_overlooked<P>(queues: Seq<Seq<Job<P>>>, t: int)
    requires
        0 <= t < queues.len(),
        source(queues, t, 0) is None,
    ensures
        forall|q: int| 0 <= q < queues.len() ==> (#[trigger] queues[q]).len() == 0,
        queued(queues) == 0,
{
    let n = queues.len() as int;
    assert forall|q: int| 0 <= q < n implies (#[trigger] queues[q]).len() == 0 by {
        let j = if q >= t {
            q - t
        } else {
            q - t + n
        };
        lemma_source_none(queues, t, 0, j);
        if q < t {
            vstd::arithmetic::div_mod::lemma_mod_add_multiples_vanish(q, n);
            assert(t + j == n + q);
        }
        vstd::arithmetic::div_mod::lemma_small_mod(q as nat, n as nat);
        assert((t + j) % n == q);
    }
    lemma_queued_empty(queues);
}

/// No work is stranded: when nothing is active any more, nothing is queued, nothing is being listed,
/// and every directory that was ever queued has been listed.
pub proof fn law_done_means_everything_is_listed<P>(w: WalkView<P>)
    requires
        sound(w),
        w.active == 0,
    ensures
        queued(w.queues) == 0,
        w.running == Set::<usize>::empty(),
        w.finished == w.dirs,
{
    vstd::set_lib::lemma_subset_equality(w.finished, w.dirs);
    assert(w.running.len() == 0);
    assert(w.running =~= Set::<usize>::empty());
}

pub(crate) proof fn lemma_with_entry_sound<P>(
    w: WalkView<P>,
    t: int,
    parent: usize,
    depth: u32,
    e: Entry<P>,
    one_fs: bool,
    root_dev: u64,
)
    requires
        sound(w),
        0 <= t < w.queues.len(),
        w.running.contains(parent),
        next_id(w) < usize::MAX,
    ensures
        sound(with_entry(w, t, parent, depth, e, one_fs, root_dev)),
{
    let v = with_entry(w, t, parent, depth, e, one_fs, root_dev);
    let id = next_id(w) as usize;
    assert(w.dirs.contains(parent));
    assert(is_found_dir(w, parent as int));
    assert(!w.dirs.contains(id)) by {
        if w.dirs.contains(id) {
            assert(is_found_dir(w, id as int));
        }
    }
    assert forall|i: int| 0 <= i < v.recs.len() implies (#[trigger] v.recs[i]).node.parent <= i
        && is_found_dir(v, v.recs[i].node.parent as int) by {
        if i < w.recs.len() {
            assert(v.recs[i] == w.recs[i]);
            assert(is_found_dir(w, w.recs[i].node.parent as int));
        }
    }
    assert forall|i: int| 0 <= i < v.recs.len() implies (#[trigger] v.recs[i]).id == i + 1 by {
        if i < w.recs.len() {
            assert(v.recs[i] == w.recs[i]);
        }
    }
    assert forall|d: usize| #[trigger] v.dirs.contains(d) implies is_found_dir(v, d as int) by {
        if d != id {
            assert(w.dirs.contains(d));
            assert(is_found_dir(w, d as int));
        }
    }
    if descends(e, one_fs, root_dev) {
        let job = Job { path: e.path, id: id, depth: (depth + 1) as u32 };
        lemma_queued_update(w.queues, t, w.queues[t].push(job));
        assert forall|q: int, i: int|
            0 <= q < v.queues.len() && 0 <= i < v.queues[q].len() implies {
            let id = (#[trigger] v.queues[q][i]).id;
            v.dirs.contains(id) && !v.running.contains(id) && !v.finished.contains(id)
        } by {
            if q != t || i < w.queues[t].len() {
                assert(v.queues[q][i] == w.queues[q][i]);
            }
        }
        assert forall|q: int, i: int, r: int, j: int|
            0 <= q < v.queues.len() && 0 <= i < v.queues[q].len() && 0 <= r < v.queues.len() && 0
                <= j < v.queues[r].len() && (q != r || i != j) implies (
        #[trigger] v.queues[q][i]).id != (#[trigger] v.queues[r][j]).id by {
            let a = q != t || i < w.queues[t].len();
            let b = r != t || j < w.queues[t].len();
            if a {
                assert(v.queues[q][i] == w.queues[q][i]);
                assert(w.dirs.contains(w.queues[q][i].id));
            }
            if b {
                assert(v.queues[r][j] == w.queues[r][j]);
                assert(w.dirs.contains(w.queues[r][j].id));
            }
        }
    }
}

pub(crate) proof fn lemma_without_running_sound<P>(w: WalkView<P>, id: usize)
    requires
        sound(w),
        w.running.contains(id),
    ensures
        sound(without_running(w, id)),
        w.active > 0,
{
    let v = without_running(w, id);
    assert(w.dirs.contains(id));
    assert(!w.finished.contains(id));
    assert(w.running.len() > 0) by {
        assert(w.running.remove(id).len() == w.running.len() - 1);
    }
    assert forall|d: usize| #[trigger] v.dirs.contains(d) implies is_found_dir(v, d as int) by {
        assert(is_found_dir(w, d as int));
    }
    assert forall|i: int| 0 <= i < v.recs.len() implies (#[trigger] v.recs[i]).node.parent <= i
        && is_found_dir(v, v.recs[i].node.parent as int) by {
        assert(is_found_dir(w, w.recs[i].node.parent as int));
    }
    assert forall|q: int, i: int| 0 <= q < v.queues.len() && 0 <= i < v.queues[q].len() implies {
        let d = (#[trigger] v.queues[q][i]).id;
        v.dirs.contains(d) && !v.running.contains(d) && !v.finished.contains(d)
    } by {
        assert(!w.running.contains(w.queues[q][i].id));
    }
}

/// Where a job that is still queued stood before the one at position `i` of queue `q` was taken.
spec fn stood(q: int, i: int, r: int, j: int) -> int {
    if r == q && j >= i {
        j + 1
    } else {
        j
    }
}

proof fn lemma_stood<P>(queues: Seq<Seq<Job<P>>>, q: int, i: int)
    requires
        0 <= q < queues.len(),
        0 <= i < queues[q].len(),
    ensures
        forall|r: int, j: int|
            0 <= r < queues.len() && 0 <= j < queues.update(q, queues[q].remove(i))[r].len() ==> (
            #[trigger] queues.update(q, queues[q].remove(i))[r][j]) == queues[r][stood(q, i, r, j)]
                && 0 <= stood(q, i, r, j) < queues[r].len() && (r != q || stood(q, i, r, j) != i),
{
}

proof fn lemma_taken_distinct<P>(queues: Seq<Seq<Job<P>>>, q: int, i: int)
    requires
        distinct(queues),
        0 <= q < queues.len(),
        0 <= i < queues[q].len(),
    ensures
        distinct(queues.update(q, queues[q].remove(i))),
{
    let v = queues.update(q, queues[q].remove(i));
    lemma_stood(queues, q, i);
    assert forall|a: int, b: int, r: int, j: int|
        0 <= a < v.len() && 0 <= b < v[a].len() && 0 <= r < v.len() && 0 <= j < v[r].len() && (a
            != r || b != j) implies (#[trigger] v[a][b]).id != (#[trigger] v[r][j]).id by {
        assert(queues[a][stood(q, i, a, b)].id != queues[r][stood(q, i, r, j)].id);
    }
}

/// A job is taken from position `i` of queue `q`.
pub(crate) proof fn lemma_taken_sound<P>(w: WalkView<P>, q: int, i: int)
    requires
        sound(w),
        0 <= q < w.queues.len(),
        0 <= i < w.queues[q].len(),
    ensures
        sound(
            WalkView {
                queues: w.queues.update(q, w.queues[q].remove(i)),
                running: w.running.insert(w.queues[q][i].id),
                ..w
            },
        ),
        is_found_dir(w, w.queues[q][i].id as int),
{
    let id = w.queues[q][i].id;
    let rest = w.queues[q].remove(i);
    let v = WalkView { queues: w.queues.update(q, rest), running: w.running.insert(id), ..w };
    lemma_queued_update(w.queues, q, rest);
    assert(w.dirs.contains(id) && !w.running.contains(id) && !w.finished.contains(id));
    assert(is_found_dir(w, id as int));
    assert forall|d: usize| #[trigger] v.dirs.contains(d) implies is_found_dir(v, d as int) by {
        assert(is_found_dir(w, d as int));
    }
    assert forall|k: int| 0 <= k < v.recs.len() implies (#[trigger] v.recs[k]).node.parent <= k
        && is_found_dir(v, v.recs[k].node.parent as int) by {
        assert(is_found_dir(w, w.recs[k].node.parent as int));
    }
    assert(all_waiting(v)) by {
        lemma_stood(w.queues, q, i);
        assert forall|r: int, j: int|
            0 <= r < v.queues.len() && 0 <= j < v.queues[r].len() implies {
            let d = (#[trigger] v.queues[r][j]).id;
            v.dirs.contains(d) && !v.running.contains(d) && !v.finished.contains(d)
        } by {
            assert(w.queues[r][stood(q, i, r, j)].id != w.queues[q][i].id);
        }
    }
    lemma_taken_distinct(w.queues, q, i);
}

/// A walk starts sound.
pub(crate) proof fn lemma_start_sound<P>(root: P, workers: nat)
    requires
        workers > 0,
    ensures
        sound(start(root, workers)),
{
    let w = start(root, workers);
    let job = Job { path: root, id: 0usize, depth: 1u32 };
    let none = Seq::new(workers, |q: int| Seq::<Job<P>>::empty());
    lemma_queued_empty(none);
    lemma_queued_update(none, 0, seq![job]);
    assert(w.queues == none.update(0, seq![job]));
    assert(w.dirs.len() == 1);
}

/// The state of a walk, shared by its workers.
pub struct Walk<P> {
    queues: Vec<VecDeque<Job<P>>>,
    recs: Vec<Rec>,
    seen: HashSet<u128>,
    active: usize,
    max_depth: u32,
    max_entries: usize,
    one_fs: bool,
    root_dev: u64,
    dirs: Ghost<Set<usize>>,
    running: Ghost<Set<usize>>,
    finished: Ghost<Set<usize>>,
}

impl<P> View for Walk<P> {
    type V = WalkView<P>;

    closed spec fn view(&self) -> WalkView<P> {
        WalkView {
            queues: Seq::new(self.queues@.len(), |q: int| self.queues@[q]@),
            recs: records::rec_views(self.recs@),
            seen: self.seen@,
            active: self.active as nat,
            dirs: self.dirs@,
            running: self.running@,
            finished: self.finished@,
        }
    }
}

impl<P> Walk<P> {
    /// The depth from which on directories are not listed.
    pub closed spec fn depth_limit(&self) -> u32 {
        self.max_depth
    }

    /// The number of entries from which on directories are not listed.
    pub closed spec fn entry_limit(&self) -> usize {
        self.max_entries
    }

    /// Whether the walk stays on one file system.
    pub closed spec fn stays(&self) -> bool {
        self.one_fs
    }

    /// The device of the top directory.
    pub closed spec fn device(&self) -> u64 {
        self.root_dev
    }

    /// The settings of the two walks are the same.
    pub open spec fn same_settings(&self, other: &Walk<P>) -> bool {
        self.depth_limit() == other.depth_limit() && self.entry_limit() == other.entry_limit()
            && self.stays() == other.stays() && self.device() == other.device()
    }

    /// A walk of `workers` workers from directory `root`, which is on device `root_dev`.
    pub fn new(root: P, workers: usize, cfg: &Cfg, root_dev: u64) -> (r: Walk<P>)
        requires
            workers > 0,
        ensures
            sound(r@),
            r@ == start(root, workers as nat),
            r.depth_limit() == cfg.max_depth,
            r.entry_limit() == cfg.max_entries,
            r.stays() == cfg.one_fs,
            r.device() == root_dev,
    {
        let ghost job = Job { path: root, id: 0usize, depth: 1u32 };
        let mut queues: Vec<VecDeque<Job<P>>> = Vec::with_capacity(workers);
        let mut first: VecDeque<Job<P>> = VecDeque::new();
        first.push_back(Job { path: root, id: 0, depth: 1 });
        assert(first@ == seq![job]);
        queues.push(first);
        while queues.len() < workers
            invariant
                1 <= queues@.len() <= workers,
                queues@[0]@ == seq![job],
                forall|q: int|
                    1 <= q < queues@.len() ==> (#[trigger] queues@[q])@ == Seq::<Job<P>>::empty(),
            decreases workers - queues@.len(),
        {
            queues.push(VecDeque::new());
        }
        let r = Walk {
            queues: queues,
            recs: Vec::new(),
            seen: HashSet::new(),
            active: 1,
            max_depth: cfg.max_depth,
            max_entries: cfg.max_entries,
            one_fs: cfg.one_fs,
            root_dev: root_dev,
            dirs: Ghost(Set::empty().insert(0usize)),
            running: Ghost(Set::empty()),
            finished: Ghost(Set::empty()),
        };
        proof {
            let w = r@;
            let expected = Seq::new(
                workers as nat,
                |q: int|
                    if q == 0 {
                        seq![job]
                    } else {
                        seq![]
                    },
            );
            assert forall|q: int| 0 <= q < workers implies w.queues[q] == #[trigger] expected[q] by {
                if q > 0 {
                    assert(queues@[q]@ == Seq::<Job<P>>::empty());
                }
            }
            assert(w.queues == expected);
            assert(w.recs == Seq::<RecView>::empty());
            lemma_start_sound(root, workers as nat);
        }
        r
    }

    /// How many entries have been found, the top directory included.
    pub fn entries(&self) -> (r: usize)
        requires
            sound(self@),
        ensures
            r == next_id(self@),
    {
        self.recs.len() + 1
    }

    /// What worker `t` does next: it takes the newest directory of its own queue, else the oldest of
    /// the first queue after its own that is not empty.
    pub fn next_job(&mut self, t: usize) -> (r: Next<P>)
        requires
            sound(old(self)@),
            t < old(self)@.queues.len(),
        ensures
            sound(final(self)@),
            final(self).same_settings(old(self)),
            final(self)@.queues.len() == old(self)@.queues.len(),
            match r {
                Next::List(job) => {
                    &&& source(old(self)@.queues, t as int, 0) is Some
                    &&& 0 <= source(old(self)@.queues, t as int, 0)->0 < old(self)@.queues.len()
                    &&& job == taken_job(old(self)@, t as int)
                    &&& is_found_dir(old(self)@, job.id as int)
                    &&& final(self)@ == taken(old(self)@, t as int)
                },
                Next::Retry => {
                    &&& source(old(self)@.queues, t as int, 0) is None
                    &&& old(self)@.active > 0
                    &&& final(self)@ == old(self)@
                },
                Next::Done => {
                    &&& source(old(self)@.queues, t as int, 0) is None
                    &&& old(self)@.active == 0
                    &&& final(self)@ == old(self)@
                },
            },
    {
        let ghost w = self@;
        let n = self.queues.len();
        let mut k: usize = 0;
        while k < n
            invariant
                *self == *old(self),
                w == self@,
                sound(w),
                n == self.queues@.len(),
                n == w.queues.len(),
                t < n,
                k <= n,
                source(w.queues, t as int, 0) == source(w.queues, t as int, k as int),
            decreases n - k,
        {
            let q: usize = if k < n - t {
                t + k
            } else {
                k - (n - t)
            };
            proof {
                if k < n - t {
                    vstd::arithmetic::div_mod::lemma_small_mod((t + k) as nat, n as nat);
                } else {
                    vstd::arithmetic::div_mod::lemma_mod_add_multiples_vanish(q as int, n as int);
                    vstd::arithmetic::div_mod::lemma_small_mod(q as nat, n as nat);
                    assert(t + k == n + q);
                }
                assert((t + k) % (n as int) == q);
                assert(w.queues[q as int] == self.queues@[q as int]@);
            }
            let len = self.queues[q].len();
            if len > 0 {
                assert(source(w.queues, t as int, 0) == Some(q as int));
                if q == t {
                    let got = self.queues[q].pop_back();
                    proof {
                        let rest = w.queues[q as int].drop_last();
                        lemma_taken_sound(w, q as int, w.queues[q as int].len() - 1);
                        assert(rest == w.queues[q as int].remove(w.queues[q as int].len() - 1));
                        self.running@ = self.running@.insert(w.queues[q as int].last().id);
                        assert(self.queues@[q as int]@ == rest);
                        assert(self@.queues == w.queues.update(q as int, rest));
                    }
                    if let Some(job) = got {
                        return Next::List(job);
                    }
                } else {
                    let got = self.queues[q].pop_front();
                    proof {
                        let rest = w.queues[q as int].drop_first();
                        lemma_taken_sound(w, q as int, 0);
                        assert(rest == w.queues[q as int].remove(0));
                        self.running@ = self.running@.insert(w.queues[q as int].first().id);
                        assert(self.queues@[q as int]@ == rest);
                        assert(self@.queues == w.queues.update(q as int, rest));
                    }
                    if let Some(job) = got {
                        return Next::List(job);
                    }
                }
            }
            k = k + 1;
        }
        if self.active == 0 {
            Next::Done
        } else {
            Next::Retry
        }
    }

    /// Whether a directory is listed at all: above the depth limit it is not, nor once the walk has
    /// found as many entries as it may.
    pub fn may_list(&self, job: &Job<P>) -> (r: bool)
        requires
            sound(self@),
        ensures
            r == listable(self@, job.depth, self.depth_limit(), self.entry_limit()),
    {
        job.depth < self.max_depth && self.recs.len() + 1 < self.max_entries
    }

    fn add_entry(&mut self, t: usize, parent: usize, depth: u32, e: Entry<P>)
        requires
            sound(old(self)@),
            t < old(self)@.queues.len(),
            old(self)@.running.contains(parent),
            next_id(old(self)@) < usize::MAX,
            depth < u32::MAX,
        ensures
            sound(final(self)@),
            final(self).same_settings(old(self)),
            final(self)@.queues.len() == old(self)@.queues.len(),
            final(self)@ == with_entry(
                old(self)@,
                t as int,
                parent,
                depth,
                e,
                old(self).stays(),
                old(self).device(),
            ),
    {
        let ghost w = self@;
        let ghost expected = with_entry(w, t as int, parent, depth, e, self.stays(), self.device());
        proof {
            lemma_with_entry_sound(w, t as int, parent, depth, e, self.stays(), self.device());
        }
        let id = self.recs.len() + 1;
        let mut descend = e.is_dir && !e.is_link;
        let rec = match e.meta {
            Some(m) => {
                if self.one_fs && m.dev != self.root_dev {
                    descend = false;
                }
                let mut own: u64 = m.own;
                if !e.is_dir && m.nlink > 1 {
                    let key: u128 = m.dev as u128 * 0x1_0000_0000_0000_0000 + m.ino as u128;
                    assert(key == link_key(m));
                    if !self.seen.insert(key) {
                        own = 0;
                    }
                }
                Rec {
                    id: id,
                    parent: parent,
                    name: e.name,
                    own: own,
                    size: m.size,
                    blocks: m.blocks,
                    mtime: m.mtime,
                    uid: m.uid,
                    gid: m.gid,
                    mode: m.mode,
                    nlink: m.nlink,
                    is_dir: e.is_dir,
                    is_link: e.is_link,
                }
            },
            None => Rec {
                id: id,
                parent: parent,
                name: e.name,
                own: 0,
                size: 0,
                blocks: 0,
                mtime: 0,
                uid: 0,
                gid: 0,
                mode: 0,
                nlink: 1,
                is_dir: e.is_dir,
                is_link: e.is_link,
            },
        };
        assert(descend == descends(e, self.stays(), self.device()));
        assert(rec@ == RecView { id: id, node: node_of(e, parent, w.seen) });
        let ghost before = self.recs@;
        self.recs.push(rec);
        assert(records::rec_views(self.recs@) == records::rec_views(before).push(rec@));
        if descend {
            let ghost q = self.queues@;
            self.queues[t].push_back(Job { path: e.path, id: id, depth: depth + 1 });
            self.active = self.active + 1;
            proof {
                self.dirs@ = self.dirs@.insert(id);
                assert(self@.queues == w.queues.update(
                    t as int,
                    w.queues[t as int].push(
                        Job { path: e.path, id: id, depth: (depth + 1) as u32 },
                    ),
                ));
            }
        }
        assert(self@ =~= expected);
    }

    /// Worker `t` has listed a directory: the entries get the next indices, in order, and those that
    /// the walk goes into are queued with worker `t`. A directory that was not listed, or could not
    /// be, has no entries.
    pub fn finish_dir(&mut self, t: usize, job: Job<P>, entries: Vec<Entry<P>>)
        requires
            sound(old(self)@),
            t < old(self)@.queues.len(),
            old(self)@.running.contains(job.id),
            next_id(old(self)@) + entries@.len() <= usize::MAX,
            entries@.len() > 0 ==> job.depth < u32::MAX,
        ensures
            sound(final(self)@),
            final(self).same_settings(old(self)),
            final(self)@.queues.len() == old(self)@.queues.len(),
            final(self)@ == without_running(
                with_entries(
                    old(self)@,
                    t as int,
                    job.id,
                    job.depth,
                    entries@,
                    old(self).stays(),
                    old(self).device(),
                ),
                job.id,
            ),
    {
        let ghost w = self@;
        let ghost all = entries@;
        let ghost stays = self.stays();
        let ghost device = self.device();
        let parent = job.id;
        let depth = job.depth;
        assert(all.take(0) == Seq::<Entry<P>>::empty());
        for e in it: entries
            invariant
                it.seq() == all,
                all == entries@,
                sound(self@),
                self.same_settings(old(self)),
                self@.queues.len() == old(self)@.queues.len(),
                stays == old(self).stays(),
                device == old(self).device(),
                t < self@.queues.len(),
                self@.running.contains(parent),
                next_id(self@) == next_id(w) + it.index(),
                next_id(w) + all.len() <= usize::MAX,
                all.len() > 0 ==> depth < u32::MAX,
                self@ == with_entries(
                    w,
                    t as int,
                    parent,
                    depth,
                    all.take(it.index() as int),
                    stays,
                    device,
                ),
        {
            proof {
                let k = it.index() as int;
                assert(e == all[k]);
                assert(all.take(k + 1).drop_last() == all.take(k));
                assert(all.take(k + 1).last() == all[k]);
            }
            self.add_entry(t, parent, depth, e);
        }
        proof {
            assert(all.take(all.len() as int) == all);
            lemma_without_running_sound(self@, parent);
        }
        self.active = self.active - 1;
        proof {
            self.running@ = self.running@.remove(parent);
            self.finished@ = self.finished@.insert(parent);
        }
    }

    /// The arena that the walk has found: the top directory, and every entry at its index.
    pub fn into_arena(self, root_name: String, root_meta: Option<FileMeta>) -> (r: Vec<Node>)
        requires
            sound(self@),
        ensures
            arena::tree(r@) == found_tree(records::root_node(root_name@, root_meta), self@.recs),
            arena::is_arena(arena::tree(r@)),
            arena::parents_are_dirs(arena::tree(r@)),
    {
        let ghost w = self@;
        let ghost root = records::root_node(root_name@, root_meta);
        let n = self.recs.len() + 1;
        let mut buckets: Vec<Vec<Rec>> = Vec::new();
        buckets.push(self.recs);
        proof {
            assert(buckets@.drop_last() == Seq::<Vec<Rec>>::empty());
            assert(records::flat(buckets@.drop_last()) == Seq::<RecView>::empty());
            assert(records::flat(buckets@) == w.recs);
            assert forall|k: int| 0 <= k < w.recs.len() implies (#[trigger] w.recs[k]).id < n by {
                assert(w.recs[k].id == k + 1);
            }
        }
        let r = records::assemble(n, buckets, root_name, root_meta);
        proof {
            let t = arena::tree(r@);
            let expected = seq![root] + Seq::new(w.recs.len(), |i: int| w.recs[i].node);
            records::lemma_place_len(records::blank(n as nat, root), w.recs);
            assert forall|i: int| 0 <= i < n implies t[i] == #[trigger] expected[i] by {
                records::law_dense_records_fill_the_arena(root, w.recs, n as nat, i);
            }
            assert(t == expected);
            assert forall|i: int| 1 <= i < t.len() implies #[trigger] t[i].parent < i by {
                assert(t[i] == expected[i]);
                assert(w.recs[i - 1].node.parent <= i - 1);
            }
            assert forall|i: int| 1 <= i < t.len() implies t[
                #[trigger] t[i].parent as int].is_dir by {
                assert(t[i] == expected[i]);
                let p = w.recs[i - 1].node.parent as int;
                assert(is_found_dir(w, p));
                assert(t[p] == expected[p]);
            }
        }
        r
    }
}

/// Whether one of the entries is the file `key` with several links.
pub open spec fn lists_linked<P>(entries: Seq<Entry<P>>, key: u128) -> bool {
    exists|i: int|
        0 <= i < entries.len() && is_linked(#[trigger] entries[i]) && link_key(entries[i].meta->0)
            == key
}

proof fn lemma_seen_after<P>(
    w: WalkView<P>,
    t: int,
    parent: usize,
    depth: u32,
    entries: Seq<Entry<P>>,
    one_fs: bool,
    root_dev: u64,
    key: u128,
)
    ensures
        with_entries(w, t, parent, depth, entries, one_fs, root_dev).seen.contains(key)
            == (w.seen.contains(key) || lists_linked(entries, key)),
        with_entries(w, t, parent, depth, entries, one_fs, root_dev).recs.len() == w.recs.len()
            + entries.len(),
    decreases entries.len(),
{
    if entries.len() > 0 {
        let front = entries.drop_last();
        lemma_seen_after(w, t, parent, depth, front, one_fs, root_dev, key);
        if lists_linked(front, key) {
            let i = choose|i: int|
                0 <= i < front.len() && is_linked(#[trigger] front[i]) && link_key(front[i].meta->0)
                    == key;
            assert(entries[i] == front[i]);
        }
        if lists_linked(entries, key) && !(is_linked(entries.last()) && link_key(
            entries.last().meta->0,
        ) == key) {
            let i = choose|i: int|
                0 <= i < entries.len() && is_linked(#[trigger] entries[i]) && link_key(
                    entries[i].meta->0,
                ) == key;
            assert(front[i] == entries[i]);
        }
        if is_linked(entries.last()) && link_key(entries.last().meta->0) == key {
            assert(is_linked(entries[entries.len() - 1]));
        }
    }
}

/// A file with several links counts once: the record of a listed entry holds its bytes unless the
/// same file was counted before the listing or stands earlier in it; then it holds none.
pub proof fn law_linked_files_count_once<P>(
    w: WalkView<P>,
    t: int,
    parent: usize,
    depth: u32,
    entries: Seq<Entry<P>>,
    one_fs: bool,
    root_dev: u64,
    j: int,
)
    requires
        0 <= j < entries.len(),
        entries[j].meta is Some,
    ensures
        ({
            let m = entries[j].meta->0;
            let key = link_key(m);
            let v = with_entries(w, t, parent, depth, entries, one_fs, root_dev);
            v.recs[w.recs.len() + j].node.own == if is_linked(entries[j]) && (w.seen.contains(key)
                || lists_linked(entries.take(j), key)) {
                0
            } else {
                m.own
            }
        }),
    decreases entries.len(),
{
    let key = link_key(entries[j].meta->0);
    let front = entries.drop_last();
    lemma_seen_after(w, t, parent, depth, front, one_fs, root_dev, key);
    if j < front.len() {
        assert(front[j] == entries[j]);
        assert(front.take(j) == entries.take(j));
        law_linked_files_count_once(w, t, parent, depth, front, one_fs, root_dev, j);
    } else {
        assert(front == entries.take(j));
    }
}

/// Links are never followed, and a walk that stays on one file system never enters another device:
/// such an entry is recorded, but nothing is queued for it.
pub proof fn law_links_and_other_devices_are_not_entered<P>(
    w: WalkView<P>,
    t: int,
    parent: usize,
    depth: u32,
    e: Entry<P>,
    one_fs: bool,
    root_dev: u64,
)
    requires
        !e.is_dir || e.is_link || (one_fs && e.meta is Some && e.meta->0.dev != root_dev),
    ensures
        ({
            let v = with_entry(w, t, parent, depth, e, one_fs, root_dev);
            &&& v.queues == w.queues
            &&& v.dirs == w.dirs
            &&& v.active == w.active
            &&& v.recs.len() == w.recs.len() + 1
            &&& v.recs.last().node == node_of(e, parent, w.seen)
        }),
{
}

// ── entries from `statx` ──

/// The metadata of a file with its device as `statx` reports it.
pub open spec fn with_statx_device(m: FileMeta) -> FileMeta {
    FileMeta { dev: uring::statx_number(m.dev), ..m }
}

/// An entry with its device as `statx` reports it.
pub open spec fn renumbered<P>(e: Entry<P>) -> Entry<P> {
    Entry {
        meta: match e.meta {
            Some(m) => Some(with_statx_device(m)),
            None => None,
        },
        ..e
    }
}

/// Entries with their devices as `statx` reports them.
pub open spec fn renumbered_all<P>(entries: Seq<Entry<P>>) -> Seq<Entry<P>> {
    Seq::new(entries.len(), |i: int| renumbered(entries[i]))
}

/// Numbers the devices of entries as `statx` reports them.
pub fn renumber_devices<P>(entries: Vec<Entry<P>>) -> (r: Vec<Entry<P>>)
    ensures
        r@ == renumbered_all(entries@),
{
    let ghost all = entries@;
    let mut r: Vec<Entry<P>> = Vec::new();
    for e in it: entries
        invariant
            it.seq() == all,
            r@.len() == it.index(),
            forall|i: int| 0 <= i < r@.len() ==> #[trigger] r@[i] == renumbered(all[i]),
    {
        let meta = match e.meta {
            Some(m) => Some(
                FileMeta {
                    own: m.own,
                    size: m.size,
                    blocks: m.blocks,
                    mtime: m.mtime,
                    uid: m.uid,
                    gid: m.gid,
                    mode: m.mode,
                    nlink: m.nlink,
                    dev: uring::statx_dev(m.dev),
                    ino: m.ino,
                },
            ),
            None => None,
        };
        r.push(
            Entry {
                path: e.path,
                name: e.name,
                is_dir: e.is_dir,
                is_link: e.is_link,
                meta: meta,
            },
        );
    }
    assert(r@ =~= renumbered_all(all));
    r
}

/// The entry at `path` with the name `name`, from what `statx` said of it. Where that was an error, it
/// is neither a directory nor a link, and has no metadata.
pub fn statx_entry<P>(path: P, name: &[u8], st: Option<Stat>, apparent: bool) -> (e: Entry<P>)
    requires
        st is Some ==> records::own_bytes(st->0, apparent) <= u64::MAX,
    ensures
        e.path == path,
        e.name@ == text::utf8_text(name@),
        e.is_dir == (st is Some && st->0.is_dir),
        e.is_link == (st is Some && st->0.is_link),
        e.meta == (match st {
            Some(s) => Some(records::meta_of(s, apparent)),
            None => None,
        }),
{
    let name = text::text_from_utf8_lossy(name);
    named_entry(path, name, st, apparent)
}

/// The same, where the name has been read as a text.
pub fn named_entry<P>(path: P, name: String, st: Option<Stat>, apparent: bool) -> (e: Entry<P>)
    requires
        st is Some ==> records::own_bytes(st->0, apparent) <= u64::MAX,
    ensures
        e.path == path,
        e.name == name,
        e.is_dir == (st is Some && st->0.is_dir),
        e.is_link == (st is Some && st->0.is_link),
        e.meta == (match st {
            Some(s) => Some(records::meta_of(s, apparent)),
            None => None,
        }),
{
    match st {
        Some(s) => Entry {
            path: path,
            name: name,
            is_dir: s.is_dir,
            is_link: s.is_link,
            meta: Some(records::read_meta(&s, apparent)),
        },
        None => Entry { path: path, name: name, is_dir: false, is_link: false, meta: None },
    }
}

/// How many workers a walk has: as many as asked for, else as many as the machine can run at once,
/// else 8.
pub fn worker_count(cfg: &Cfg, available: Option<usize>) -> (r: usize)
    ensures
        r == (if cfg.threads > 0 {
            cfg.threads
        } else {
            match available {
                Some(n) => n,
                None => 8,
            }
        }),
{
    if cfg.threads > 0 {
        cfg.threads
    } else {
        match available {
            Some(n) => n,
            None => 8,
        }
    }
}

} // verus!
