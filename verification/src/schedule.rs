//! Whole walks: whatever the number of workers and the order of their steps, a walk over a tree that
//! does not change finds the same files and counts the same bytes.

use crate::arena::NodeView;
use crate::records;
use crate::records::{FileMeta, RecView};
use crate::sums;
use crate::uring;
use crate::uring::Stat;
use crate::walk;
use crate::walk::{Entry, Job, WalkView};
use vstd::prelude::*;

verus! {

// ── whole walks ──

/// What decides how far a walk goes.
pub struct Settings {
    /// The depth from which on directories are not listed.
    pub max_depth: u32,
    /// Whether the walk stays on one file system.
    pub one_fs: bool,
    /// The device of the top directory.
    pub root_dev: u64,
}

/// A directory that a worker has taken, and whether it may be listed, once that was asked.
pub struct Task<P> {
    pub job: Job<P>,
    pub listed: Option<bool>,
}

/// An entry that was found, with the names that lead to it from the top directory.
pub struct Found<P> {
    pub at: Seq<Seq<char>>,
    pub entry: Entry<P>,
}

/// One step of one of the workers.
pub enum Event {
    /// The worker with the given number takes a directory.
    Take(int),
    /// A worker asks whether the directory of its task may be listed.
    Ask(int),
    /// A worker is done with the directory of a task.
    Finish { worker: int, task: int },
}

/// The state of a walk, with what happened on the way.
#[verifier::ext_equal]
pub struct RunView<P> {
    /// The state of the walk.
    pub w: WalkView<P>,
    /// The directories that were taken and are not finished.
    pub tasks: Seq<Task<P>>,
    /// The entries that were found, in the order of their indices.
    pub found: Seq<Found<P>>,
    /// Whether a directory above the depth limit was not listed because there were too many entries.
    pub cut: bool,
}

/// The names that lead to the entry with index `id`.
pub open spec fn place<P>(found: Seq<Found<P>>, id: int) -> Seq<Seq<char>> {
    if id == 0 {
        seq![]
    } else {
        found[id - 1].at
    }
}

/// The entries of a directory, with the names that lead to them.
pub open spec fn found_in<P>(entries: Seq<Entry<P>>, at: Seq<Seq<char>>) -> Seq<Found<P>> {
    Seq::new(
        entries.len(),
        |i: int| Found { at: at.push(entries[i].name@), entry: entries[i] },
    )
}

/// What is listed for a task: the directory's entries, or nothing.
pub open spec fn listing<P>(disk: spec_fn(P) -> Seq<Entry<P>>, task: Task<P>) -> Seq<Entry<P>> {
    if task.listed == Some(true) {
        disk(task.job.path)
    } else {
        seq![]
    }
}

/// Whether a step is possible. There are never more entries than can be numbered.
pub open spec fn possible<P>(disk: spec_fn(P) -> Seq<Entry<P>>, r: RunView<P>, e: Event) -> bool {
    match e {
        Event::Take(t) => 0 <= t < r.w.queues.len() && walk::source(r.w.queues, t, 0) is Some,
        Event::Ask(k) => 0 <= k < r.tasks.len() && r.tasks[k].listed is None,
        Event::Finish { worker, task } => {
            &&& 0 <= worker < r.w.queues.len()
            &&& 0 <= task < r.tasks.len()
            &&& r.tasks[task].listed is Some
            &&& walk::next_id(r.w) + listing(disk, r.tasks[task]).len() <= usize::MAX
        },
    }
}

/// The walk after a step, where no directory is listed once there are `limit` entries.
pub open spec fn after<P>(
    disk: spec_fn(P) -> Seq<Entry<P>>,
    s: Settings,
    limit: usize,
    r: RunView<P>,
    e: Event,
) -> RunView<P> {
    match e {
        Event::Take(t) => RunView {
            w: walk::taken(r.w, t),
            tasks: r.tasks.push(Task { job: walk::taken_job(r.w, t), listed: None }),
            ..r
        },
        Event::Ask(k) => {
            let job = r.tasks[k].job;
            let listed = walk::listable(r.w, job.depth, s.max_depth, limit);
            RunView {
                tasks: r.tasks.update(k, Task { job: job, listed: Some(listed) }),
                cut: r.cut || (!listed && job.depth < s.max_depth),
                ..r
            }
        },
        Event::Finish { worker, task } => {
            let job = r.tasks[task].job;
            let entries = listing(disk, r.tasks[task]);
            RunView {
                w: walk::without_running(
                    walk::with_entries(
                        r.w,
                        worker,
                        job.id,
                        job.depth,
                        entries,
                        s.one_fs,
                        s.root_dev,
                    ),
                    job.id,
                ),
                tasks: r.tasks.remove(task),
                found: r.found + found_in(entries, place(r.found, job.id as int)),
                ..r
            }
        },
    }
}

/// The walk from directory `root` with `workers` workers, after these steps.
pub open spec fn run<P>(
    disk: spec_fn(P) -> Seq<Entry<P>>,
    s: Settings,
    limit: usize,
    root: P,
    workers: nat,
    events: Seq<Event>,
) -> RunView<P>
    decreases events.len(),
{
    if events.len() == 0 {
        RunView {
            w: walk::start(root, workers),
            tasks: seq![],
            found: seq![],
            cut: false,
        }
    } else {
        after(disk, s, limit, run(disk, s, limit, root, workers, events.drop_last()), events.last())
    }
}

/// Whether the steps can be taken one after the other.
pub open spec fn can_run<P>(
    disk: spec_fn(P) -> Seq<Entry<P>>,
    s: Settings,
    limit: usize,
    root: P,
    workers: nat,
    events: Seq<Event>,
) -> bool
    decreases events.len(),
{
    events.len() == 0 || {
        &&& can_run(disk, s, limit, root, workers, events.drop_last())
        &&& possible(disk, run(disk, s, limit, root, workers, events.drop_last()), events.last())
    }
}

/// Whether the walk is over and was nowhere cut short.
pub open spec fn is_complete<P>(r: RunView<P>) -> bool {
    r.w.active == 0 && !r.cut
}

// ── the tree ──

/// What `f` gives for the files below directory `dir`, added up: for everything down to the depth
/// limit that can be reached without following links or, if the walk stays on one file system,
/// entering another device.
pub open spec fn sum_below<P>(
    disk: spec_fn(P) -> Seq<Entry<P>>,
    s: Settings,
    dir: P,
    at: Seq<Seq<char>>,
    depth: nat,
    f: spec_fn(Found<P>) -> nat,
) -> nat
    decreases s.max_depth - depth, 1nat, 0nat,
{
    if depth < s.max_depth {
        sum_listed(disk, s, disk(dir), at, depth, f)
    } else {
        0
    }
}

/// What `f` gives for these entries of a directory and for the files below them, added up.
pub open spec fn sum_listed<P>(
    disk: spec_fn(P) -> Seq<Entry<P>>,
    s: Settings,
    entries: Seq<Entry<P>>,
    at: Seq<Seq<char>>,
    depth: nat,
    f: spec_fn(Found<P>) -> nat,
) -> nat
    decreases s.max_depth - depth, 0nat, entries.len(),
{
    if depth >= s.max_depth || entries.len() == 0 {
        0
    } else {
        let e = entries.last();
        let here = at.push(e.name@);
        let below = if walk::descends(e, s.one_fs, s.root_dev) {
            sum_below(disk, s, e.path, here, depth + 1, f)
        } else {
            0
        };
        sum_listed(disk, s, entries.drop_last(), at, depth, f) + f(Found { at: here, entry: e })
            + below
    }
}

// ── what every step keeps ──

/// What is still to be found below a queued directory.
spec fn below<P>(
    disk: spec_fn(P) -> Seq<Entry<P>>,
    s: Settings,
    found: Seq<Found<P>>,
    f: spec_fn(Found<P>) -> nat,
) -> spec_fn(Job<P>) -> nat {
    |j: Job<P>| sum_below(disk, s, j.path, place(found, j.id as int), j.depth as nat, f)
}

spec fn below_queue<P>(
    disk: spec_fn(P) -> Seq<Entry<P>>,
    s: Settings,
    found: Seq<Found<P>>,
    f: spec_fn(Found<P>) -> nat,
) -> spec_fn(Seq<Job<P>>) -> nat {
    |q: Seq<Job<P>>| sums::seq_sum(q, below(disk, s, found, f))
}

spec fn below_task<P>(
    disk: spec_fn(P) -> Seq<Entry<P>>,
    s: Settings,
    found: Seq<Found<P>>,
    f: spec_fn(Found<P>) -> nat,
) -> spec_fn(Task<P>) -> nat {
    |k: Task<P>| below(disk, s, found, f)(k.job)
}

/// Every task is that of a directory being listed, once; and what was said of it holds.
spec fn tasks_sound<P>(s: Settings, r: RunView<P>) -> bool {
    &&& forall|k: int|
        0 <= k < r.tasks.len() ==> r.w.running.contains((#[trigger] r.tasks[k]).job.id)
    &&& forall|k: int, m: int|
        0 <= k < r.tasks.len() && 0 <= m < r.tasks.len() && k != m ==> (
        #[trigger] r.tasks[k]).job.id != (#[trigger] r.tasks[m]).job.id
    &&& forall|k: int|
        0 <= k < r.tasks.len() ==> match (#[trigger] r.tasks[k]).listed {
            Some(b) => if b {
                r.tasks[k].job.depth < s.max_depth
            } else {
                r.cut || r.tasks[k].job.depth >= s.max_depth
            },
            None => true,
        }
}

/// Whether a queued or taken directory is as deep as the names that lead to it say.
spec fn depth_matches<P>(found: Seq<Found<P>>, j: Job<P>) -> bool {
    j.id <= found.len() && j.depth == place(found, j.id as int).len() + 1
}

spec fn depths_match<P>(r: RunView<P>) -> bool {
    &&& forall|q: int, i: int|
        0 <= q < r.w.queues.len() && 0 <= i < r.w.queues[q].len() ==> depth_matches(
            r.found,
            #[trigger] r.w.queues[q][i],
        )
    &&& forall|k: int| 0 <= k < r.tasks.len() ==> depth_matches(r.found, (#[trigger] r.tasks[k]).job)
}

/// The walk is sound.
#[verifier::opaque]
spec fn sound_walk<P>(w: WalkView<P>) -> bool {
    walk::sound(w)
}

proof fn lemma_entry_sound<P>(
    w: WalkView<P>,
    t: int,
    id: usize,
    depth: u32,
    e: Entry<P>,
    s: Settings,
)
    requires
        sound_walk(w),
        0 <= t < w.queues.len(),
        w.running.contains(id),
        walk::next_id(w) < usize::MAX,
    ensures
        sound_walk(walk::with_entry(w, t, id, depth, e, s.one_fs, s.root_dev)),
{
    reveal(sound_walk);
    walk::lemma_with_entry_sound(w, t, id, depth, e, s.one_fs, s.root_dev);
}

proof fn lemma_taken_sound<P>(w: WalkView<P>, q: int, i: int)
    requires
        sound_walk(w),
        0 <= q < w.queues.len(),
        0 <= i < w.queues[q].len(),
    ensures
        sound_walk(
            WalkView {
                queues: w.queues.update(q, w.queues[q].remove(i)),
                running: w.running.insert(w.queues[q][i].id),
                ..w
            },
        ),
        !w.running.contains(w.queues[q][i].id),
{
    reveal(sound_walk);
    walk::lemma_taken_sound(w, q, i);
}

spec fn run_sound<P>(s: Settings, limit: usize, r: RunView<P>) -> bool {
    &&& sound_walk(r.w)
    &&& r.found.len() == r.w.recs.len()
    &&& tasks_sound(s, r)
    &&& depths_match(r)
    &&& r.cut ==> walk::next_id(r.w) >= limit
    &&& forall|i: int|
        0 <= i < r.found.len() ==> (#[trigger] r.found[i]).at.len() < s.max_depth
}

/// The entries of a listing, one after the other.
proof fn lemma_entries_sound<P>(
    s: Settings,
    w: WalkView<P>,
    found: Seq<Found<P>>,
    t: int,
    id: usize,
    depth: u32,
    entries: Seq<Entry<P>>,
)
    requires
        sound_walk(w),
        found.len() == w.recs.len(),
        0 <= t < w.queues.len(),
        w.running.contains(id),
        walk::next_id(w) + entries.len() <= usize::MAX,
        id <= found.len(),
        entries.len() > 0 ==> depth < s.max_depth,
        depth == place(found, id as int).len() + 1,
        forall|q: int, i: int|
            0 <= q < w.queues.len() && 0 <= i < w.queues[q].len() ==> depth_matches(
                found,
                #[trigger] w.queues[q][i],
            ),
    ensures
        ({
            let v = walk::with_entries(w, t, id, depth, entries, s.one_fs, s.root_dev);
            let now = found + found_in(entries, place(found, id as int));
            &&& sound_walk(v)
            &&& v.recs.len() == now.len()
            &&& v.queues.len() == w.queues.len()
            &&& v.running == w.running
            &&& forall|q: int, i: int|
                0 <= q < v.queues.len() && 0 <= i < v.queues[q].len() ==> depth_matches(
                    now,
                    #[trigger] v.queues[q][i],
                )
        }),
    decreases entries.len(),
{
    let at = place(found, id as int);
    let now = found + found_in(entries, at);
    let v = walk::with_entries(w, t, id, depth, entries, s.one_fs, s.root_dev);
    if entries.len() > 0 {
        let front = entries.drop_last();
        let e = entries.last();
        let u = walk::with_entries(w, t, id, depth, front, s.one_fs, s.root_dev);
        let then = found + found_in(front, at);
        lemma_entries_sound(s, w, found, t, id, depth, front);
        lemma_entry_sound(u, t, id, depth, e, s);
        assert(now == then.push(Found { at: at.push(e.name@), entry: e }));
        assert forall|q: int, i: int|
            0 <= q < v.queues.len() && 0 <= i < v.queues[q].len() implies depth_matches(
            now,
            #[trigger] v.queues[q][i],
        ) by {
            if q != t || i < u.queues[t].len() {
                assert(v.queues[q][i] == u.queues[q][i]);
                assert(depth_matches(then, u.queues[q][i]));
                let n = u.queues[q][i].id as int;
                assert(place(now, n) == place(then, n));
            } else {
                assert(place(now, now.len() as int) == at.push(e.name@));
            }
        }
    } else {
        assert(now == found);
    }
}

proof fn lemma_source<P>(queues: Seq<Seq<Job<P>>>, t: int, k: int)
    requires
        0 <= t < queues.len(),
        0 <= k,
    ensures
        match walk::source(queues, t, k) {
            Some(q) => 0 <= q < queues.len() && queues[q].len() > 0,
            None => true,
        },
    decreases queues.len() - k,
{
    if k < queues.len() {
        vstd::arithmetic::div_mod::lemma_mod_bound(t + k, queues.len() as int);
        lemma_source(queues, t, k + 1);
    }
}

proof fn lemma_take_sound<P>(
    disk: spec_fn(P) -> Seq<Entry<P>>,
    s: Settings,
    limit: usize,
    r: RunView<P>,
    t: int,
)
    requires
        run_sound(s, limit, r),
        possible(disk, r, Event::Take(t)),
    ensures
        run_sound(s, limit, after(disk, s, limit, r, Event::Take(t))),
        walk::next_id(after(disk, s, limit, r, Event::Take(t)).w) >= walk::next_id(r.w),
{
    let n = after(disk, s, limit, r, Event::Take(t));
    lemma_source(r.w.queues, t, 0);
    let q = walk::source(r.w.queues, t, 0)->0;
    let i: int = if q == t {
        r.w.queues[q].len() - 1
    } else {
        0
    };
    let job = r.w.queues[q][i];
    lemma_taken_sound(r.w, q, i);
    assert(n.w.queues[q] == r.w.queues[q].remove(i));
    assert(n.w.queues == r.w.queues.update(q, r.w.queues[q].remove(i)));
    assert(walk::taken_job(r.w, t) == job);
    assert(!r.w.running.contains(job.id));
    assert(depth_matches(r.found, job));
    assert forall|a: int, b: int|
        0 <= a < n.w.queues.len() && 0 <= b < n.w.queues[a].len() implies depth_matches(
        n.found,
        #[trigger] n.w.queues[a][b],
    ) by {
        if a == q {
            if b < i {
                assert(n.w.queues[a][b] == r.w.queues[a][b]);
            } else {
                assert(n.w.queues[a][b] == r.w.queues[a][b + 1]);
            }
        } else {
            assert(n.w.queues[a][b] == r.w.queues[a][b]);
        }
    }
    assert forall|k: int, m: int|
        0 <= k < n.tasks.len() && 0 <= m < n.tasks.len() && k != m implies (
    #[trigger] n.tasks[k]).job.id != (#[trigger] n.tasks[m]).job.id by {
        if k < r.tasks.len() {
            assert(r.w.running.contains(r.tasks[k].job.id));
        }
        if m < r.tasks.len() {
            assert(r.w.running.contains(r.tasks[m].job.id));
        }
    }
}

proof fn lemma_ask_sound<P>(
    disk: spec_fn(P) -> Seq<Entry<P>>,
    s: Settings,
    limit: usize,
    r: RunView<P>,
    k: int,
)
    requires
        run_sound(s, limit, r),
        possible(disk, r, Event::Ask(k)),
    ensures
        run_sound(s, limit, after(disk, s, limit, r, Event::Ask(k))),
        walk::next_id(after(disk, s, limit, r, Event::Ask(k)).w) >= walk::next_id(r.w),
{
    let n = after(disk, s, limit, r, Event::Ask(k));
    assert forall|m: int| 0 <= m < n.tasks.len() implies (#[trigger] n.tasks[m]).job
        == r.tasks[m].job by {}
    assert forall|m: int| 0 <= m < n.tasks.len() implies n.w.running.contains(
        (#[trigger] n.tasks[m]).job.id,
    ) by {
        assert(r.w.running.contains(r.tasks[m].job.id));
    }
    assert forall|a: int, m: int|
        0 <= a < n.tasks.len() && 0 <= m < n.tasks.len() && a != m implies (
    #[trigger] n.tasks[a]).job.id != (#[trigger] n.tasks[m]).job.id by {
        assert(r.tasks[a].job.id != r.tasks[m].job.id);
    }
    assert forall|m: int| 0 <= m < n.tasks.len() implies depth_matches(
        n.found,
        (#[trigger] n.tasks[m]).job,
    ) by {
        assert(depth_matches(r.found, r.tasks[m].job));
    }
}

/// The other tasks go on when one is finished.
proof fn lemma_other_tasks<P>(s: Settings, r: RunView<P>, n: RunView<P>, task: int)
    requires
        tasks_sound(s, r),
        0 <= task < r.tasks.len(),
        forall|k: int|
            0 <= k < r.tasks.len() ==> depth_matches(r.found, (#[trigger] r.tasks[k]).job),
        n.tasks == r.tasks.remove(task),
        n.w.running == r.w.running.remove(r.tasks[task].job.id),
        n.cut == r.cut,
        r.found.len() <= n.found.len(),
        forall|i: int| 0 <= i < r.found.len() ==> #[trigger] n.found[i] == r.found[i],
    ensures
        tasks_sound(s, n),
        forall|k: int|
            0 <= k < n.tasks.len() ==> depth_matches(n.found, (#[trigger] n.tasks[k]).job),
{
    assert forall|k: int| 0 <= k < n.tasks.len() implies {
        &&& n.w.running.contains((#[trigger] n.tasks[k]).job.id)
        &&& depth_matches(n.found, n.tasks[k].job)
        &&& match n.tasks[k].listed {
            Some(b) => if b {
                n.tasks[k].job.depth < s.max_depth
            } else {
                n.cut || n.tasks[k].job.depth >= s.max_depth
            },
            None => true,
        }
    } by {
        let m = if k < task {
            k
        } else {
            k + 1
        };
        assert(n.tasks[k] == r.tasks[m]);
        assert(r.w.running.contains(r.tasks[m].job.id));
        assert(depth_matches(r.found, r.tasks[m].job));
        assert(r.tasks[m].job.id != r.tasks[task].job.id);
    }
    assert forall|k: int, m: int|
        0 <= k < n.tasks.len() && 0 <= m < n.tasks.len() && k != m implies (
    #[trigger] n.tasks[k]).job.id != (#[trigger] n.tasks[m]).job.id by {
        let a = if k < task {
            k
        } else {
            k + 1
        };
        let b = if m < task {
            m
        } else {
            m + 1
        };
        assert(r.tasks[a].job.id != r.tasks[b].job.id);
    }
}

/// The walk before the task itself is taken off the books.
spec fn listed_walk<P>(
    disk: spec_fn(P) -> Seq<Entry<P>>,
    s: Settings,
    r: RunView<P>,
    worker: int,
    task: int,
) -> WalkView<P> {
    let job = r.tasks[task].job;
    walk::with_entries(
        r.w,
        worker,
        job.id,
        job.depth,
        listing(disk, r.tasks[task]),
        s.one_fs,
        s.root_dev,
    )
}

proof fn lemma_finish_sound<P>(
    disk: spec_fn(P) -> Seq<Entry<P>>,
    s: Settings,
    limit: usize,
    r: RunView<P>,
    worker: int,
    task: int,
)
    requires
        run_sound(s, limit, r),
        possible(disk, r, Event::Finish { worker, task }),
    ensures
        run_sound(s, limit, after(disk, s, limit, r, Event::Finish { worker, task })),
        walk::next_id(after(disk, s, limit, r, Event::Finish { worker, task }).w) >= walk::next_id(r.w),
{
    let n = after(disk, s, limit, r, Event::Finish { worker, task });
    let job = r.tasks[task].job;
    let entries = listing(disk, r.tasks[task]);
    let u = listed_walk(disk, s, r, worker, task);
    assert(r.w.running.contains(job.id));
    assert(depth_matches(r.found, job));
    assert(sound_walk(u) && u.recs.len() == n.found.len() && u.running == r.w.running
        && u.queues.len() == r.w.queues.len() && forall|q: int, i: int|
        0 <= q < u.queues.len() && 0 <= i < u.queues[q].len() ==> depth_matches(
            n.found,
            #[trigger] u.queues[q][i],
        )) by {
        lemma_entries_sound(s, r.w, r.found, worker, job.id, job.depth, entries);
    }
    assert(sound_walk(n.w)) by {
        reveal(sound_walk);
        walk::lemma_without_running_sound(u, job.id);
    }
    lemma_other_tasks(s, r, n, task);
    assert forall|i: int| 0 <= i < n.found.len() implies (#[trigger] n.found[i]).at.len()
        < s.max_depth by {
        if i < r.found.len() {
            assert(n.found[i] == r.found[i]);
        }
    }
}

proof fn lemma_step_sound<P>(
    disk: spec_fn(P) -> Seq<Entry<P>>,
    s: Settings,
    limit: usize,
    r: RunView<P>,
    e: Event,
)
    requires
        run_sound(s, limit, r),
        possible(disk, r, e),
    ensures
        run_sound(s, limit, after(disk, s, limit, r, e)),
        walk::next_id(after(disk, s, limit, r, e).w) >= walk::next_id(r.w),
{
    match e {
        Event::Take(t) => {
            lemma_take_sound(disk, s, limit, r, t);
        },
        Event::Ask(k) => {
            lemma_ask_sound(disk, s, limit, r, k);
        },
        Event::Finish { worker, task } => {
            lemma_finish_sound(disk, s, limit, r, worker, task);
        },
    }
}

proof fn lemma_run_sound<P>(
    disk: spec_fn(P) -> Seq<Entry<P>>,
    s: Settings,
    limit: usize,
    root: P,
    workers: nat,
    events: Seq<Event>,
)
    requires
        workers > 0,
        can_run(disk, s, limit, root, workers, events),
    ensures
        run_sound(s, limit, run(disk, s, limit, root, workers, events)),
    decreases events.len(),
{
    if events.len() == 0 {
        reveal(sound_walk);
        walk::lemma_start_sound(root, workers);
    } else {
        lemma_run_sound(disk, s, limit, root, workers, events.drop_last());
        lemma_step_sound(
            disk,
            s,
            limit,
            run(disk, s, limit, root, workers, events.drop_last()),
            events.last(),
        );
    }
}

// ── nothing is lost and nothing found twice ──

/// What was found already stays where it is, so what is below the queued directories does too.
proof fn lemma_queues_same<P>(
    disk: spec_fn(P) -> Seq<Entry<P>>,
    s: Settings,
    queues: Seq<Seq<Job<P>>>,
    found: Seq<Found<P>>,
    now: Seq<Found<P>>,
    f: spec_fn(Found<P>) -> nat,
)
    requires
        found.len() <= now.len(),
        forall|i: int| 0 <= i < found.len() ==> #[trigger] now[i] == found[i],
        forall|q: int, i: int|
            0 <= q < queues.len() && 0 <= i < queues[q].len() ==> depth_matches(
                found,
                #[trigger] queues[q][i],
            ),
    ensures
        sums::seq_sum(queues, below_queue(disk, s, now, f)) == sums::seq_sum(
            queues,
            below_queue(disk, s, found, f),
        ),
{
    assert forall|q: int| 0 <= q < queues.len() implies below_queue(disk, s, now, f)(
        #[trigger] queues[q],
    ) == below_queue(disk, s, found, f)(queues[q]) by {
        assert forall|i: int| 0 <= i < queues[q].len() implies below(disk, s, now, f)(
            #[trigger] queues[q][i],
        ) == below(disk, s, found, f)(queues[q][i]) by {
            assert(depth_matches(found, queues[q][i]));
        }
        sums::lemma_sum_same(queues[q], below(disk, s, now, f), below(disk, s, found, f));
    }
    sums::lemma_sum_same(queues, below_queue(disk, s, now, f), below_queue(disk, s, found, f));
}

/// What one more entry adds, and what it leaves to be found.
proof fn lemma_entry_sum<P>(
    disk: spec_fn(P) -> Seq<Entry<P>>,
    s: Settings,
    u: WalkView<P>,
    then: Seq<Found<P>>,
    t: int,
    id: usize,
    depth: u32,
    e: Entry<P>,
    x: Found<P>,
    f: spec_fn(Found<P>) -> nat,
)
    requires
        then.len() == u.recs.len(),
        0 <= t < u.queues.len(),
        walk::next_id(u) < usize::MAX,
        depth < s.max_depth,
        x.entry == e,
        forall|q: int, i: int|
            0 <= q < u.queues.len() && 0 <= i < u.queues[q].len() ==> depth_matches(
                then,
                #[trigger] u.queues[q][i],
            ),
    ensures
        ({
            let v = walk::with_entry(u, t, id, depth, e, s.one_fs, s.root_dev);
            let now = then.push(x);
            sums::seq_sum(now, f) + sums::seq_sum(v.queues, below_queue(disk, s, now, f)) == sums::seq_sum(then, f)
                + sums::seq_sum(u.queues, below_queue(disk, s, then, f)) + f(x) + if walk::descends(
                e,
                s.one_fs,
                s.root_dev,
            ) {
                sum_below(disk, s, e.path, x.at, (depth + 1) as nat, f)
            } else {
                0
            }
        }),
{
    let v = walk::with_entry(u, t, id, depth, e, s.one_fs, s.root_dev);
    let now = then.push(x);
    sums::lemma_sum_push(then, x, f);
    lemma_queues_same(disk, s, u.queues, then, now, f);
    if walk::descends(e, s.one_fs, s.root_dev) {
        let job = Job { path: e.path, id: walk::next_id(u) as usize, depth: (depth + 1) as u32 };
        assert(v.queues == u.queues.update(t, u.queues[t].push(job)));
        sums::lemma_sum_push(u.queues[t], job, below(disk, s, now, f));
        sums::lemma_sum_update(u.queues, t, u.queues[t].push(job), below_queue(disk, s, now, f));
        assert(place(now, job.id as int) == x.at);
    }
}

/// What a listing adds, and what it leaves to be found, is what is below the directory.
proof fn lemma_entries_sum<P>(
    disk: spec_fn(P) -> Seq<Entry<P>>,
    s: Settings,
    w: WalkView<P>,
    found: Seq<Found<P>>,
    t: int,
    id: usize,
    depth: u32,
    entries: Seq<Entry<P>>,
    f: spec_fn(Found<P>) -> nat,
)
    requires
        sound_walk(w),
        found.len() == w.recs.len(),
        0 <= t < w.queues.len(),
        w.running.contains(id),
        walk::next_id(w) + entries.len() <= usize::MAX,
        id <= found.len(),
        entries.len() > 0 ==> depth < s.max_depth,
        depth == place(found, id as int).len() + 1,
        forall|q: int, i: int|
            0 <= q < w.queues.len() && 0 <= i < w.queues[q].len() ==> depth_matches(
                found,
                #[trigger] w.queues[q][i],
            ),
    ensures
        ({
            let v = walk::with_entries(w, t, id, depth, entries, s.one_fs, s.root_dev);
            let at = place(found, id as int);
            let now = found + found_in(entries, at);
            sums::seq_sum(now, f) + sums::seq_sum(v.queues, below_queue(disk, s, now, f)) == sums::seq_sum(found, f)
                + sums::seq_sum(w.queues, below_queue(disk, s, found, f)) + sum_listed(
                disk,
                s,
                entries,
                at,
                depth as nat,
                f,
            )
        }),
    decreases entries.len(),
{
    let at = place(found, id as int);
    let now = found + found_in(entries, at);
    let v = walk::with_entries(w, t, id, depth, entries, s.one_fs, s.root_dev);
    if entries.len() == 0 {
        assert(now == found);
    } else {
        let front = entries.drop_last();
        let e = entries.last();
        let u = walk::with_entries(w, t, id, depth, front, s.one_fs, s.root_dev);
        let then = found + found_in(front, at);
        let x = Found { at: at.push(e.name@), entry: e };
        lemma_entries_sum(disk, s, w, found, t, id, depth, front, f);
        lemma_entries_sound(s, w, found, t, id, depth, front);
        assert(now == then.push(x));
        lemma_entry_sum(disk, s, u, then, t, id, depth, e, x, f);
    }
}

/// What was found, and what is still to be found.
spec fn all_of<P>(
    disk: spec_fn(P) -> Seq<Entry<P>>,
    s: Settings,
    r: RunView<P>,
    f: spec_fn(Found<P>) -> nat,
) -> nat {
    sums::seq_sum(r.found, f) + sums::seq_sum(r.w.queues, below_queue(disk, s, r.found, f)) + sums::seq_sum(
        r.tasks,
        below_task(disk, s, r.found, f),
    )
}

proof fn lemma_take_keeps_all<P>(
    disk: spec_fn(P) -> Seq<Entry<P>>,
    s: Settings,
    limit: usize,
    r: RunView<P>,
    t: int,
    f: spec_fn(Found<P>) -> nat,
)
    requires
        possible(disk, r, Event::Take(t)),
    ensures
        all_of(disk, s, after(disk, s, limit, r, Event::Take(t)), f) == all_of(disk, s, r, f),
{
    let n = after(disk, s, limit, r, Event::Take(t));
    lemma_source(r.w.queues, t, 0);
    let q = walk::source(r.w.queues, t, 0)->0;
    let i: int = if q == t {
        r.w.queues[q].len() - 1
    } else {
        0
    };
    let job = r.w.queues[q][i];
    let rest = r.w.queues[q].remove(i);
    assert(n.w.queues[q] == rest);
    assert(n.w.queues == r.w.queues.update(q, rest));
    sums::lemma_sum_remove(r.w.queues[q], i, below(disk, s, r.found, f));
    sums::lemma_sum_update(r.w.queues, q, rest, below_queue(disk, s, r.found, f));
    sums::lemma_sum_push(
        r.tasks,
        Task { job: job, listed: None },
        below_task(disk, s, r.found, f),
    );
}

/// When a task is finished, what is below the others stays.
proof fn lemma_tasks_same<P>(
    disk: spec_fn(P) -> Seq<Entry<P>>,
    s: Settings,
    tasks: Seq<Task<P>>,
    task: int,
    found: Seq<Found<P>>,
    now: Seq<Found<P>>,
    f: spec_fn(Found<P>) -> nat,
)
    requires
        0 <= task < tasks.len(),
        found.len() <= now.len(),
        forall|i: int| 0 <= i < found.len() ==> #[trigger] now[i] == found[i],
        forall|k: int| 0 <= k < tasks.len() ==> depth_matches(found, (#[trigger] tasks[k]).job),
    ensures
        sums::seq_sum(tasks.remove(task), below_task(disk, s, now, f)) + below(disk, s, found, f)(
            tasks[task].job,
        ) == sums::seq_sum(tasks, below_task(disk, s, found, f)),
{
    let rest = tasks.remove(task);
    sums::lemma_sum_remove(tasks, task, below_task(disk, s, found, f));
    assert forall|m: int| 0 <= m < rest.len() implies below_task(disk, s, now, f)(
        #[trigger] rest[m],
    ) == below_task(disk, s, found, f)(rest[m]) by {
        let a = if m < task {
            m
        } else {
            m + 1
        };
        assert(rest[m] == tasks[a]);
        assert(depth_matches(found, tasks[a].job));
    }
    sums::lemma_sum_same(rest, below_task(disk, s, now, f), below_task(disk, s, found, f));
}

proof fn lemma_finish_keeps_all<P>(
    disk: spec_fn(P) -> Seq<Entry<P>>,
    s: Settings,
    limit: usize,
    r: RunView<P>,
    worker: int,
    task: int,
    f: spec_fn(Found<P>) -> nat,
)
    requires
        run_sound(s, limit, r),
        possible(disk, r, Event::Finish { worker, task }),
    ensures
        ({
            let n = after(disk, s, limit, r, Event::Finish { worker, task });
            &&& all_of(disk, s, n, f) <= all_of(disk, s, r, f)
            &&& !r.cut ==> all_of(disk, s, n, f) == all_of(disk, s, r, f)
        }),
{
    let n = after(disk, s, limit, r, Event::Finish { worker, task });
    let k = r.tasks[task];
    let entries = listing(disk, k);
    assert(sums::seq_sum(n.found, f) + sums::seq_sum(n.w.queues, below_queue(disk, s, n.found, f)) == sums::seq_sum(
        r.found,
        f,
    ) + sums::seq_sum(r.w.queues, below_queue(disk, s, r.found, f)) + sum_listed(
        disk,
        s,
        entries,
        place(r.found, k.job.id as int),
        k.job.depth as nat,
        f,
    )) by {
        assert(r.w.running.contains(k.job.id));
        assert(depth_matches(r.found, k.job));
        lemma_entries_sum(disk, s, r.w, r.found, worker, k.job.id, k.job.depth, entries, f);
        assert(n.w.queues == listed_walk(disk, s, r, worker, task).queues);
    }
    lemma_tasks_same(disk, s, r.tasks, task, r.found, n.found, f);
}

proof fn lemma_step_keeps_all<P>(
    disk: spec_fn(P) -> Seq<Entry<P>>,
    s: Settings,
    limit: usize,
    r: RunView<P>,
    e: Event,
    f: spec_fn(Found<P>) -> nat,
)
    requires
        run_sound(s, limit, r),
        possible(disk, r, e),
    ensures
        all_of(disk, s, after(disk, s, limit, r, e), f) <= all_of(disk, s, r, f),
        !after(disk, s, limit, r, e).cut ==> all_of(disk, s, after(disk, s, limit, r, e), f)
            == all_of(disk, s, r, f),
{
    match e {
        Event::Take(t) => {
            lemma_take_keeps_all(disk, s, limit, r, t, f);
        },
        Event::Ask(k) => {
            sums::lemma_sum_update(
                r.tasks,
                k,
                after(disk, s, limit, r, e).tasks[k],
                below_task(disk, s, r.found, f),
            );
        },
        Event::Finish { worker, task } => {
            lemma_finish_keeps_all(disk, s, limit, r, worker, task, f);
        },
    }
}

proof fn lemma_run_keeps_all<P>(
    disk: spec_fn(P) -> Seq<Entry<P>>,
    s: Settings,
    limit: usize,
    root: P,
    workers: nat,
    events: Seq<Event>,
    f: spec_fn(Found<P>) -> nat,
)
    requires
        workers > 0,
        can_run(disk, s, limit, root, workers, events),
    ensures
        ({
            let r = run(disk, s, limit, root, workers, events);
            let whole = sum_below(disk, s, root, seq![], 1, f);
            &&& all_of(disk, s, r, f) <= whole
            &&& !r.cut ==> all_of(disk, s, r, f) == whole
        }),
    decreases events.len(),
{
    let r = run(disk, s, limit, root, workers, events);
    if events.len() == 0 {
        let job = Job { path: root, id: 0usize, depth: 1u32 };
        let none = Seq::new(workers, |q: int| Seq::<Job<P>>::empty());
        let g = below_queue(disk, s, r.found, f);
        sums::lemma_sum_nothing(none, g);
        sums::lemma_sum_update(none, 0, seq![job], g);
        assert(r.w.queues == none.update(0, seq![job]));
        sums::lemma_sum_push(Seq::<Job<P>>::empty(), job, below(disk, s, r.found, f));
        assert(Seq::<Job<P>>::empty().push(job) == seq![job]);
        assert(place(r.found, 0) == Seq::<Seq<char>>::empty());
    } else {
        let before = run(disk, s, limit, root, workers, events.drop_last());
        lemma_run_keeps_all(disk, s, limit, root, workers, events.drop_last(), f);
        lemma_run_sound(disk, s, limit, root, workers, events.drop_last());
        lemma_step_keeps_all(disk, s, limit, before, events.last(), f);
    }
}

/// A walk that is over and was nowhere cut short has found the tree: whatever is counted, the files
/// that were found count as much as those of the tree.
pub proof fn law_complete_walks_find_the_tree<P>(
    disk: spec_fn(P) -> Seq<Entry<P>>,
    s: Settings,
    limit: usize,
    root: P,
    workers: nat,
    events: Seq<Event>,
    f: spec_fn(Found<P>) -> nat,
)
    requires
        workers > 0,
        can_run(disk, s, limit, root, workers, events),
        is_complete(run(disk, s, limit, root, workers, events)),
    ensures
        sums::seq_sum(run(disk, s, limit, root, workers, events).found, f) == sum_below(
            disk,
            s,
            root,
            seq![],
            1,
            f,
        ),
{
    let r = run(disk, s, limit, root, workers, events);
    lemma_run_sound(disk, s, limit, root, workers, events);
    lemma_run_keeps_all(disk, s, limit, root, workers, events, f);
    reveal(sound_walk);
    walk::law_done_means_everything_is_listed(r.w);
    if r.tasks.len() > 0 {
        assert(r.w.running.contains(r.tasks[0].job.id));
    }
    assert forall|q: int| 0 <= q < r.w.queues.len() implies below_queue(disk, s, r.found, f)(
        #[trigger] r.w.queues[q],
    ) == 0 by {
        if r.w.queues[q].len() > 0 {
            walk::lemma_queued_has(r.w.queues, q);
        }
    }
    sums::lemma_sum_nothing(r.w.queues, below_queue(disk, s, r.found, f));
}

// ── the nodes ──

/// Whether entry `i` is the file `key` with several links.
pub open spec fn linked_at<P>(found: Seq<Found<P>>, i: int, key: u128) -> bool {
    0 <= i < found.len() && walk::is_linked(found[i].entry) && walk::link_key(
        found[i].entry.meta->0,
    ) == key
}

/// The files with several links among the entries.
pub open spec fn linked_files<P>(found: Seq<Found<P>>) -> Set<u128> {
    Set::new(|key: u128| exists|i: int| #[trigger] linked_at(found, i, key))
}

/// Whether the entry is in one of the directories.
pub open spec fn is_on_disk<P>(disk: spec_fn(P) -> Seq<Entry<P>>, e: Entry<P>) -> bool {
    exists|dir: P| (#[trigger] disk(dir)).contains(e)
}

/// Whether node and names of record `i` are those of the entry.
spec fn node_matches<P>(
    disk: spec_fn(P) -> Seq<Entry<P>>,
    recs: Seq<RecView>,
    found: Seq<Found<P>>,
    i: int,
) -> bool {
    let n = recs[i].node;
    &&& n.parent <= i
    &&& n == walk::node_of(found[i].entry, n.parent, linked_files(found.take(i)))
    &&& found[i].at == place(found, n.parent as int).push(n.name)
    &&& is_on_disk(disk, found[i].entry)
}

spec fn nodes_match<P>(
    disk: spec_fn(P) -> Seq<Entry<P>>,
    w: WalkView<P>,
    found: Seq<Found<P>>,
) -> bool {
    &&& w.recs.len() == found.len()
    &&& w.seen == linked_files(found)
    &&& forall|i: int| 0 <= i < found.len() ==> #[trigger] node_matches(disk, w.recs, found, i)
}

proof fn lemma_linked_files_push<P>(found: Seq<Found<P>>, x: Found<P>)
    ensures
        linked_files(found.push(x)) == if walk::is_linked(x.entry) {
            linked_files(found).insert(walk::link_key(x.entry.meta->0))
        } else {
            linked_files(found)
        },
{
    let now = found.push(x);
    let expected = if walk::is_linked(x.entry) {
        linked_files(found).insert(walk::link_key(x.entry.meta->0))
    } else {
        linked_files(found)
    };
    assert forall|key: u128| linked_files(now).contains(key) == expected.contains(key) by {
        if linked_files(now).contains(key) {
            let i = choose|i: int| #[trigger] linked_at(now, i, key);
            if i < found.len() {
                assert(linked_at(found, i, key));
            }
        }
        if linked_files(found).contains(key) {
            let i = choose|i: int| #[trigger] linked_at(found, i, key);
            assert(linked_at(now, i, key));
        }
        if walk::is_linked(x.entry) && walk::link_key(x.entry.meta->0) == key {
            assert(linked_at(now, found.len() as int, key));
        }
    }
    assert(linked_files(now) =~= expected);
}

proof fn lemma_entries_match<P>(
    disk: spec_fn(P) -> Seq<Entry<P>>,
    s: Settings,
    w: WalkView<P>,
    found: Seq<Found<P>>,
    t: int,
    id: usize,
    depth: u32,
    entries: Seq<Entry<P>>,
)
    requires
        nodes_match(disk, w, found),
        id <= found.len(),
        forall|i: int| 0 <= i < entries.len() ==> is_on_disk(disk, #[trigger] entries[i]),
    ensures
        nodes_match(
            disk,
            walk::with_entries(w, t, id, depth, entries, s.one_fs, s.root_dev),
            found + found_in(entries, place(found, id as int)),
        ),
    decreases entries.len(),
{
    let at = place(found, id as int);
    let now = found + found_in(entries, at);
    let v = walk::with_entries(w, t, id, depth, entries, s.one_fs, s.root_dev);
    if entries.len() == 0 {
        assert(now == found);
    } else {
        let front = entries.drop_last();
        let e = entries.last();
        let u = walk::with_entries(w, t, id, depth, front, s.one_fs, s.root_dev);
        let then = found + found_in(front, at);
        let x = Found { at: at.push(e.name@), entry: e };
        lemma_entries_match(disk, s, w, found, t, id, depth, front);
        assert(now == then.push(x));
        lemma_linked_files_push(then, x);
        assert(v.seen == linked_files(now));
        assert forall|i: int| 0 <= i < now.len() implies #[trigger] node_matches(
            disk,
            v.recs,
            now,
            i,
        ) by {
            if i < then.len() {
                assert(node_matches(disk, u.recs, then, i));
                assert(v.recs[i] == u.recs[i]);
                assert(now.take(i) == then.take(i));
                let p = u.recs[i].node.parent as int;
                assert(place(now, p) == place(then, p));
            } else {
                assert(now.take(i) == then);
                assert(place(now, id as int) == at);
                assert(is_on_disk(disk, entries[entries.len() - 1]));
            }
        }
    }
}

proof fn lemma_run_matches<P>(
    disk: spec_fn(P) -> Seq<Entry<P>>,
    s: Settings,
    limit: usize,
    root: P,
    workers: nat,
    events: Seq<Event>,
)
    requires
        workers > 0,
        can_run(disk, s, limit, root, workers, events),
    ensures
        ({
            let r = run(disk, s, limit, root, workers, events);
            nodes_match(disk, r.w, r.found)
        }),
    decreases events.len(),
{
    let r = run(disk, s, limit, root, workers, events);
    if events.len() == 0 {
        assert forall|key: u128| !linked_files(r.found).contains(key) by {
            if linked_files(r.found).contains(key) {
                let i = choose|i: int| #[trigger] linked_at(r.found, i, key);
            }
        }
        assert(linked_files(r.found) =~= Set::<u128>::empty());
    } else {
        let before = run(disk, s, limit, root, workers, events.drop_last());
        lemma_run_matches(disk, s, limit, root, workers, events.drop_last());
        lemma_run_sound(disk, s, limit, root, workers, events.drop_last());
        match events.last() {
            Event::Take(t) => {
                assert(nodes_match(disk, r.w, r.found)) by {
                    assert forall|i: int| 0 <= i < r.found.len() implies #[trigger] node_matches(
                        disk,
                        r.w.recs,
                        r.found,
                        i,
                    ) by {
                        assert(node_matches(disk, before.w.recs, before.found, i));
                    }
                }
            },
            Event::Ask(k) => {},
            Event::Finish { worker, task } => {
                let k = before.tasks[task];
                let entries = listing(disk, k);
                assert(depth_matches(before.found, k.job));
                assert forall|i: int| 0 <= i < entries.len() implies is_on_disk(
                    disk,
                    #[trigger] entries[i],
                ) by {
                    assert(disk(k.job.path).contains(entries[i]));
                }
                lemma_entries_match(
                    disk,
                    s,
                    before.w,
                    before.found,
                    worker,
                    k.job.id,
                    k.job.depth,
                    entries,
                );
                let u = listed_walk(disk, s, before, worker, task);
                assert(r.w.recs == u.recs && r.w.seen == u.seen);
                assert(nodes_match(disk, u, r.found));
                assert forall|i: int| 0 <= i < r.found.len() implies #[trigger] node_matches(
                    disk,
                    r.w.recs,
                    r.found,
                    i,
                ) by {
                    assert(node_matches(disk, u.recs, r.found, i));
                }
            },
        }
    }
}

/// The names that lead to node `i` from the top of an arena.
pub open spec fn names_to(t: Seq<NodeView>, i: int) -> Seq<Seq<char>>
    decreases i,
{
    if i <= 0 || t[i].parent >= i {
        seq![]
    } else {
        names_to(t, t[i].parent as int).push(t[i].name)
    }
}

/// What a node tells of a file, wherever it stands in the arena: all but its parent's number and the
/// bytes that count for it.
pub open spec fn bare(n: NodeView) -> NodeView {
    NodeView { parent: 0, own: 0, sub: 0, ..n }
}

/// The files of an arena: the names that lead to each, and what is known of it.
pub open spec fn files(t: Seq<NodeView>) -> Seq<(Seq<Seq<char>>, NodeView)> {
    Seq::new(t.len(), |i: int| (names_to(t, i), bare(t[i])))
}

/// The bytes that count for the files of an arena.
pub open spec fn counted_bytes(t: Seq<NodeView>) -> nat {
    sums::seq_sum(t, |n: NodeView| n.own as nat)
}

/// What is known of a file, from its entry.
spec fn file_of<P>(x: Found<P>) -> (Seq<Seq<char>>, NodeView) {
    (x.at, bare(walk::node_of(x.entry, 0, Set::empty())))
}

proof fn lemma_names<P>(
    disk: spec_fn(P) -> Seq<Entry<P>>,
    top: NodeView,
    w: WalkView<P>,
    found: Seq<Found<P>>,
    i: int,
)
    requires
        nodes_match(disk, w, found),
        0 <= i <= found.len(),
    ensures
        names_to(walk::found_tree(top, w.recs), i) == place(found, i),
    decreases i,
{
    if i > 0 {
        let t = walk::found_tree(top, w.recs);
        assert(node_matches(disk, w.recs, found, i - 1));
        assert(t[i] == w.recs[i - 1].node);
        lemma_names(disk, top, w, found, t[i].parent as int);
    }
}

proof fn lemma_files<P>(
    disk: spec_fn(P) -> Seq<Entry<P>>,
    top: NodeView,
    w: WalkView<P>,
    found: Seq<Found<P>>,
)
    requires
        nodes_match(disk, w, found),
    ensures
        files(walk::found_tree(top, w.recs)) == seq![(Seq::<Seq<char>>::empty(), bare(top))]
            + Seq::new(found.len(), |i: int| file_of(found[i])),
{
    let t = walk::found_tree(top, w.recs);
    let expected = seq![(Seq::<Seq<char>>::empty(), bare(top))] + Seq::new(
        found.len(),
        |i: int| file_of(found[i]),
    );
    assert forall|i: int| 0 <= i < t.len() implies files(t)[i] == #[trigger] expected[i] by {
        lemma_names(disk, top, w, found, i);
        if i > 0 {
            assert(node_matches(disk, w.recs, found, i - 1));
        }
    }
    assert(files(t) =~= expected);
}

/// Whether all names of a file with several links carry the same bytes.
pub open spec fn one_file_one_size<P>(disk: spec_fn(P) -> Seq<Entry<P>>) -> bool {
    forall|a: Entry<P>, b: Entry<P>|
        #[trigger] is_on_disk(disk, a) && #[trigger] is_on_disk(disk, b) && walk::is_linked(a)
            && walk::is_linked(b) && walk::link_key(a.meta->0) == walk::link_key(b.meta->0)
            ==> a.meta->0.own == b.meta->0.own
}

/// The bytes of a file with several links.
spec fn linked_bytes<P>(disk: spec_fn(P) -> Seq<Entry<P>>) -> spec_fn(u128) -> nat {
    |key: u128|
        (choose|e: Entry<P>|
            #[trigger] is_on_disk(disk, e) && walk::is_linked(e) && walk::link_key(e.meta->0)
                == key).meta->0.own as nat
}

/// The bytes of an entry that is no file with several links.
spec fn plain_bytes<P>(x: Found<P>) -> nat {
    if walk::is_linked(x.entry) || x.entry.meta is None {
        0
    } else {
        x.entry.meta->0.own as nat
    }
}

proof fn lemma_counted<P>(
    disk: spec_fn(P) -> Seq<Entry<P>>,
    recs: Seq<RecView>,
    found: Seq<Found<P>>,
)
    requires
        recs.len() == found.len(),
        forall|i: int| 0 <= i < found.len() ==> #[trigger] node_matches(disk, recs, found, i),
        one_file_one_size(disk),
    ensures
        linked_files(found).finite(),
        sums::seq_sum(recs, |r: RecView| r.node.own as nat) == sums::seq_sum(
            found,
            |x: Found<P>| plain_bytes(x),
        ) + sums::set_sum(linked_files(found), linked_bytes(disk)),
    decreases found.len(),
{
    let b = linked_bytes(disk);
    if found.len() == 0 {
        assert forall|key: u128| !linked_files(found).contains(key) by {
            if linked_files(found).contains(key) {
                let i = choose|i: int| #[trigger] linked_at(found, i, key);
            }
        }
        assert(linked_files(found) =~= Set::<u128>::empty());
    } else {
        let front = found.drop_last();
        let x = found.last();
        let last = found.len() - 1;
        assert forall|i: int| 0 <= i < front.len() implies #[trigger] node_matches(
            disk,
            recs.drop_last(),
            front,
            i,
        ) by {
            assert(node_matches(disk, recs, found, i));
            assert(found.take(i) == front.take(i));
            let p = recs[i].node.parent as int;
            assert(place(found, p) == place(front, p));
        }
        lemma_counted(disk, recs.drop_last(), front);
        assert(node_matches(disk, recs, found, last));
        assert(found.take(last) == front);
        assert(found == front.push(x));
        lemma_linked_files_push(front, x);
        if walk::is_linked(x.entry) {
            let key = walk::link_key(x.entry.meta->0);
            assert(is_on_disk(disk, x.entry));
            let e = choose|e: Entry<P>|
                #[trigger] is_on_disk(disk, e) && walk::is_linked(e) && walk::link_key(e.meta->0)
                    == key;
            assert(b(key) == x.entry.meta->0.own);
            if !linked_files(front).contains(key) {
                sums::lemma_set_sum_insert(linked_files(front), key, b);
            } else {
                assert(linked_files(front).insert(key) =~= linked_files(front));
            }
        }
    }
}

proof fn lemma_counted_bytes(top: NodeView, recs: Seq<RecView>)
    ensures
        counted_bytes(walk::found_tree(top, recs)) == top.own + sums::seq_sum(
            recs,
            |r: RecView| r.node.own as nat,
        ),
{
    let f = |n: NodeView| n.own as nat;
    let g = |r: RecView| r.node.own as nat;
    let nodes = Seq::new(recs.len(), |i: int| recs[i].node);
    sums::lemma_sum_add(seq![top], nodes, f);
    sums::lemma_sum_push(Seq::<NodeView>::empty(), top, f);
    assert(Seq::<NodeView>::empty().push(top) == seq![top]);
    sums::lemma_sum_mapped(nodes, recs, f, g);
}

proof fn lemma_same_links<P>(a: Seq<Found<P>>, b: Seq<Found<P>>)
    requires
        forall|f: spec_fn(Found<P>) -> nat| #[trigger] sums::seq_sum(a, f) == sums::seq_sum(b, f),
    ensures
        linked_files(a) == linked_files(b),
{
    assert forall|key: u128| linked_files(a).contains(key) == linked_files(b).contains(key) by {
        let f = |x: Found<P>|
            if walk::is_linked(x.entry) && walk::link_key(x.entry.meta->0) == key {
                1nat
            } else {
                0nat
            };
        assert(sums::seq_sum(a, f) == sums::seq_sum(b, f));
        sums::lemma_sum_has(a, f);
        sums::lemma_sum_has(b, f);
        if linked_files(a).contains(key) {
            let i = choose|i: int| #[trigger] linked_at(a, i, key);
            assert(f(a[i]) > 0);
            let j = choose|j: int| 0 <= j < b.len() && f(#[trigger] b[j]) > 0;
            assert(linked_at(b, j, key));
        }
        if linked_files(b).contains(key) {
            let i = choose|i: int| #[trigger] linked_at(b, i, key);
            assert(f(b[i]) > 0);
            let j = choose|j: int| 0 <= j < a.len() && f(#[trigger] a[j]) > 0;
            assert(linked_at(a, j, key));
        }
    }
    assert(linked_files(a) =~= linked_files(b));
}

proof fn lemma_same_files<P>(a: Seq<Found<P>>, b: Seq<Found<P>>)
    requires
        forall|f: spec_fn(Found<P>) -> nat| #[trigger] sums::seq_sum(a, f) == sums::seq_sum(b, f),
    ensures
        a.len() == b.len(),
        Seq::new(a.len(), |i: int| file_of(a[i])).to_multiset() == Seq::new(
            b.len(),
            |i: int| file_of(b[i]),
        ).to_multiset(),
{
    let one = |x: Found<P>| 1nat;
    sums::lemma_sum_ones(a, one);
    sums::lemma_sum_ones(b, one);
    let u = Seq::new(a.len(), |i: int| file_of(a[i]));
    let v = Seq::new(b.len(), |i: int| file_of(b[i]));
    assert forall|y: (Seq<Seq<char>>, NodeView)| #[trigger]
        sums::count_in(u, y) == sums::count_in(v, y) by {
        let f = |x: Found<P>| sums::one_for(y)(file_of(x));
        sums::lemma_sum_mapped(u, a, sums::one_for(y), f);
        sums::lemma_sum_mapped(v, b, sums::one_for(y), f);
        assert(sums::seq_sum(a, f) == sums::seq_sum(b, f));
    }
    sums::lemma_same_counts(u, v);
}

/// A walk is schedule-free: two walks over the same tree that are over and were nowhere cut short
/// find the same files, each with the same names and metadata and as many times, and count the same
/// bytes, whatever the number of their workers, the order of their steps and their entry limits.
pub proof fn law_every_schedule_finds_the_same_tree<P>(
    disk: spec_fn(P) -> Seq<Entry<P>>,
    s: Settings,
    root: P,
    top: NodeView,
    a_limit: usize,
    a_workers: nat,
    a_events: Seq<Event>,
    b_limit: usize,
    b_workers: nat,
    b_events: Seq<Event>,
)
    requires
        a_workers > 0,
        can_run(disk, s, a_limit, root, a_workers, a_events),
        is_complete(run(disk, s, a_limit, root, a_workers, a_events)),
        b_workers > 0,
        can_run(disk, s, b_limit, root, b_workers, b_events),
        is_complete(run(disk, s, b_limit, root, b_workers, b_events)),
    ensures
        ({
            let a = walk::found_tree(
                top,
                run(disk, s, a_limit, root, a_workers, a_events).w.recs,
            );
            let b = walk::found_tree(
                top,
                run(disk, s, b_limit, root, b_workers, b_events).w.recs,
            );
            &&& a.len() == b.len()
            &&& files(a).to_multiset() == files(b).to_multiset()
            &&& one_file_one_size(disk) ==> counted_bytes(a) == counted_bytes(b)
        }),
{
    let a = run(disk, s, a_limit, root, a_workers, a_events);
    let b = run(disk, s, b_limit, root, b_workers, b_events);
    assert forall|f: spec_fn(Found<P>) -> nat| #[trigger]
        sums::seq_sum(a.found, f) == sums::seq_sum(b.found, f) by {
        law_complete_walks_find_the_tree(disk, s, a_limit, root, a_workers, a_events, f);
        law_complete_walks_find_the_tree(disk, s, b_limit, root, b_workers, b_events, f);
    }
    lemma_run_matches(disk, s, a_limit, root, a_workers, a_events);
    lemma_run_matches(disk, s, b_limit, root, b_workers, b_events);
    lemma_same_files(a.found, b.found);
    lemma_files(disk, top, a.w, a.found);
    lemma_files(disk, top, b.w, b.found);
    let head = seq![(Seq::<Seq<char>>::empty(), bare(top))];
    vstd::seq_lib::lemma_multiset_commutative(
        head,
        Seq::new(a.found.len(), |i: int| file_of(a.found[i])),
    );
    vstd::seq_lib::lemma_multiset_commutative(
        head,
        Seq::new(b.found.len(), |i: int| file_of(b.found[i])),
    );
    if one_file_one_size(disk) {
        lemma_counted(disk, a.w.recs, a.found);
        lemma_counted(disk, b.w.recs, b.found);
        lemma_same_links(a.found, b.found);
        let f = |x: Found<P>| plain_bytes(x);
        assert(sums::seq_sum(a.found, f) == sums::seq_sum(b.found, f));
        lemma_counted_bytes(top, a.w.recs);
        lemma_counted_bytes(top, b.w.recs);
    }
}

/// A walk is never cut short in silence: where a directory was not listed because there were too
/// many entries, the arena has at least as many nodes as the limit says. So a walk that is over with
/// fewer nodes is complete.
pub proof fn law_cut_short_means_limit_reached<P>(
    disk: spec_fn(P) -> Seq<Entry<P>>,
    s: Settings,
    limit: usize,
    root: P,
    workers: nat,
    events: Seq<Event>,
    top: NodeView,
)
    requires
        workers > 0,
        can_run(disk, s, limit, root, workers, events),
    ensures
        ({
            let r = run(disk, s, limit, root, workers, events);
            let t = walk::found_tree(top, r.w.recs);
            &&& r.cut ==> t.len() >= limit
            &&& r.w.active == 0 && t.len() < limit ==> is_complete(r)
        }),
{
    lemma_run_sound(disk, s, limit, root, workers, events);
}

/// What is below the entry limit is everything: a walk that is over with fewer nodes than its limit
/// has found the same files, and counted the same bytes, as any other one that is over and has no
/// lower limit. That one is never cut short either.
pub proof fn law_below_the_limit_is_everything<P>(
    disk: spec_fn(P) -> Seq<Entry<P>>,
    s: Settings,
    root: P,
    top: NodeView,
    a_limit: usize,
    a_workers: nat,
    a_events: Seq<Event>,
    b_limit: usize,
    b_workers: nat,
    b_events: Seq<Event>,
)
    requires
        a_workers > 0,
        can_run(disk, s, a_limit, root, a_workers, a_events),
        run(disk, s, a_limit, root, a_workers, a_events).w.active == 0,
        walk::found_tree(
            top,
            run(disk, s, a_limit, root, a_workers, a_events).w.recs,
        ).len() < a_limit,
        b_workers > 0,
        can_run(disk, s, b_limit, root, b_workers, b_events),
        run(disk, s, b_limit, root, b_workers, b_events).w.active == 0,
        a_limit <= b_limit,
    ensures
        is_complete(run(disk, s, a_limit, root, a_workers, a_events)),
        is_complete(run(disk, s, b_limit, root, b_workers, b_events)),
        ({
            let a = walk::found_tree(
                top,
                run(disk, s, a_limit, root, a_workers, a_events).w.recs,
            );
            let b = walk::found_tree(
                top,
                run(disk, s, b_limit, root, b_workers, b_events).w.recs,
            );
            &&& a.len() == b.len()
            &&& files(a).to_multiset() == files(b).to_multiset()
            &&& one_file_one_size(disk) ==> counted_bytes(a) == counted_bytes(b)
        }),
{
    let a = run(disk, s, a_limit, root, a_workers, a_events);
    let b = run(disk, s, b_limit, root, b_workers, b_events);
    law_cut_short_means_limit_reached(disk, s, a_limit, root, a_workers, a_events, top);
    law_cut_short_means_limit_reached(disk, s, b_limit, root, b_workers, b_events, top);
    // the other walk finds no more than there is
    let one = |x: Found<P>| 1nat;
    law_complete_walks_find_the_tree(disk, s, a_limit, root, a_workers, a_events, one);
    lemma_run_keeps_all(disk, s, b_limit, root, b_workers, b_events, one);
    sums::lemma_sum_ones(a.found, one);
    sums::lemma_sum_ones(b.found, one);
    lemma_run_sound(disk, s, a_limit, root, a_workers, a_events);
    lemma_run_sound(disk, s, b_limit, root, b_workers, b_events);
    assert(b.found.len() <= a.found.len());
    law_every_schedule_finds_the_same_tree(
        disk,
        s,
        root,
        top,
        a_limit,
        a_workers,
        a_events,
        b_limit,
        b_workers,
        b_events,
    );
}

/// No file is deeper than the depth limit allows; the top directory is always there.
pub proof fn law_depth_limit_is_kept<P>(
    disk: spec_fn(P) -> Seq<Entry<P>>,
    s: Settings,
    limit: usize,
    root: P,
    workers: nat,
    events: Seq<Event>,
    top: NodeView,
    i: int,
)
    requires
        workers > 0,
        can_run(disk, s, limit, root, workers, events),
        0 <= i <= run(disk, s, limit, root, workers, events).w.recs.len(),
    ensures
        ({
            let t = walk::found_tree(top, run(disk, s, limit, root, workers, events).w.recs);
            i > 0 ==> names_to(t, i).len() + 1 <= s.max_depth
        }),
{
    let r = run(disk, s, limit, root, workers, events);
    lemma_run_sound(disk, s, limit, root, workers, events);
    lemma_run_matches(disk, s, limit, root, workers, events);
    lemma_names(disk, top, r.w, r.found, i);
    if i > 0 {
        assert(r.found[i - 1].at.len() < s.max_depth);
    }
}

/// Over a whole walk a file with several links counts once: exactly one of its names carries its
/// bytes, and the others carry none.
pub proof fn law_one_name_carries_the_bytes<P>(
    disk: spec_fn(P) -> Seq<Entry<P>>,
    s: Settings,
    limit: usize,
    root: P,
    workers: nat,
    events: Seq<Event>,
    top: NodeView,
    key: u128,
) -> (i: int)
    requires
        workers > 0,
        can_run(disk, s, limit, root, workers, events),
        linked_files(run(disk, s, limit, root, workers, events).found).contains(key),
    ensures
        ({
            let r = run(disk, s, limit, root, workers, events);
            let t = walk::found_tree(top, r.w.recs);
            &&& linked_at(r.found, i, key)
            &&& t[i + 1].own == r.found[i].entry.meta->0.own
            &&& forall|j: int| j != i && #[trigger] linked_at(r.found, j, key) ==> t[j + 1].own == 0
        }),
{
    let r = run(disk, s, limit, root, workers, events);
    let t = walk::found_tree(top, r.w.recs);
    lemma_run_matches(disk, s, limit, root, workers, events);
    let n = choose|n: int| #[trigger] linked_at(r.found, n, key);
    let i = lemma_first_link(r.found, n, key);
    assert(node_matches(disk, r.w.recs, r.found, i));
    assert(t[i + 1] == r.w.recs[i].node);
    assert(!linked_files(r.found.take(i)).contains(key)) by {
        if linked_files(r.found.take(i)).contains(key) {
            let j = choose|j: int| #[trigger] linked_at(r.found.take(i), j, key);
            assert(linked_at(r.found, j, key));
        }
    }
    assert forall|j: int| j != i && #[trigger] linked_at(r.found, j, key) implies t[j + 1].own
        == 0 by {
        assert(node_matches(disk, r.w.recs, r.found, j));
        assert(t[j + 1] == r.w.recs[j].node);
        assert(linked_at(r.found.take(j), i, key));
    }
    i
}

proof fn lemma_first_link<P>(found: Seq<Found<P>>, n: int, key: u128) -> (i: int)
    requires
        linked_at(found, n, key),
    ensures
        linked_at(found, i, key),
        forall|j: int| #[trigger] linked_at(found, j, key) ==> i <= j,
    decreases n,
{
    if exists|j: int| j < n && #[trigger] linked_at(found, j, key) {
        let j = choose|j: int| j < n && #[trigger] linked_at(found, j, key);
        lemma_first_link(found, j, key)
    } else {
        n
    }
}

/// Before sizes are folded, every node stands after its directory and counts for itself only.
pub proof fn law_nodes_count_for_themselves<P>(
    disk: spec_fn(P) -> Seq<Entry<P>>,
    s: Settings,
    limit: usize,
    root: P,
    workers: nat,
    events: Seq<Event>,
    top: NodeView,
    i: int,
)
    requires
        workers > 0,
        can_run(disk, s, limit, root, workers, events),
        1 <= i <= run(disk, s, limit, root, workers, events).w.recs.len(),
    ensures
        ({
            let t = walk::found_tree(top, run(disk, s, limit, root, workers, events).w.recs);
            t[i].parent < i && t[i].sub == t[i].own
        }),
{
    let r = run(disk, s, limit, root, workers, events);
    lemma_run_matches(disk, s, limit, root, workers, events);
    assert(node_matches(disk, r.w.recs, r.found, i - 1));
}

// ── the two ways to list a directory ──

/// The same tree, listed with devices as `statx` reports them.
pub open spec fn statx_disk<P>(disk: spec_fn(P) -> Seq<Entry<P>>) -> spec_fn(P) -> Seq<Entry<P>> {
    |dir: P| walk::renumbered_all(disk(dir))
}

/// The same settings, with the device as `statx` reports it.
pub open spec fn statx_settings(s: Settings) -> Settings {
    Settings { root_dev: uring::statx_number(s.root_dev), ..s }
}

/// What both ways to list a directory make of one file: the same entry, but for how its device is
/// numbered.
pub proof fn law_both_ways_read_the_same_metadata(stat: Stat, statx: Stat, apparent: bool)
    requires
        statx == (Stat { dev: uring::statx_number(stat.dev), ..stat }),
    ensures
        records::meta_of(statx, apparent) == walk::with_statx_device(records::meta_of(stat, apparent)),
        statx.is_dir == stat.is_dir,
        statx.is_link == stat.is_link,
{
}

/// The same links were seen, with their devices numbered in either way.
spec fn same_seen(a: Set<u128>, b: Set<u128>) -> bool {
    forall|m: FileMeta| #[trigger]
        a.contains(walk::link_key(m)) == b.contains(walk::link_key(walk::with_statx_device(m)))
}

/// The two walks agree in everything but how devices are numbered.
spec fn same_walk<P>(a: WalkView<P>, b: WalkView<P>) -> bool {
    same_seen(a.seen, b.seen) && b == (WalkView { seen: b.seen, ..a })
}

proof fn lemma_link_key(a: FileMeta, b: FileMeta)
    ensures
        walk::link_key(a) == walk::link_key(b) <==> a.dev == b.dev && a.ino == b.ino,
{
    assert(a.dev * 0x1_0000_0000_0000_0000 + a.ino <= u128::MAX);
    assert(b.dev * 0x1_0000_0000_0000_0000 + b.ino <= u128::MAX);
}

proof fn lemma_same_seen_insert(a: Set<u128>, b: Set<u128>, m: FileMeta)
    requires
        same_seen(a, b),
    ensures
        same_seen(a.insert(walk::link_key(m)), b.insert(walk::link_key(walk::with_statx_device(m)))),
{
    let x = a.insert(walk::link_key(m));
    let y = b.insert(walk::link_key(walk::with_statx_device(m)));
    assert forall|k: FileMeta| #[trigger]
        x.contains(walk::link_key(k)) == y.contains(walk::link_key(walk::with_statx_device(k))) by {
        lemma_link_key(k, m);
        lemma_link_key(walk::with_statx_device(k), walk::with_statx_device(m));
        uring::law_statx_tells_devices_apart(k.dev, m.dev);
        assert(a.contains(walk::link_key(k)) == b.contains(walk::link_key(walk::with_statx_device(k))));
    }
}

proof fn lemma_same_entries<P>(
    a: WalkView<P>,
    b: WalkView<P>,
    t: int,
    id: usize,
    depth: u32,
    entries: Seq<Entry<P>>,
    s: Settings,
)
    requires
        same_walk(a, b),
    ensures
        same_walk(
            walk::with_entries(a, t, id, depth, entries, s.one_fs, s.root_dev),
            walk::with_entries(
                b,
                t,
                id,
                depth,
                walk::renumbered_all(entries),
                s.one_fs,
                statx_settings(s).root_dev,
            ),
        ),
    decreases entries.len(),
{
    if entries.len() > 0 {
        let front = entries.drop_last();
        let e = entries.last();
        lemma_same_entries(a, b, t, id, depth, front, s);
        assert(walk::renumbered_all(entries).drop_last() == walk::renumbered_all(front));
        assert(walk::renumbered_all(entries).last() == walk::renumbered(e));
        let u = walk::with_entries(a, t, id, depth, front, s.one_fs, s.root_dev);
        if e.meta is Some {
            uring::law_statx_tells_devices_apart(e.meta->0.dev, s.root_dev);
            lemma_same_seen_insert(
                u.seen,
                walk::with_entries(
                    b,
                    t,
                    id,
                    depth,
                    walk::renumbered_all(front),
                    s.one_fs,
                    statx_settings(s).root_dev,
                ).seen,
                e.meta->0,
            );
            assert(u.seen.contains(walk::link_key(e.meta->0)) == walk::with_entries(
                b,
                t,
                id,
                depth,
                walk::renumbered_all(front),
                s.one_fs,
                statx_settings(s).root_dev,
            ).seen.contains(walk::link_key(walk::with_statx_device(e.meta->0))));
        }
    }
}

/// The same steps lead to the same walk, however devices are numbered.
proof fn lemma_same_run<P>(
    disk: spec_fn(P) -> Seq<Entry<P>>,
    s: Settings,
    limit: usize,
    root: P,
    workers: nat,
    events: Seq<Event>,
)
    requires
        can_run(statx_disk(disk), statx_settings(s), limit, root, workers, events),
    ensures
        can_run(disk, s, limit, root, workers, events),
        ({
            let a = run(disk, s, limit, root, workers, events);
            let b = run(statx_disk(disk), statx_settings(s), limit, root, workers, events);
            same_walk(a.w, b.w) && a.tasks == b.tasks && a.cut == b.cut
        }),
    decreases events.len(),
{
    if events.len() > 0 {
        let front = events.drop_last();
        lemma_same_run(disk, s, limit, root, workers, front);
        let a = run(disk, s, limit, root, workers, front);
        let b = run(statx_disk(disk), statx_settings(s), limit, root, workers, front);
        match events.last() {
            Event::Take(t) => {},
            Event::Ask(k) => {},
            Event::Finish { worker, task } => {
                let k = a.tasks[task];
                let entries = listing(disk, k);
                assert(listing(statx_disk(disk), k) == walk::renumbered_all(entries));
                lemma_same_entries(a.w, b.w, worker, k.job.id, k.job.depth, entries, s);
            },
        }
    }
}

/// A walk that lists directories over io_uring finds the same files as one that lists them with a
/// system call per entry, and counts the same bytes, if the entries of both carry the same metadata
/// but for how devices are numbered; again whatever the workers, their steps and the entry limits.
pub proof fn law_both_ways_find_the_same_tree<P>(
    disk: spec_fn(P) -> Seq<Entry<P>>,
    s: Settings,
    root: P,
    top: NodeView,
    a_limit: usize,
    a_workers: nat,
    a_events: Seq<Event>,
    b_limit: usize,
    b_workers: nat,
    b_events: Seq<Event>,
)
    requires
        a_workers > 0,
        can_run(disk, s, a_limit, root, a_workers, a_events),
        is_complete(run(disk, s, a_limit, root, a_workers, a_events)),
        b_workers > 0,
        can_run(statx_disk(disk), statx_settings(s), b_limit, root, b_workers, b_events),
        is_complete(run(statx_disk(disk), statx_settings(s), b_limit, root, b_workers, b_events)),
    ensures
        ({
            let a = walk::found_tree(
                top,
                run(disk, s, a_limit, root, a_workers, a_events).w.recs,
            );
            let b = walk::found_tree(
                top,
                run(
                    statx_disk(disk),
                    statx_settings(s),
                    b_limit,
                    root,
                    b_workers,
                    b_events,
                ).w.recs,
            );
            &&& a.len() == b.len()
            &&& files(a).to_multiset() == files(b).to_multiset()
            &&& one_file_one_size(disk) ==> counted_bytes(a) == counted_bytes(b)
        }),
{
    lemma_same_run(disk, s, b_limit, root, b_workers, b_events);
    law_every_schedule_finds_the_same_tree(
        disk,
        s,
        root,
        top,
        a_limit,
        a_workers,
        a_events,
        b_limit,
        b_workers,
        b_events,
    );
}

// ── directories are listed whole ──

/// Where the directory with index `id` is.
pub open spec fn dir_path<P>(root: P, found: Seq<Found<P>>, id: int) -> P {
    if id == 0 {
        root
    } else {
        found[id - 1].entry.path
    }
}

/// Whether the walk goes into the node with index `id`: the top directory, and every entry that it
/// descends into.
pub open spec fn is_entered<P>(s: Settings, found: Seq<Found<P>>, id: int) -> bool {
    id == 0 || 0 < id <= found.len() && walk::descends(found[id - 1].entry, s.one_fs, s.root_dev)
}

/// Whether the nodes in directory `id` are these entries, in order, from index `base` on, and no
/// others.
pub open spec fn are_children<P>(
    recs: Seq<RecView>,
    found: Seq<Found<P>>,
    id: usize,
    entries: Seq<Entry<P>>,
    base: int,
) -> bool {
    &&& 0 <= base
    &&& base + entries.len() <= found.len()
    &&& forall|j: int|
        0 <= j < entries.len() ==> (#[trigger] found[base + j]).entry == entries[j]
    &&& forall|k: int|
        0 <= k < recs.len() ==> ((#[trigger] recs[k]).node.parent == id <==> base <= k < base
            + entries.len())
}

spec fn has_children<P>(
    recs: Seq<RecView>,
    found: Seq<Found<P>>,
    id: usize,
    entries: Seq<Entry<P>>,
) -> bool {
    exists|base: int| are_children(recs, found, id, entries, base)
}

/// The entries that a walk finds in a directory: all of them above the depth limit, else none.
spec fn within_depth<P>(
    disk: spec_fn(P) -> Seq<Entry<P>>,
    s: Settings,
    root: P,
    found: Seq<Found<P>>,
    id: int,
) -> Seq<Entry<P>> {
    if place(found, id).len() + 1 < s.max_depth {
        disk(dir_path(root, found, id))
    } else {
        seq![]
    }
}

/// Queued and taken directories are where their entries say.
spec fn paths_match<P>(root: P, r: RunView<P>) -> bool {
    &&& forall|q: int, i: int|
        0 <= q < r.w.queues.len() && 0 <= i < r.w.queues[q].len() ==> (
        #[trigger] r.w.queues[q][i]).path == dir_path(root, r.found, r.w.queues[q][i].id as int)
    &&& forall|k: int|
        0 <= k < r.tasks.len() ==> (#[trigger] r.tasks[k]).job.path == dir_path(
            root,
            r.found,
            r.tasks[k].job.id as int,
        )
}

/// Every directory that is entered was queued, one that is finished has its entries, and no other has
/// any.
spec fn listed_whole<P>(
    disk: spec_fn(P) -> Seq<Entry<P>>,
    s: Settings,
    root: P,
    r: RunView<P>,
) -> bool {
    &&& forall|id: usize|
        id <= r.found.len() && #[trigger] is_entered(s, r.found, id as int) ==> r.w.dirs.contains(id)
    &&& forall|id: usize| #[trigger]
        r.w.finished.contains(id) ==> id <= r.found.len() && has_children(
            r.w.recs,
            r.found,
            id,
            within_depth(disk, s, root, r.found, id as int),
        )
    &&& forall|k: int|
        0 <= k < r.w.recs.len() ==> r.w.finished.contains((#[trigger] r.w.recs[k]).node.parent)
}

/// What a listing adds to the records.
proof fn lemma_entries_recs<P>(
    s: Settings,
    w: WalkView<P>,
    t: int,
    id: usize,
    depth: u32,
    entries: Seq<Entry<P>>,
)
    requires
        walk::next_id(w) + entries.len() <= usize::MAX,
        0 <= t < w.queues.len(),
    ensures
        ({
            let v = walk::with_entries(w, t, id, depth, entries, s.one_fs, s.root_dev);
            let n = w.recs.len();
            &&& v.recs.len() == n + entries.len()
            &&& forall|k: int| 0 <= k < n ==> #[trigger] v.recs[k] == w.recs[k]
            &&& forall|k: int| n <= k < v.recs.len() ==> (#[trigger] v.recs[k]).node.parent == id
            &&& v.finished == w.finished
            &&& v.queues.len() == w.queues.len()
            &&& forall|d: usize| #[trigger]
                v.dirs.contains(d) <==> w.dirs.contains(d) || n < d <= n + entries.len()
                    && walk::descends(entries[d - n - 1], s.one_fs, s.root_dev)
            &&& forall|q: int, i: int|
                0 <= q < v.queues.len() && 0 <= i < v.queues[q].len() ==> {
                    let job = #[trigger] v.queues[q][i];
                    ||| i < w.queues[q].len() && job == w.queues[q][i]
                    ||| n < job.id <= n + entries.len() && job.path == entries[job.id - n - 1].path
                }
        }),
    decreases entries.len(),
{
    if entries.len() > 0 {
        let front = entries.drop_last();
        let e = entries.last();
        let n = w.recs.len();
        let u = walk::with_entries(w, t, id, depth, front, s.one_fs, s.root_dev);
        let v = walk::with_entries(w, t, id, depth, entries, s.one_fs, s.root_dev);
        lemma_entries_recs(s, w, t, id, depth, front);
        assert(walk::next_id(u) == n + entries.len());
        assert forall|k: int| 0 <= k < n implies #[trigger] v.recs[k] == w.recs[k] by {
            assert(v.recs[k] == u.recs[k]);
        }
        assert forall|k: int| n <= k < v.recs.len() implies (#[trigger] v.recs[k]).node.parent
            == id by {
            if k < u.recs.len() {
                assert(v.recs[k] == u.recs[k]);
            }
        }
        assert forall|d: usize| #[trigger]
            v.dirs.contains(d) <==> w.dirs.contains(d) || n < d <= n + entries.len()
                && walk::descends(entries[d - n - 1], s.one_fs, s.root_dev) by {
            if n < d < n + entries.len() {
                assert(front[d - n - 1] == entries[d - n - 1]);
            }
            assert(u.dirs.contains(d) <==> w.dirs.contains(d) || n < d <= n + front.len()
                && walk::descends(front[d - n - 1], s.one_fs, s.root_dev));
        }
        assert forall|q: int, i: int|
            0 <= q < v.queues.len() && 0 <= i < v.queues[q].len() implies {
            let job = #[trigger] v.queues[q][i];
            ||| i < w.queues[q].len() && job == w.queues[q][i]
            ||| n < job.id <= n + entries.len() && job.path == entries[job.id - n - 1].path
        } by {
            if i < u.queues[q].len() {
                let job = u.queues[q][i];
                assert(v.queues[q][i] == job);
                if n < job.id <= n + front.len() {
                    assert(front[job.id - n - 1] == entries[job.id - n - 1]);
                }
            }
        }
    }
}

proof fn lemma_take_paths<P>(
    disk: spec_fn(P) -> Seq<Entry<P>>,
    s: Settings,
    limit: usize,
    root: P,
    r: RunView<P>,
    t: int,
)
    requires
        paths_match(root, r),
        possible(disk, r, Event::Take(t)),
    ensures
        paths_match(root, after(disk, s, limit, r, Event::Take(t))),
{
    let n = after(disk, s, limit, r, Event::Take(t));
    lemma_source(r.w.queues, t, 0);
    let q = walk::source(r.w.queues, t, 0)->0;
    let i: int = if q == t {
        r.w.queues[q].len() - 1
    } else {
        0
    };
    assert(n.w.queues[q] == r.w.queues[q].remove(i));
    assert(walk::taken_job(r.w, t) == r.w.queues[q][i]);
    assert forall|a: int, b: int| 0 <= a < n.w.queues.len() && 0 <= b < n.w.queues[a].len() implies (
    #[trigger] n.w.queues[a][b]).path == dir_path(root, n.found, n.w.queues[a][b].id as int) by {
        if a == q && b >= i {
            assert(n.w.queues[a][b] == r.w.queues[a][b + 1]);
        } else {
            assert(n.w.queues[a][b] == r.w.queues[a][b]);
        }
    }
}

proof fn lemma_finish_paths<P>(
    disk: spec_fn(P) -> Seq<Entry<P>>,
    s: Settings,
    limit: usize,
    root: P,
    r: RunView<P>,
    worker: int,
    task: int,
)
    requires
        paths_match(root, r),
        depths_match(r),
        r.found.len() == r.w.recs.len(),
        possible(disk, r, Event::Finish { worker, task }),
    ensures
        paths_match(root, after(disk, s, limit, r, Event::Finish { worker, task })),
{
    let n = after(disk, s, limit, r, Event::Finish { worker, task });
    let job = r.tasks[task].job;
    let entries = listing(disk, r.tasks[task]);
    lemma_entries_recs(s, r.w, worker, job.id, job.depth, entries);
    assert(n.w.queues == listed_walk(disk, s, r, worker, task).queues);
    assert forall|q: int, i: int| 0 <= q < n.w.queues.len() && 0 <= i < n.w.queues[q].len() implies (
    #[trigger] n.w.queues[q][i]).path == dir_path(root, n.found, n.w.queues[q][i].id as int) by {
        let x = n.w.queues[q][i];
        if i < r.w.queues[q].len() && x == r.w.queues[q][i] {
            assert(depth_matches(r.found, r.w.queues[q][i]));
        } else {
            assert(n.found[x.id - 1].entry == entries[x.id - r.found.len() - 1]);
        }
    }
    assert forall|k: int| 0 <= k < n.tasks.len() implies (#[trigger] n.tasks[k]).job.path
        == dir_path(root, n.found, n.tasks[k].job.id as int) by {
        let m = if k < task {
            k
        } else {
            k + 1
        };
        assert(n.tasks[k] == r.tasks[m]);
        assert(depth_matches(r.found, r.tasks[m].job));
    }
}

proof fn lemma_finish_whole<P>(
    disk: spec_fn(P) -> Seq<Entry<P>>,
    s: Settings,
    limit: usize,
    root: P,
    r: RunView<P>,
    worker: int,
    task: int,
)
    requires
        listed_whole(disk, s, root, r),
        paths_match(root, r),
        tasks_sound(s, r),
        depths_match(r),
        !r.cut,
        r.found.len() == r.w.recs.len(),
        r.w.running.disjoint(r.w.finished),
        possible(disk, r, Event::Finish { worker, task }),
    ensures
        listed_whole(disk, s, root, after(disk, s, limit, r, Event::Finish { worker, task })),
{
    let n = after(disk, s, limit, r, Event::Finish { worker, task });
    let k = r.tasks[task];
    let job = k.job;
    let entries = listing(disk, k);
    let u = listed_walk(disk, s, r, worker, task);
    let old_len = r.found.len() as int;
    lemma_entries_recs(s, r.w, worker, job.id, job.depth, entries);
    assert(n.w.recs == u.recs && n.w.dirs == u.dirs);
    assert(r.w.running.contains(job.id));
    assert(!r.w.finished.contains(job.id));
    assert(depth_matches(r.found, job));
    assert(entries == within_depth(disk, s, root, r.found, job.id as int));
    assert forall|id: usize|
        id <= n.found.len() && #[trigger] is_entered(s, n.found, id as int) implies n.w.dirs.contains(
        id,
    ) by {
        if id <= r.found.len() {
            assert(is_entered(s, r.found, id as int));
        } else {
            assert(n.found[id - 1].entry == entries[id - old_len - 1]);
        }
    }
    assert forall|x: int| 0 <= x < n.w.recs.len() implies n.w.finished.contains(
        (#[trigger] n.w.recs[x]).node.parent,
    ) by {
        if x < old_len {
            assert(n.w.recs[x] == r.w.recs[x]);
            assert(r.w.finished.contains(r.w.recs[x].node.parent));
        }
    }
    assert forall|id: usize| #[trigger] n.w.finished.contains(id) implies id <= n.found.len()
        && has_children(
        n.w.recs,
        n.found,
        id,
        within_depth(disk, s, root, n.found, id as int),
    ) by {
        if id == job.id {
            assert(within_depth(disk, s, root, n.found, id as int) == entries);
            assert forall|x: int| 0 <= x < n.w.recs.len() implies ((
            #[trigger] n.w.recs[x]).node.parent == id <==> old_len <= x < old_len
                + entries.len()) by {
                if x < old_len {
                    assert(n.w.recs[x] == r.w.recs[x]);
                    assert(r.w.finished.contains(r.w.recs[x].node.parent));
                }
            }
            assert(are_children(n.w.recs, n.found, id, entries, old_len));
        } else {
            assert(r.w.finished.contains(id));
            let there = within_depth(disk, s, root, r.found, id as int);
            assert(within_depth(disk, s, root, n.found, id as int) == there);
            let base = choose|base: int| are_children(r.w.recs, r.found, id, there, base);
            assert forall|j: int| 0 <= j < there.len() implies (
            #[trigger] n.found[base + j]).entry == there[j] by {
                assert(r.found[base + j].entry == there[j]);
            }
            assert forall|x: int| 0 <= x < n.w.recs.len() implies ((
            #[trigger] n.w.recs[x]).node.parent == id <==> base <= x < base + there.len()) by {
                if x < old_len {
                    assert(n.w.recs[x] == r.w.recs[x]);
                }
            }
            assert(are_children(n.w.recs, n.found, id, there, base));
        }
    }
}

proof fn lemma_run_whole<P>(
    disk: spec_fn(P) -> Seq<Entry<P>>,
    s: Settings,
    limit: usize,
    root: P,
    workers: nat,
    events: Seq<Event>,
)
    requires
        workers > 0,
        can_run(disk, s, limit, root, workers, events),
        !run(disk, s, limit, root, workers, events).cut,
    ensures
        paths_match(root, run(disk, s, limit, root, workers, events)),
        listed_whole(disk, s, root, run(disk, s, limit, root, workers, events)),
    decreases events.len(),
{
    let n = run(disk, s, limit, root, workers, events);
    if events.len() > 0 {
        let r = run(disk, s, limit, root, workers, events.drop_last());
        lemma_run_whole(disk, s, limit, root, workers, events.drop_last());
        lemma_run_sound(disk, s, limit, root, workers, events.drop_last());
        match events.last() {
            Event::Take(t) => {
                lemma_take_paths(disk, s, limit, root, r, t);
            },
            Event::Ask(k) => {
                assert forall|m: int| 0 <= m < n.tasks.len() implies (#[trigger] n.tasks[m]).job.path
                    == dir_path(root, n.found, n.tasks[m].job.id as int) by {
                    assert(r.tasks[m].job == n.tasks[m].job);
                }
            },
            Event::Finish { worker, task } => {
                assert(r.w.running.disjoint(r.w.finished)) by {
                    reveal(sound_walk);
                }
                lemma_finish_paths(disk, s, limit, root, r, worker, task);
                lemma_finish_whole(disk, s, limit, root, r, worker, task);
            },
        }
    }
}

/// In a walk that is over and was nowhere cut short, every directory that is entered above the depth
/// limit has one node per entry, in the order of the listing, and no others.
pub proof fn law_directories_are_listed_whole<P>(
    disk: spec_fn(P) -> Seq<Entry<P>>,
    s: Settings,
    limit: usize,
    root: P,
    workers: nat,
    events: Seq<Event>,
    id: usize,
) -> (base: int)
    requires
        workers > 0,
        can_run(disk, s, limit, root, workers, events),
        is_complete(run(disk, s, limit, root, workers, events)),
        id <= run(disk, s, limit, root, workers, events).found.len(),
        is_entered(s, run(disk, s, limit, root, workers, events).found, id as int),
        place(run(disk, s, limit, root, workers, events).found, id as int).len() + 1 < s.max_depth,
    ensures
        ({
            let r = run(disk, s, limit, root, workers, events);
            are_children(
                r.w.recs,
                r.found,
                id,
                disk(dir_path(root, r.found, id as int)),
                base,
            )
        }),
{
    let r = run(disk, s, limit, root, workers, events);
    lemma_run_whole(disk, s, limit, root, workers, events);
    lemma_run_sound(disk, s, limit, root, workers, events);
    assert(r.w.finished == r.w.dirs) by {
        reveal(sound_walk);
        walk::law_done_means_everything_is_listed(r.w);
    }
    assert(r.w.finished.contains(id));
    let entries = disk(dir_path(root, r.found, id as int));
    choose|base: int| are_children(r.w.recs, r.found, id, entries, base)
}

} // verus!
