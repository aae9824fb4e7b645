//! Whole sweeps: whatever the number of slots and the order in which requests are answered, a sweep
//! over a tree that does not change lists every directory that it reaches once and counts the same.

use crate::batch;
use crate::sums;
use crate::sweep;
use crate::sweep::SweepView;
use crate::uring;
use vstd::prelude::*;

verus! {

/// What a sweep asks the system about.
pub struct Disk {
    /// The names and types in the directory at a path; none where it cannot be opened.
    pub list: spec_fn(Seq<u8>) -> Seq<(Seq<u8>, u8)>,
    /// The allocated blocks of what a request names, or nothing where that is an error.
    pub stat: spec_fn(Seq<u8>) -> Option<u64>,
}

/// An entry that a sweep finds.
#[verifier::ext_equal]
pub struct Swept {
    /// Its path.
    pub path: Seq<u8>,
    /// Its type, as the directory has it.
    pub d_type: u8,
    /// How far it is below the top directory.
    pub depth: nat,
}

/// A directory that is being listed, and how many of its entries were taken up.
pub struct Listing {
    pub dir: usize,
    pub pos: nat,
}

/// One step of a sweep.
pub enum SweepEvent {
    /// The directory that was found last is taken to be listed.
    Take,
    /// The next entry of the directory that is being listed is taken up.
    Add,
    /// The queued requests are submitted.
    Submit,
    /// The request in the given slot is answered.
    Complete(u32),
}

/// The state of a sweep, with what happened on the way.
#[verifier::ext_equal]
pub struct SweepRun {
    /// The state of the sweep.
    pub w: SweepView,
    /// The directory that was taken last.
    pub current: Option<Listing>,
    /// The entries that were found, in order.
    pub found: Seq<Swept>,
    /// For every slot in use the entry that is asked about.
    pub asked: Seq<Option<int>>,
    /// How far the directories that were found are below the top one.
    pub depths: Seq<nat>,
    /// The directories that were taken to be listed, in order.
    pub listed: Seq<usize>,
}

/// The entries of the directory at `path`, which is `depth` below the top directory.
pub open spec fn entries_of(d: Disk, path: Seq<u8>, depth: nat) -> Seq<Swept> {
    Seq::new(
        (d.list)(path).len(),
        |i: int|
            Swept {
                path: sweep::entry_path(path, (d.list)(path)[i].0),
                d_type: (d.list)(path)[i].1,
                depth: depth + 1,
            },
    )
}

/// What is answered when an entry is asked about.
pub open spec fn answer_for(d: Disk, path: Seq<u8>) -> Option<u64> {
    (d.stat)(sweep::request_path(path))
}

/// Whether an entry is a directory that is reached: it can be asked about.
pub open spec fn is_reached(d: Disk, x: Swept) -> bool {
    x.d_type == uring::DT_DIR && answer_for(d, x.path) is Some
}

/// The allocated bytes of an entry, where it can be asked about.
pub open spec fn swept_bytes(d: Disk, x: Swept) -> nat {
    sweep::answer_bytes(answer_for(d, x.path))
}

/// The entries of the directory that is being listed which were not taken up yet.
pub open spec fn left(d: Disk, r: SweepRun) -> Seq<Swept> {
    match r.current {
        Some(c) => entries_of(d, r.w.paths[c.dir as int], r.depths[c.dir as int]).skip(
            c.pos as int,
        ),
        None => seq![],
    }
}

/// Whether a step is possible. Entries, paths and bytes are never more than can be counted.
pub open spec fn possible(d: Disk, r: SweepRun, e: SweepEvent) -> bool {
    match e {
        SweepEvent::Take => left(d, r).len() == 0 && r.w.to_submit == 0 && r.w.queue.len() > 0,
        SweepEvent::Add => {
            &&& left(d, r).len() > 0
            &&& r.w.free.len() > 0
            &&& r.w.to_submit < sweep::SWEEP_SUBMIT_AT
            &&& r.w.entries < u64::MAX
            &&& r.w.paths.len() < usize::MAX
        },
        SweepEvent::Submit => true,
        SweepEvent::Complete(slot) => {
            &&& slot < r.w.slots.len()
            &&& r.w.slots[slot as int] is Some
            &&& r.w.to_submit < batch::in_flight(r.w.slots)
            &&& r.w.total + swept_bytes(d, r.found[r.asked[slot as int]->0]) <= u64::MAX
        },
    }
}

/// The sweep after a step.
pub open spec fn after(d: Disk, r: SweepRun, e: SweepEvent) -> SweepRun {
    match e {
        SweepEvent::Take => SweepRun {
            w: sweep::taken(r.w),
            current: Some(Listing { dir: r.w.queue.last(), pos: 0 }),
            listed: r.listed.push(r.w.queue.last()),
            ..r
        },
        SweepEvent::Add => {
            let x = left(d, r)[0];
            SweepRun {
                w: sweep::added(r.w, x.path, x.d_type),
                current: Some(Listing { dir: r.current->0.dir, pos: r.current->0.pos + 1 }),
                found: r.found.push(x),
                asked: r.asked.update(r.w.free.last() as int, Some(r.found.len() as int)),
                depths: if x.d_type == uring::DT_DIR {
                    r.depths.push(x.depth)
                } else {
                    r.depths
                },
                ..r
            }
        },
        SweepEvent::Submit => SweepRun { w: sweep::submitted(r.w), ..r },
        SweepEvent::Complete(slot) => SweepRun {
            w: sweep::completed(
                r.w,
                slot,
                answer_for(d, r.found[r.asked[slot as int]->0].path),
            ),
            asked: r.asked.update(slot as int, None),
            ..r
        },
    }
}

/// The sweep from directory `root` over `qd` slots, after these steps.
pub open spec fn run(d: Disk, root: Seq<u8>, qd: u32, events: Seq<SweepEvent>) -> SweepRun
    decreases events.len(),
{
    if events.len() == 0 {
        SweepRun {
            w: sweep::start(root, qd),
            current: None,
            found: seq![],
            asked: Seq::new(qd as nat, |s: int| None),
            depths: seq![0],
            listed: seq![],
        }
    } else {
        after(d, run(d, root, qd, events.drop_last()), events.last())
    }
}

/// Whether the steps can be taken one after the other.
pub open spec fn can_run(d: Disk, root: Seq<u8>, qd: u32, events: Seq<SweepEvent>) -> bool
    decreases events.len(),
{
    events.len() == 0 || {
        &&& can_run(d, root, qd, events.drop_last())
        &&& possible(d, run(d, root, qd, events.drop_last()), events.last())
    }
}

/// Whether the sweep is over: nothing is left to be taken up, to be listed or to be answered.
pub open spec fn is_done(d: Disk, r: SweepRun) -> bool {
    left(d, r).len() == 0 && r.w.queue.len() == 0 && batch::in_flight(r.w.slots) == 0
}

// ── what every step keeps ──

/// What is asked about in a slot is what the slot stands for.
spec fn slot_matches(r: SweepRun, s: int) -> bool {
    match r.w.slots[s] {
        None => r.asked[s] is None,
        Some(what) => {
            let x = r.found[r.asked[s]->0];
            &&& r.asked[s] is Some
            &&& 0 <= r.asked[s]->0 < r.found.len()
            &&& match what {
                Some(k) => k < r.w.paths.len() && r.w.paths[k as int] == x.path
                    && r.depths[k as int] == x.depth && x.d_type == uring::DT_DIR,
                None => x.d_type != uring::DT_DIR,
            }
        },
    }
}

spec fn run_sound(d: Disk, r: SweepRun) -> bool {
    &&& sweep::sound(r.w)
    &&& r.asked.len() == r.w.slots.len()
    &&& forall|s: int| 0 <= s < r.w.slots.len() ==> #[trigger] slot_matches(r, s)
    &&& r.depths.len() == r.w.paths.len()
    &&& r.w.paths.len() <= usize::MAX
    &&& r.found.len() == r.w.entries
    &&& match r.current {
        Some(c) => c.dir < r.w.paths.len() && c.pos <= (d.list)(r.w.paths[c.dir as int]).len(),
        None => true,
    }
}

proof fn lemma_step_sound(d: Disk, r: SweepRun, e: SweepEvent)
    requires
        run_sound(d, r),
        possible(d, r, e),
    ensures
        run_sound(d, after(d, r, e)),
{
    let n = after(d, r, e);
    match e {
        SweepEvent::Take => {
            sweep::lemma_taken_sound(r.w);
            assert(r.w.queue[r.w.queue.len() - 1] < r.w.paths.len());
            assert forall|s: int| 0 <= s < n.w.slots.len() implies #[trigger] slot_matches(n, s) by {
                assert(slot_matches(r, s));
            }
        },
        SweepEvent::Add => {
            let x = left(d, r)[0];
            sweep::lemma_added_sound(r.w, x.path, x.d_type);
            assert forall|s: int| 0 <= s < n.w.slots.len() implies #[trigger] slot_matches(n, s) by {
                assert(slot_matches(r, s));
            }
        },
        SweepEvent::Submit => {
            sweep::lemma_submitted_sound(r.w);
            assert forall|s: int| 0 <= s < n.w.slots.len() implies #[trigger] slot_matches(n, s) by {
                assert(slot_matches(r, s));
            }
        },
        SweepEvent::Complete(slot) => {
            assert(slot_matches(r, slot as int));
            sweep::lemma_completed_sound(
                r.w,
                slot,
                answer_for(d, r.found[r.asked[slot as int]->0].path),
            );
            assert forall|s: int| 0 <= s < n.w.slots.len() implies #[trigger] slot_matches(n, s) by {
                assert(slot_matches(r, s));
            }
        },
    }
}

proof fn lemma_run_sound(d: Disk, root: Seq<u8>, qd: u32, events: Seq<SweepEvent>)
    requires
        qd > 0,
        can_run(d, root, qd, events),
    ensures
        run_sound(d, run(d, root, qd, events)),
    decreases events.len(),
{
    let r = run(d, root, qd, events);
    if events.len() == 0 {
        sweep::lemma_start_sound(root, qd);
        assert forall|s: int| 0 <= s < r.w.slots.len() implies #[trigger] slot_matches(r, s) by {}
    } else {
        lemma_run_sound(d, root, qd, events.drop_last());
        lemma_step_sound(d, run(d, root, qd, events.drop_last()), events.last());
    }
}

/// When an entry is taken up, one is left less.
proof fn lemma_left_after_add(d: Disk, r: SweepRun)
    requires
        run_sound(d, r),
        possible(d, r, SweepEvent::Add),
    ensures
        r.current is Some,
        left(d, after(d, r, SweepEvent::Add)) == left(d, r).drop_first(),
        left(d, r)[0].depth == r.depths[r.current->0.dir as int] + 1,
{
    let n = after(d, r, SweepEvent::Add);
    let c = r.current->0;
    assert(n.w.paths[c.dir as int] == r.w.paths[c.dir as int]);
    assert(n.depths[c.dir as int] == r.depths[c.dir as int]);
    assert(left(d, n) =~= left(d, r).drop_first());
}

// ── every directory once ──

/// Whether the directory with number `k` is reached: the top one, and every other one that can be
/// asked about.
pub open spec fn is_reached_dir(d: Disk, paths: Seq<Seq<u8>>, k: usize) -> bool {
    k < paths.len() && (k == 0 || answer_for(d, paths[k as int]) is Some)
}

spec fn is_asked(r: SweepRun, s: int, k: usize) -> bool {
    0 <= s < r.w.slots.len() && r.w.slots[s] == Some(Some(k))
}

spec fn is_asked_somewhere(r: SweepRun, k: usize) -> bool {
    exists|s: int| is_asked(r, s, k)
}

/// A directory that is reached is listed, queued or asked about, in one of the three ways and once.
spec fn once(d: Disk, r: SweepRun) -> bool {
    &&& r.listed.no_duplicates()
    &&& r.w.queue.no_duplicates()
    &&& forall|k: usize| #[trigger]
        r.listed.contains(k) ==> is_reached_dir(d, r.w.paths, k) && !r.w.queue.contains(k)
    &&& forall|k: usize| #[trigger] r.w.queue.contains(k) ==> is_reached_dir(d, r.w.paths, k)
    &&& forall|s: int, k: usize| #[trigger]
        is_asked(r, s, k) ==> 0 < k < r.w.paths.len() && !r.listed.contains(k)
            && !r.w.queue.contains(k)
    &&& forall|s: int, u: int, k: usize| #[trigger]
        is_asked(r, s, k) && #[trigger] is_asked(r, u, k) ==> s == u
    &&& forall|k: usize| #[trigger]
        is_reached_dir(d, r.w.paths, k) ==> r.listed.contains(k) || r.w.queue.contains(k)
            || is_asked_somewhere(r, k)
}

proof fn lemma_contains_push(s: Seq<usize>, a: usize)
    ensures
        forall|k: usize| #[trigger] s.push(a).contains(k) <==> s.contains(k) || k == a,
        s.no_duplicates() && !s.contains(a) ==> s.push(a).no_duplicates(),
{
    let t = s.push(a);
    assert forall|k: usize| #[trigger] t.contains(k) <==> s.contains(k) || k == a by {
        if t.contains(k) {
            let i = choose|i: int| 0 <= i < t.len() && t[i] == k;
            if i < s.len() {
                assert(s[i] == k);
            }
        }
        if s.contains(k) {
            let i = choose|i: int| 0 <= i < s.len() && s[i] == k;
            assert(t[i] == k);
        }
        assert(t[s.len() as int] == a);
    }
    if s.no_duplicates() && !s.contains(a) {
        assert forall|i: int, j: int| 0 <= i < j < t.len() implies t[i] != t[j] by {
            if j == s.len() {
                assert(s.contains(s[i]));
            }
        }
    }
}

proof fn lemma_take_once(d: Disk, r: SweepRun)
    requires
        once(d, r),
        possible(d, r, SweepEvent::Take),
    ensures
        once(d, after(d, r, SweepEvent::Take)),
{
    let n = after(d, r, SweepEvent::Take);
    let k = r.w.queue.last();
    let rest = r.w.queue.drop_last();
    assert(r.w.queue == rest.push(k));
    assert(!rest.contains(k)) by {
        if rest.contains(k) {
            let i = choose|i: int| 0 <= i < rest.len() && rest[i] == k;
            assert(r.w.queue[i] == r.w.queue[r.w.queue.len() - 1]);
        }
    }
    lemma_contains_push(rest, k);
    lemma_contains_push(r.listed, k);
    assert(r.w.queue.contains(k));
    assert(!r.listed.contains(k));
    assert(n.w.queue == rest);
    assert(rest.no_duplicates()) by {
        assert forall|i: int, j: int| 0 <= i < j < rest.len() implies rest[i] != rest[j] by {
            assert(r.w.queue[i] != r.w.queue[j]);
        }
    }
    assert forall|x: usize| #[trigger] n.w.queue.contains(x) implies is_reached_dir(
        d,
        n.w.paths,
        x,
    ) by {
        assert(r.w.queue.contains(x));
    }
    assert forall|x: usize| #[trigger] n.listed.contains(x) implies is_reached_dir(d, n.w.paths, x)
        && !n.w.queue.contains(x) by {
        if x != k {
            assert(r.listed.contains(x));
            assert(!r.w.queue.contains(x));
        } else {
            assert(r.w.queue.contains(x));
        }
    }
    assert forall|s: int, x: usize| #[trigger] is_asked(n, s, x) implies 0 < x < n.w.paths.len()
        && !n.listed.contains(x) && !n.w.queue.contains(x) by {
        assert(is_asked(r, s, x));
    }
    assert forall|s: int, u: int, x: usize| #[trigger]
        is_asked(n, s, x) && #[trigger] is_asked(n, u, x) implies s == u by {
        assert(is_asked(r, s, x) && is_asked(r, u, x));
    }
    assert forall|x: usize| #[trigger] is_reached_dir(d, n.w.paths, x) implies n.listed.contains(x)
        || n.w.queue.contains(x) || is_asked_somewhere(n, x) by {
        assert(is_reached_dir(d, r.w.paths, x));
        if is_asked_somewhere(r, x) {
            let s = choose|s: int| is_asked(r, s, x);
            assert(is_asked(n, s, x));
        }
    }
}

proof fn lemma_add_once(d: Disk, r: SweepRun)
    requires
        run_sound(d, r),
        once(d, r),
        possible(d, r, SweepEvent::Add),
    ensures
        once(d, after(d, r, SweepEvent::Add)),
{
    let n = after(d, r, SweepEvent::Add);
    let x = left(d, r)[0];
    let slot = r.w.free.last() as int;
    let fresh = r.w.paths.len() as usize;
    sweep::lemma_added_sound(r.w, x.path, x.d_type);
    assert(r.w.slots[slot] is None);
    assert forall|k: usize| #[trigger] is_reached_dir(d, r.w.paths, k) implies is_reached_dir(
        d,
        n.w.paths,
        k,
    ) by {}
    assert(!r.listed.contains(fresh)) by {
        if r.listed.contains(fresh) {
            assert(is_reached_dir(d, r.w.paths, fresh));
        }
    }
    assert(!r.w.queue.contains(fresh)) by {
        if r.w.queue.contains(fresh) {
            assert(is_reached_dir(d, r.w.paths, fresh));
        }
    }
    assert forall|s: int, k: usize| #[trigger] is_asked(n, s, k) implies (s == slot && k == fresh
        && x.d_type == uring::DT_DIR) || (s != slot && is_asked(r, s, k)) by {}
    assert forall|s: int, k: usize| #[trigger] is_asked(n, s, k) implies 0 < k < n.w.paths.len()
        && !n.listed.contains(k) && !n.w.queue.contains(k) by {
        if s != slot {
            assert(is_asked(r, s, k));
        }
    }
    assert forall|s: int, u: int, k: usize| #[trigger]
        is_asked(n, s, k) && #[trigger] is_asked(n, u, k) implies s == u by {
        if s != slot {
            assert(is_asked(r, s, k));
        }
        if u != slot {
            assert(is_asked(r, u, k));
        }
    }
    assert forall|k: usize| #[trigger] is_reached_dir(d, n.w.paths, k) implies n.listed.contains(k)
        || n.w.queue.contains(k) || is_asked_somewhere(n, k) by {
        if k < r.w.paths.len() {
            assert(is_reached_dir(d, r.w.paths, k));
            if is_asked_somewhere(r, k) {
                let s = choose|s: int| is_asked(r, s, k);
                assert(is_asked(n, s, k));
            }
        } else {
            assert(is_asked(n, slot, k));
        }
    }
}

proof fn lemma_complete_once(d: Disk, r: SweepRun, slot: u32)
    requires
        run_sound(d, r),
        once(d, r),
        possible(d, r, SweepEvent::Complete(slot)),
    ensures
        once(d, after(d, r, SweepEvent::Complete(slot))),
{
    let n = after(d, r, SweepEvent::Complete(slot));
    let s0 = slot as int;
    assert(slot_matches(r, s0));
    let what = r.w.slots[s0]->0;
    if what is Some {
        lemma_contains_push(r.w.queue, what->0);
        assert(is_asked(r, s0, what->0));
    }
    assert forall|s: int, k: usize| #[trigger] is_asked(n, s, k) implies s != s0 && is_asked(
        r,
        s,
        k,
    ) by {}
    assert forall|s: int, k: usize| #[trigger] is_asked(n, s, k) implies 0 < k < n.w.paths.len()
        && !n.listed.contains(k) && !n.w.queue.contains(k) by {
        assert(is_asked(r, s, k));
        if what is Some && what->0 == k {
            assert(is_asked(r, s0, k));
        }
    }
    assert forall|s: int, u: int, k: usize| #[trigger]
        is_asked(n, s, k) && #[trigger] is_asked(n, u, k) implies s == u by {
        assert(is_asked(r, s, k) && is_asked(r, u, k));
    }
    assert forall|k: usize| #[trigger] n.w.queue.contains(k) implies is_reached_dir(
        d,
        n.w.paths,
        k,
    ) by {
        if r.w.queue.contains(k) {
            assert(is_reached_dir(d, r.w.paths, k));
        }
    }
    assert forall|k: usize| #[trigger] n.listed.contains(k) implies is_reached_dir(d, n.w.paths, k)
        && !n.w.queue.contains(k) by {
        assert(is_reached_dir(d, r.w.paths, k));
    }
    assert forall|k: usize| #[trigger] is_reached_dir(d, n.w.paths, k) implies n.listed.contains(k)
        || n.w.queue.contains(k) || is_asked_somewhere(n, k) by {
        assert(is_reached_dir(d, r.w.paths, k));
        if !r.listed.contains(k) && !r.w.queue.contains(k) {
            let s = choose|s: int| is_asked(r, s, k);
            if s != s0 {
                assert(is_asked(n, s, k));
            } else {
                assert(what == Some(k));
                assert(k > 0);
            }
        }
    }
}

proof fn lemma_run_once(d: Disk, root: Seq<u8>, qd: u32, events: Seq<SweepEvent>)
    requires
        qd > 0,
        can_run(d, root, qd, events),
    ensures
        once(d, run(d, root, qd, events)),
    decreases events.len(),
{
    let n = run(d, root, qd, events);
    if events.len() == 0 {
        lemma_contains_push(Seq::<usize>::empty(), 0);
        assert(Seq::<usize>::empty().push(0) == seq![0usize]);
        assert forall|k: usize| !(#[trigger] n.listed.contains(k)) by {}
        assert forall|s: int, k: usize| !(#[trigger] is_asked(n, s, k)) by {}
    } else {
        let r = run(d, root, qd, events.drop_last());
        lemma_run_once(d, root, qd, events.drop_last());
        lemma_run_sound(d, root, qd, events.drop_last());
        match events.last() {
            SweepEvent::Take => {
                lemma_take_once(d, r);
            },
            SweepEvent::Add => {
                lemma_add_once(d, r);
            },
            SweepEvent::Submit => {
                assert forall|s: int, k: usize| #[trigger] is_asked(n, s, k) implies is_asked(
                    r,
                    s,
                    k,
                ) by {}
                assert forall|k: usize| #[trigger] is_reached_dir(
                    d,
                    n.w.paths,
                    k,
                ) implies n.listed.contains(k) || n.w.queue.contains(k) || is_asked_somewhere(
                    n,
                    k,
                ) by {
                    assert(is_reached_dir(d, r.w.paths, k));
                    if is_asked_somewhere(r, k) {
                        let s = choose|s: int| is_asked(r, s, k);
                        assert(is_asked(n, s, k));
                    }
                }
            },
            SweepEvent::Complete(slot) => {
                lemma_complete_once(d, r, slot);
            },
        }
    }
}

/// A sweep that is over has listed every directory that it reached, once, and no other.
pub proof fn law_sweeps_list_every_directory_once(
    d: Disk,
    root: Seq<u8>,
    qd: u32,
    events: Seq<SweepEvent>,
)
    requires
        qd > 0,
        can_run(d, root, qd, events),
        is_done(d, run(d, root, qd, events)),
    ensures
        ({
            let r = run(d, root, qd, events);
            &&& r.listed.no_duplicates()
            &&& forall|k: usize| #[trigger]
                r.listed.contains(k) <==> is_reached_dir(d, r.w.paths, k)
        }),
{
    let r = run(d, root, qd, events);
    lemma_run_once(d, root, qd, events);
    lemma_run_sound(d, root, qd, events);
    assert forall|k: usize| #[trigger] r.listed.contains(k) <==> is_reached_dir(
        d,
        r.w.paths,
        k,
    ) by {
        if is_reached_dir(d, r.w.paths, k) && is_asked_somewhere(r, k) {
            let s = choose|s: int| is_asked(r, s, k);
            batch::lemma_in_flight_some(r.w.slots, s);
        }
    }
}

// ── what is counted ──

/// What `f` gives for the entries of directory `k`, added up.
pub open spec fn dir_sum(
    d: Disk,
    paths: Seq<Seq<u8>>,
    depths: Seq<nat>,
    f: spec_fn(Swept) -> nat,
) -> spec_fn(usize) -> nat {
    |k: usize| sums::seq_sum(entries_of(d, paths[k as int], depths[k as int]), f)
}

/// The bytes that the answer in a slot will bring.
spec fn asked_bytes(d: Disk, found: Seq<Swept>) -> spec_fn(Option<int>) -> nat {
    |o: Option<int>|
        match o {
            Some(i) => swept_bytes(d, found[i]),
            None => 0,
        }
}

spec fn all_bytes(d: Disk) -> spec_fn(Swept) -> nat {
    |x: Swept| swept_bytes(d, x)
}

/// Every directory that was taken has known paths and depth.
spec fn listed_known(r: SweepRun) -> bool {
    forall|i: int| 0 <= i < r.listed.len() ==> #[trigger] r.listed[i] < r.w.paths.len()
}

proof fn lemma_run_listed_known(d: Disk, root: Seq<u8>, qd: u32, events: Seq<SweepEvent>)
    requires
        qd > 0,
        can_run(d, root, qd, events),
    ensures
        listed_known(run(d, root, qd, events)),
{
    let r = run(d, root, qd, events);
    lemma_run_once(d, root, qd, events);
    assert forall|i: int| 0 <= i < r.listed.len() implies #[trigger] r.listed[i]
        < r.w.paths.len() by {
        assert(r.listed.contains(r.listed[i]));
    }
}

proof fn lemma_first_left(s: Seq<Swept>, f: spec_fn(Swept) -> nat)
    requires
        s.len() > 0,
    ensures
        sums::seq_sum(s, f) == f(s[0]) + sums::seq_sum(s.drop_first(), f),
{
    sums::lemma_sum_remove(s, 0, f);
    assert(s.remove(0) == s.drop_first());
}

/// What was found, and what is left of the directory that is being listed, are the entries of the
/// directories that were taken.
proof fn lemma_run_listed_sum(
    d: Disk,
    root: Seq<u8>,
    qd: u32,
    events: Seq<SweepEvent>,
    f: spec_fn(Swept) -> nat,
)
    requires
        qd > 0,
        can_run(d, root, qd, events),
    ensures
        ({
            let r = run(d, root, qd, events);
            sums::seq_sum(r.found, f) + sums::seq_sum(left(d, r), f) == sums::seq_sum(
                r.listed,
                dir_sum(d, r.w.paths, r.depths, f),
            )
        }),
    decreases events.len(),
{
    let n = run(d, root, qd, events);
    if events.len() > 0 {
        let r = run(d, root, qd, events.drop_last());
        lemma_run_listed_sum(d, root, qd, events.drop_last(), f);
        lemma_run_sound(d, root, qd, events.drop_last());
        lemma_run_listed_known(d, root, qd, events.drop_last());
        let g = dir_sum(d, r.w.paths, r.depths, f);
        match events.last() {
            SweepEvent::Take => {
                let k = r.w.queue.last();
                sums::lemma_sum_push(r.listed, k, g);
                let all = entries_of(d, r.w.paths[k as int], r.depths[k as int]);
                assert(all.skip(0) == all);
                assert(left(d, n) == all);
            },
            SweepEvent::Add => {
                let x = left(d, r)[0];
                lemma_left_after_add(d, r);
                lemma_first_left(left(d, r), f);
                sums::lemma_sum_push(r.found, x, f);
                assert forall|i: int| 0 <= i < r.listed.len() implies dir_sum(
                    d,
                    n.w.paths,
                    n.depths,
                    f,
                )(#[trigger] r.listed[i]) == g(r.listed[i]) by {}
                sums::lemma_sum_same(r.listed, dir_sum(d, n.w.paths, n.depths, f), g);
            },
            SweepEvent::Submit => {
                assert(left(d, n) == left(d, r));
            },
            SweepEvent::Complete(slot) => {
                assert(left(d, n) == left(d, r));
            },
        }
    }
}

/// The bytes that were answered, and those that are asked about, are those of what was found.
proof fn lemma_run_bytes(d: Disk, root: Seq<u8>, qd: u32, events: Seq<SweepEvent>)
    requires
        qd > 0,
        can_run(d, root, qd, events),
    ensures
        ({
            let r = run(d, root, qd, events);
            r.w.total + sums::seq_sum(r.asked, asked_bytes(d, r.found)) == sums::seq_sum(
                r.found,
                all_bytes(d),
            )
        }),
    decreases events.len(),
{
    let n = run(d, root, qd, events);
    if events.len() == 0 {
        sums::lemma_sum_nothing(n.asked, asked_bytes(d, n.found));
    } else {
        let r = run(d, root, qd, events.drop_last());
        lemma_run_bytes(d, root, qd, events.drop_last());
        lemma_run_sound(d, root, qd, events.drop_last());
        let g = asked_bytes(d, r.found);
        match events.last() {
            SweepEvent::Take => {},
            SweepEvent::Add => {
                let x = left(d, r)[0];
                let slot = r.w.free.last() as int;
                let h = asked_bytes(d, n.found);
                sweep::lemma_added_sound(r.w, x.path, x.d_type);
                assert(slot_matches(r, slot));
                sums::lemma_sum_push(r.found, x, all_bytes(d));
                assert forall|s: int| 0 <= s < r.asked.len() implies h(#[trigger] r.asked[s]) == g(
                    r.asked[s],
                ) by {
                    assert(slot_matches(r, s));
                }
                sums::lemma_sum_same(r.asked, h, g);
                sums::lemma_sum_update(r.asked, slot, Some(r.found.len() as int), h);
            },
            SweepEvent::Submit => {},
            SweepEvent::Complete(slot) => {
                assert(slot_matches(r, slot as int));
                sums::lemma_sum_update(r.asked, slot as int, None, g);
            },
        }
    }
}

/// A sweep that is over has counted what is in the directories that it listed, which are those that it
/// reached: as many entries as there are in them, and the allocated bytes of those that were answered
/// without an error. So for anything else that is counted.
pub proof fn law_sweeps_count_what_is_there(
    d: Disk,
    root: Seq<u8>,
    qd: u32,
    events: Seq<SweepEvent>,
    f: spec_fn(Swept) -> nat,
)
    requires
        qd > 0,
        can_run(d, root, qd, events),
        is_done(d, run(d, root, qd, events)),
    ensures
        ({
            let r = run(d, root, qd, events);
            &&& r.w.entries == sums::seq_sum(
                r.listed,
                |k: usize| (d.list)(r.w.paths[k as int]).len(),
            )
            &&& r.w.total == sums::seq_sum(
                r.listed,
                dir_sum(d, r.w.paths, r.depths, |x: Swept| swept_bytes(d, x)),
            )
            &&& sums::seq_sum(r.found, f) == sums::seq_sum(
                r.listed,
                dir_sum(d, r.w.paths, r.depths, f),
            )
        }),
{
    let r = run(d, root, qd, events);
    lemma_run_sound(d, root, qd, events);
    lemma_run_listed_sum(d, root, qd, events, f);
    assert(left(d, r) == Seq::<Swept>::empty());
    // entries
    let one = |x: Swept| 1nat;
    lemma_run_listed_sum(d, root, qd, events, one);
    sums::lemma_sum_ones(r.found, one);
    let g = |k: usize| (d.list)(r.w.paths[k as int]).len();
    assert forall|i: int| 0 <= i < r.listed.len() implies dir_sum(d, r.w.paths, r.depths, one)(
        #[trigger] r.listed[i],
    ) == g(r.listed[i]) by {
        let k = r.listed[i] as int;
        sums::lemma_sum_ones(entries_of(d, r.w.paths[k], r.depths[k]), one);
    }
    sums::lemma_sum_same(r.listed, dir_sum(d, r.w.paths, r.depths, one), g);
    // bytes
    lemma_run_bytes(d, root, qd, events);
    lemma_run_listed_sum(d, root, qd, events, all_bytes(d));
    assert forall|s: int| 0 <= s < r.asked.len() implies asked_bytes(d, r.found)(
        #[trigger] r.asked[s],
    ) == 0 by {
        assert(slot_matches(r, s));
        if r.w.slots[s] is Some {
            batch::lemma_in_flight_some(r.w.slots, s);
        }
    }
    sums::lemma_sum_nothing(r.asked, asked_bytes(d, r.found));
}

// ── the same for every order ──

/// What `f` gives for the entries below a directory that is `depth` below the top one, added up: for
/// everything that is reached and not more than `n` below the top directory.
pub open spec fn sum_below(
    d: Disk,
    n: nat,
    path: Seq<u8>,
    depth: nat,
    f: spec_fn(Swept) -> nat,
) -> nat
    decreases n - depth, 1nat, 0nat,
{
    if depth < n {
        sum_listed(d, n, entries_of(d, path, depth), depth, f)
    } else {
        0
    }
}

/// What `f` gives for these entries and for what is below them, added up.
pub open spec fn sum_listed(
    d: Disk,
    n: nat,
    entries: Seq<Swept>,
    depth: nat,
    f: spec_fn(Swept) -> nat,
) -> nat
    decreases n - depth, 0nat, entries.len(),
{
    if depth >= n || entries.len() == 0 {
        0
    } else {
        let x = entries[0];
        f(x) + (if is_reached(d, x) {
            sum_below(d, n, x.path, depth + 1, f)
        } else {
            0
        }) + sum_listed(d, n, entries.drop_first(), depth, f)
    }
}

/// `f` where an entry is not more than `n` below the top directory.
spec fn within(n: nat, f: spec_fn(Swept) -> nat) -> spec_fn(Swept) -> nat {
    |x: Swept|
        if x.depth <= n {
            f(x)
        } else {
            0
        }
}

spec fn below_queued(
    d: Disk,
    n: nat,
    paths: Seq<Seq<u8>>,
    depths: Seq<nat>,
    f: spec_fn(Swept) -> nat,
) -> spec_fn(usize) -> nat {
    |k: usize| sum_below(d, n, paths[k as int], depths[k as int], f)
}

spec fn below_asked(d: Disk, n: nat, found: Seq<Swept>, f: spec_fn(Swept) -> nat) -> spec_fn(
    Option<int>,
) -> nat {
    |o: Option<int>|
        match o {
            Some(i) => if is_reached(d, found[i]) {
                sum_below(d, n, found[i].path, found[i].depth, f)
            } else {
                0
            },
            None => 0,
        }
}

/// What is below the entries that are left.
spec fn below_left(d: Disk, n: nat, r: SweepRun, f: spec_fn(Swept) -> nat) -> nat {
    match r.current {
        Some(c) => sum_listed(d, n, left(d, r), r.depths[c.dir as int], f),
        None => 0,
    }
}

/// What was found, and what is still to be found.
spec fn all_of(d: Disk, n: nat, r: SweepRun, f: spec_fn(Swept) -> nat) -> nat {
    sums::seq_sum(r.found, within(n, f)) + below_left(d, n, r, f) + sums::seq_sum(
        r.w.queue,
        below_queued(d, n, r.w.paths, r.depths, f),
    ) + sums::seq_sum(r.asked, below_asked(d, n, r.found, f))
}

proof fn lemma_take_keeps_all(d: Disk, n: nat, r: SweepRun, f: spec_fn(Swept) -> nat)
    requires
        run_sound(d, r),
        possible(d, r, SweepEvent::Take),
    ensures
        all_of(d, n, after(d, r, SweepEvent::Take), f) == all_of(d, n, r, f),
{
    let v = after(d, r, SweepEvent::Take);
    let k = r.w.queue.last();
    let g = below_queued(d, n, r.w.paths, r.depths, f);
    assert(v.w.queue.push(k) == r.w.queue);
    sums::lemma_sum_push(v.w.queue, k, g);
    let all = entries_of(d, r.w.paths[k as int], r.depths[k as int]);
    assert(all.skip(0) == all);
    assert(left(d, v) == all);
}

proof fn lemma_add_keeps_all(d: Disk, n: nat, r: SweepRun, f: spec_fn(Swept) -> nat)
    requires
        run_sound(d, r),
        possible(d, r, SweepEvent::Add),
    ensures
        all_of(d, n, after(d, r, SweepEvent::Add), f) == all_of(d, n, r, f),
{
    let v = after(d, r, SweepEvent::Add);
    let x = left(d, r)[0];
    let slot = r.w.free.last() as int;
    let depth = r.depths[r.current->0.dir as int];
    sweep::lemma_added_sound(r.w, x.path, x.d_type);
    assert(slot_matches(r, slot));
    lemma_left_after_add(d, r);
    sums::lemma_sum_push(r.found, x, within(n, f));
    assert(v.depths[r.current->0.dir as int] == depth);
    // queued directories
    let g = below_queued(d, n, r.w.paths, r.depths, f);
    let h = below_queued(d, n, v.w.paths, v.depths, f);
    assert forall|i: int| 0 <= i < r.w.queue.len() implies h(#[trigger] r.w.queue[i]) == g(
        r.w.queue[i],
    ) by {
        assert(r.w.queue[i] < r.w.paths.len());
    }
    sums::lemma_sum_same(r.w.queue, h, g);
    // directories that are asked about
    let p = below_asked(d, n, r.found, f);
    let q = below_asked(d, n, v.found, f);
    assert forall|s: int| 0 <= s < r.asked.len() implies q(#[trigger] r.asked[s]) == p(
        r.asked[s],
    ) by {
        assert(slot_matches(r, s));
    }
    sums::lemma_sum_same(r.asked, q, p);
    sums::lemma_sum_update(r.asked, slot, Some(r.found.len() as int), q);
    assert(v.found[r.found.len() as int] == x);
}

proof fn lemma_complete_keeps_all(
    d: Disk,
    n: nat,
    r: SweepRun,
    slot: u32,
    f: spec_fn(Swept) -> nat,
)
    requires
        run_sound(d, r),
        possible(d, r, SweepEvent::Complete(slot)),
    ensures
        all_of(d, n, after(d, r, SweepEvent::Complete(slot)), f) == all_of(d, n, r, f),
{
    let v = after(d, r, SweepEvent::Complete(slot));
    let s = slot as int;
    assert(slot_matches(r, s));
    assert(left(d, v) == left(d, r));
    sums::lemma_sum_update(r.asked, s, None, below_asked(d, n, r.found, f));
    if r.w.slots[s]->0 is Some {
        sums::lemma_sum_push(
            r.w.queue,
            r.w.slots[s]->0->0,
            below_queued(d, n, r.w.paths, r.depths, f),
        );
    }
}

proof fn lemma_run_keeps_all(
    d: Disk,
    root: Seq<u8>,
    qd: u32,
    events: Seq<SweepEvent>,
    n: nat,
    f: spec_fn(Swept) -> nat,
)
    requires
        qd > 0,
        can_run(d, root, qd, events),
    ensures
        all_of(d, n, run(d, root, qd, events), f) == sum_below(d, n, root, 0, f),
    decreases events.len(),
{
    let v = run(d, root, qd, events);
    if events.len() == 0 {
        sums::lemma_sum_nothing(v.asked, below_asked(d, n, v.found, f));
        sums::lemma_sum_push(
            Seq::<usize>::empty(),
            0usize,
            below_queued(d, n, v.w.paths, v.depths, f),
        );
        assert(Seq::<usize>::empty().push(0usize) == v.w.queue);
    } else {
        let r = run(d, root, qd, events.drop_last());
        lemma_run_keeps_all(d, root, qd, events.drop_last(), n, f);
        lemma_run_sound(d, root, qd, events.drop_last());
        match events.last() {
            SweepEvent::Take => {
                lemma_take_keeps_all(d, n, r, f);
            },
            SweepEvent::Add => {
                lemma_add_keeps_all(d, n, r, f);
            },
            SweepEvent::Submit => {
                assert(left(d, v) == left(d, r));
            },
            SweepEvent::Complete(slot) => {
                lemma_complete_keeps_all(d, n, r, slot, f);
            },
        }
    }
}

/// A sweep that is over has found what is there: whatever is counted, and however far down, the
/// entries that were found count as much as those that are reached.
pub proof fn law_finished_sweeps_find_the_tree(
    d: Disk,
    root: Seq<u8>,
    qd: u32,
    events: Seq<SweepEvent>,
    n: nat,
    f: spec_fn(Swept) -> nat,
)
    requires
        qd > 0,
        can_run(d, root, qd, events),
        is_done(d, run(d, root, qd, events)),
        forall|i: int|
            0 <= i < run(d, root, qd, events).found.len() ==> (
            #[trigger] run(d, root, qd, events).found[i]).depth <= n,
    ensures
        sums::seq_sum(run(d, root, qd, events).found, f) == sum_below(d, n, root, 0, f),
{
    let r = run(d, root, qd, events);
    lemma_run_sound(d, root, qd, events);
    lemma_run_keeps_all(d, root, qd, events, n, f);
    assert forall|s: int| 0 <= s < r.asked.len() implies below_asked(d, n, r.found, f)(
        #[trigger] r.asked[s],
    ) == 0 by {
        assert(slot_matches(r, s));
        if r.w.slots[s] is Some {
            batch::lemma_in_flight_some(r.w.slots, s);
        }
    }
    sums::lemma_sum_nothing(r.asked, below_asked(d, n, r.found, f));
    assert forall|i: int| 0 <= i < r.found.len() implies within(n, f)(#[trigger] r.found[i]) == f(
        r.found[i],
    ) by {
        assert(r.found[i].depth <= n);
    }
    sums::lemma_sum_same(r.found, within(n, f), f);
}

/// How far down the entries go.
spec fn deepest(found: Seq<Swept>) -> nat
    decreases found.len(),
{
    if found.len() == 0 {
        0
    } else {
        sweep::larger(deepest(found.drop_last()), found.last().depth)
    }
}

proof fn lemma_deepest(found: Seq<Swept>, i: int)
    requires
        0 <= i < found.len(),
    ensures
        found[i].depth <= deepest(found),
    decreases found.len(),
{
    if i < found.len() - 1 {
        lemma_deepest(found.drop_last(), i);
    }
}

/// Two sweeps over the same tree that are over have found the same entries, each as many times, and
/// counted the same bytes, whatever the number of their slots and the order of their steps.
pub proof fn law_every_sweep_finds_the_same(
    d: Disk,
    root: Seq<u8>,
    a_qd: u32,
    a_events: Seq<SweepEvent>,
    b_qd: u32,
    b_events: Seq<SweepEvent>,
)
    requires
        a_qd > 0,
        can_run(d, root, a_qd, a_events),
        is_done(d, run(d, root, a_qd, a_events)),
        b_qd > 0,
        can_run(d, root, b_qd, b_events),
        is_done(d, run(d, root, b_qd, b_events)),
    ensures
        ({
            let a = run(d, root, a_qd, a_events);
            let b = run(d, root, b_qd, b_events);
            &&& a.found.to_multiset() == b.found.to_multiset()
            &&& a.w.entries == b.w.entries
            &&& a.w.total == b.w.total
        }),
{
    let a = run(d, root, a_qd, a_events);
    let b = run(d, root, b_qd, b_events);
    let n = sweep::larger(deepest(a.found), deepest(b.found));
    assert forall|i: int| 0 <= i < a.found.len() implies (#[trigger] a.found[i]).depth <= n by {
        lemma_deepest(a.found, i);
    }
    assert forall|i: int| 0 <= i < b.found.len() implies (#[trigger] b.found[i]).depth <= n by {
        lemma_deepest(b.found, i);
    }
    assert forall|f: spec_fn(Swept) -> nat| #[trigger]
        sums::seq_sum(a.found, f) == sums::seq_sum(b.found, f) by {
        law_finished_sweeps_find_the_tree(d, root, a_qd, a_events, n, f);
        law_finished_sweeps_find_the_tree(d, root, b_qd, b_events, n, f);
    }
    assert forall|x: Swept| #[trigger] sums::count_in(a.found, x) == sums::count_in(b.found, x) by {
        assert(sums::seq_sum(a.found, sums::one_for(x)) == sums::seq_sum(
            b.found,
            sums::one_for(x),
        ));
    }
    sums::lemma_same_counts(a.found, b.found);
    lemma_run_sound(d, root, a_qd, a_events);
    lemma_run_sound(d, root, b_qd, b_events);
    let one = |x: Swept| 1nat;
    sums::lemma_sum_ones(a.found, one);
    sums::lemma_sum_ones(b.found, one);
    assert(sums::seq_sum(a.found, one) == sums::seq_sum(b.found, one));
    let bytes = |x: Swept| swept_bytes(d, x);
    law_sweeps_count_what_is_there(d, root, a_qd, a_events, bytes);
    law_sweeps_count_what_is_there(d, root, b_qd, b_events, bytes);
    assert(sums::seq_sum(a.found, bytes) == sums::seq_sum(b.found, bytes));
}

} // verus!
