//! The single-threaded sweep: one ring, full paths, and as many `statx` requests in flight as the
//! ring has slots.

use crate::batch;
use crate::sums;
use crate::uring;
use vstd::prelude::*;

verus! {

/// How many requests are queued before they are submitted.
pub const SWEEP_SUBMIT_AT: u32 = 64;

/// The longest path that is asked about, without the zero byte that ends it.
pub const PATH_LIMIT: usize = 4095;

/// What to do next.
pub enum Step {
    /// Submit `submit` queued requests and wait for `wait` completions.
    Enter { submit: u32, wait: u32 },
    /// List the directory at this path.
    List(Vec<u8>),
    /// The sweep is over.
    Done,
}

/// The state of a sweep as a mathematical value.
#[verifier::ext_equal]
pub struct SweepView {
    /// The free slots.
    pub free: Seq<u32>,
    /// For every slot the request in it; of a directory, which one.
    pub slots: Seq<Option<Option<usize>>>,
    /// How many requests are queued and not submitted.
    pub to_submit: nat,
    /// The most requests that were in flight at once.
    pub peak: nat,
    /// The allocated bytes of the entries that were answered.
    pub total: nat,
    /// The entries found.
    pub entries: nat,
    /// What the requests were answered with, in order: the allocated blocks, or an error.
    pub answered: Seq<Option<u64>>,
    /// The paths of the directories found.
    pub paths: Seq<Seq<u8>>,
    /// The directories to list.
    pub queue: Seq<usize>,
}

/// The larger of two numbers.
pub open spec fn larger(a: nat, b: nat) -> nat {
    if a >= b {
        a
    } else {
        b
    }
}

/// The path of an entry.
pub open spec fn entry_path(dir: Seq<u8>, name: Seq<u8>) -> Seq<u8> {
    if dir.len() > 0 && dir.last() == 0x2f {
        dir + name
    } else {
        dir.push(0x2f) + name
    }
}

/// The path as the kernel reads it: cut at the limit, with a zero byte at the end.
pub open spec fn request_path(path: Seq<u8>) -> Seq<u8> {
    (if path.len() <= PATH_LIMIT {
        path
    } else {
        path.take(PATH_LIMIT as int)
    }).push(0)
}

/// The bytes that an answer brings.
pub open spec fn answer_bytes(a: Option<u64>) -> nat {
    match a {
        Some(blocks) => blocks as nat * 512,
        None => 0,
    }
}

/// The allocated bytes of the answered entries.
pub open spec fn answered_bytes(answered: Seq<Option<u64>>) -> nat {
    sums::seq_sum(answered, |a: Option<u64>| answer_bytes(a))
}

/// Every slot is either free or in use, every entry found is either in flight or answered, the bytes
/// of the answers are added up, and the queue holds directories that were found.
pub open spec fn sound(w: SweepView) -> bool {
    &&& 0 < w.slots.len() <= u32::MAX
    &&& w.free.len() + batch::in_flight(w.slots) == w.slots.len()
    &&& w.free.no_duplicates()
    &&& forall|i: int|
        0 <= i < w.free.len() ==> (#[trigger] w.free[i]) < w.slots.len()
            && w.slots[w.free[i] as int] is None
    &&& w.to_submit <= batch::in_flight(w.slots)
    &&& w.to_submit <= SWEEP_SUBMIT_AT
    &&& batch::in_flight(w.slots) <= w.peak <= w.slots.len()
    &&& w.peak <= w.entries
    &&& w.entries == w.answered.len() + batch::in_flight(w.slots)
    &&& w.total == answered_bytes(w.answered)
    &&& w.total <= u64::MAX
    &&& w.entries <= u64::MAX
    &&& forall|i: int| 0 <= i < w.queue.len() ==> #[trigger] w.queue[i] < w.paths.len()
    &&& forall|s: int|
        0 <= s < w.slots.len() && (#[trigger] w.slots[s]) is Some && w.slots[s]->0 is Some ==> w.slots[s]->0->0
            < w.paths.len()
}

/// The state of a sweep from directory `root` over `qd` slots before anything was done.
pub open spec fn start(root: Seq<u8>, qd: u32) -> SweepView {
    SweepView {
        free: Seq::new(qd as nat, |i: int| (qd - 1 - i) as u32),
        slots: Seq::new(qd as nat, |i: int| None),
        to_submit: 0,
        peak: 0,
        total: 0,
        entries: 0,
        answered: seq![],
        paths: seq![root],
        queue: seq![0usize],
    }
}

/// The sweep after the queued requests were submitted.
pub open spec fn submitted(w: SweepView) -> SweepView {
    SweepView { to_submit: 0, ..w }
}

/// The sweep after the directory that was found last was taken to be listed.
pub open spec fn taken(w: SweepView) -> SweepView {
    SweepView { queue: w.queue.drop_last(), ..w }
}

/// The sweep after the entry at `path` was taken up.
pub open spec fn added(w: SweepView, path: Seq<u8>, d_type: u8) -> SweepView {
    let is_dir = d_type == uring::DT_DIR;
    let what = if is_dir {
        Some(w.paths.len() as usize)
    } else {
        None
    };
    SweepView {
        free: w.free.drop_last(),
        slots: w.slots.update(w.free.last() as int, Some(what)),
        to_submit: w.to_submit + 1,
        peak: larger(w.peak, batch::in_flight(w.slots) + 1),
        entries: w.entries + 1,
        paths: if is_dir {
            w.paths.push(path)
        } else {
            w.paths
        },
        ..w
    }
}

/// The sweep after the request in slot `slot` was answered.
pub open spec fn completed(w: SweepView, slot: u32, answer: Option<u64>) -> SweepView {
    let what = w.slots[slot as int]->0;
    SweepView {
        free: w.free.push(slot),
        slots: w.slots.update(slot as int, None),
        total: w.total + answer_bytes(answer),
        answered: w.answered.push(answer),
        queue: if answer is Some && what is Some {
            w.queue.push(what->0)
        } else {
            w.queue
        },
        ..w
    }
}

/// A sweep starts sound.
pub(crate) proof fn lemma_start_sound(root: Seq<u8>, qd: u32)
    requires
        qd > 0,
    ensures
        sound(start(root, qd)),
{
    batch::lemma_in_flight_none(start(root, qd).slots);
}

/// Submitting keeps the sweep sound.
pub(crate) proof fn lemma_submitted_sound(w: SweepView)
    requires
        sound(w),
    ensures
        sound(submitted(w)),
{
    let b = submitted(w);
    assert(b.free == w.free && b.slots == w.slots && b.queue == w.queue && b.paths == w.paths);
}

/// Taking a directory keeps the sweep sound.
pub(crate) proof fn lemma_taken_sound(w: SweepView)
    requires
        sound(w),
        w.queue.len() > 0,
    ensures
        sound(taken(w)),
{
    let b = taken(w);
    assert forall|i: int| 0 <= i < b.queue.len() implies #[trigger] b.queue[i] < b.paths.len() by {
        assert(w.queue[i] == b.queue[i]);
    }
}

/// Taking up an entry keeps the sweep sound.
pub(crate) proof fn lemma_added_sound(w: SweepView, path: Seq<u8>, d_type: u8)
    requires
        sound(w),
        w.free.len() > 0,
        w.to_submit < SWEEP_SUBMIT_AT,
        w.entries < u64::MAX,
        w.paths.len() <= usize::MAX,
    ensures
        sound(added(w, path, d_type)),
        w.free.last() < w.slots.len(),
        w.slots[w.free.last() as int] is None,
{
    let b = added(w, path, d_type);
    let slot = w.free.last();
    assert(w.slots[w.free[w.free.len() - 1] as int] is None);
    batch::lemma_in_flight_update(w.slots, slot as int, b.slots[slot as int]);
    assert forall|i: int| 0 <= i < b.free.len() implies (#[trigger] b.free[i]) < b.slots.len()
        && b.slots[b.free[i] as int] is None by {
        assert(w.free[i] == b.free[i]);
        assert(w.slots[w.free[i] as int] is None);
        assert(w.free[i] != w.free[w.free.len() - 1]);
    }
    assert(b.free.no_duplicates()) by {
        assert forall|i: int, j: int| 0 <= i < j < b.free.len() implies b.free[i] != b.free[j] by {
            assert(w.free[i] != w.free[j]);
        }
    }
    assert forall|s: int|
        0 <= s < b.slots.len() && (#[trigger] b.slots[s]) is Some
            && b.slots[s]->0 is Some implies b.slots[s]->0->0 < b.paths.len() by {
        if s != slot {
            assert(w.slots[s] is Some);
        }
    }
}

/// An answer keeps the sweep sound.
pub(crate) proof fn lemma_completed_sound(w: SweepView, slot: u32, answer: Option<u64>)
    requires
        sound(w),
        slot < w.slots.len(),
        w.slots[slot as int] is Some,
        w.to_submit < batch::in_flight(w.slots),
        w.total + answer_bytes(answer) <= u64::MAX,
    ensures
        sound(completed(w, slot, answer)),
{
    let b = completed(w, slot, answer);
    batch::lemma_in_flight_update(w.slots, slot as int, None);
    sums::lemma_sum_push(w.answered, answer, |a: Option<u64>| answer_bytes(a));
    assert forall|i: int| 0 <= i < b.free.len() implies (#[trigger] b.free[i]) < b.slots.len()
        && b.slots[b.free[i] as int] is None by {
        if i < w.free.len() {
            assert(w.slots[w.free[i] as int] is None);
        }
    }
    assert(b.free.no_duplicates()) by {
        assert forall|i: int, j: int| 0 <= i < j < b.free.len() implies b.free[i] != b.free[j] by {
            assert(w.slots[w.free[i] as int] is None);
        }
    }
    assert forall|s: int|
        0 <= s < b.slots.len() && (#[trigger] b.slots[s]) is Some
            && b.slots[s]->0 is Some implies b.slots[s]->0->0 < b.paths.len() by {
        assert(w.slots[s] is Some);
    }
}

/// The sweep ends when nothing is left: no request in flight, every entry that was found has been
/// answered, and the bytes are those of all entries that were answered without an error. There were
/// never more requests in flight than entries.
pub proof fn law_done_means_everything_is_answered(w: SweepView)
    requires
        sound(w),
        batch::in_flight(w.slots) == 0,
    ensures
        w.answered.len() == w.entries,
        w.total == answered_bytes(w.answered),
        w.peak <= w.entries,
        w.to_submit == 0,
        w.free.len() == w.slots.len(),
{
}

/// A sweep in progress.
pub struct Sweep {
    free: Vec<u32>,
    slots: Vec<Option<Option<usize>>>,
    inflight: u32,
    to_submit: u32,
    peak: u32,
    total: u64,
    entries: u64,
    answered: Ghost<Seq<Option<u64>>>,
    paths: Vec<Vec<u8>>,
    queue: Vec<usize>,
}

/// Paths as mathematical values.
pub open spec fn path_views(v: Seq<Vec<u8>>) -> Seq<Seq<u8>> {
    Seq::new(v.len(), |i: int| v[i]@)
}

impl View for Sweep {
    type V = SweepView;

    closed spec fn view(&self) -> SweepView {
        SweepView {
            free: self.free@,
            slots: self.slots@,
            to_submit: self.to_submit as nat,
            peak: self.peak as nat,
            total: self.total as nat,
            entries: self.entries as nat,
            answered: self.answered@,
            paths: path_views(self.paths@),
            queue: self.queue@,
        }
    }
}

/// The path of an entry.
fn join_entry(dir: &[u8], name: &[u8]) -> (r: Vec<u8>)
    ensures
        r@ == entry_path(dir@, name@),
{
    let mut r: Vec<u8> = Vec::new();
    r.extend_from_slice(dir);
    assert(r@ == dir@);
    let n = dir.len();
    if n == 0 || dir[n - 1] != 0x2f {
        r.push(0x2f);
    }
    let ghost before = r@;
    r.extend_from_slice(name);
    assert(r@ == before + name@);
    r
}

/// The path as the kernel reads it.
fn path_for_request(path: &[u8]) -> (r: Vec<u8>)
    ensures
        r@ == request_path(path@),
{
    let n: usize = if path.len() <= PATH_LIMIT {
        path.len()
    } else {
        PATH_LIMIT
    };
    let mut r: Vec<u8> = Vec::new();
    r.extend_from_slice(&path[0..n]);
    proof {
        assert(r@ == path@.subrange(0, n as int));
        assert(path@.subrange(0, n as int) == path@.take(n as int));
        assert(path@.take(path@.len() as int) == path@);
    }
    r.push(0);
    r
}

impl Sweep {
    /// How the fields that repeat one another agree.
    pub closed spec fn consistent(&self) -> bool {
        self.inflight == batch::in_flight(self.slots@)
    }

    /// A sweep from directory `root` over `qd` slots.
    pub fn new(root: &[u8], qd: u32) -> (r: Sweep)
        requires
            qd > 0,
        ensures
            r.consistent(),
            sound(r@),
            r@ == start(root@, qd),
    {
        let mut free: Vec<u32> = Vec::new();
        let mut slots: Vec<Option<Option<usize>>> = Vec::new();
        let mut k: u32 = qd;
        while k > 0
            invariant
                k <= qd,
                free@.len() == qd - k,
                slots@.len() == qd - k,
                forall|i: int| 0 <= i < free@.len() ==> #[trigger] free@[i] == qd - 1 - i,
                forall|i: int| 0 <= i < slots@.len() ==> (#[trigger] slots@[i]) is None,
            decreases k,
        {
            k = k - 1;
            free.push(k);
            slots.push(None);
        }
        let mut path: Vec<u8> = Vec::new();
        path.extend_from_slice(root);
        assert(path@ == root@);
        let mut paths: Vec<Vec<u8>> = Vec::new();
        paths.push(path);
        let mut queue: Vec<usize> = Vec::new();
        queue.push(0);
        let r = Sweep {
            free: free,
            slots: slots,
            inflight: 0,
            to_submit: 0,
            peak: 0,
            total: 0,
            entries: 0,
            answered: Ghost(Seq::empty()),
            paths: paths,
            queue: queue,
        };
        proof {
            batch::lemma_in_flight_none(r.slots@);
            lemma_start_sound(root@, qd);
            assert(r.free@ == Seq::new(qd as nat, |i: int| (qd - 1 - i) as u32));
            assert(r.slots@ == Seq::new(qd as nat, |i: int| None::<Option<usize>>));
            assert(r@.paths == seq![root@]);
            assert(r@.queue == seq![0usize]);
        }
        r
    }

    /// The next thing to do: submit what is queued; else list the directory that was found last; else
    /// wait for a completion, which may bring another directory; else the sweep is over.
    pub fn next(&mut self) -> (r: Step)
        requires
            old(self).consistent(),
            sound(old(self)@),
        ensures
            final(self).consistent(),
            sound(final(self)@),
            match r {
                Step::Enter { submit, wait } => {
                    let w = old(self)@;
                    &&& submit == w.to_submit
                    &&& if w.to_submit > 0 {
                        wait == 0
                    } else {
                        wait == 1 && w.queue.len() == 0 && batch::in_flight(w.slots) > 0
                    }
                    &&& final(self)@ == submitted(w)
                },
                Step::List(path) => {
                    let w = old(self)@;
                    &&& w.to_submit == 0
                    &&& w.queue.len() > 0
                    &&& path@ == w.paths[w.queue.last() as int]
                    &&& final(self)@ == taken(w)
                },
                Step::Done => {
                    &&& old(self)@.queue.len() == 0
                    &&& batch::in_flight(old(self)@.slots) == 0
                    &&& final(self)@ == old(self)@
                },
            },
    {
        if self.to_submit > 0 {
            let submit = self.to_submit;
            proof {
                lemma_submitted_sound(self@);
            }
            self.to_submit = 0;
            return Step::Enter { submit: submit, wait: 0 };
        }
        let ghost w = self@;
        if self.queue.len() > 0 {
            let k = self.queue[self.queue.len() - 1];
            assert(w.queue[w.queue.len() - 1] < w.paths.len());
            let _ = self.queue.pop();
            assert(self@.queue == w.queue.drop_last());
            let mut path: Vec<u8> = Vec::new();
            path.extend_from_slice(self.paths[k].as_slice());
            assert(path@ == w.paths[k as int]);
            proof {
                lemma_taken_sound(w);
            }
            return Step::List(path);
        }
        if self.inflight == 0 {
            Step::Done
        } else {
            Step::Enter { submit: 0, wait: 1 }
        }
    }

    /// Whether there is no free slot for another entry. Then the pending requests are to be
    /// submitted and a completion waited for: the result says how many to submit.
    pub fn starved(&mut self) -> (r: Option<u32>)
        requires
            old(self).consistent(),
            sound(old(self)@),
        ensures
            final(self).consistent(),
            sound(final(self)@),
            match r {
                Some(submit) => {
                    &&& old(self)@.free.len() == 0
                    &&& batch::in_flight(old(self)@.slots) > 0
                    &&& submit == old(self)@.to_submit
                    &&& final(self)@ == submitted(old(self)@)
                },
                None => old(self)@.free.len() > 0 && final(self)@ == old(self)@,
            },
    {
        if self.free.len() > 0 {
            return None;
        }
        let submit = self.to_submit;
        proof {
            lemma_submitted_sound(self@);
        }
        self.to_submit = 0;
        Some(submit)
    }

    /// Takes up entry `name` of directory `dir`: the slot for its request, and the path to ask about.
    pub fn add_entry(&mut self, dir: &[u8], name: &[u8], d_type: u8) -> (r: (u32, Vec<u8>))
        requires
            old(self).consistent(),
            sound(old(self)@),
            old(self)@.free.len() > 0,
            old(self)@.to_submit < SWEEP_SUBMIT_AT,
            old(self)@.entries < u64::MAX,
        ensures
            final(self).consistent(),
            sound(final(self)@),
            r.0 == old(self)@.free.last(),
            r.1@ == request_path(entry_path(dir@, name@)),
            final(self)@ == added(old(self)@, entry_path(dir@, name@), d_type),
    {
        let ghost w = self@;
        let full = join_entry(dir, name);
        let ghost path = full@;
        let request = path_for_request(full.as_slice());
        let slot = self.free[self.free.len() - 1];
        assert(w.slots[w.free[w.free.len() - 1] as int] is None);
        let found = self.paths.len();
        let what: Option<usize> = if d_type == uring::DT_DIR {
            Some(found)
        } else {
            None
        };
        proof {
            batch::lemma_in_flight_update(w.slots, slot as int, Some(what));
        }
        let _ = self.free.pop();
        self.slots[slot as usize] = Some(what);
        if d_type == uring::DT_DIR {
            self.paths.push(full);
            assert(self@.paths == w.paths.push(path));
        }
        self.entries = self.entries + 1;
        self.to_submit = self.to_submit + 1;
        self.inflight = self.inflight + 1;
        if self.inflight > self.peak {
            self.peak = self.inflight;
        }
        proof {
            lemma_added_sound(w, path, d_type);
            assert(self@.free == w.free.drop_last());
            assert(self@ == added(w, path, d_type));
        }
        (slot, request)
    }

    /// Whether as many requests are queued as are submitted at once: the result says how many to
    /// submit.
    pub fn batch_is_full(&mut self) -> (r: Option<u32>)
        requires
            old(self).consistent(),
            sound(old(self)@),
        ensures
            final(self).consistent(),
            sound(final(self)@),
            match r {
                Some(submit) => {
                    &&& old(self)@.to_submit >= SWEEP_SUBMIT_AT
                    &&& submit == old(self)@.to_submit
                    &&& final(self)@ == submitted(old(self)@)
                },
                None => old(self)@.to_submit < SWEEP_SUBMIT_AT && final(self)@ == old(self)@,
            },
    {
        if self.to_submit < SWEEP_SUBMIT_AT {
            return None;
        }
        let submit = self.to_submit;
        proof {
            lemma_submitted_sound(self@);
        }
        self.to_submit = 0;
        Some(submit)
    }

    /// Whether a completion can be taken: slot `slot` is in use, not all requests in flight still
    /// wait to be submitted, and the bytes can be counted in 64 bits.
    pub fn accepts(&self, slot: u64, res: i32, blocks: u64) -> (r: bool)
        requires
            self.consistent(),
        ensures
            r == (slot < self@.slots.len() && self@.slots[slot as int] is Some && self@.to_submit
                < batch::in_flight(self@.slots) && (res == 0 ==> self@.total + blocks * 512
                <= u64::MAX)),
    {
        slot < self.slots.len() as u64 && self.slots[slot as usize].is_some() && self.to_submit
            < self.inflight && (res != 0 || (blocks <= u64::MAX / 512 && self.total <= u64::MAX
            - blocks * 512))
    }

    /// The request in slot `slot` has completed. Without an error its allocated bytes count, and a
    /// directory is to be listed.
    pub fn complete(&mut self, slot: u32, res: i32, blocks: u64)
        requires
            old(self).consistent(),
            sound(old(self)@),
            slot < old(self)@.slots.len(),
            old(self)@.slots[slot as int] is Some,
            old(self)@.to_submit < batch::in_flight(old(self)@.slots),
            res == 0 ==> old(self)@.total + blocks * 512 <= u64::MAX,
        ensures
            final(self).consistent(),
            sound(final(self)@),
            final(self)@ == completed(
                old(self)@,
                slot,
                if res == 0 {
                    Some(blocks)
                } else {
                    None
                },
            ),
    {
        let ghost w = self@;
        proof {
            batch::lemma_in_flight_update(w.slots, slot as int, None);
        }
        if res == 0 {
            self.total = self.total + blocks * 512;
            if let Some(Some(k)) = self.slots[slot as usize] {
                assert(w.slots[slot as int] is Some);
                self.queue.push(k);
                assert(self@.queue == w.queue.push(k));
            }
        }
        self.slots[slot as usize] = None;
        self.free.push(slot);
        self.inflight = self.inflight - 1;
        proof {
            let answer = if res == 0 {
                Some(blocks)
            } else {
                None
            };
            self.answered@ = self.answered@.push(answer);
            lemma_completed_sound(w, slot, answer);
            assert(self@ == completed(w, slot, answer));
        }
    }

    /// The allocated bytes, the number of entries, and the most requests that were in flight.
    pub fn result(&self) -> (r: (u64, u64, u32))
        ensures
            r.0 == self@.total,
            r.1 == self@.entries,
            r.2 == self@.peak,
    {
        (self.total, self.entries, self.peak)
    }
}

} // verus!
