//! Steps: batches, sweeps, and the responses that are kept between requests.

use crate::batch;
use crate::batch::{Action, Batch};
use crate::scan_cache::ScanCache;
use crate::sources;
use crate::sweep;
use crate::sweep::{Step, Sweep};
use vstd::prelude::*;

verus! {

// ── batches ──

/// The limits: a batch is submitted at 128 requests, a sweep at 64, over 256 slots; a path has room
/// for 4095 bytes, and 32 responses are kept.
pub proof fn law_limits()
    ensures
        batch::SUBMIT_AT == 128,
        sweep::SWEEP_SUBMIT_AT == 64,
        sweep::PATH_LIMIT == 4095,
        crate::scan_cache::SCAN_CACHE_CAP == 32,
        crate::uring::IOURING_QD == 256,
        crate::uring::DT_DIR == 4,
        crate::uring::STATX_SIZEOF == 256,
        crate::uring::PARAMS_SIZEOF == 120,
        crate::uring::SQE_SIZE == 64,
{
}

/// A request more in a free slot is one more in flight, and a slot that is freed one less.
pub proof fn law_requests_in_flight(slots: Seq<Option<usize>>, s: int, v: usize)
    requires
        0 <= s < slots.len(),
    ensures
        slots[s] is None
            ==> batch::in_flight(slots.update(s, Some(v))) == batch::in_flight(slots) + 1,
        slots[s] is Some ==> batch::in_flight(slots.update(s, None)) + 1 == batch::in_flight(slots),
        (forall|i: int| 0 <= i < slots.len() ==> (#[trigger] slots[i]) is None) <==> batch::in_flight(
            slots,
        ) == 0,
{
    batch::lemma_in_flight_update(slots, s, Some(v));
    batch::lemma_in_flight_update(slots, s, None);
    if forall|i: int| 0 <= i < slots.len() ==> (#[trigger] slots[i]) is None {
        batch::lemma_in_flight_none(slots);
    } else {
        let i = choose|i: int| 0 <= i < slots.len() && (#[trigger] slots[i]) is Some;
        batch::lemma_in_flight_some(slots, i);
    }
}

/// A new batch has every one of its slots free, and takes them from the first on.
pub proof fn law_new_batches(qd: u32, r: Batch, i: int)
    requires
        qd > 0,
        call_ensures(Batch::new, (qd,), r),
        0 <= i < qd,
    ensures
        r@.count == 0 && r@.next == 0 && r@.done == 0 && r@.to_submit == 0,
        r@.slots.len() == qd && r@.slots[i] is None,
        r@.free.len() == qd && r@.free[i] == qd - 1 - i,
        r@.free.last() == 0,
{
}

/// A batch is over when every request has completed. Until then requests are queued as long as
/// there are some, a slot is free and fewer than 128 wait to be submitted; 128 are submitted
/// without waiting, and where nothing can be queued one completion is waited for.
pub proof fn law_steps_of_batches(b: &mut Batch, r: Action)
    requires
        batch::sound(old(b)@),
        call_ensures(Batch::step, (b,), r),
    ensures
        old(b)@.done == old(b)@.count ==> r is Finished,
        old(b)@.done < old(b)@.count && old(b)@.to_submit >= 128 ==> r == (Action::Enter {
            submit: old(b)@.to_submit as u32,
            wait: 0,
        }),
        old(b)@.next < old(b)@.count && old(b)@.to_submit < 128 && old(b)@.free.len() > 0 ==> r == (
        Action::Queue { slot: old(b)@.free.last(), entry: old(b)@.next as usize }),
        old(b)@.done < old(b)@.count && old(b)@.to_submit < 128 && (old(b)@.next == old(b)@.count
            || old(b)@.free.len() == 0) ==> r == (Action::Enter {
            submit: old(b)@.to_submit as u32,
            wait: 1,
        }),
        r is Queue ==> final(b)@.next == old(b)@.next + 1 && final(b)@.to_submit == old(
            b,
        )@.to_submit + 1 && final(b)@.slots[r->slot as int] == Some(r->entry),
        r is Enter ==> final(b)@.to_submit == 0 && final(b)@.next == old(b)@.next,
        final(b)@.count == old(b)@.count && final(b)@.done == old(b)@.done,
{
    let w = old(b)@;
    if r is Queue {
        assert(w.free[w.free.len() - 1] < w.slots.len());
    }
}

/// A completion gives back the entry that was queued in its slot, and frees the slot.
pub proof fn law_completions_of_batches(b: &mut Batch, slot: u32, entry: usize, r: usize)
    requires
        batch::sound(old(b)@),
        slot < old(b)@.slots.len(),
        old(b)@.slots[slot as int] == Some(entry),
        old(b)@.to_submit < batch::in_flight(old(b)@.slots),
        call_ensures(Batch::complete, (b, slot), r),
    ensures
        r == entry,
        final(b)@.done == old(b)@.done + 1,
        final(b)@.slots[slot as int] is None,
        final(b)@.free.last() == slot,
        final(b)@.next == old(b)@.next && final(b)@.count == old(b)@.count,
{
}

/// A batch is started anew with as many requests as there are.
pub proof fn law_started_batches(b: &mut Batch, count: usize)
    requires
        batch::sound(old(b)@),
        old(b)@.done == old(b)@.count,
        call_ensures(Batch::start, (b, count), ()),
    ensures
        final(b)@.count == count,
        final(b)@.next == 0 && final(b)@.done == 0 && final(b)@.to_submit == 0,
        final(b)@.free == old(b)@.free,
        final(b)@.slots == old(b)@.slots,
{
}

/// A completion is accepted for a slot in use, when some request was submitted.
pub proof fn law_accepted_completions(b: &Batch, slot: u64, r: bool)
    requires
        batch::sound(b@),
        call_ensures(Batch::accepts, (b, slot), r),
    ensures
        slot >= b@.slots.len() ==> !r,
        slot < b@.slots.len() && b@.slots[slot as int] is None ==> !r,
        slot < b@.slots.len() && b@.slots[slot as int] is Some && b@.to_submit < batch::in_flight(
            b@.slots,
        ) ==> r,
        b@.to_submit == batch::in_flight(b@.slots) ==> !r,
{
}

// ── sweeps ──

/// A sweep starts at its root, with nothing found.
pub proof fn law_new_sweeps(root: &[u8], qd: u32, s: Sweep, r: (u64, u64, u32))
    requires
        qd > 0,
        call_ensures(Sweep::new, (root, qd), s),
        call_ensures(Sweep::result, (&s,), r),
    ensures
        r == (0u64, 0u64, 0u32),
        s@.queue == seq![0usize],
        s@.paths == seq![root@],
        s@.free.len() == qd,
        s@.slots.len() == qd,
{
}

/// What is queued is submitted first; then the directory that was found last is listed; then one
/// completion is waited for; and the sweep is done when nothing is left.
pub proof fn law_steps_of_sweeps(s: &mut Sweep, r: Step)
    requires
        old(s).consistent(),
        sweep::sound(old(s)@),
        call_ensures(Sweep::next, (s,), r),
    ensures
        old(s)@.to_submit > 0 ==> r == (Step::Enter { submit: old(s)@.to_submit as u32, wait: 0 }),
        old(s)@.to_submit == 0 && old(s)@.queue.len() > 0 ==> r is List && r->List_0@ == old(
            s,
        )@.paths[old(s)@.queue.last() as int] && final(s)@.queue == old(s)@.queue.drop_last(),
        old(s)@.to_submit == 0 && old(s)@.queue.len() == 0 && batch::in_flight(old(s)@.slots) > 0
            ==> r == (Step::Enter { submit: 0, wait: 1 }),
        old(s)@.to_submit == 0 && old(s)@.queue.len() == 0 && batch::in_flight(old(s)@.slots) == 0
            ==> r is Done,
        r is Enter ==> final(s)@.to_submit == 0,
        final(s)@.total == old(s)@.total && final(s)@.entries == old(s)@.entries,
        final(s)@.answered == old(s)@.answered && final(s)@.slots == old(s)@.slots,
{
}

/// The path of an entry is that of its directory and its name, with one slash between.
pub proof fn law_paths_of_entries(dir: Seq<u8>, name: Seq<u8>)
    ensures
        dir.len() == 0 || dir.last() != 47 ==> sweep::entry_path(dir, name) == dir + seq![47u8]
            + name,
        sweep::entry_path(dir.push(47), name) == dir + seq![47u8] + name,
{
    assert(dir.push(47) =~= dir + seq![47u8]);
    assert((dir.push(47)).last() == 47);
}

/// The kernel is given a path whole, up to 4095 bytes, and a zero byte behind it.
pub proof fn law_paths_for_the_kernel(path: Seq<u8>)
    ensures
        path.len() <= 4095 ==> sweep::request_path(path) == path.push(0),
        path.len() > 4095 ==> sweep::request_path(path).len() == 4096 && sweep::request_path(
            path,
        ).drop_last().is_prefix_of(path) && sweep::request_path(path).last() == 0,
{
    if path.len() > 4095 {
        let p = path.take(4095).push(0);
        assert(p.drop_last() =~= path.subrange(0, 4095));
    }
}

/// An entry is asked about in the free slot that was freed last. It counts at once; a directory is
/// remembered with its path, and anything else is not.
pub proof fn law_entries_of_sweeps(
    s: &mut Sweep,
    dir: &[u8],
    name: &[u8],
    d_type: u8,
    r: (u32, Vec<u8>),
)
    requires
        old(s).consistent(),
        sweep::sound(old(s)@),
        old(s)@.free.len() > 0,
        old(s)@.to_submit < 64,
        old(s)@.entries < u64::MAX,
        call_ensures(Sweep::add_entry, (s, dir, name, d_type), r),
    ensures
        r.0 == old(s)@.free.last(),
        r.1@ == sweep::request_path(sweep::entry_path(dir@, name@)),
        final(s)@.entries == old(s)@.entries + 1,
        final(s)@.to_submit == old(s)@.to_submit + 1,
        final(s)@.total == old(s)@.total,
        final(s)@.peak >= old(s)@.peak,
        final(s)@.peak >= batch::in_flight(old(s)@.slots) + 1,
        final(s)@.peak == old(s)@.peak || final(s)@.peak == batch::in_flight(old(s)@.slots) + 1,
        d_type == 4 ==> final(s)@.paths == old(s)@.paths.push(sweep::entry_path(dir@, name@))
            && final(s)@.slots[r.0 as int] == Some(Some(old(s)@.paths.len() as usize)),
        d_type != 4 ==> final(s)@.paths == old(s)@.paths && final(s)@.slots[r.0 as int] == Some(
            None::<usize>,
        ),
        final(s)@.queue == old(s)@.queue,
{
    let w = old(s)@;
    assert(w.free[w.free.len() - 1] < w.slots.len());
}

/// An answer adds its blocks, of 512 bytes each, and queues the directory that it is about; an
/// error adds nothing and queues nothing. Either way the slot is free again.
pub proof fn law_answers_of_sweeps(
    s: &mut Sweep,
    slot: u32,
    res: i32,
    blocks: u64,
    dir: Option<usize>,
)
    requires
        old(s).consistent(),
        sweep::sound(old(s)@),
        slot < old(s)@.slots.len(),
        old(s)@.slots[slot as int] == Some(dir),
        old(s)@.to_submit < batch::in_flight(old(s)@.slots),
        res == 0 ==> old(s)@.total + blocks * 512 <= u64::MAX,
        call_ensures(Sweep::complete, (s, slot, res, blocks), ()),
    ensures
        res == 0 ==> final(s)@.total == old(s)@.total + 512 * blocks,
        res != 0 ==> final(s)@.total == old(s)@.total,
        res == 0 && dir is Some ==> final(s)@.queue == old(s)@.queue.push(dir->0),
        res != 0 || dir is None ==> final(s)@.queue == old(s)@.queue,
        final(s)@.slots[slot as int] is None,
        final(s)@.free == old(s)@.free.push(slot),
        final(s)@.answered.len() == old(s)@.answered.len() + 1,
        final(s)@.entries == old(s)@.entries && final(s)@.peak == old(s)@.peak,
{
}

/// The queued requests are submitted when no slot is free, and when there are 64 of them.
pub proof fn law_submissions_of_sweeps(s: &mut Sweep, r: Option<u32>)
    requires
        old(s).consistent(),
        sweep::sound(old(s)@),
        call_ensures(Sweep::batch_is_full, (s,), r),
    ensures
        r is Some <==> old(s)@.to_submit == 64,
        r is Some ==> r->0 == 64 && final(s)@.to_submit == 0,
        r is None ==> final(s)@ == old(s)@,
{
}

/// Where no slot is free, what is queued is submitted; where one is, nothing changes.
pub proof fn law_sweeps_without_free_slots(s: &mut Sweep, r: Option<u32>)
    requires
        old(s).consistent(),
        sweep::sound(old(s)@),
        call_ensures(Sweep::starved, (s,), r),
    ensures
        r is Some <==> old(s)@.free.len() == 0,
        r is Some ==> r->0 == old(s)@.to_submit && final(s)@.to_submit == 0,
        r is None ==> final(s)@ == old(s)@,
{
}

/// The result of a sweep is its bytes, its entries, and the most requests that were in flight.
pub proof fn law_results_of_sweeps(s: &Sweep, r: (u64, u64, u32))
    requires
        call_ensures(Sweep::result, (s,), r),
    ensures
        r.0 == s@.total,
        r.1 == s@.entries,
        r.2 == s@.peak,
{
}

// ── responses ──

/// A stored response is the one used last, with its key, its body and its time.
pub proof fn law_stored_responses(c: &mut ScanCache, key: String, body: String, m: i128)
    requires
        call_ensures(ScanCache::store, (c, key, body, Some(m)), ()),
    ensures
        final(c)@.len() > 0,
        final(c)@.last().key == key@,
        final(c)@.last().body == body@,
        final(c)@.last().mtime == m,
{
}

/// A lookup is answered from what is kept only without force, and only where the response under the
/// key was stored at the time that is asked for; it is answered with the body of that response.
pub proof fn law_looked_up_responses(
    c: &mut ScanCache,
    key: &str,
    now: Option<i128>,
    force: bool,
    k: int,
    r: Option<String>,
)
    requires
        call_ensures(ScanCache::lookup, (c, key, now, force), r),
        0 <= k < old(c)@.len(),
        old(c)@[k].key == key@,
        forall|j: int| 0 <= j < k ==> (#[trigger] old(c)@[j]).key != key@,
    ensures
        r is Some <==> !force && now is Some && now->0 == old(c)@[k].mtime,
        r is Some ==> r->0@ == old(c)@[k].body && final(c)@.last() == old(c)@[k],
        r is None ==> final(c)@ == old(c)@,
{
    let v = old(c)@;
    crate::laws::keeping::law_positions_of_keys(v, key@);
    let p = crate::scan_cache::position(v, key@);
    assert(v[k].key == key@);
    assert(p == k) by {
        if p < k {
            assert(v[p].key != key@);
        }
        if p > k {
            assert(v[k].key != key@);
        }
    }
}

/// What is not kept is not served.
pub proof fn law_unknown_responses(
    c: &mut ScanCache,
    key: &str,
    now: Option<i128>,
    force: bool,
    r: Option<String>,
)
    requires
        call_ensures(ScanCache::lookup, (c, key, now, force), r),
        forall|j: int| 0 <= j < old(c)@.len() ==> (#[trigger] old(c)@[j]).key != key@,
    ensures
        r is None,
        final(c)@ == old(c)@,
{
    crate::laws::keeping::law_positions_of_keys(old(c)@, key@);
}

// ── lists ──

/// A source is put behind a comma, unless it is the first.
pub proof fn law_sources_are_put_in(
    out: &mut String,
    first: &mut bool,
    path: &str,
    fstype: &str,
    kind: &str,
    label: &str,
)
    requires
        call_ensures(sources::push_src, (out, first, path, fstype, kind, label), ()),
    ensures
        *old(first)
            ==> final(out)@ == old(out)@ + sources::source_text(path@, fstype@, kind@, label@),
        !*old(first) ==> final(out)@ == old(out)@ + seq![','] + sources::source_text(
            path@,
            fstype@,
            kind@,
            label@,
        ),
        !*final(first),
{
    assert(old(out)@ + Seq::<char>::empty() =~= old(out)@);
}

/// An answer is accepted for a slot in use, when some request was submitted, and while the bytes
/// can still be counted.
pub proof fn law_accepted_answers(s: &Sweep, slot: u64, res: i32, blocks: u64, r: bool)
    requires
        s.consistent(),
        call_ensures(Sweep::accepts, (s, slot, res, blocks), r),
    ensures
        slot >= s@.slots.len() ==> !r,
        slot < s@.slots.len() && s@.slots[slot as int] is None ==> !r,
        s@.to_submit >= batch::in_flight(s@.slots) ==> !r,
        res == 0 && s@.total + 512 * blocks > u64::MAX ==> !r,
        slot < s@.slots.len() && s@.slots[slot as int] is Some && s@.to_submit < batch::in_flight(
            s@.slots,
        ) && (res != 0 || s@.total + 512 * blocks <= u64::MAX) ==> r,
{
}

} // verus!
