//! The schedule of one batch of requests: which request goes into which slot, when the pending ones
//! are submitted, and when to wait.

use vstd::prelude::*;

verus! {

/// How many requests are queued before they are submitted.
pub const SUBMIT_AT: u32 = 128;

/// What to do next.
pub enum Action {
    /// Queue the request of entry `entry` in slot `slot`.
    Queue { slot: u32, entry: usize },
    /// Submit `submit` queued requests and wait for `wait` completions; then report every completion
    /// that is there.
    Enter { submit: u32, wait: u32 },
    /// Every request has completed.
    Finished,
}

/// A batch of requests over a fixed number of slots.
pub struct Batch {
    /// How many requests there are.
    count: usize,
    /// The first request that has not been queued.
    next: usize,
    /// How many requests have completed.
    done: usize,
    /// How many requests are queued and not submitted.
    to_submit: u32,
    /// The free slots.
    free: Vec<u32>,
    /// The request in each slot.
    slots: Vec<Option<usize>>,
}

/// A batch as a mathematical value.
pub struct BatchView {
    pub count: nat,
    pub next: nat,
    pub done: nat,
    pub to_submit: nat,
    pub free: Seq<u32>,
    pub slots: Seq<Option<usize>>,
}

/// How many slots hold a request.
pub open spec fn in_flight<T>(slots: Seq<Option<T>>) -> nat
    decreases slots.len(),
{
    if slots.len() == 0 {
        0
    } else {
        in_flight(slots.drop_last()) + if slots.last() is Some {
            1nat
        } else {
            0
        }
    }
}

/// Every request that was queued is either in exactly one slot or has completed, and every slot is
/// either free or holds a request.
pub open spec fn sound(b: BatchView) -> bool {
    &&& b.done <= b.next <= b.count <= usize::MAX
    &&& b.done + in_flight(b.slots) == b.next
    &&& b.to_submit <= in_flight(b.slots)
    &&& b.to_submit <= SUBMIT_AT
    &&& 0 < b.slots.len() <= u32::MAX
    &&& b.free.len() + in_flight(b.slots) == b.slots.len()
    &&& b.free.no_duplicates()
    &&& forall|i: int|
        0 <= i < b.free.len() ==> (#[trigger] b.free[i]) < b.slots.len()
            && b.slots[b.free[i] as int] is None
    &&& forall|s: int|
        0 <= s < b.slots.len() && (#[trigger] b.slots[s]) is Some ==> b.slots[s]->0 < b.next
    &&& forall|s: int, r: int|
        0 <= s < r < b.slots.len() && (#[trigger] b.slots[s]) is Some && (#[trigger] b.slots[r]) is Some
            ==> b.slots[s]->0 != b.slots[r]->0
}

/// Filling or freeing one slot changes the number by one.
pub proof fn lemma_in_flight_update<T>(slots: Seq<Option<T>>, s: int, v: Option<T>)
    requires
        0 <= s < slots.len(),
    ensures
        in_flight(slots.update(s, v)) == in_flight(slots) + (if v is Some {
            1int
        } else {
            0
        }) - (if slots[s] is Some {
            1int
        } else {
            0
        }),
    decreases slots.len(),
{
    let u = slots.update(s, v);
    if s == slots.len() - 1 {
        assert(u.drop_last() == slots.drop_last());
    } else {
        lemma_in_flight_update(slots.drop_last(), s, v);
        assert(u.drop_last() == slots.drop_last().update(s, v));
    }
}

/// Where every slot is free, nothing is in flight.
pub proof fn lemma_in_flight_none<T>(slots: Seq<Option<T>>)
    requires
        forall|s: int| 0 <= s < slots.len() ==> (#[trigger] slots[s]) is None,
    ensures
        in_flight(slots) == 0,
    decreases slots.len(),
{
    if slots.len() > 0 {
        lemma_in_flight_none(slots.drop_last());
    }
}

/// Where a slot is taken, something is in flight.
pub proof fn lemma_in_flight_some<T>(slots: Seq<Option<T>>, s: int)
    requires
        0 <= s < slots.len(),
        slots[s] is Some,
    ensures
        in_flight(slots) > 0,
    decreases slots.len(),
{
    if s < slots.len() - 1 {
        lemma_in_flight_some(slots.drop_last(), s);
    }
}

/// When the batch is finished, every request has completed and no slot is taken.
pub proof fn law_finished_is_complete(b: BatchView)
    requires
        sound(b),
        b.done == b.count,
    ensures
        b.next == b.count,
        b.free.len() == b.slots.len(),
        forall|s: int| 0 <= s < b.slots.len() ==> (#[trigger] b.slots[s]) is None,
{
    assert forall|s: int| 0 <= s < b.slots.len() implies (#[trigger] b.slots[s]) is None by {
        if b.slots[s] is Some {
            lemma_in_flight_some(b.slots, s);
        }
    }
}

impl View for Batch {
    type V = BatchView;

    closed spec fn view(&self) -> BatchView {
        BatchView {
            count: self.count as nat,
            next: self.next as nat,
            done: self.done as nat,
            to_submit: self.to_submit as nat,
            free: self.free@,
            slots: self.slots@,
        }
    }
}

impl Batch {
    /// A batch without requests, over `qd` slots.
    pub fn new(qd: u32) -> (r: Batch)
        requires
            qd > 0,
        ensures
            sound(r@),
            r@ == (BatchView {
                count: 0,
                next: 0,
                done: 0,
                to_submit: 0,
                free: Seq::new(qd as nat, |i: int| (qd - 1 - i) as u32),
                slots: Seq::new(qd as nat, |i: int| None),
            }),
    {
        let mut free: Vec<u32> = Vec::new();
        let mut slots: Vec<Option<usize>> = Vec::new();
        let mut k: u32 = qd;
        while k > 0
            invariant
                k <= qd,
                free@.len() == qd - k,
                slots@.len() == qd - k,
                forall|i: int| 0 <= i < free@.len() ==> #[trigger] free@[i] == qd - 1 - i,
                forall|i: int| 0 <= i < slots@.len() ==> (#[trigger] slots@[i]) is None,
            decreases k,
        {
            k = k - 1;
            free.push(k);
            slots.push(None);
        }
        let r = Batch { count: 0, next: 0, done: 0, to_submit: 0, free: free, slots: slots };
        proof {
            lemma_in_flight_none(r.slots@);
            assert(r.free@.no_duplicates());
            assert(r.free@ == Seq::new(qd as nat, |i: int| (qd - 1 - i) as u32));
            assert(r.slots@ == Seq::new(qd as nat, |i: int| None::<usize>));
        }
        r
    }

    /// Starts a batch of `count` requests on the slots of a finished one.
    pub fn start(&mut self, count: usize)
        requires
            sound(old(self)@),
            old(self)@.done == old(self)@.count,
        ensures
            sound(final(self)@),
            final(self)@ == (BatchView {
                count: count as nat,
                next: 0,
                done: 0,
                to_submit: 0,
                free: old(self)@.free,
                slots: old(self)@.slots,
            }),
    {
        proof {
            law_finished_is_complete(self@);
            lemma_in_flight_none(self.slots@);
        }
        self.count = count;
        self.next = 0;
        self.done = 0;
        self.to_submit = 0;
    }

    /// The next thing to do. Requests are queued in order, each once, while there is a free slot;
    /// `SUBMIT_AT` of them are submitted at once; where no slot is free or no request is left, the
    /// pending ones are submitted and one completion is waited for, which only happens while a
    /// request is in flight.
    pub fn step(&mut self) -> (r: Action)
        requires
            sound(old(self)@),
        ensures
            sound(final(self)@),
            final(self)@.count == old(self)@.count,
            final(self)@.done == old(self)@.done,
            r is Finished <==> old(self)@.done == old(self)@.count,
            match r {
                Action::Finished => final(self)@ == old(self)@,
                Action::Enter { submit, wait } => {
                    &&& submit == old(self)@.to_submit
                    &&& final(self)@ == (BatchView { to_submit: 0, ..old(self)@ })
                    &&& wait == (if old(self)@.to_submit >= SUBMIT_AT {
                        0
                    } else {
                        1int
                    })
                    &&& wait == 1 ==> (old(self)@.next == old(self)@.count
                        || old(self)@.free.len() == 0) && in_flight(old(self)@.slots) > 0
                },
                Action::Queue { slot, entry } => {
                    &&& old(self)@.to_submit < SUBMIT_AT
                    &&& old(self)@.next < old(self)@.count
                    &&& old(self)@.free.len() > 0
                    &&& slot == old(self)@.free.last()
                    &&& entry == old(self)@.next
                    &&& final(self)@ == (BatchView {
                        next: old(self)@.next + 1,
                        to_submit: old(self)@.to_submit + 1,
                        free: old(self)@.free.drop_last(),
                        slots: old(self)@.slots.update(slot as int, Some(entry)),
                        ..old(self)@
                    })
                },
            },
    {
        if self.done == self.count {
            return Action::Finished;
        }
        if self.to_submit >= SUBMIT_AT {
            let submit = self.to_submit;
            self.to_submit = 0;
            return Action::Enter { submit: submit, wait: 0 };
        }
        if self.next < self.count && self.free.len() > 0 {
            let ghost before = self@;
            let entry = self.next;
            let slot = self.free[self.free.len() - 1];
            proof {
                assert(before.slots[before.free[before.free.len() - 1] as int] is None);
                lemma_in_flight_update(before.slots, slot as int, Some(entry));
            }
            let _ = self.free.pop();
            self.slots[slot as usize] = Some(entry);
            self.to_submit = self.to_submit + 1;
            self.next = self.next + 1;
            proof {
                let b = self@;
                assert(b.free == before.free.drop_last());
                assert(b.slots == before.slots.update(slot as int, Some(entry)));
                assert forall|i: int| 0 <= i < b.free.len() implies (#[trigger] b.free[i])
                    < b.slots.len() && b.slots[b.free[i] as int] is None by {
                    assert(before.free[i] == b.free[i]);
                    assert(before.slots[before.free[i] as int] is None);
                    assert(before.free[i] != before.free[before.free.len() - 1]);
                }
                assert(b.free.no_duplicates()) by {
                    assert forall|i: int, j: int|
                        0 <= i < j < b.free.len() implies b.free[i] != b.free[j] by {
                        assert(before.free[i] != before.free[j]);
                    }
                }
                assert forall|s: int, r: int|
                    0 <= s < r < b.slots.len() && (#[trigger] b.slots[s]) is Some && (
                    #[trigger] b.slots[r]) is Some implies b.slots[s]->0 != b.slots[r]->0 by {
                    if s == slot {
                        assert(before.slots[r] is Some);
                    } else if r == slot {
                        assert(before.slots[s] is Some);
                    } else {
                        assert(before.slots[s] is Some && before.slots[r] is Some);
                    }
                }
                assert forall|s: int|
                    0 <= s < b.slots.len() && (#[trigger] b.slots[s]) is Some implies b.slots[s]->0
                    < b.next by {
                    if s != slot {
                        assert(before.slots[s] is Some);
                    }
                }
            }
            return Action::Queue { slot: slot, entry: entry };
        }
        let submit = self.to_submit;
        self.to_submit = 0;
        Action::Enter { submit: submit, wait: 1 }
    }

    /// Whether the completion of slot `slot` can be taken: the slot holds a request, and not all
    /// requests in flight still wait to be submitted.
    pub fn accepts(&self, slot: u64) -> (r: bool)
        requires
            sound(self@),
        ensures
            r == (slot < self@.slots.len() && self@.slots[slot as int] is Some && self@.to_submit
                < in_flight(self@.slots)),
    {
        slot < self.slots.len() as u64 && self.slots[slot as usize].is_some() && (
        self.to_submit as usize) < self.next - self.done
    }

    /// The request in slot `slot` has completed: the slot is free again. Returns the request.
    pub fn complete(&mut self, slot: u32) -> (r: usize)
        requires
            sound(old(self)@),
            slot < old(self)@.slots.len(),
            old(self)@.slots[slot as int] is Some,
            old(self)@.to_submit < in_flight(old(self)@.slots),
        ensures
            sound(final(self)@),
            old(self)@.slots[slot as int] == Some(r),
            r < old(self)@.next,
            final(self)@ == (BatchView {
                done: old(self)@.done + 1,
                free: old(self)@.free.push(slot),
                slots: old(self)@.slots.update(slot as int, None),
                ..old(self)@
            }),
    {
        let ghost before = self@;
        let entry: usize = match self.slots[slot as usize] {
            Some(e) => e,
            None => 0,
        };
        proof {
            lemma_in_flight_update(before.slots, slot as int, None);
        }
        self.slots[slot as usize] = None;
        self.free.push(slot);
        self.done = self.done + 1;
        proof {
            let b = self@;
            assert(b.slots == before.slots.update(slot as int, None));
            assert(b.free == before.free.push(slot));
            assert forall|i: int| 0 <= i < b.free.len() implies (#[trigger] b.free[i])
                < b.slots.len() && b.slots[b.free[i] as int] is None by {
                if i < before.free.len() {
                    assert(before.slots[before.free[i] as int] is None);
                }
            }
            assert(b.free.no_duplicates()) by {
                assert forall|i: int, j: int| 0 <= i < j < b.free.len() implies b.free[i]
                    != b.free[j] by {
                    assert(before.slots[before.free[i] as int] is None);
                }
            }
            assert forall|s: int, r: int|
                0 <= s < r < b.slots.len() && (#[trigger] b.slots[s]) is Some && (
                #[trigger] b.slots[r]) is Some implies b.slots[s]->0 != b.slots[r]->0 by {
                assert(before.slots[s] is Some && before.slots[r] is Some);
            }
            assert forall|s: int|
                0 <= s < b.slots.len() && (#[trigger] b.slots[s]) is Some implies b.slots[s]->0
                < b.next by {
                assert(before.slots[s] is Some);
            }
        }
        entry
    }
}

} // verus!
