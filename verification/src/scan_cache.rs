//! The cache of scan responses: a response is served again as long as the modification time of the
//! scanned directory is the one that was read when it was scanned.

use crate::arena::Cfg;
use crate::readback;
use crate::text;
use vstd::prelude::*;

verus! {

/// How many responses are kept.
pub const SCAN_CACHE_CAP: usize = 32;

/// A modification time in nanoseconds.
pub fn mtime_nanos(seconds: i64, nanoseconds: i64) -> (r: i128)
    ensures
        r == seconds * 1_000_000_000 + nanoseconds,
{
    seconds as i128 * 1_000_000_000 + nanoseconds as i128
}

/// The key of a scan: the path, and everything that shapes the response.
pub open spec fn key_text(path: Seq<char>, top: nat, depth: nat, apparent: bool) -> Seq<char> {
    path + "|t"@ + text::decimal(top) + "|d"@ + text::decimal(depth) + "|a"@ + text::decimal(
        if apparent {
            1
        } else {
            0
        },
    )
}

/// The key of a scan.
pub fn cache_key(path: &str, cfg: &Cfg) -> (r: String)
    ensures
        r@ == key_text(path@, cfg.top as nat, cfg.max_depth as nat, cfg.apparent),
{
    let mut r = String::new();
    r.append(path);
    r.append("|t");
    text::push_decimal(&mut r, cfg.top as u64);
    r.append("|d");
    text::push_decimal(&mut r, cfg.max_depth as u64);
    r.append("|a");
    text::push_decimal(
        &mut r,
        if cfg.apparent {
            1
        } else {
            0
        },
    );
    assert(r@ == key_text(path@, cfg.top as nat, cfg.max_depth as nat, cfg.apparent));
    r
}

/// Digits at the end of a text can be told from what stands before them.
proof fn lemma_digits_at_the_end(a: Seq<char>, c: char, d: Seq<char>, b: Seq<char>, e: Seq<char>)
    requires
        a + seq![c] + d == b + seq![c] + e,
        !text::is_digit(c),
        text::all_digits(d),
        text::all_digits(e),
    ensures
        a == b,
        d == e,
{
    let s = a + seq![c] + d;
    let u = b + seq![c] + e;
    if d.len() < e.len() {
        let i = s.len() - 1 - d.len();
        assert(s[i] == c);
        assert(u[i] == e[i - b.len() - 1]);
        assert(text::is_digit(e[i - b.len() - 1]));
    } else if e.len() < d.len() {
        let i = s.len() - 1 - e.len();
        assert(u[i] == c);
        assert(s[i] == d[i - a.len() - 1]);
        assert(text::is_digit(d[i - a.len() - 1]));
    }
    assert(s.take(a.len() as int) == a);
    assert(u.take(b.len() as int) == b);
    assert(s.skip(a.len() as int + 1) == d);
    assert(u.skip(b.len() as int + 1) == e);
}

proof fn lemma_decimal_at_the_end(a: Seq<char>, c: char, m: nat, b: Seq<char>, n: nat)
    requires
        a + seq!['|', c] + text::decimal(m) == b + seq!['|', c] + text::decimal(n),
        !text::is_digit(c),
    ensures
        a == b,
        m == n,
{
    readback::law_decimal_reads_back(m);
    readback::law_decimal_reads_back(n);
    let x = a.push('|');
    let y = b.push('|');
    assert(a + seq!['|', c] + text::decimal(m) == x + seq![c] + text::decimal(m));
    assert(b + seq!['|', c] + text::decimal(n) == y + seq![c] + text::decimal(n));
    lemma_digits_at_the_end(x, c, text::decimal(m), y, text::decimal(n));
    assert(x.drop_last() == a);
    assert(y.drop_last() == b);
}

/// Scans of different paths, or with different settings, never share a key.
pub proof fn law_keys_are_distinct(
    path: Seq<char>,
    top: nat,
    depth: nat,
    apparent: bool,
    path2: Seq<char>,
    top2: nat,
    depth2: nat,
    apparent2: bool,
)
    requires
        key_text(path, top, depth, apparent) == key_text(path2, top2, depth2, apparent2),
    ensures
        path == path2,
        top == top2,
        depth == depth2,
        apparent == apparent2,
{
    reveal_strlit("|t");
    reveal_strlit("|d");
    reveal_strlit("|a");
    assert("|t"@ == seq!['|', 't']);
    assert("|d"@ == seq!['|', 'd']);
    assert("|a"@ == seq!['|', 'a']);
    let a: nat = if apparent {
        1
    } else {
        0
    };
    let a2: nat = if apparent2 {
        1
    } else {
        0
    };
    let p = path + "|t"@ + text::decimal(top);
    let p2 = path2 + "|t"@ + text::decimal(top2);
    let q = p + "|d"@ + text::decimal(depth);
    let q2 = p2 + "|d"@ + text::decimal(depth2);
    lemma_decimal_at_the_end(q, 'a', a, q2, a2);
    lemma_decimal_at_the_end(p, 'd', depth, p2, depth2);
    lemma_decimal_at_the_end(path, 't', top, path2, top2);
}

/// A kept response.
struct Slot {
    key: String,
    body: String,
    mtime: i128,
}

/// A kept response as a mathematical value.
#[verifier::ext_equal]
pub struct SlotView {
    pub key: Seq<char>,
    pub body: Seq<char>,
    pub mtime: int,
}

/// The position of a key, or the number of responses.
pub open spec fn position(v: Seq<SlotView>, key: Seq<char>) -> int
    decreases v.len(),
{
    if v.len() == 0 || v[0].key == key {
        0
    } else {
        1 + position(v.drop_first(), key)
    }
}

/// Whether a response is kept under the key.
pub open spec fn keeps(v: Seq<SlotView>, key: Seq<char>) -> bool {
    position(v, key) < v.len()
}

/// The responses, from the one that was used longest ago to the one that was used last: no more than
/// there is room for, and one per key.
pub open spec fn sound(v: Seq<SlotView>) -> bool {
    &&& v.len() <= SCAN_CACHE_CAP
    &&& forall|i: int, j: int|
        0 <= i < j < v.len() ==> (#[trigger] v[i]).key != (#[trigger] v[j]).key
}

/// Whether the response under the key may be served when the modification time is `now`.
pub open spec fn is_fresh(v: Seq<SlotView>, key: Seq<char>, now: Option<i128>) -> bool {
    keeps(v, key) && now is Some && v[position(v, key)].mtime == now->0
}

/// The responses after the one at position `k` was used.
pub open spec fn used(v: Seq<SlotView>, k: int) -> Seq<SlotView> {
    v.remove(k).push(v[k])
}

/// The responses without what a new one under `key` displaces: the old one under the same key, or,
/// where there is no room, the one that was used longest ago.
pub open spec fn with_room(v: Seq<SlotView>, key: Seq<char>) -> Seq<SlotView> {
    if keeps(v, key) {
        v.remove(position(v, key))
    } else if v.len() >= SCAN_CACHE_CAP {
        v.remove(0)
    } else {
        v
    }
}

/// The time under which a response is kept: the modification time of what was scanned, or, where it is
/// not known, the least there is.
pub open spec fn slot_time(now: Option<i128>) -> int {
    match now {
        Some(m) => m as int,
        None => i128::MIN as int,
    }
}

/// The responses after a new one was stored.
pub open spec fn stored(v: Seq<SlotView>, s: SlotView) -> Seq<SlotView> {
    with_room(v, s.key).push(s)
}

proof fn lemma_position(v: Seq<SlotView>, key: Seq<char>)
    ensures
        0 <= position(v, key) <= v.len(),
        position(v, key) < v.len() ==> v[position(v, key)].key == key,
        forall|i: int| 0 <= i < position(v, key) ==> (#[trigger] v[i]).key != key,
    decreases v.len(),
{
    if v.len() > 0 && v[0].key != key {
        lemma_position(v.drop_first(), key);
        assert forall|i: int| 0 <= i < position(v, key) implies (#[trigger] v[i]).key != key by {
            if i > 0 {
                assert(v.drop_first()[i - 1] == v[i]);
            }
        }
    }
}

proof fn lemma_position_is(v: Seq<SlotView>, key: Seq<char>, k: int)
    requires
        0 <= k <= v.len(),
        k < v.len() ==> v[k].key == key,
        forall|i: int| 0 <= i < k ==> (#[trigger] v[i]).key != key,
    ensures
        position(v, key) == k,
{
    lemma_position(v, key);
    if position(v, key) < k {
        assert(v[position(v, key)].key != key);
    }
}

proof fn lemma_remove_sound(v: Seq<SlotView>, k: int)
    requires
        sound(v),
        0 <= k < v.len(),
    ensures
        sound(v.remove(k)),
        forall|i: int| 0 <= i < v.remove(k).len() ==> (#[trigger] v.remove(k)[i]).key != v[k].key,
{
    let w = v.remove(k);
    assert forall|i: int| 0 <= i < w.len() implies #[trigger] w[i] == v[if i < k {
        i
    } else {
        i + 1
    }] by {}
    assert forall|i: int, j: int| 0 <= i < j < w.len() implies (#[trigger] w[i]).key != (
    #[trigger] w[j]).key by {
        let a = if i < k {
            i
        } else {
            i + 1
        };
        let b = if j < k {
            j
        } else {
            j + 1
        };
        assert(v[a].key != v[b].key);
    }
    assert forall|i: int| 0 <= i < w.len() implies (#[trigger] w[i]).key != v[k].key by {
        let a = if i < k {
            i
        } else {
            i + 1
        };
        assert(v[a].key != v[k].key);
    }
}

/// Using a response keeps all responses, and storing one keeps the cache within its bounds.
pub proof fn law_cache_stays_sound(v: Seq<SlotView>, s: SlotView)
    requires
        sound(v),
    ensures
        sound(stored(v, s)),
        keeps(v, s.key) ==> sound(used(v, position(v, s.key))),
{
    lemma_position(v, s.key);
    let k = position(v, s.key);
    let w = with_room(v, s.key);
    if keeps(v, s.key) {
        lemma_remove_sound(v, k);
        let u = used(v, k);
        assert forall|i: int, j: int| 0 <= i < j < u.len() implies (#[trigger] u[i]).key != (
        #[trigger] u[j]).key by {
            assert(u[i] == v.remove(k)[i]);
        }
    } else if v.len() >= SCAN_CACHE_CAP {
        lemma_remove_sound(v, 0);
        assert forall|i: int| 0 <= i < w.len() implies (#[trigger] w[i]).key != s.key by {
            assert(w[i] == v[i + 1]);
        }
    }
    let n = stored(v, s);
    assert forall|i: int, j: int| 0 <= i < j < n.len() implies (#[trigger] n[i]).key != (
    #[trigger] n[j]).key by {
        assert(n[i] == w[i]);
    }
}

/// What was stored is served, exactly as long as the modification time is the one that was stored:
/// another one, or none because the directory is gone, is a miss.
pub proof fn law_stored_is_served_while_unchanged(
    v: Seq<SlotView>,
    s: SlotView,
    now: Option<i128>,
)
    requires
        sound(v),
    ensures
        keeps(stored(v, s), s.key),
        stored(v, s)[position(stored(v, s), s.key)] == s,
        is_fresh(stored(v, s), s.key, now) <==> (now is Some && now->0 == s.mtime),
{
    lemma_position(v, s.key);
    let w = with_room(v, s.key);
    let n = stored(v, s);
    if keeps(v, s.key) {
        lemma_remove_sound(v, position(v, s.key));
    } else if v.len() >= SCAN_CACHE_CAP {
        assert forall|i: int| 0 <= i < w.len() implies (#[trigger] w[i]).key != s.key by {
            assert(w[i] == v[i + 1]);
        }
    }
    assert forall|i: int| 0 <= i < w.len() implies (#[trigger] n[i]).key != s.key by {
        assert(n[i] == w[i]);
    }
    lemma_position_is(n, s.key, w.len() as int);
}

/// Storing a response displaces no response under another key but, where there is no room, the one
/// that was used longest ago.
pub proof fn law_storing_keeps_the_others(v: Seq<SlotView>, s: SlotView, i: int)
    requires
        sound(v),
        0 <= i < v.len(),
        v[i].key != s.key,
        i > 0 || v.len() < SCAN_CACHE_CAP || keeps(v, s.key),
    ensures
        stored(v, s).contains(v[i]),
{
    lemma_position(v, s.key);
    let n = stored(v, s);
    let k = position(v, s.key);
    if keeps(v, s.key) {
        let j = if i < k {
            i
        } else {
            i - 1
        };
        assert(n[j] == v[i]);
    } else if v.len() >= SCAN_CACHE_CAP {
        assert(n[i - 1] == v[i]);
    } else {
        assert(n[i] == v[i]);
    }
}

/// The cache of scan responses.
pub struct ScanCache {
    slots: Vec<Slot>,
}

impl View for ScanCache {
    type V = Seq<SlotView>;

    closed spec fn view(&self) -> Seq<SlotView> {
        Seq::new(
            self.slots@.len(),
            |i: int|
                SlotView {
                    key: self.slots@[i].key@,
                    body: self.slots@[i].body@,
                    mtime: self.slots@[i].mtime as int,
                },
        )
    }
}

impl ScanCache {
    #[verifier::type_invariant]
    spec fn well_formed(&self) -> bool {
        sound(self@)
    }

    /// An empty cache.
    pub fn new() -> (r: ScanCache)
        ensures
            r@ == Seq::<SlotView>::empty(),
    {
        let r = ScanCache { slots: Vec::new() };
        assert(r@ == Seq::<SlotView>::empty());
        r
    }

    /// How many responses are kept; never more than there is room for.
    pub fn len(&self) -> (r: usize)
        ensures
            r == self@.len(),
            r <= SCAN_CACHE_CAP,
    {
        proof {
            use_type_invariant(self);
        }
        self.slots.len()
    }

    /// The position of a key, or the number of responses.
    fn find(&self, key: &str) -> (r: usize)
        ensures
            r == position(self@, key@),
            r <= self@.len(),
    {
        let wanted = key.to_string();
        let mut i: usize = 0;
        while i < self.slots.len()
            invariant
                i <= self.slots@.len(),
                wanted@ == key@,
                forall|k: int| 0 <= k < i ==> (#[trigger] self@[k]).key != key@,
            decreases self.slots@.len() - i,
        {
            assert(self@[i as int].key == self.slots@[i as int].key@);
            if self.slots[i].key == wanted {
                proof {
                    lemma_position_is(self@, key@, i as int);
                }
                return i;
            }
            i = i + 1;
        }
        proof {
            lemma_position_is(self@, key@, i as int);
        }
        i
    }

    /// The response under `key`, where it may be served: a fresh one is, and counts as used; with
    /// `force` none is.
    pub fn lookup(&mut self, key: &str, now: Option<i128>, force: bool) -> (r: Option<String>)
        ensures
            match r {
                Some(body) => {
                    let k = position(old(self)@, key@);
                    &&& !force
                    &&& is_fresh(old(self)@, key@, now)
                    &&& body@ == old(self)@[k].body
                    &&& final(self)@ == used(old(self)@, k)
                },
                None => (force || !is_fresh(old(self)@, key@, now)) && final(self)@ == old(self)@,
            },
    {
        proof {
            use_type_invariant(&*self);
        }
        if force {
            return None;
        }
        let k = self.find(key);
        if k == self.slots.len() {
            return None;
        }
        let ghost before = self@;
        assert(before[k as int].mtime == self.slots@[k as int].mtime);
        let fresh = match now {
            Some(m) => m == self.slots[k].mtime,
            None => false,
        };
        if !fresh {
            return None;
        }
        let mut slots: Vec<Slot> = Vec::new();
        std::mem::swap(&mut slots, &mut self.slots);
        let s = slots.remove(k);
        let body = s.body.clone();
        slots.push(s);
        proof {
            law_cache_stays_sound(before, before[k as int]);
            lemma_position(before, key@);
            let c = ScanCache { slots: slots };
            assert(c@ == used(before, k as int));
        }
        self.slots = slots;
        Some(body)
    }

    /// Keeps a response, with the modification time that was read before the scan; where none could
    /// be read, with one that no directory has.
    pub fn store(&mut self, key: String, body: String, now: Option<i128>)
        ensures
            final(self)@ == stored(
                old(self)@,
                SlotView {
                    key: key@,
                    body: body@,
                    mtime: slot_time(now),
                },
            ),
    {
        proof {
            use_type_invariant(&*self);
        }
        let ghost before = self@;
        let mtime: i128 = match now {
            Some(m) => m,
            None => i128::MIN,
        };
        let ghost s = SlotView { key: key@, body: body@, mtime: mtime as int };
        let k = self.find(key.as_str());
        let mut slots: Vec<Slot> = Vec::new();
        std::mem::swap(&mut slots, &mut self.slots);
        if k < slots.len() {
            let _ = slots.remove(k);
        } else if slots.len() >= SCAN_CACHE_CAP {
            let _ = slots.remove(0);
        }
        slots.push(Slot { key: key, body: body, mtime: mtime });
        proof {
            law_cache_stays_sound(before, s);
            let c = ScanCache { slots: slots };
            assert(c@ == stored(before, s));
        }
        self.slots = slots;
    }
}

} // verus!
