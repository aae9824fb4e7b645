//! The merges that every piece of state goes through, and the two carriers that the emitters use:
//! the byte accumulator `Acc` and the compressed children adjacency `Csr`.
//!
//! There is one operation on a table, `insert_with`: the merge `f(new, old)` is the only freedom.

use crate::escape;
use crate::text;
use std::collections::{BTreeMap, HashMap};
use vstd::prelude::*;

verus! {

/// The hash table.
pub type HMap<K, V> = HashMap<K, V>;

/// The ordered table: the same operation, with an ordered walk over the keys.
pub type OMap<K, V> = BTreeMap<K, V>;

/// Updates `k` by merging the new value with the old one, if there is one: `f(new, old)`.
///
/// The contract speaks of key types whose hash and equality are those of the value itself.
pub fn insert_with<K: Eq + std::hash::Hash, V, F: FnOnce(V, &V) -> V>(
    map: &mut HMap<K, V>,
    k: K,
    v: V,
    f: F,
)
    requires
        vstd::std_specs::hash::obeys_key_model::<K>() && old(map)@.contains_key(k) ==> f.requires(
            (v, &old(map)@[k]),
        ),
        !vstd::std_specs::hash::obeys_key_model::<K>() ==> forall|o: V|
            #[trigger] f.requires((v, &o)),
    ensures
        vstd::std_specs::hash::obeys_key_model::<K>() ==> if old(map)@.contains_key(k) {
            &&& f.ensures((v, &old(map)@[k]), final(map)@[k])
            &&& final(map)@ == old(map)@.insert(k, final(map)@[k])
        } else {
            final(map)@ == old(map)@.insert(k, v)
        },
{
    let merged = match map.get(&k) {
        Some(o) => f(v, o),
        None => v,
    };
    map.insert(k, merged);
}

/// `insert_with` on the ordered table.
pub fn insert_with_ord<K: Ord, V, F: FnOnce(V, &V) -> V>(map: &mut OMap<K, V>, k: K, v: V, f: F)
    requires
        vstd::laws_cmp::obeys_cmp::<K>() && old(map)@.contains_key(k) ==> f.requires(
            (v, &old(map)@[k]),
        ),
        !vstd::laws_cmp::obeys_cmp::<K>() ==> forall|o: V| #[trigger] f.requires((v, &o)),
    ensures
        vstd::laws_cmp::obeys_cmp::<K>() ==> if old(map)@.contains_key(k) {
            &&& f.ensures((v, &old(map)@[k]), final(map)@[k])
            &&& final(map)@ == old(map)@.insert(k, final(map)@[k])
        } else {
            final(map)@ == old(map)@.insert(k, v)
        },
{
    let merged = match map.get(&k) {
        Some(o) => f(v, o),
        None => v,
    };
    map.insert(k, merged);
}

/// The idempotent merge: once in, in.
pub fn set_merge(new: bool, old: &bool) -> (r: bool)
    ensures
        r == (new || *old),
{
    new || *old
}

/// Merging into a set is idempotent, and the order of the merges does not matter.
pub proof fn law_set_merge_is_idempotent(a: bool, b: bool, ab: bool, again: bool, ba: bool)
    requires
        call_ensures(set_merge, (a, &b), ab),
        call_ensures(set_merge, (a, &ab), again),
        call_ensures(set_merge, (b, &a), ba),
    ensures
        again == ab,
        ba == ab,
{
}

/// First write wins.
pub fn first_merge<A: Clone>(_new: A, old: &A) -> (r: A)
    ensures
        cloned::<A>(*old, r),
{
    old.clone()
}

/// Last write wins.
pub fn map_merge<A>(new: A, _old: &A) -> (r: A)
    ensures
        r == new,
{
    new
}

/// The additive merge.
pub fn acc_merge_add<A: Copy + std::ops::Add<Output = A>>(new: A, old: &A) -> (r: A)
    requires
        vstd::std_specs::ops::AddSpec::add_req(*old, new),
    ensures
        <A as vstd::std_specs::ops::AddSpec>::obeys_add_spec() ==> r
            == vstd::std_specs::ops::AddSpec::add_spec(*old, new),
{
    *old + new
}

/// Adding up is a monoid: 0 changes nothing, and neither the order nor the grouping matters.
pub proof fn law_acc_merge_add_is_a_monoid(
    a: u64,
    b: u64,
    c: u64,
    ab: u64,
    ba: u64,
    bc: u64,
    abc: u64,
    cba: u64,
    zero: u64,
)
    requires
        call_ensures(acc_merge_add::<u64>, (a, &b), ab),
        call_ensures(acc_merge_add::<u64>, (b, &a), ba),
        call_ensures(acc_merge_add::<u64>, (b, &c), bc),
        call_ensures(acc_merge_add::<u64>, (a, &bc), abc),
        call_ensures(acc_merge_add::<u64>, (ab, &c), cba),
        call_ensures(acc_merge_add::<u64>, (0u64, &a), zero),
        a + b + c <= u64::MAX,
    ensures
        ab == ba,
        abc == cba,
        zero == a,
{
}

/// The maximum merge: the new value where it is greater than the old one, else the old one.
pub fn acc_merge_max<A: Copy + PartialOrd>(new: A, old: &A) -> (r: A)
    ensures
        exists|greater: bool|
            #[trigger] call_ensures(A::gt, (&new, old), greater) && r == if greater {
                new
            } else {
                *old
            },
{
    if new.gt(old) {
        new
    } else {
        *old
    }
}

/// The linking merge: the old links, then the new ones.
pub fn link_merge<E: Clone>(new: Vec<E>, old: &[E]) -> (r: Vec<E>)
    ensures
        r@.len() == old@.len() + new@.len(),
        forall|i: int| 0 <= i < old@.len() ==> cloned::<E>(#[trigger] old@[i], r@[i]),
        r@.skip(old@.len() as int) == new@,
{
    let mut v: Vec<E> = Vec::new();
    for i in 0..old.len()
        invariant
            v@.len() == i,
            forall|j: int| 0 <= j < i ==> cloned::<E>(#[trigger] old@[j], v@[j]),
    {
        v.push(old[i].clone());
    }
    let mut new = new;
    let ghost head = v@;
    let ghost new_links = new@;
    v.append(&mut new);
    assert(v@.skip(head.len() as int) == new_links);
    v
}

/// One way in which `op` can be driven over `xs` from the right: `accs[i]` is what stands after
/// the elements from `i` on have been folded in.
pub open spec fn fold_run<A, B, F: Fn(&A, B) -> B>(op: F, init: B, xs: Seq<A>, accs: Seq<B>) -> bool {
    &&& accs.len() == xs.len() + 1
    &&& accs.last() == init
    &&& forall|i: int|
        0 <= i < xs.len() ==> #[trigger] op.ensures((&xs[i], accs[i + 1]), accs[i])
}

/// `inv` holds of the initial value and keeps `op` callable all the way down to the first element.
pub open spec fn fold_safe<A, B, F: Fn(&A, B) -> B>(
    op: F,
    init: B,
    xs: Seq<A>,
    inv: spec_fn(int, B) -> bool,
) -> bool {
    &&& inv(xs.len() as int, init)
    &&& forall|i: int, b: B|
        0 <= i < xs.len() && #[trigger] inv(i + 1, b) ==> op.requires((&xs[i], b))
    &&& forall|i: int, b: B, c: B|
        0 <= i < xs.len() && inv(i + 1, b) && #[trigger] op.ensures((&xs[i], b), c) ==> inv(i, c)
}

/// The right fold: `op(x0, op(x1, .. op(xn, init)))`.
pub fn fold<A, B, F: Fn(&A, B) -> B>(op: F, init: B, xs: &[A]) -> (r: B)
    requires
        exists|inv: spec_fn(int, B) -> bool| #[trigger] fold_safe(op, init, xs@, inv),
    ensures
        exists|accs: Seq<B>| #[trigger] fold_run(op, init, xs@, accs) && accs[0] == r,
{
    let ghost inv = choose|inv: spec_fn(int, B) -> bool| #[trigger] fold_safe(op, init, xs@, inv);
    let mut acc = init;
    let mut i: usize = xs.len();
    let ghost mut accs = seq![init];
    while i > 0
        invariant
            i <= xs@.len(),
            fold_safe(op, init, xs@, inv),
            inv(i as int, acc),
            accs.len() == xs@.len() - i + 1,
            accs[0] == acc,
            accs.last() == init,
            forall|j: int|
                i <= j < xs@.len() ==> #[trigger] op.ensures(
                    (&xs@[j], accs[j + 1 - i]),
                    accs[j - i],
                ),
        decreases i,
    {
        let ghost prev = accs;
        let ghost b = acc;
        assert(inv((i - 1) + 1, b));
        acc = op(&xs[i - 1], acc);
        i = i - 1;
        proof {
            accs = seq![acc] + prev;
            assert(op.ensures((&xs@[i as int], b), acc));
            assert forall|j: int| i <= j < xs@.len() implies #[trigger] op.ensures(
                (&xs@[j], accs[j + 1 - i]),
                accs[j - i],
            ) by {
                if j > i {
                    assert(op.ensures((&xs@[j], prev[j + 1 - (i + 1)]), prev[j - (i + 1)]));
                }
            }
        }
    }
    proof {
        assert forall|j: int| 0 <= j < xs@.len() implies #[trigger] op.ensures(
            (&xs@[j], accs[j + 1]),
            accs[j],
        ) by {
            assert(op.ensures((&xs@[j], accs[j + 1 - 0]), accs[j - 0]));
        }
        assert(fold_run(op, init, xs@, accs));
    }
    acc
}

// ── the byte accumulator ──

/// The byte accumulator: one buffer that a serialization is appended to.
pub struct Acc {
    buf: Vec<u8>,
}

impl View for Acc {
    type V = Seq<u8>;

    closed spec fn view(&self) -> Seq<u8> {
        self.buf@
    }
}

impl Acc {
    /// An empty accumulator with room for `n` bytes.
    pub fn with_capacity(n: usize) -> (r: Acc)
        ensures
            r@ == Seq::<u8>::empty(),
    {
        Acc { buf: Vec::with_capacity(n) }
    }

    /// Appends one byte.
    pub fn byte(&mut self, b: u8) -> (r: &mut Self)
        ensures
            r@ == old(self)@.push(b),
            *final(self) == *final(r),
    {
        self.buf.push(b);
        self
    }

    /// Appends bytes.
    pub fn bytes(&mut self, s: &[u8]) -> (r: &mut Self)
        ensures
            r@ == old(self)@ + s@,
            *final(self) == *final(r),
    {
        self.buf.extend_from_slice(s);
        assert(self.buf@ == old(self)@ + s@);
        self
    }

    /// Appends the UTF-8 encoding of a text.
    pub fn str(&mut self, s: &str) -> (r: &mut Self)
        ensures
            r@ == old(self)@ + vstd::utf8::encode_utf8(s@),
            *final(self) == *final(r),
    {
        self.bytes(s.as_bytes())
    }

    /// Appends the numeral of `v` in base `radix`, most significant digit first.
    fn radix(&mut self, v: u64, radix: u64) -> (r: &mut Self)
        requires
            2 <= radix <= 16,
        ensures
            r@ == old(self)@ + vstd::utf8::encode_utf8(text::radix_text(v as nat, radix as nat)),
            *final(self) == *final(r),
    {
        let mut low: Vec<u8> = Vec::new();
        let mut r: u64 = v;
        let ghost whole = vstd::utf8::encode_utf8(text::radix_text(v as nat, radix as nat));
        while r >= radix
            invariant
                2 <= radix <= 16,
                whole == vstd::utf8::encode_utf8(text::radix_text(r as nat, radix as nat))
                    + low@.reverse(),
            decreases r,
        {
            let ghost before = low@;
            let ghost high = text::radix_text(r as nat / radix as nat, radix as nat);
            let d = r % radix;
            low.push(escape::hex_digit(d as u8) as u8);
            proof {
                vstd::arithmetic::div_mod::lemma_div_decreases(r as int, radix as int);
                text::lemma_encode_push_ascii(high, text::digit_char(d as nat));
                assert(low@.reverse() == seq![text::digit_char(d as nat) as u8] + before.reverse());
            }
            r = r / radix;
        }
        let ghost before = low@;
        low.push(escape::hex_digit(r as u8) as u8);
        proof {
            text::lemma_encode_push_ascii(Seq::<char>::empty(), text::digit_char(r as nat));
            assert(Seq::<char>::empty().push(text::digit_char(r as nat)) == text::radix_text(
                r as nat,
                radix as nat,
            ));
            assert(low@.reverse() == whole);
        }
        let k = low.len();
        for i in 0..k
            invariant
                k == low@.len(),
                self@ == old(self)@ + low@.reverse().take(i as int),
        {
            self.buf.push(low[k - 1 - i]);
            assert(low@.reverse().take(i + 1) == low@.reverse().take(i as int).push(
                low@[k - 1 - i],
            ));
        }
        assert(low@.reverse().take(k as int) == whole);
        self
    }

    /// Appends the decimal numeral of `v`.
    pub fn u64(&mut self, v: u64) -> (r: &mut Self)
        ensures
            r@ == old(self)@ + vstd::utf8::encode_utf8(text::decimal(v as nat)),
            *final(self) == *final(r),
    {
        self.radix(v, 10)
    }

    /// Appends the octal numeral of `v`, without a prefix.
    pub fn oct(&mut self, v: u64) -> (r: &mut Self)
        ensures
            r@ == old(self)@ + vstd::utf8::encode_utf8(text::radix_text(v as nat, 8)),
            *final(self) == *final(r),
    {
        self.radix(v, 8)
    }

    /// Appends the lower-case hexadecimal numeral of `v`, without a prefix.
    pub fn hex(&mut self, v: u64) -> (r: &mut Self)
        ensures
            r@ == old(self)@ + vstd::utf8::encode_utf8(text::radix_text(v as nat, 16)),
            *final(self) == *final(r),
    {
        self.radix(v, 16)
    }

    /// Appends the UTF-8 encoding of one character.
    fn char(&mut self, c: char)
        ensures
            final(self)@ == old(self)@ + vstd::utf8::encode_utf8(seq![c]),
    {
        let v: u32 = c as u32;
        proof {
            text::lemma_encode_one(c);
        }
        if v <= 0x7F {
            self.buf.push((v & 0x7F) as u8);
        } else if v <= 0x7FF {
            self.buf.push(0xC0 | ((v >> 6) & 0x1F) as u8);
            self.buf.push(0x80 | (v & 0x3F) as u8);
        } else if v <= 0xFFFF {
            self.buf.push(0xE0 | ((v >> 12) & 0x0F) as u8);
            self.buf.push(0x80 | ((v >> 6) & 0x3F) as u8);
            self.buf.push(0x80 | (v & 0x3F) as u8);
        } else {
            self.buf.push(0xF0 | ((v >> 18) & 0x7) as u8);
            self.buf.push(0x80 | ((v >> 12) & 0x3F) as u8);
            self.buf.push(0x80 | ((v >> 6) & 0x3F) as u8);
            self.buf.push(0x80 | (v & 0x3F) as u8);
        }
        assert(self@ == old(self)@ + vstd::utf8::encode_scalar(v));
    }

    /// Appends an ASCII character.
    fn ascii(&mut self, c: char)
        requires
            c <= '\u{7f}',
        ensures
            final(self)@ == old(self)@ + vstd::utf8::encode_utf8(seq![c]),
    {
        proof {
            text::lemma_encode_push_ascii(Seq::<char>::empty(), c);
            assert(Seq::<char>::empty().push(c) == seq![c]);
        }
        self.buf.push(c as u8);
        assert(self@ == old(self)@ + vstd::utf8::encode_utf8(seq![c]));
    }

    /// Appends one character as a cache file holds it.
    fn cache_char(&mut self, c: char)
        ensures
            final(self)@ == old(self)@ + vstd::utf8::encode_utf8(escape::cache_char(c)),
    {
        if c <= ' ' || c == '%' {
            let v: u8 = c as u8;
            let hi = escape::hex_digit_upper(v / 16);
            let lo = escape::hex_digit_upper(v % 16);
            self.ascii('%');
            self.ascii(hi);
            self.ascii(lo);
            proof {
                text::lemma_encode_add(seq!['%'], seq![hi]);
                text::lemma_encode_add(seq!['%'] + seq![hi], seq![lo]);
                assert(seq!['%'] + seq![hi] + seq![lo] == escape::cache_char(c));
            }
        } else {
            self.char(c);
        }
    }

    /// Appends a text as a cache file holds it: a control character, a space or `%` becomes `%XX`,
    /// every other character is appended as it is.
    pub fn esc(&mut self, s: &str) -> (r: &mut Self)
        ensures
            r@ == old(self)@ + vstd::utf8::encode_utf8(escape::cache_escaped(s@)),
            *final(self) == *final(r),
    {
        for c in it: s.chars()
            invariant
                it.seq() == s@,
                self@ == old(self)@ + vstd::utf8::encode_utf8(
                    escape::cache_escaped(s@.take(it.index() as int)),
                ),
        {
            self.cache_char(c);
            proof {
                let k = it.index() as int;
                assert(s@.take(k + 1).drop_last() == s@.take(k));
                text::lemma_encode_add(escape::cache_escaped(s@.take(k)), escape::cache_char(c));
            }
        }
        assert(s@.take(s@.len() as int) == s@);
        self
    }

    /// Appends one character as it stands inside a JSON string.
    fn json_char(&mut self, c: char)
        ensures
            final(self)@ == old(self)@ + vstd::utf8::encode_utf8(escape::json_char(c)),
    {
        if c == '"' || c == '\\' || c == '\n' || c == '\r' || c == '\t' {
            let e: char = if c == '\n' {
                'n'
            } else if c == '\r' {
                'r'
            } else if c == '\t' {
                't'
            } else {
                c
            };
            self.ascii('\\');
            self.ascii(e);
            proof {
                text::lemma_encode_add(seq!['\\'], seq![e]);
                assert(seq!['\\'] + seq![e] == escape::json_char(c));
            }
        } else if c <= '\u{1f}' {
            let v: u8 = c as u8;
            let hi = escape::hex_digit(v / 16);
            let lo = escape::hex_digit(v % 16);
            self.str("\\u00");
            self.ascii(hi);
            self.ascii(lo);
            proof {
                reveal_strlit("\\u00");
                text::lemma_encode_add("\\u00"@, seq![hi]);
                text::lemma_encode_add("\\u00"@ + seq![hi], seq![lo]);
                assert("\\u00"@ + seq![hi] + seq![lo] == escape::json_char(c));
            }
        } else {
            self.char(c);
        }
    }

    /// Appends a text as it stands inside a JSON string.
    pub fn esc_json(&mut self, s: &str) -> (r: &mut Self)
        ensures
            r@ == old(self)@ + vstd::utf8::encode_utf8(escape::json_escaped(s@)),
            *final(self) == *final(r),
    {
        for c in it: s.chars()
            invariant
                it.seq() == s@,
                self@ == old(self)@ + vstd::utf8::encode_utf8(
                    escape::json_escaped(s@.take(it.index() as int)),
                ),
        {
            self.json_char(c);
            proof {
                let k = it.index() as int;
                assert(s@.take(k + 1).drop_last() == s@.take(k));
                text::lemma_encode_add(escape::json_escaped(s@.take(k)), escape::json_char(c));
            }
        }
        assert(s@.take(s@.len() as int) == s@);
        self
    }

    /// The bytes appended so far.
    pub fn as_slice(&self) -> (r: &[u8])
        ensures
            r@ == self@,
    {
        self.buf.as_slice()
    }

    /// The bytes appended so far, by value.
    pub fn into_bytes(self) -> (r: Vec<u8>)
        ensures
            r@ == self@,
    {
        self.buf
    }

    /// The bytes appended so far, read as UTF-8.
    pub fn into_string(self) -> (r: String)
        ensures
            r@ == text::utf8_text(self@),
    {
        text::text_from_utf8_lossy(self.buf.as_slice())
    }

    /// The number of bytes appended so far.
    pub fn len(&self) -> (r: usize)
        ensures
            r == self@.len(),
    {
        self.buf.len()
    }

    /// Whether nothing has been appended yet.
    pub fn is_empty(&self) -> (r: bool)
        ensures
            r == (self@.len() == 0),
    {
        self.buf.is_empty()
    }
}

// ── the children adjacency ──

/// The ids below `k` whose parent is `i`, in increasing order. Id 0 is the root and nobody's child.
pub open spec fn children_below(ps: Seq<usize>, i: int, k: int) -> Seq<usize>
    decreases k,
{
    if k <= 1 {
        seq![]
    } else {
        let rest = children_below(ps, i, k - 1);
        if ps[k - 1] == i {
            rest.push((k - 1) as usize)
        } else {
            rest
        }
    }
}

/// The children of `i`, in increasing order, where `ps[c]` is the parent of `c`.
pub open spec fn children(ps: Seq<usize>, i: int) -> Seq<usize> {
    children_below(ps, i, ps.len() as int)
}

/// Whether `ps` lists a parent of every id from 1 to `n`, as `parent` gives it.
pub open spec fn are_parents<F: Fn(usize) -> usize>(n: usize, parent: F, ps: Seq<usize>) -> bool {
    &&& ps.len() == n
    &&& forall|i: usize| 1 <= i < n ==> #[trigger] parent.ensures((i,), ps[i as int])
}

/// The children of every id.
pub open spec fn adjacency(ps: Seq<usize>) -> Seq<Seq<usize>> {
    Seq::new(ps.len(), |i: int| children(ps, i))
}

proof fn lemma_children_ignore_root(ps: Seq<usize>, qs: Seq<usize>, i: int, k: int)
    requires
        forall|j: int| 1 <= j < k ==> #[trigger] ps[j] == qs[j],
    ensures
        children_below(ps, i, k) == children_below(qs, i, k),
    decreases k,
{
    if k > 1 {
        lemma_children_ignore_root(ps, qs, i, k - 1);
    }
}

/// The root's own parent does not matter.
pub proof fn lemma_adjacency_ignores_root(ps: Seq<usize>, qs: Seq<usize>)
    requires
        ps.len() == qs.len(),
        forall|j: int| 1 <= j < ps.len() ==> #[trigger] ps[j] == qs[j],
    ensures
        adjacency(ps) == adjacency(qs),
{
    assert forall|i: int| 0 <= i < ps.len() implies #[trigger] adjacency(ps)[i] == adjacency(
        qs,
    )[i] by {
        lemma_children_ignore_root(ps, qs, i, ps.len() as int);
    }
}

/// A child is an id below the bound whose parent is `i`, and the list is increasing.
pub proof fn lemma_children_below(ps: Seq<usize>, i: int, k: int)
    requires
        0 <= k <= ps.len() <= usize::MAX,
    ensures
        forall|j: int|
            #![trigger children_below(ps, i, k)[j]]
            0 <= j < children_below(ps, i, k).len() ==> {
                let c = children_below(ps, i, k)[j];
                1 <= c < k && ps[c as int] == i
            },
        forall|a: int, b: int|
            0 <= a < b < children_below(ps, i, k).len() ==> children_below(ps, i, k)[a]
                < children_below(ps, i, k)[b],
    decreases k,
{
    if k > 1 {
        lemma_children_below(ps, i, k - 1);
        let rest = children_below(ps, i, k - 1);
        let all = children_below(ps, i, k);
        assert forall|j: int| #![trigger all[j]] 0 <= j < all.len() implies {
            let c = all[j];
            1 <= c < k && ps[c as int] == i
        } by {
            if j < rest.len() {
                assert(all[j] == rest[j]);
            }
        }
        assert forall|a: int, b: int| 0 <= a < b < all.len() implies all[a] < all[b] by {
            assert(all[a] == rest[a]);
            if b < rest.len() {
                assert(all[b] == rest[b]);
            }
        }
    }
}

/// Every id below the bound is in its parent's list.
pub proof fn lemma_children_complete(ps: Seq<usize>, c: int, k: int)
    requires
        1 <= c < k <= ps.len() <= usize::MAX,
    ensures
        children_below(ps, ps[c] as int, k).contains(c as usize),
    decreases k,
{
    let i = ps[c] as int;
    let rest = children_below(ps, i, k - 1);
    if c == k - 1 {
        assert(rest.push(c as usize)[rest.len() as int] == c as usize);
    } else {
        lemma_children_complete(ps, c, k - 1);
        let j = choose|j: int| 0 <= j < rest.len() && rest[j] == c as usize;
        assert(children_below(ps, i, k)[j] == c as usize);
    }
}

/// How many ids below `k` have a parent below `m`.
spec fn counted(ps: Seq<usize>, k: int, m: int) -> nat
    decreases m,
{
    if m <= 0 {
        0
    } else {
        counted(ps, k, m - 1) + children_below(ps, m - 1, k).len()
    }
}

proof fn lemma_counted_step(ps: Seq<usize>, k: int, m: int)
    requires
        1 < k <= ps.len(),
        0 <= m,
    ensures
        counted(ps, k, m) == counted(ps, k - 1, m) + if ps[k - 1] < m { 1nat } else { 0nat },
    decreases m,
{
    if m > 0 {
        lemma_counted_step(ps, k, m - 1);
    }
}

proof fn lemma_counted(ps: Seq<usize>, k: int, m: int)
    requires
        0 <= k <= ps.len(),
        0 <= m,
    ensures
        counted(ps, k, m) <= k,
        k <= 1 ==> counted(ps, k, m) == 0,
        k >= 1 ==> counted(ps, k, m) <= k - 1,
    decreases k, m,
{
    if k <= 1 {
        if m > 0 {
            lemma_counted(ps, k, m - 1);
        }
    } else {
        lemma_counted(ps, k - 1, m);
        lemma_counted_step(ps, k, m);
    }
}

/// Children adjacency in compressed rows: one array of ids, cut by an array of row starts.
pub struct Csr {
    start: Vec<usize>,
    kids: Vec<usize>,
}

impl View for Csr {
    type V = Seq<Seq<usize>>;

    closed spec fn view(&self) -> Seq<Seq<usize>> {
        Seq::new(
            (self.start@.len() - 1) as nat,
            |i: int| self.kids@.subrange(self.start@[i] as int, self.start@[i + 1] as int),
        )
    }
}

impl Csr {
    #[verifier::type_invariant]
    spec fn wf(self) -> bool {
        &&& self.start@.len() >= 1
        &&& forall|i: int, j: int|
            0 <= i <= j < self.start@.len() ==> self.start@[i] <= self.start@[j]
        &&& self.start@[self.start@.len() - 1] <= self.kids@.len()
    }

    /// The children of every id below `n`, where `parent(i)` is the parent of `i`. The parent of
    /// id 0 is not asked for: the root is nobody's child.
    pub fn from_parents<F: Fn(usize) -> usize>(n: usize, parent: F) -> (r: Csr)
        requires
            n < usize::MAX,
            forall|i: usize| 1 <= i < n ==> #[trigger] parent.requires((i,)),
            forall|i: usize, p: usize|
                1 <= i < n && #[trigger] parent.ensures((i,), p) ==> p < n,
        ensures
            exists|ps: Seq<usize>|
                {
                    &&& ps.len() == n
                    &&& forall|i: usize| 1 <= i < n ==> #[trigger] parent.ensures((i,), ps[i as int])
                    &&& r@ == #[trigger] adjacency(ps)
                },
            exists|ps: Seq<usize>| #[trigger] are_parents(n, parent, ps) && r@ == adjacency(ps),
    {
        let mut ps: Vec<usize> = Vec::with_capacity(n);
        for k in 0..n
            invariant
                ps@.len() == k,
                forall|i: usize| 1 <= i < n ==> #[trigger] parent.requires((i,)),
                forall|i: usize, p: usize|
                    1 <= i < n && #[trigger] parent.ensures((i,), p) ==> p < n,
                forall|i: usize| 1 <= i < k ==> #[trigger] parent.ensures((i,), ps@[i as int]),
                forall|i: int| 0 <= i < k ==> ps@[i] < n,
        {
            if k == 0 {
                ps.push(0);
            } else {
                let p = parent(k);
                ps.push(p);
            }
        }
        let r = Csr::from_parent_list(&ps);
        assert(are_parents(n, parent, ps@));
        assert(r@ == adjacency(ps@));
        r
    }

    /// The children of every id, where `ps[i]` is the parent of `i`.
    pub fn from_parent_list(ps: &Vec<usize>) -> (r: Csr)
        requires
            ps@.len() < usize::MAX,
            forall|i: int| 0 <= i < ps@.len() ==> #[trigger] ps@[i] < ps@.len(),
        ensures
            r@ == adjacency(ps@),
    {
        let n = ps.len();
        // how many children each id has
        let mut fill: Vec<usize> = Vec::with_capacity(n);
        for i in 0..n
            invariant
                fill@.len() == i,
                forall|j: int| 0 <= j < i ==> fill@[j] == 0,
        {
            fill.push(0);
        }
        let mut k: usize = 1;
        while k < n
            invariant
                1 <= k,
                k <= n || n == 0,
                n == ps@.len(),
                fill@.len() == n,
                forall|i: int| 0 <= i < ps@.len() ==> #[trigger] ps@[i] < ps@.len(),
                forall|i: int|
                    0 <= i < n ==> #[trigger] fill@[i] == children_below(ps@, i, k as int).len(),
            decreases n - k,
        {
            let p = ps[k];
            proof {
                lemma_count_bound(ps@, p as int, k as int);
            }
            fill.set(p, fill[p] + 1);
            k = k + 1;
        }
        assert(forall|i: int| 0 <= i < n ==> #[trigger] fill@[i] == children(ps@, i).len());
        // where each row starts; `fill` becomes the row's next free place
        let mut start: Vec<usize> = Vec::with_capacity(n + 1);
        let mut at: usize = 0;
        start.push(0);
        for i in 0..n
            invariant
                n == ps@.len(),
                n < usize::MAX,
                fill@.len() == n,
                start@.len() == i + 1,
                at == counted(ps@, n as int, i as int),
                forall|j: int| 0 <= j <= i ==> #[trigger] start@[j] == counted(ps@, n as int, j),
                forall|j: int| 0 <= j < i ==> #[trigger] fill@[j] == counted(ps@, n as int, j),
                forall|j: int| i <= j < n ==> #[trigger] fill@[j] == children(ps@, j).len(),
        {
            let c = fill[i];
            proof {
                lemma_counted(ps@, n as int, i + 1);
            }
            fill.set(i, at);
            at = at + c;
            start.push(at);
        }
        let mut kids: Vec<usize> = Vec::with_capacity(at);
        for i in 0..at
            invariant
                kids@.len() == i,
        {
            kids.push(0);
        }
        proof {
            lemma_counted_monotone(ps@, n as int);
        }
        let mut k: usize = 1;
        while k < n
            invariant
                1 <= k,
                k <= n || n == 0,
                n == ps@.len(),
                fill@.len() == n,
                start@.len() == n + 1,
                forall|i: int| 0 <= i < ps@.len() ==> #[trigger] ps@[i] < ps@.len(),
                forall|j: int| 0 <= j <= n ==> #[trigger] start@[j] == counted(ps@, n as int, j),
                forall|i: int, j: int|
                    0 <= i <= j <= n ==> #[trigger] counted(ps@, n as int, i)
                        <= #[trigger] counted(ps@, n as int, j),
                kids@.len() == start@[n as int],
                forall|i: int|
                    0 <= i < n ==> #[trigger] fill@[i] == start@[i] + children_below(
                        ps@,
                        i,
                        k as int,
                    ).len(),
                forall|i: int, j: int|
                    0 <= i < n && 0 <= j < children_below(ps@, i, k as int).len()
                        ==> kids@[start@[i] + j] == #[trigger] children_below(ps@, i, k as int)[j],
            decreases n - k,
        {
            let p = ps[k];
            let place = fill[p];
            let ghost before = kids@;
            proof {
                lemma_row_room(ps@, p as int, k as int);
                assert(start@[p + 1] == counted(ps@, n as int, p + 1));
                assert(start@[p as int] == counted(ps@, n as int, p as int));
                assert(start@[p + 1] <= start@[n as int]);
            }
            kids.set(place, k);
            fill.set(p, place + 1);
            proof {
                assert forall|i: int, j: int|
                    0 <= i < n && 0 <= j < children_below(ps@, i, k + 1).len() implies kids@[start@[i]
                    + j] == #[trigger] children_below(ps@, i, k + 1)[j] by {
                    lemma_row_room_any(ps@, i, k as int);
                    assert(start@[i] == counted(ps@, n as int, i));
                    assert(start@[i + 1] == counted(ps@, n as int, i + 1));
                    if i == p {
                        if j < children_below(ps@, i, k as int).len() {
                            assert(before[start@[i] + j] == children_below(ps@, i, k as int)[j]);
                        }
                    } else {
                        assert(before[start@[i] + j] == children_below(ps@, i, k as int)[j]);
                        if i < p {
                            assert(start@[i + 1] <= start@[p as int]);
                        } else {
                            assert(start@[p + 1] <= start@[i]);
                        }
                    }
                }
            }
            k = k + 1;
        }
        let r = Csr { start, kids };
        proof {
            assert forall|i: int| 0 <= i < n implies #[trigger] r@[i] == children(ps@, i) by {
                assert(start@[i] == counted(ps@, n as int, i));
                assert(start@[i + 1] == counted(ps@, n as int, i + 1));
                let row = kids@.subrange(start@[i] as int, start@[i + 1] as int);
                assert(start@[i + 1] <= start@[n as int]);
                assert(row.len() == children(ps@, i).len());
                assert forall|j: int| 0 <= j < row.len() implies row[j] == children(ps@, i)[j] by {
                    assert(kids@[start@[i] + j] == children_below(ps@, i, n as int)[j]);
                }
                assert(row == children(ps@, i));
            }
            assert(r@ == adjacency(ps@));
        }
        r
    }

    /// The children of `i`, in increasing order.
    pub fn of(&self, i: usize) -> (r: &[usize])
        requires
            i < self@.len(),
        ensures
            r@ == self@[i as int],
    {
        proof {
            use_type_invariant(self);
        }
        let kids = self.kids.as_slice();
        let rows = self.start.len();
        assert(i + 1 < rows);
        &kids[self.start[i]..self.start[i + 1]]
    }
}

proof fn lemma_count_bound(ps: Seq<usize>, i: int, k: int)
    requires
        1 <= k <= ps.len() <= usize::MAX,
    ensures
        children_below(ps, i, k).len() <= k - 1,
    decreases k,
{
    if k > 1 {
        lemma_count_bound(ps, i, k - 1);
    }
}

proof fn lemma_counted_monotone(ps: Seq<usize>, n: int)
    ensures
        forall|i: int, j: int|
            0 <= i <= j <= n ==> #[trigger] counted(ps, n, i) <= #[trigger] counted(ps, n, j),
{
    assert forall|i: int, j: int| 0 <= i <= j <= n implies #[trigger] counted(ps, n, i)
        <= #[trigger] counted(ps, n, j) by {
        lemma_counted_le(ps, n, i, j);
    }
}

proof fn lemma_counted_le(ps: Seq<usize>, n: int, i: int, j: int)
    requires
        0 <= i <= j,
    ensures
        counted(ps, n, i) <= counted(ps, n, j),
    decreases j,
{
    if i < j {
        lemma_counted_le(ps, n, i, j - 1);
    }
}

proof fn lemma_children_grow(ps: Seq<usize>, i: int, k: int, m: int)
    requires
        1 <= k <= m,
    ensures
        children_below(ps, i, k).len() <= children_below(ps, i, m).len(),
    decreases m,
{
    if k < m {
        lemma_children_grow(ps, i, k, m - 1);
    }
}

proof fn lemma_row_room(ps: Seq<usize>, p: int, k: int)
    requires
        1 <= k < ps.len(),
        ps[k] == p,
        0 <= p,
    ensures
        counted(ps, ps.len() as int, p) + children_below(ps, p, k).len() < counted(
            ps,
            ps.len() as int,
            p + 1,
        ),
{
    lemma_children_grow(ps, p, k + 1, ps.len() as int);
}

proof fn lemma_row_room_any(ps: Seq<usize>, i: int, k: int)
    requires
        1 <= k < ps.len(),
        0 <= i,
    ensures
        counted(ps, ps.len() as int, i) + children_below(ps, i, k + 1).len() <= counted(
            ps,
            ps.len() as int,
            i + 1,
        ),
{
    lemma_children_grow(ps, i, k + 1, ps.len() as int);
}

} // verus!
