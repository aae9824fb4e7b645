//! Size and number of files per extension, over a whole scan.

use crate::arena;
use crate::arena::{Node, NodeView};
use crate::escape;
use crate::hash::Acc;
use crate::json;
use crate::rank;
use crate::text;
use vstd::hash_map::StringHashMap;
use vstd::prelude::*;

verus! {

/// How many extensions are listed.
pub const MAX_TYPES: usize = 60;

/// The position of the last dot, or -1.
pub open spec fn last_dot(s: Seq<char>) -> int
    decreases s.len(),
{
    if s.len() == 0 {
        -1
    } else if s.last() == '.' {
        s.len() - 1
    } else {
        last_dot(s.drop_last())
    }
}

/// The extension of a name: the text after the last dot, where that dot is neither the first nor the
/// last character.
pub open spec fn extension(name: Seq<char>) -> Seq<char> {
    let p = last_dot(name);
    if 0 < p && p + 1 < name.len() {
        name.skip(p + 1)
    } else {
        "(no ext)"@
    }
}

/// Whether the entry counts: neither directories nor links do.
pub open spec fn counts(n: NodeView) -> bool {
    !n.is_dir && !n.is_link
}

/// The extensions of the first `k` entries, in the order in which they first occur.
pub open spec fn extensions(t: Seq<NodeView>, k: int) -> Seq<Seq<char>>
    decreases k,
{
    if k <= 0 {
        seq![]
    } else {
        let before = extensions(t, k - 1);
        let e = extension(t[k - 1].name);
        if counts(t[k - 1]) && !before.contains(e) {
            before.push(e)
        } else {
            before
        }
    }
}

/// The bytes of those of the first `k` entries that have extension `e`.
pub open spec fn bytes_of(t: Seq<NodeView>, e: Seq<char>, k: int) -> nat
    decreases k,
{
    if k <= 0 {
        0
    } else {
        bytes_of(t, e, k - 1) + if counts(t[k - 1]) && extension(t[k - 1].name) == e {
            t[k - 1].sub as nat
        } else {
            0
        }
    }
}

/// How many of the first `k` entries have extension `e`.
pub open spec fn count_of(t: Seq<NodeView>, e: Seq<char>, k: int) -> nat
    decreases k,
{
    if k <= 0 {
        0
    } else {
        count_of(t, e, k - 1) + if counts(t[k - 1]) && extension(t[k - 1].name) == e {
            1nat
        } else {
            0
        }
    }
}

/// The bytes of every extension can be counted in 64 bits.
pub open spec fn types_fit(t: Seq<NodeView>) -> bool {
    forall|e: Seq<char>| #[trigger] bytes_of(t, e, t.len() as int) <= u64::MAX
}

/// Every extension with its bytes and its number.
pub open spec fn by_bytes(t: Seq<NodeView>) -> Seq<(u64, usize)> {
    let es = extensions(t, t.len() as int);
    rank::ranked(
        Seq::new(es.len(), |j: int| (bytes_of(t, es[j], t.len() as int) as u64, j as usize)),
    )
}

/// The element for extension `e`.
pub open spec fn type_text(e: Seq<char>, bytes: nat, count: nat) -> Seq<char> {
    "{\"e\":\""@ + escape::json_escaped(e) + "\",\"v\":"@ + text::decimal(bytes) + ",\"c\":"@
        + text::decimal(count) + "}"@
}

/// The elements of the first `k` extensions, the largest first, with commas between them.
pub open spec fn list_text(t: Seq<NodeView>, k: int) -> Seq<char>
    decreases k,
{
    if k <= 0 {
        seq![]
    } else {
        let e = extensions(t, t.len() as int)[by_bytes(t)[k - 1].1 as int];
        list_text(t, k - 1) + json::comma(k - 1) + type_text(
            e,
            bytes_of(t, e, t.len() as int),
            count_of(t, e, t.len() as int),
        )
    }
}

/// How many extensions are listed.
pub open spec fn listed(t: Seq<NodeView>) -> int {
    let n = extensions(t, t.len() as int).len() as int;
    if n <= MAX_TYPES {
        n
    } else {
        MAX_TYPES as int
    }
}

/// The statistics as a JSON array.
pub open spec fn types_text(t: Seq<NodeView>) -> Seq<char> {
    "["@ + list_text(t, listed(t)) + "]"@
}

/// The extension of a name.
fn extension_of(name: &str) -> (r: String)
    ensures
        r@ == extension(name@),
{
    let chars = text::chars_of(name);
    let n = chars.len();
    let mut i: usize = n;
    assert(name@.take(n as int) == name@);
    while i > 0
        invariant
            chars@ == name@,
            n == chars@.len(),
            i <= n,
            last_dot(name@) == last_dot(name@.take(i as int)),
        decreases i,
    {
        proof {
            assert(name@.take(i as int).drop_last() == name@.take(i - 1));
            assert(name@.take(i as int).last() == name@[i - 1]);
        }
        if chars[i - 1] == '.' {
            if i - 1 > 0 && i < n {
                let r = text::text_of(&chars[i..n]);
                assert(name@.subrange(i as int, n as int) == name@.skip(i as int));
                return r;
            }
            return "(no ext)".to_string();
        }
        i = i - 1;
    }
    "(no ext)".to_string()
}

proof fn lemma_bytes_grow(t: Seq<NodeView>, e: Seq<char>, k: int, m: int)
    requires
        k <= m,
    ensures
        bytes_of(t, e, k) <= bytes_of(t, e, m),
    decreases m - k,
{
    if k < m {
        lemma_bytes_grow(t, e, k, m - 1);
    }
}

proof fn lemma_count_bounded(t: Seq<NodeView>, e: Seq<char>, k: int)
    requires
        0 <= k,
    ensures
        count_of(t, e, k) <= k,
    decreases k,
{
    if k > 0 {
        lemma_count_bounded(t, e, k - 1);
    }
}

proof fn lemma_unseen(t: Seq<NodeView>, e: Seq<char>, k: int)
    requires
        !extensions(t, k).contains(e),
    ensures
        bytes_of(t, e, k) == 0,
        count_of(t, e, k) == 0,
    decreases k,
{
    if k > 0 {
        let before = extensions(t, k - 1);
        let x = extension(t[k - 1].name);
        if before.contains(e) {
            let j = choose|j: int| 0 <= j < before.len() && before[j] == e;
            assert(extensions(t, k)[j] == e);
        }
        if counts(t[k - 1]) && x == e {
            assert(before.push(e).last() == e);
            assert(extensions(t, k).contains(e));
        }
        lemma_unseen(t, e, k - 1);
    }
}

proof fn lemma_extensions_bounded(t: Seq<NodeView>, k: int)
    requires
        0 <= k,
    ensures
        extensions(t, k).len() <= k,
    decreases k,
{
    if k > 0 {
        lemma_extensions_bounded(t, k - 1);
    }
}

/// Bytes and number of files per extension.
struct Tally {
    names: Vec<String>,
    bytes: Vec<u64>,
    counts: Vec<u64>,
    index: StringHashMap<usize>,
}

impl Tally {
    /// The tally holds what the first `k` entries bring.
    spec fn holds(&self, t: Seq<NodeView>, k: int) -> bool {
        let es = extensions(t, k);
        &&& self.names@.len() == es.len()
        &&& self.bytes@.len() == es.len()
        &&& self.counts@.len() == es.len()
        &&& forall|j: int| 0 <= j < es.len() ==> (#[trigger] self.names@[j])@ == es[j]
        &&& forall|j: int| 0 <= j < es.len() ==> #[trigger] self.bytes@[j] == bytes_of(t, es[j], k)
        &&& forall|j: int| 0 <= j < es.len() ==> #[trigger] self.counts@[j] == count_of(t, es[j], k)
        &&& forall|j: int|
            0 <= j < es.len() ==> self.index@.contains_key(#[trigger] es[j]) && self.index@[es[j]]
                == j
        &&& forall|e: Seq<char>|
            self.index@.contains_key(e) ==> self.index@[e] < es.len() && es[self.index@[e] as int]
                == e
    }

    /// Counts entry `k`.
    fn add_entry(&mut self, e: String, size: u64, t: Ghost<Seq<NodeView>>, k: Ghost<int>)
        requires
            old(self).holds(t@, k@),
            types_fit(t@),
            0 <= k@ < t@.len() <= usize::MAX,
            counts(t@[k@]),
            e@ == extension(t@[k@].name),
            size == t@[k@].sub,
        ensures
            final(self).holds(t@, k@ + 1),
    {
        let ghost es = extensions(t@, k@);
        let ghost before = *self;
        proof {
            assert(bytes_of(t@, e@, t@.len() as int) <= u64::MAX);
            lemma_bytes_grow(t@, e@, k@ + 1, t@.len() as int);
            lemma_count_bounded(t@, e@, k@);
            lemma_extensions_bounded(t@, k@);
        }
        match self.index.get(e.as_str()) {
            Some(j) => {
                let j: usize = *j;
                assert(es[j as int] == e@);
                assert(es.contains(e@));
                assert(self.bytes@[j as int] == bytes_of(t@, e@, k@));
                assert(self.counts@[j as int] == count_of(t@, e@, k@));
                self.bytes[j] = self.bytes[j] + size;
                self.counts[j] = self.counts[j] + 1;
                proof {
                    assert(extensions(t@, k@ + 1) == es);
                    assert forall|i: int| 0 <= i < es.len() && i != j implies #[trigger] es[i]
                        != e@ by {
                        assert(before.index@[es[i]] == i);
                    }
                    assert forall|i: int| 0 <= i < es.len() implies #[trigger] self.bytes@[i]
                        == bytes_of(t@, es[i], k@ + 1) by {
                        assert(before.bytes@[i] == bytes_of(t@, es[i], k@));
                    }
                    assert forall|i: int| 0 <= i < es.len() implies #[trigger] self.counts@[i]
                        == count_of(t@, es[i], k@ + 1) by {
                        assert(before.counts@[i] == count_of(t@, es[i], k@));
                    }
                }
            },
            None => {
                let j = self.names.len();
                proof {
                    if es.contains(e@) {
                        let i = choose|i: int| 0 <= i < es.len() && es[i] == e@;
                        assert(self.index@.contains_key(es[i]));
                    }
                    lemma_unseen(t@, e@, k@);
                }
                self.index.insert(e.clone(), j);
                self.names.push(e);
                self.bytes.push(size);
                self.counts.push(1);
                proof {
                    let now = extensions(t@, k@ + 1);
                    assert(now == es.push(e@));
                    assert forall|i: int| 0 <= i < now.len() implies self.index@.contains_key(
                        #[trigger] now[i],
                    ) && self.index@[now[i]] == i by {
                        if i < es.len() {
                            assert(before.index@.contains_key(es[i]));
                        }
                    }
                    assert forall|i: int| 0 <= i < now.len() implies #[trigger] self.bytes@[i]
                        == bytes_of(t@, now[i], k@ + 1) by {
                        if i < es.len() {
                            assert(before.bytes@[i] == bytes_of(t@, es[i], k@));
                            assert(es.contains(es[i]));
                        }
                    }
                    assert forall|i: int| 0 <= i < now.len() implies #[trigger] self.counts@[i]
                        == count_of(t@, now[i], k@ + 1) by {
                        if i < es.len() {
                            assert(before.counts@[i] == count_of(t@, es[i], k@));
                            assert(es.contains(es[i]));
                        }
                    }
                    assert forall|i: int| 0 <= i < now.len() implies (#[trigger] self.names@[i])@
                        == now[i] by {
                        if i < es.len() {
                            assert(before.names@[i]@ == es[i]);
                        }
                    }
                }
            },
        }
    }
}

/// Counts all entries.
fn tally(nodes: &[Node]) -> (r: Tally)
    requires
        types_fit(arena::tree(nodes@)),
    ensures
        r.holds(arena::tree(nodes@), nodes@.len() as int),
{
    let ghost t = arena::tree(nodes@);
    let n = nodes.len();
    let mut r = Tally {
        names: Vec::new(),
        bytes: Vec::new(),
        counts: Vec::new(),
        index: StringHashMap::new(),
    };
    let mut i: usize = 0;
    while i < n
        invariant
            n == nodes@.len(),
            t == arena::tree(nodes@),
            i <= n,
            types_fit(t),
            r.holds(t, i as int),
        decreases n - i,
    {
        assert(t[i as int] == nodes@[i as int]@);
        if !nodes[i].is_dir && !nodes[i].is_link {
            let e = extension_of(nodes[i].name.as_str());
            r.add_entry(e, nodes[i].sub, Ghost(t), Ghost(i as int));
        } else {
            proof {
                let es = extensions(t, i as int);
                assert(extensions(t, i + 1) == es);
                assert forall|e: Seq<char>|
                    bytes_of(t, e, i + 1) == #[trigger] bytes_of(t, e, i as int) by {}
                assert forall|e: Seq<char>|
                    count_of(t, e, i + 1) == #[trigger] count_of(t, e, i as int) by {}
            }
        }
        i = i + 1;
    }
    r
}

/// Appends the element for one extension.
fn emit_type(e: &str, bytes: u64, count: u64, acc: &mut Acc)
    ensures
        final(acc)@ == old(acc)@ + vstd::utf8::encode_utf8(
            type_text(e@, bytes as nat, count as nat),
        ),
{
    let ghost base = acc@;
    let ghost mut g = Seq::<char>::empty();
    assert(base + vstd::utf8::encode_utf8(g) == base);
    acc.str("{\"e\":\"");
    proof {
        text::lemma_append_encoded(base, g, "{\"e\":\""@);
        g = g + "{\"e\":\""@;
    }
    acc.esc_json(e);
    proof {
        text::lemma_append_encoded(base, g, escape::json_escaped(e@));
        g = g + escape::json_escaped(e@);
    }
    acc.str("\",\"v\":");
    proof {
        text::lemma_append_encoded(base, g, "\",\"v\":"@);
        g = g + "\",\"v\":"@;
    }
    acc.u64(bytes);
    proof {
        text::lemma_append_encoded(base, g, text::decimal(bytes as nat));
        g = g + text::decimal(bytes as nat);
    }
    acc.str(",\"c\":");
    proof {
        text::lemma_append_encoded(base, g, ",\"c\":"@);
        g = g + ",\"c\":"@;
    }
    acc.u64(count);
    proof {
        text::lemma_append_encoded(base, g, text::decimal(count as nat));
        g = g + text::decimal(count as nat);
    }
    acc.str("}");
    proof {
        text::lemma_append_encoded(base, g, "}"@);
        g = g + "}"@;
    }
    assert(g == type_text(e@, bytes as nat, count as nat));
}

/// Appends the statistics: per extension the bytes and the number of its files, the largest first,
/// and among equals the one that occurs first. At most `MAX_TYPES` extensions are listed.
pub fn type_stats_into(nodes: &[Node], acc: &mut Acc)
    requires
        types_fit(arena::tree(nodes@)),
    ensures
        final(acc)@ == old(acc)@ + vstd::utf8::encode_utf8(types_text(arena::tree(nodes@))),
{
    let ghost t = arena::tree(nodes@);
    let ghost es = extensions(t, t.len() as int);
    let ghost base = acc@;
    let ghost mut g = Seq::<char>::empty();
    assert(base + vstd::utf8::encode_utf8(g) == base);
    let all = tally(nodes);
    let m = all.names.len();
    let mut items: Vec<(u64, usize)> = Vec::with_capacity(m);
    let mut j: usize = 0;
    while j < m
        invariant
            m == all.names@.len(),
            m == es.len(),
            j <= m,
            es == extensions(t, t.len() as int),
            all.holds(t, t.len() as int),
            items@.len() == j,
            forall|k: int|
                0 <= k < j ==> #[trigger] items@[k] == (
                    bytes_of(t, es[k], t.len() as int) as u64,
                    k as usize,
                ),
        decreases m - j,
    {
        assert(all.bytes@[j as int] == bytes_of(t, es[j as int], t.len() as int));
        items.push((all.bytes[j], j));
        j = j + 1;
    }
    let ghost numbered = Seq::new(
        es.len(),
        |j: int| (bytes_of(t, es[j], t.len() as int) as u64, j as usize),
    );
    assert(items@ == numbered);
    let order = rank::rank(items);
    proof {
        rank::law_ranked(numbered);
    }
    let keep: usize = if m <= MAX_TYPES {
        m
    } else {
        MAX_TYPES
    };
    acc.str("[");
    proof {
        text::lemma_append_encoded(base, g, "["@);
        g = g + "["@;
    }
    let ghost head = g;
    let mut k: usize = 0;
    assert(head + list_text(t, 0) == head);
    while k < keep
        invariant
            k <= keep <= m,
            m == es.len(),
            m <= usize::MAX,
            es == extensions(t, t.len() as int),
            all.holds(t, t.len() as int),
            order@ == by_bytes(t),
            order@.len() == m,
            order@ == rank::ranked(numbered),
            numbered == Seq::new(
                es.len(),
                |j: int| (bytes_of(t, es[j], t.len() as int) as u64, j as usize),
            ),
            acc@ == base + vstd::utf8::encode_utf8(head + list_text(t, k as int)),
        decreases keep - k,
    {
        let ghost mut g = head + list_text(t, k as int);
        proof {
            rank::lemma_ranked_member(numbered, k as int);
        }
        let i = order[k].1;
        assert(i < m);
        assert(all.names@[i as int]@ == es[i as int]);
        assert(all.bytes@[i as int] == bytes_of(t, es[i as int], t.len() as int));
        assert(all.counts@[i as int] == count_of(t, es[i as int], t.len() as int));
        if k > 0 {
            acc.str(",");
            proof {
                text::lemma_append_encoded(base, g, ","@);
                g = g + ","@;
            }
        } else {
            assert(g + json::comma(k as int) == g);
        }
        emit_type(all.names[i].as_str(), all.bytes[i], all.counts[i], acc);
        proof {
            text::lemma_append_encoded(base, g, type_text(es[i as int], all.bytes@[i as int] as nat, all.counts@[i as int] as nat));
            g = g + type_text(es[i as int], all.bytes@[i as int] as nat, all.counts@[i as int] as nat);
        }
        assert(g == head + list_text(t, k + 1));
        k = k + 1;
    }
    proof {
        g = head + list_text(t, keep as int);
    }
    acc.str("]");
    proof {
        text::lemma_append_encoded(base, g, "]"@);
        g = g + "]"@;
    }
    assert(g == types_text(t));
}

/// The bytes of those of the first `k` entries that count.
pub open spec fn counted_bytes(t: Seq<NodeView>, k: int) -> nat
    decreases k,
{
    if k <= 0 {
        0
    } else {
        counted_bytes(t, k - 1) + if counts(t[k - 1]) {
            t[k - 1].sub as nat
        } else {
            0
        }
    }
}

/// The bytes of the first `k` entries, over the given extensions.
pub open spec fn bytes_over(t: Seq<NodeView>, es: Seq<Seq<char>>, k: int) -> nat
    decreases es.len(),
{
    if es.len() == 0 {
        0
    } else {
        bytes_over(t, es.drop_last(), k) + bytes_of(t, es.last(), k)
    }
}

proof fn lemma_bytes_over_step(t: Seq<NodeView>, es: Seq<Seq<char>>, k: int)
    requires
        0 < k,
        es.no_duplicates(),
    ensures
        bytes_over(t, es, k) == bytes_over(t, es, k - 1) + if counts(t[k - 1]) && es.contains(
            extension(t[k - 1].name),
        ) {
            t[k - 1].sub as nat
        } else {
            0
        },
    decreases es.len(),
{
    let e = extension(t[k - 1].name);
    if es.len() > 0 {
        let front = es.drop_last();
        lemma_bytes_over_step(t, front, k);
        if front.contains(e) {
            let i = choose|i: int| 0 <= i < front.len() && front[i] == e;
            assert(es[i] == e);
            assert(es[es.len() - 1] != es[i]);
        }
        if es.contains(e) && es.last() != e {
            let i = choose|i: int| 0 <= i < es.len() && es[i] == e;
            assert(front[i] == e);
        }
        if es.last() == e {
            assert(es.contains(es[es.len() - 1]));
        }
    }
}

proof fn lemma_extensions_distinct(t: Seq<NodeView>, k: int)
    ensures
        extensions(t, k).no_duplicates(),
        forall|j: int|
            0 <= j < k && counts(#[trigger] t[j]) ==> extensions(t, k).contains(
                extension(t[j].name),
            ),
    decreases k,
{
    if k > 0 {
        lemma_extensions_distinct(t, k - 1);
        let before = extensions(t, k - 1);
        let now = extensions(t, k);
        let e = extension(t[k - 1].name);
        assert forall|j: int| 0 <= j < k && counts(#[trigger] t[j]) implies now.contains(
            extension(t[j].name),
        ) by {
            if j < k - 1 || before.contains(e) {
                let x = extension(t[j].name);
                assert(before.contains(x));
                let i = choose|i: int| 0 <= i < before.len() && before[i] == x;
                assert(now[i] == x);
            } else {
                assert(now[before.len() as int] == e);
            }
        }
    }
}

/// The statistics leave nothing out and count nothing twice: over all extensions they hold exactly
/// the bytes of the entries that count.
pub proof fn law_statistics_hold_every_byte(t: Seq<NodeView>, k: int)
    requires
        0 <= k <= t.len(),
    ensures
        bytes_over(t, extensions(t, k), k) == counted_bytes(t, k),
    decreases k,
{
    if k > 0 {
        law_statistics_hold_every_byte(t, k - 1);
        lemma_extensions_distinct(t, k - 1);
        lemma_extensions_distinct(t, k);
        let before = extensions(t, k - 1);
        let now = extensions(t, k);
        let e = extension(t[k - 1].name);
        lemma_bytes_over_step(t, now, k);
        if counts(t[k - 1]) {
            assert(counts(t[k - 1]) && now.contains(e));
            if !before.contains(e) {
                assert(now.drop_last() == before);
                lemma_unseen(t, e, k - 1);
            }
        }
    }
}

} // verus!
