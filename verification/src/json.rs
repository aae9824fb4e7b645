//! The pruned tree and the file-type statistics as JSON, and the scan response made of both.

use crate::arena;
use crate::arena::{Cfg, Node, NodeView};
use crate::cache;
use crate::escape;
use crate::hash;
use crate::hash::{Acc, Csr};
use crate::rank;
use crate::text;
use vstd::prelude::*;

verus! {

// ── the tree ──

/// The ids with their sizes.
pub open spec fn sized(t: Seq<NodeView>, ids: Seq<usize>) -> Seq<(u64, usize)> {
    Seq::new(ids.len(), |j: int| (t[ids[j] as int].sub, ids[j]))
}

/// The children of `i` with their sizes, the largest first.
pub open spec fn by_size(t: Seq<NodeView>, i: int) -> Seq<(u64, usize)> {
    rank::ranked(sized(t, hash::children(arena::parents(t), i)))
}

/// How many of the children of `i` are kept.
pub open spec fn kept(t: Seq<NodeView>, top: nat, i: int) -> int {
    let n = by_size(t, i).len();
    if n <= top {
        n as int
    } else {
        top as int
    }
}

/// The sum of the sizes.
pub open spec fn sum_sizes(items: Seq<(u64, usize)>) -> nat
    decreases items.len(),
{
    if items.len() == 0 {
        0
    } else {
        sum_sizes(items.drop_last()) + items.last().0 as nat
    }
}

/// The bytes of the children of `i` that are not kept.
pub open spec fn rest_bytes(t: Seq<NodeView>, top: nat, i: int) -> nat {
    sum_sizes(by_size(t, i).skip(kept(t, top, i)))
}

/// The comma between two elements, where `k` elements stand before.
pub open spec fn comma(k: int) -> Seq<char> {
    if k > 0 {
        ","@
    } else {
        seq![]
    }
}

/// The leaf that stands for the `n` children that are not kept.
pub open spec fn rest_leaf(n: nat, bytes: nat) -> Seq<char> {
    "{\"n\":\"… ("@ + text::decimal(n) + " more)\",\"v\":"@ + text::decimal(bytes) + ",\"d\":0}"@
}

/// What stands before the children of a node: its name, its bytes and whether it is a directory.
pub open spec fn node_head(n: NodeView) -> Seq<char> {
    "{\"n\":\""@ + escape::json_escaped(n.name) + "\",\"v\":"@ + text::decimal(n.sub as nat)
        + ",\"d\":"@ + if n.is_dir {
        "1"@
    } else {
        "0"@
    }
}

/// The leaf for the children of `i` that are not kept, with the comma before it.
pub open spec fn rest_text(t: Seq<NodeView>, top: nat, i: int) -> Seq<char> {
    let n = by_size(t, i).len();
    let keep = kept(t, top, i);
    if n > keep {
        comma(keep) + rest_leaf((n - keep) as nat, rest_bytes(t, top, i))
    } else {
        seq![]
    }
}

/// Node `i` and what is kept of everything below it.
pub open spec fn node_text(t: Seq<NodeView>, top: nat, i: int) -> Seq<char>
    decreases t.len() - i, 1int, 0int,
{
    if by_size(t, i).len() == 0 {
        node_head(t[i]) + "}"@
    } else {
        node_head(t[i]) + ",\"c\":["@ + list_text(t, top, i, kept(t, top, i)) + rest_text(t, top, i)
            + "]"@ + "}"@
    }
}

/// The first `k` of the children of `i`, the largest first, with commas between them.
pub open spec fn list_text(t: Seq<NodeView>, top: nat, i: int, k: int) -> Seq<char>
    decreases t.len() - i, 0int, k,
{
    if k <= 0 || k > by_size(t, i).len() {
        seq![]
    } else {
        let c = by_size(t, i)[k - 1].1 as int;
        list_text(t, top, i, k - 1) + comma(k - 1) + if i < c < t.len() {
            node_text(t, top, c)
        } else {
            seq![]
        }
    }
}

/// In node `i` and in every node below it that is written, the bytes of the children that are not
/// kept can be counted in 64 bits.
pub open spec fn rests_fit(t: Seq<NodeView>, top: nat, i: int) -> bool
    decreases t.len() - i,
{
    &&& rest_bytes(t, top, i) <= u64::MAX
    &&& forall|k: int|
        0 <= k < kept(t, top, i) && i < #[trigger] by_size(t, i)[k].1 < t.len() ==> rests_fit(
            t,
            top,
            by_size(t, i)[k].1 as int,
        )
}

proof fn lemma_sum_sizes_skip(items: Seq<(u64, usize)>, k: int)
    requires
        0 <= k < items.len(),
    ensures
        sum_sizes(items.skip(k)) == items[k].0 as nat + sum_sizes(items.skip(k + 1)),
    decreases items.len() - k,
{
    let s = items.skip(k);
    if k == items.len() - 1 {
        assert(s.drop_last() == Seq::<(u64, usize)>::empty());
        assert(items.skip(k + 1) == Seq::<(u64, usize)>::empty());
    } else {
        let front = items.drop_last();
        lemma_sum_sizes_skip(front, k);
        assert(front.skip(k) == s.drop_last());
        assert(front.skip(k + 1) == items.skip(k + 1).drop_last());
        assert(items.skip(k + 1).last() == items.last());
    }
}

/// The ids with their sizes, the largest first, of the children of `i`.
fn children_by_size(i: usize, kids: &Csr, nodes: &[Node]) -> (r: Vec<(u64, usize)>)
    requires
        i < nodes@.len(),
        arena::is_arena(arena::tree(nodes@)),
        cache::kids_match(kids, arena::tree(nodes@)),
    ensures
        r@ == by_size(arena::tree(nodes@), i as int),
        forall|k: int|
            0 <= k < r@.len() ==> i < (#[trigger] r@[k]).1 < nodes@.len() && r@[k].0
                == nodes@[r@[k].1 as int].sub,
{
    let ghost t = arena::tree(nodes@);
    let ghost ids = hash::children(arena::parents(t), i as int);
    let count = nodes.len();
    let cs = kids.of(i);
    let n = cs.len();
    let mut items: Vec<(u64, usize)> = Vec::with_capacity(n);
    let mut j: usize = 0;
    while j < n
        invariant
            n == cs@.len(),
            cs@ == ids,
            ids == hash::children(arena::parents(t), i as int),
            count == nodes@.len(),
            i < nodes@.len(),
            t == arena::tree(nodes@),
            arena::is_arena(t),
            j <= n,
            items@.len() == j,
            forall|k: int| 0 <= k < j ==> #[trigger] items@[k] == (t[ids[k] as int].sub, ids[k]),
        decreases n - j,
    {
        let c = cs[j];
        proof {
            cache::lemma_child_in_range(t, i as int, j as int);
            assert(t[c as int] == nodes@[c as int]@);
        }
        items.push((nodes[c].sub, c));
        j = j + 1;
    }
    assert(items@ == sized(t, ids));
    let r = rank::rank(items);
    proof {
        assert forall|k: int| 0 <= k < r@.len() implies i < (#[trigger] r@[k]).1 < nodes@.len()
            && r@[k].0 == nodes@[r@[k].1 as int].sub by {
            rank::law_ranked(sized(t, ids));
            rank::lemma_ranked_member(sized(t, ids), k);
            let m = choose|m: int| 0 <= m < ids.len() && sized(t, ids)[m] == r@[k];
            cache::lemma_child_in_range(t, i as int, m);
            assert(t[ids[m] as int] == nodes@[ids[m] as int]@);
        }
    }
    r
}

/// Appends what stands before the children of a node.
fn emit_head(n: &Node, acc: &mut Acc)
    ensures
        final(acc)@ == old(acc)@ + vstd::utf8::encode_utf8(node_head(n@)),
{
    let ghost base = acc@;
    let ghost mut g = Seq::<char>::empty();
    assert(base + vstd::utf8::encode_utf8(g) == base);
    acc.str("{\"n\":\"");
    proof {
        text::lemma_append_encoded(base, g, "{\"n\":\""@);
        g = g + "{\"n\":\""@;
    }
    acc.esc_json(n.name.as_str());
    proof {
        text::lemma_append_encoded(base, g, escape::json_escaped(n@.name));
        g = g + escape::json_escaped(n@.name);
    }
    acc.str("\",\"v\":");
    proof {
        text::lemma_append_encoded(base, g, "\",\"v\":"@);
        g = g + "\",\"v\":"@;
    }
    acc.u64(n.sub);
    proof {
        text::lemma_append_encoded(base, g, text::decimal(n@.sub as nat));
        g = g + text::decimal(n@.sub as nat);
    }
    acc.str(",\"d\":");
    proof {
        text::lemma_append_encoded(base, g, ",\"d\":"@);
        g = g + ",\"d\":"@;
    }
    if n.is_dir {
        acc.str("1");
        proof {
            text::lemma_append_encoded(base, g, "1"@);
            g = g + "1"@;
        }
    } else {
        acc.str("0");
        proof {
            text::lemma_append_encoded(base, g, "0"@);
            g = g + "0"@;
        }
    }
    assert(g == node_head(n@));
}

/// Appends the leaf that stands for `n` children with `bytes` bytes.
fn emit_rest(n: u64, bytes: u64, acc: &mut Acc)
    ensures
        final(acc)@ == old(acc)@ + vstd::utf8::encode_utf8(rest_leaf(n as nat, bytes as nat)),
{
    let ghost base = acc@;
    let ghost mut g = Seq::<char>::empty();
    assert(base + vstd::utf8::encode_utf8(g) == base);
    acc.str("{\"n\":\"… (");
    proof {
        text::lemma_append_encoded(base, g, "{\"n\":\"… ("@);
        g = g + "{\"n\":\"… ("@;
    }
    acc.u64(n);
    proof {
        text::lemma_append_encoded(base, g, text::decimal(n as nat));
        g = g + text::decimal(n as nat);
    }
    acc.str(" more)\",\"v\":");
    proof {
        text::lemma_append_encoded(base, g, " more)\",\"v\":"@);
        g = g + " more)\",\"v\":"@;
    }
    acc.u64(bytes);
    proof {
        text::lemma_append_encoded(base, g, text::decimal(bytes as nat));
        g = g + text::decimal(bytes as nat);
    }
    acc.str(",\"d\":0}");
    proof {
        text::lemma_append_encoded(base, g, ",\"d\":0}"@);
        g = g + ",\"d\":0}"@;
    }
    assert(g == rest_leaf(n as nat, bytes as nat));
}

/// The sum of the sizes from position `k` on.
fn sum_from(items: &Vec<(u64, usize)>, k: usize) -> (r: u64)
    requires
        k <= items@.len(),
        sum_sizes(items@.skip(k as int)) <= u64::MAX,
    ensures
        r == sum_sizes(items@.skip(k as int)),
{
    let n = items.len();
    let mut rest: u64 = 0;
    let mut j: usize = n;
    assert(items@.skip(n as int) == Seq::<(u64, usize)>::empty());
    while j > k
        invariant
            n == items@.len(),
            k <= j <= n,
            rest == sum_sizes(items@.skip(j as int)),
            sum_sizes(items@.skip(k as int)) <= u64::MAX,
        decreases j,
    {
        j = j - 1;
        proof {
            lemma_sum_sizes_skip(items@, j as int);
            lemma_sum_sizes_tail(items@, k as int, j as int);
        }
        rest = rest + items[j].0;
    }
    rest
}

/// Appends node `i` and what is kept of everything below it: per directory the `top` largest
/// children, and one leaf that stands for the others and holds their bytes.
pub fn emit_json(i: usize, kids: &Csr, nodes: &[Node], cfg: &Cfg, acc: &mut Acc)
    requires
        i < nodes@.len(),
        arena::is_arena(arena::tree(nodes@)),
        cache::kids_match(kids, arena::tree(nodes@)),
        rests_fit(arena::tree(nodes@), cfg.top as nat, i as int),
    ensures
        final(acc)@ == old(acc)@ + vstd::utf8::encode_utf8(
            node_text(arena::tree(nodes@), cfg.top as nat, i as int),
        ),
    decreases nodes@.len() - i,
{
    let ghost t = arena::tree(nodes@);
    let ghost top = cfg.top as nat;
    let ghost base = acc@;
    let ghost mut g = Seq::<char>::empty();
    assert(base + vstd::utf8::encode_utf8(g) == base);
    assert(t[i as int] == nodes@[i as int]@);
    emit_head(&nodes[i], acc);
    proof {
        text::lemma_append_encoded(base, g, node_head(t[i as int]));
        g = g + node_head(t[i as int]);
    }
    let ks = children_by_size(i, kids, nodes);
    let n = ks.len();
    if n > 0 {
        acc.str(",\"c\":[");
        proof {
            text::lemma_append_encoded(base, g, ",\"c\":["@);
            g = g + ",\"c\":["@;
        }
        let keep: usize = if n <= cfg.top {
            n
        } else {
            cfg.top
        };
        let ghost head = g;
        let mut j: usize = 0;
        assert(head + list_text(t, top, i as int, 0) == head);
        while j < keep
            invariant
                n == ks@.len(),
                j <= keep <= n,
                ks@ == by_size(t, i as int),
                keep == kept(t, top, i as int),
                top == cfg.top as nat,
                i < nodes@.len(),
                t == arena::tree(nodes@),
                arena::is_arena(t),
                cache::kids_match(kids, t),
                rests_fit(t, top, i as int),
                forall|k: int|
                    0 <= k < ks@.len() ==> i < (#[trigger] ks@[k]).1 < nodes@.len() && ks@[k].0
                        == nodes@[ks@[k].1 as int].sub,
                acc@ == base + vstd::utf8::encode_utf8(head + list_text(t, top, i as int, j as int)),
            decreases keep - j,
        {
            let ghost mut g = head + list_text(t, top, i as int, j as int);
            let c = ks[j].1;
            assert(i < by_size(t, i as int)[j as int].1 < t.len());
            if j > 0 {
                acc.str(",");
                proof {
                    text::lemma_append_encoded(base, g, ","@);
                    g = g + ","@;
                }
            } else {
                assert(g + comma(j as int) == g);
            }
            assert(g == head + list_text(t, top, i as int, j as int) + comma(j as int));
            emit_json(c, kids, nodes, cfg, acc);
            proof {
                text::lemma_append_encoded(base, g, node_text(t, top, c as int));
                g = g + node_text(t, top, c as int);
            }
            assert(g == head + list_text(t, top, i as int, j + 1));
            j = j + 1;
        }
        proof {
            g = head + list_text(t, top, i as int, keep as int);
        }
        let ghost listed = g;
        if n > keep {
            let rest = sum_from(&ks, keep);
            if keep > 0 {
                acc.str(",");
                proof {
                    text::lemma_append_encoded(base, g, ","@);
                    g = g + ","@;
                }
            } else {
                assert(g + comma(keep as int) == g);
            }
            emit_rest((n - keep) as u64, rest, acc);
            proof {
                text::lemma_append_encoded(base, g, rest_leaf((n - keep) as nat, rest as nat));
                g = g + rest_leaf((n - keep) as nat, rest as nat);
            }
        }
        assert(g == listed + rest_text(t, top, i as int));
        acc.str("]");
        proof {
            text::lemma_append_encoded(base, g, "]"@);
            g = g + "]"@;
        }
    }
    acc.str("}");
    proof {
        text::lemma_append_encoded(base, g, "}"@);
        g = g + "}"@;
    }
    assert(g == node_text(t, top, i as int));
}

proof fn lemma_sum_sizes_tail(items: Seq<(u64, usize)>, a: int, b: int)
    requires
        0 <= a <= b <= items.len(),
    ensures
        sum_sizes(items.skip(b)) <= sum_sizes(items.skip(a)),
    decreases b - a,
{
    if a < b {
        lemma_sum_sizes_skip(items, a);
        lemma_sum_sizes_tail(items, a + 1, b);
    }
}

proof fn lemma_sum_sizes_split(items: Seq<(u64, usize)>, k: int)
    requires
        0 <= k <= items.len(),
    ensures
        sum_sizes(items) == sum_sizes(items.take(k)) + sum_sizes(items.skip(k)),
    decreases items.len(),
{
    if k == items.len() {
        assert(items.take(k) == items);
        assert(items.skip(k) == Seq::<(u64, usize)>::empty());
    } else {
        let front = items.drop_last();
        lemma_sum_sizes_split(front, k);
        assert(front.take(k) == items.take(k));
        assert(front.skip(k) == items.skip(k).drop_last());
        assert(items.skip(k).last() == items.last());
    }
}

proof fn lemma_sum_sizes_remove(items: Seq<(u64, usize)>, k: int)
    requires
        0 <= k < items.len(),
    ensures
        sum_sizes(items) == sum_sizes(items.remove(k)) + items[k].0 as nat,
    decreases items.len(),
{
    if k < items.len() - 1 {
        let front = items.drop_last();
        lemma_sum_sizes_remove(front, k);
        assert(front.remove(k) == items.remove(k).drop_last());
        assert(items.remove(k).last() == items.last());
    } else {
        assert(items.remove(k) == items.drop_last());
    }
}

/// The sum does not depend on the order.
pub proof fn lemma_sum_sizes_rearranged(a: Seq<(u64, usize)>, b: Seq<(u64, usize)>)
    requires
        a.to_multiset() == b.to_multiset(),
    ensures
        sum_sizes(a) == sum_sizes(b),
    decreases a.len(),
{
    broadcast use vstd::seq_lib::group_to_multiset_ensures;

    if a.len() == 0 {
        assert(b.to_multiset().len() == 0);
    } else {
        let x = a.last();
        assert(a.to_multiset().count(x) > 0);
        let k = b.index_of(x);
        assert(b[k] == x);
        assert(a.drop_last() == a.remove(a.len() - 1));
        lemma_sum_sizes_rearranged(a.drop_last(), b.remove(k));
        lemma_sum_sizes_remove(b, k);
    }
}

/// Totals stay exact: the kept children and the leaf for the others hold together what all children
/// hold, however many are kept.
pub proof fn law_pruning_keeps_totals(t: Seq<NodeView>, top: nat, i: int)
    ensures
        sum_sizes(by_size(t, i).take(kept(t, top, i))) + rest_bytes(t, top, i) == sum_sizes(
            sized(t, hash::children(arena::parents(t), i)),
        ),
{
    let items = sized(t, hash::children(arena::parents(t), i));
    rank::law_ranked(items);
    lemma_sum_sizes_rearranged(items, by_size(t, i));
    lemma_sum_sizes_split(by_size(t, i), kept(t, top, i));
}

proof fn lemma_sized_folded(t: Seq<NodeView>, ids: Seq<usize>)
    requires
        arena::is_arena(t),
        arena::total(t) <= u64::MAX,
        forall|j: int| 0 <= j < ids.len() ==> #[trigger] ids[j] < t.len(),
    ensures
        sum_sizes(sized(arena::folded(t), ids)) == arena::sum_below(t, ids),
    decreases ids.len(),
{
    let s = sized(arena::folded(t), ids);
    if ids.len() > 0 {
        lemma_sized_folded(t, ids.drop_last());
        assert(sized(arena::folded(t), ids.drop_last()) == s.drop_last());
        arena::law_subtree_is_bounded(t, ids.last() as int);
    }
}

/// In a folded tree a node holds what it brings itself and what its children hold.
pub proof fn law_folded_node_holds_its_children(t: Seq<NodeView>, i: int)
    requires
        arena::is_arena(t),
        t.len() <= usize::MAX,
        arena::total(t) <= u64::MAX,
        0 <= i < t.len(),
    ensures
        arena::folded(t)[i].sub == t[i].sub + sum_sizes(
            sized(arena::folded(t), hash::children(arena::parents(arena::folded(t)), i)),
        ),
{
    let f = arena::folded(t);
    assert(arena::parents(f) == arena::parents(t));
    let ids = hash::children(arena::parents(t), i);
    assert forall|j: int| 0 <= j < ids.len() implies #[trigger] ids[j] < t.len() by {
        cache::lemma_child_in_range(t, i, j);
    }
    lemma_sized_folded(t, ids);
    arena::law_subtree_is_own_plus_children(t, i);
    arena::law_subtree_is_bounded(t, i);
}

/// A folded tree can be pruned to any number of children: where the whole tree can be counted in 64
/// bits, so can the leaf of every directory.
pub proof fn law_folded_rests_fit(t: Seq<NodeView>, top: nat, i: int)
    requires
        arena::is_arena(t),
        t.len() <= usize::MAX,
        arena::total(t) <= u64::MAX,
        0 <= i < t.len(),
    ensures
        rests_fit(arena::folded(t), top, i),
    decreases t.len() - i,
{
    let f = arena::folded(t);
    law_pruning_keeps_totals(f, top, i);
    law_folded_node_holds_its_children(t, i);
    assert forall|k: int|
        0 <= k < kept(f, top, i) && i < #[trigger] by_size(f, i)[k].1 < f.len() implies rests_fit(
        f,
        top,
        by_size(f, i)[k].1 as int,
    ) by {
        law_folded_rests_fit(t, top, by_size(f, i)[k].1 as int);
    }
}

} // verus!
