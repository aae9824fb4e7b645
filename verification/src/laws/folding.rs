//! Sums over subtrees, and the response of a scan.

use crate::arena;
use crate::arena::{Cfg, Node, NodeView};
use crate::filetypes;
use crate::hash;
use crate::json;
use crate::laws::pruning;
use crate::summary;
use crate::text;
use vstd::prelude::*;

verus! {

/// A tree with a node more holds that node's bytes more.
pub proof fn law_totals_add_up(t: Seq<NodeView>, n: NodeView)
    ensures
        arena::total(t.push(n)) == arena::total(t) + n.sub,
        arena::total(Seq::<NodeView>::empty()) == 0,
{
    lemma_sum_prefix(t, t.push(n), t.len() as int);
}

proof fn lemma_sum_prefix(t: Seq<NodeView>, u: Seq<NodeView>, k: int)
    requires
        0 <= k <= t.len() <= u.len(),
        forall|j: int| 0 <= j < t.len() ==> #[trigger] t[j] == u[j],
    ensures
        arena::sum_subs(t, k) == arena::sum_subs(u, k),
    decreases k,
{
    if k > 0 {
        lemma_sum_prefix(t, u, k - 1);
        assert(t[k - 1] == u[k - 1]);
    }
}

/// A node without children holds its own bytes, and no child holds more than its directory.
pub proof fn law_subtrees_hold_what_is_below(t: Seq<NodeView>, i: int, c: int)
    requires
        arena::is_arena(t),
        t.len() <= usize::MAX,
        0 <= i < t.len(),
    ensures
        arena::subtree(t, i) >= t[i].sub,
        (forall|k: int| 1 <= k < t.len() ==> (#[trigger] t[k]).parent != i) ==> arena::subtree(t, i)
            == t[i].sub,
        1 <= c < t.len() && t[c].parent == i ==> arena::subtree(t, i) >= t[i].sub + arena::subtree(
            t,
            c,
        ),
{
    let ps = arena::parents(t);
    let ids = hash::children(ps, i);
    arena::law_subtree_is_own_plus_children(t, i);
    if forall|k: int| 1 <= k < t.len() ==> (#[trigger] t[k]).parent != i {
        if ids.len() > 0 {
            hash::lemma_children_below(ps, i, ps.len() as int);
            let k = hash::children_below(ps, i, ps.len() as int)[0] as int;
            assert(ps[k] == t[k].parent);
        }
    }
    if 1 <= c < t.len() && t[c].parent == i {
        pruning::law_children_are_those_with_that_parent(ps, i, c);
        assert(ps[c] == t[c].parent);
        let j = choose|j: int| 0 <= j < ids.len() && ids[j] == c as usize;
        lemma_sum_below_member(t, ids, j);
    }
}

proof fn lemma_sum_below_member(t: Seq<NodeView>, ids: Seq<usize>, j: int)
    requires
        0 <= j < ids.len(),
    ensures
        arena::sum_below(t, ids) >= arena::subtree(t, ids[j] as int),
    decreases ids.len(),
{
    if j < ids.len() - 1 {
        lemma_sum_below_member(t, ids.drop_last(), j);
    }
}

/// The bytes below a list of nodes grow with each node by its subtree.
pub proof fn law_bytes_below_add_up(t: Seq<NodeView>, ids: Seq<usize>, c: usize)
    ensures
        arena::sum_below(t, ids.push(c)) == arena::sum_below(t, ids) + arena::subtree(t, c as int),
        arena::sum_below(t, Seq::<usize>::empty()) == 0,
{
    assert(ids.push(c).drop_last() == ids);
}

/// Folding puts the bytes of its subtree into every node, and changes nothing else.
pub proof fn law_folding_changes_bytes_only(t: Seq<NodeView>, i: int)
    requires
        arena::is_arena(t),
        arena::total(t) <= u64::MAX,
        0 <= i < t.len(),
    ensures
        arena::folded(t).len() == t.len(),
        arena::folded(t)[i].sub == arena::subtree(t, i),
        arena::folded(t)[0].sub == arena::total(t),
        ({
            let n = arena::folded(t)[i];
            &&& n.parent == t[i].parent && n.name == t[i].name && n.own == t[i].own
            &&& n.size == t[i].size && n.blocks == t[i].blocks && n.mtime == t[i].mtime
            &&& n.uid == t[i].uid && n.gid == t[i].gid && n.mode == t[i].mode
            &&& n.nlink == t[i].nlink && n.is_dir == t[i].is_dir && n.is_link == t[i].is_link
        }),
{
    arena::law_subtree_is_bounded(t, i);
    arena::law_subtree_is_bounded(t, 0);
    arena::law_root_holds_everything(t);
}

/// The total is the sum of all bytes, or nothing where that is too large.
pub proof fn law_total_size(nodes: &[Node], r: Option<u64>)
    requires
        call_ensures(arena::total_size, (nodes,), r),
    ensures
        r is Some <==> arena::total(arena::tree(nodes@)) <= u64::MAX,
        r is Some ==> r->0 == arena::total(arena::tree(nodes@)),
{
}

/// The response of a scan says how long it took, how many entries there are, the tree and the
/// types, and the scan returns its total and the number of its entries beside it.
pub proof fn law_responses(nodes: Vec<Node>, ms: u64, cfg: &Cfg, r: (String, u64, usize))
    requires
        call_ensures(summary::finish, (nodes, ms, cfg), r),
    ensures
        r.1 == arena::total(arena::tree(nodes@)),
        r.2 == nodes@.len(),
        ({
            let t = arena::folded(arena::tree(nodes@));
            &&& r.0@ == "{\"scan_ms\":"@ + text::decimal(ms as nat) + ",\"entries\":"@
                + text::decimal(nodes@.len()) + ",\"tree\":"@ + json::node_text(
                t,
                cfg.top as nat,
                0,
            ) + ",\"types\":"@ + filetypes::types_text(t) + "}"@
            &&& pruning::stands_in(json::node_text(t, cfg.top as nat, 0), r.0@)
        }),
{
    let t = arena::folded(arena::tree(nodes@));
    let tree = json::node_text(t, cfg.top as nat, 0);
    let a = "{\"scan_ms\":"@ + text::decimal(ms as nat) + ",\"entries\":"@ + text::decimal(
        nodes@.len(),
    ) + ",\"tree\":"@;
    let b = ",\"types\":"@ + filetypes::types_text(t) + "}"@;
    assert(r.0@ =~= a + tree + b);
}

} // verus!
