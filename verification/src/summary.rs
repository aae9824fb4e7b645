//! From a scanned arena to the response of a scan.

use crate::arena;
use crate::arena::{Cfg, Node, NodeView};
use crate::cache;
use crate::filetypes;
use crate::hash;
use crate::hash::{Acc, Csr};
use crate::json;
use crate::text;
use vstd::prelude::*;

verus! {

/// The response of a scan that took `ms` milliseconds and found the folded tree `t`.
pub open spec fn response(t: Seq<NodeView>, ms: nat, top: nat) -> Seq<char> {
    "{\"scan_ms\":"@ + text::decimal(ms) + ",\"entries\":"@ + text::decimal(t.len()) + ",\"tree\":"@
        + json::node_text(t, top, 0) + ",\"types\":"@ + filetypes::types_text(t) + "}"@
}

proof fn lemma_leaf_folds_to_itself(t: Seq<NodeView>, i: int, k: int)
    requires
        arena::is_arena(t),
        arena::parents_are_dirs(t),
        0 <= i < k <= t.len(),
        !t[i].is_dir,
    ensures
        arena::kids_from(t, i, k) == 0,
    decreases t.len() - k,
{
    if k < t.len() {
        assert(t[t[k].parent as int].is_dir);
        lemma_leaf_folds_to_itself(t, i, k + 1);
    }
}

proof fn lemma_type_bytes(t: Seq<NodeView>, e: Seq<char>, k: int)
    requires
        arena::is_arena(t),
        arena::parents_are_dirs(t),
        arena::total(t) <= u64::MAX,
        0 <= k <= t.len(),
    ensures
        filetypes::bytes_of(arena::folded(t), e, k) <= arena::sum_subs(t, k),
    decreases k,
{
    if k > 0 {
        lemma_type_bytes(t, e, k - 1);
        if filetypes::counts(t[k - 1]) {
            lemma_leaf_folds_to_itself(t, k - 1, k);
        }
    }
}

/// Where only directories have children and the whole tree can be counted in 64 bits, so can every
/// file type: a file's bytes are counted once, for its own extension.
pub proof fn law_folded_types_fit(t: Seq<NodeView>)
    requires
        arena::is_arena(t),
        arena::parents_are_dirs(t),
        arena::total(t) <= u64::MAX,
    ensures
        filetypes::types_fit(arena::folded(t)),
{
    assert forall|e: Seq<char>| #[trigger]
        filetypes::bytes_of(arena::folded(t), e, arena::folded(t).len() as int) <= u64::MAX by {
        lemma_type_bytes(t, e, t.len() as int);
    }
}

/// The children of every node.
pub fn children_of(nodes: &[Node]) -> (r: Csr)
    requires
        arena::is_arena(arena::tree(nodes@)),
        nodes@.len() < usize::MAX,
    ensures
        cache::kids_match(&r, arena::tree(nodes@)),
{
    let ghost t = arena::tree(nodes@);
    let n = nodes.len();
    let parent = |i: usize| -> (p: usize)
        requires
            i < nodes@.len(),
        ensures
            p == nodes@[i as int].parent,
        { nodes[i].parent };
    proof {
        assert forall|i: usize, p: usize|
            1 <= i < n && #[trigger] parent.ensures((i,), p) implies p < n by {
            assert(t[i as int].parent < i);
        }
    }
    let r = Csr::from_parents(n, parent);
    proof {
        let ps = choose|ps: Seq<usize>|
            {
                &&& ps.len() == n
                &&& forall|i: usize| 1 <= i < n ==> #[trigger] parent.ensures((i,), ps[i as int])
                &&& r@ == #[trigger] hash::adjacency(ps)
            };
        assert forall|k: int| 1 <= k < n implies #[trigger] ps[k] == arena::parents(t)[k] by {
            assert(parent.ensures((k as usize,), ps[k as usize as int]));
        }
        hash::lemma_adjacency_ignores_root(ps, arena::parents(t));
    }
    r
}

/// Folds a scanned arena into the response of the scan, with the bytes of the whole tree and the
/// number of entries.
pub fn finish(nodes: Vec<Node>, scan_ms: u64, cfg: &Cfg) -> (r: (String, u64, usize))
    requires
        arena::is_arena(arena::tree(nodes@)),
        nodes@.len() < usize::MAX,
        arena::total(arena::tree(nodes@)) <= u64::MAX,
        filetypes::types_fit(arena::folded(arena::tree(nodes@))),
    ensures
        r.0@ == response(arena::folded(arena::tree(nodes@)), scan_ms as nat, cfg.top as nat),
        r.1 == arena::total(arena::tree(nodes@)),
        r.2 == nodes@.len(),
{
    let ghost t = arena::tree(nodes@);
    let ghost f = arena::folded(t);
    let ghost top = cfg.top as nat;
    let mut nodes = nodes;
    arena::fold_sizes(&mut nodes);
    let n = nodes.len();
    proof {
        assert(arena::tree(nodes@).len() == nodes@.len());
        assert(f[0] == nodes@[0]@);
        arena::law_root_holds_everything(t);
        json::law_folded_rests_fit(t, top, 0);
    }
    let total = nodes[0].sub;
    let kids = children_of(nodes.as_slice());
    let room: usize = if n > usize::MAX / 64 {
        usize::MAX
    } else if n * 64 < 65536 {
        65536
    } else {
        n * 64
    };
    let mut acc = Acc::with_capacity(room);
    let ghost base = acc@;
    let ghost mut g = Seq::<char>::empty();
    assert(base + vstd::utf8::encode_utf8(g) == base);
    acc.str("{\"scan_ms\":");
    proof {
        text::lemma_append_encoded(base, g, "{\"scan_ms\":"@);
        g = g + "{\"scan_ms\":"@;
    }
    acc.u64(scan_ms);
    proof {
        text::lemma_append_encoded(base, g, text::decimal(scan_ms as nat));
        g = g + text::decimal(scan_ms as nat);
    }
    acc.str(",\"entries\":");
    proof {
        text::lemma_append_encoded(base, g, ",\"entries\":"@);
        g = g + ",\"entries\":"@;
    }
    acc.u64(n as u64);
    proof {
        text::lemma_append_encoded(base, g, text::decimal(n as nat));
        g = g + text::decimal(n as nat);
    }
    acc.str(",\"tree\":");
    proof {
        text::lemma_append_encoded(base, g, ",\"tree\":"@);
        g = g + ",\"tree\":"@;
    }
    json::emit_json(0, &kids, nodes.as_slice(), cfg, &mut acc);
    proof {
        text::lemma_append_encoded(base, g, json::node_text(f, top, 0));
        g = g + json::node_text(f, top, 0);
    }
    acc.str(",\"types\":");
    proof {
        text::lemma_append_encoded(base, g, ",\"types\":"@);
        g = g + ",\"types\":"@;
    }
    filetypes::type_stats_into(nodes.as_slice(), &mut acc);
    proof {
        text::lemma_append_encoded(base, g, filetypes::types_text(f));
        g = g + filetypes::types_text(f);
    }
    acc.str("}");
    proof {
        text::lemma_append_encoded(base, g, "}"@);
        g = g + "}"@;
    }
    proof {
        assert(g == response(f, scan_ms as nat, top));
        assert(base + vstd::utf8::encode_utf8(g) == vstd::utf8::encode_utf8(g));
        text::lemma_utf8_text(g);
    }
    (acc.into_string(), total, n)
}

/// Whether an arena can be folded and written out: every entry stands after its directory, only
/// directories have entries, and the entries and the bytes can be counted.
pub fn can_finish(nodes: &[Node]) -> (r: bool)
    ensures
        r == ({
            let t = arena::tree(nodes@);
            &&& arena::is_arena(t)
            &&& arena::parents_are_dirs(t)
            &&& nodes@.len() < usize::MAX
            &&& arena::total(t) <= u64::MAX
        }),
        r ==> filetypes::types_fit(arena::folded(arena::tree(nodes@))),
{
    let ghost t = arena::tree(nodes@);
    let n = nodes.len();
    if n == 0 || n == usize::MAX {
        return false;
    }
    let mut i: usize = 1;
    while i < n
        invariant
            n == nodes@.len(),
            1 <= i <= n,
            t == arena::tree(nodes@),
            forall|k: int| 1 <= k < i ==> #[trigger] t[k].parent < k,
            forall|k: int| 1 <= k < i ==> t[#[trigger] t[k].parent as int].is_dir,
        decreases n - i,
    {
        let p = nodes[i].parent;
        assert(t[i as int].parent == p);
        if p >= i {
            return false;
        }
        assert(t[p as int].is_dir == nodes@[p as int].is_dir);
        if !nodes[p].is_dir {
            return false;
        }
        i = i + 1;
    }
    proof {
        if arena::total(t) <= u64::MAX {
            law_folded_types_fit(t);
        }
    }
    arena::total_size(nodes).is_some()
}

} // verus!
