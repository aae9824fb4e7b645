//! Pruned trees: which children are kept, in which order, and what stands for the others.

use crate::arena;
use crate::arena::NodeView;
use crate::escape;
use crate::hash;
use crate::json;
use crate::rank;
use crate::text;
use vstd::prelude::*;

verus! {

/// In a ranked list the sizes never grow, items of one size stand in the order of their numbers,
/// and the list holds the same items.
pub proof fn law_sizes_never_grow(items: Seq<(u64, usize)>, i: int, j: int)
    requires
        0 <= i < j < items.len(),
    ensures
        rank::ranked(items).len() == items.len(),
        rank::ranked(items).to_multiset() == items.to_multiset(),
        rank::ranked(items)[i].0 >= rank::ranked(items)[j].0,
        rank::ranked(items)[i].0 == rank::ranked(items)[j].0 ==> rank::ranked(items)[i].1
            <= rank::ranked(items)[j].1,
{
    rank::law_ranked(items);
}

/// What ranking returns is in order.
pub proof fn law_ranking_sorts(items: Vec<(u64, usize)>, r: Vec<(u64, usize)>, i: int, j: int)
    requires
        call_ensures(rank::rank, (items,), r),
        0 <= i < j < items@.len(),
    ensures
        r@.len() == items@.len(),
        r@.to_multiset() == items@.to_multiset(),
        r@[i].0 >= r@[j].0,
        r@[i].0 == r@[j].0 ==> r@[i].1 <= r@[j].1,
{
    law_sizes_never_grow(items@, i, j);
}

/// The children of a node are the nodes whose parent it is, each once.
pub proof fn law_children_are_those_with_that_parent(ps: Seq<usize>, i: int, c: int)
    requires
        ps.len() <= usize::MAX,
        0 <= c < ps.len(),
    ensures
        hash::children(ps, i).contains(c as usize) <==> c >= 1 && ps[c] == i,
        hash::children(ps, i).no_duplicates(),
        forall|a: int, b: int|
            0 <= a < b < hash::children(ps, i).len() ==> hash::children(ps, i)[a]
                < hash::children(ps, i)[b],
{
    hash::lemma_children_below(ps, i, ps.len() as int);
    if c >= 1 && ps[c] == i {
        hash::lemma_children_complete(ps, c, ps.len() as int);
    }
    let ids = hash::children(ps, i);
    if ids.contains(c as usize) {
        let j = choose|j: int| 0 <= j < ids.len() && ids[j] == c as usize;
        assert(hash::children_below(ps, i, ps.len() as int)[j] == ids[j]);
    }
}

/// What is listed of a directory are its children with their bytes, the largest first.
pub proof fn law_listed_children(t: Seq<NodeView>, i: int, k: int)
    requires
        t.len() <= usize::MAX,
        0 <= k < json::by_size(t, i).len(),
    ensures
        ({
            let (bytes, c) = json::by_size(t, i)[k];
            &&& 1 <= c < t.len()
            &&& t[c as int].parent == i
            &&& bytes == t[c as int].sub
        }),
        json::by_size(t, i).len() == hash::children(arena::parents(t), i).len(),
{
    let ids = hash::children(arena::parents(t), i);
    let items = json::sized(t, ids);
    rank::law_ranked(items);
    rank::lemma_ranked_member(items, k);
    let j = choose|j: int| 0 <= j < items.len() && items[j] == rank::ranked(items)[k];
    hash::lemma_children_below(arena::parents(t), i, t.len() as int);
    assert(hash::children_below(arena::parents(t), i, t.len() as int)[j] == ids[j]);
    assert(arena::parents(t)[ids[j] as int] == t[ids[j] as int].parent);
}

/// No child that is left out of a pruned directory holds more bytes than one that is kept.
pub proof fn law_the_largest_children_are_kept(t: Seq<NodeView>, top: nat, i: int, k: int, m: int)
    requires
        0 <= k < json::kept(t, top, i) <= m < json::by_size(t, i).len(),
    ensures
        json::by_size(t, i)[k].0 >= json::by_size(t, i)[m].0,
{
    rank::law_ranked(json::sized(t, hash::children(arena::parents(t), i)));
    law_sizes_never_grow(json::sized(t, hash::children(arena::parents(t), i)), k, m);
}

/// As many children are kept as there may be, and all where there are not more.
pub proof fn law_how_many_children_are_kept(t: Seq<NodeView>, top: nat, i: int)
    ensures
        json::by_size(t, i).len() == hash::children(arena::parents(t), i).len(),
        json::kept(t, top, i) <= top,
        hash::children(arena::parents(t), i).len() <= top ==> json::kept(t, top, i)
            == hash::children(arena::parents(t), i).len() && json::rest_text(t, top, i).len() == 0
            && json::rest_bytes(t, top, i) == 0,
        hash::children(arena::parents(t), i).len() > top ==> json::kept(t, top, i) == top,
{
    rank::law_ranked(json::sized(t, hash::children(arena::parents(t), i)));
    if hash::children(arena::parents(t), i).len() <= top {
        assert(json::by_size(t, i).skip(json::kept(t, top, i)) == Seq::<(u64, usize)>::empty());
    }
}

/// The bytes of a list of items grow with each item by its bytes.
pub proof fn law_bytes_add_up(items: Seq<(u64, usize)>, x: (u64, usize))
    ensures
        json::sum_sizes(items.push(x)) == json::sum_sizes(items) + x.0,
        json::sum_sizes(Seq::<(u64, usize)>::empty()) == 0,
{
    assert(items.push(x).drop_last() == items);
}

/// The leaf for what was left out says how many children that are and how many bytes they hold; it
/// is no directory.
pub proof fn law_the_leaf_says_what_was_left_out(t: Seq<NodeView>, top: nat, i: int)
    requires
        hash::children(arena::parents(t), i).len() > top,
    ensures
        json::rest_text(t, top, i) == (if top > 0 {
            ","@
        } else {
            ""@
        }) + "{\"n\":\"… ("@ + text::decimal(
            (hash::children(arena::parents(t), i).len() - top) as nat,
        ) + " more)\",\"v\":"@ + text::decimal(
            json::sum_sizes(json::by_size(t, i).skip(top as int)),
        ) + ",\"d\":0}"@,
{
    law_how_many_children_are_kept(t, top, i);
    reveal_strlit("");
    let n = (hash::children(arena::parents(t), i).len() - top) as nat;
    let bytes = json::sum_sizes(json::by_size(t, i).skip(top as int));
    let head = if top > 0 {
        ","@
    } else {
        ""@
    };
    assert(json::comma(top as int) == head);
    assert(json::rest_text(t, top, i) =~= head + "{\"n\":\"… ("@ + text::decimal(n)
        + " more)\",\"v\":"@ + text::decimal(bytes) + ",\"d\":0}"@);
}

/// What is written of a node starts with its name, its bytes, and whether it is a directory.
pub proof fn law_nodes_are_written_with_name_and_bytes(t: Seq<NodeView>, top: nat, i: int)
    ensures
        ({
            let n = t[i];
            let head = "{\"n\":\""@ + escape::json_escaped(n.name) + "\",\"v\":"@ + text::decimal(
                n.sub as nat,
            ) + ",\"d\":"@ + (if n.is_dir {
                "1"@
            } else {
                "0"@
            });
            &&& head.is_prefix_of(json::node_text(t, top, i))
            &&& json::node_text(t, top, i).last() == '}'
            &&& hash::children(arena::parents(t), i).len() == 0 ==> json::node_text(t, top, i)
                == head + "}"@
        }),
{
    rank::law_ranked(json::sized(t, hash::children(arena::parents(t), i)));
    reveal_strlit("}");
    let head = json::node_head(t[i]);
    let s = json::node_text(t, top, i);
    assert(s.subrange(0, head.len() as int) =~= head);
}

/// Whether `part` stands somewhere in `s`.
pub open spec fn stands_in(part: Seq<char>, s: Seq<char>) -> bool {
    exists|a: Seq<char>, b: Seq<char>| s == #[trigger] (a + part + b)
}

proof fn lemma_stands(a: Seq<char>, part: Seq<char>, b: Seq<char>)
    ensures
        stands_in(part, a + part + b),
{
}

pub(crate) proof fn lemma_stands_within(x: Seq<char>, y: Seq<char>, z: Seq<char>)
    requires
        stands_in(x, y),
        stands_in(y, z),
    ensures
        stands_in(x, z),
{
    let (a, b) = choose|a: Seq<char>, b: Seq<char>| y == #[trigger] (a + x + b);
    let (c, d) = choose|c: Seq<char>, d: Seq<char>| z == #[trigger] (c + y + d);
    assert(z =~= (c + a) + x + (b + d));
}

proof fn lemma_listed_child(t: Seq<NodeView>, top: nat, i: int, k: int, m: int)
    requires
        arena::is_arena(t),
        t.len() <= usize::MAX,
        0 <= i < t.len(),
        0 <= m < k <= json::by_size(t, i).len(),
    ensures
        stands_in(
            json::node_text(t, top, json::by_size(t, i)[m].1 as int),
            json::list_text(t, top, i, k),
        ),
    decreases k,
{
    law_listed_children(t, i, m);
    let c = json::by_size(t, i)[m].1 as int;
    let x = json::node_text(t, top, c);
    let before = json::list_text(t, top, i, k - 1);
    if m == k - 1 {
        assert(t[c].parent < c);
        let head = before + json::comma(k - 1);
        assert(json::list_text(t, top, i, k) =~= head + x + Seq::<char>::empty());
    } else {
        lemma_listed_child(t, top, i, k - 1, m);
        let d = json::by_size(t, i)[k - 1].1 as int;
        let more = json::comma(k - 1) + if i < d < t.len() {
            json::node_text(t, top, d)
        } else {
            seq![]
        };
        assert(json::list_text(t, top, i, k) =~= Seq::<char>::empty() + before + more);
        lemma_stands(Seq::<char>::empty(), before, more);
        lemma_stands_within(x, before, json::list_text(t, top, i, k));
    }
}

/// The children that are kept are written inside their directory.
pub proof fn law_kept_children_are_written(t: Seq<NodeView>, top: nat, i: int, m: int)
    requires
        arena::is_arena(t),
        t.len() <= usize::MAX,
        0 <= i < t.len(),
        0 <= m < json::by_size(t, i).len(),
        m < top,
    ensures
        stands_in(
            json::node_text(t, top, json::by_size(t, i)[m].1 as int),
            json::node_text(t, top, i),
        ),
{
    law_how_many_children_are_kept(t, top, i);
    let k = json::kept(t, top, i);
    let list = json::list_text(t, top, i, k);
    lemma_listed_child(t, top, i, k, m);
    let head = json::node_head(t[i]) + ",\"c\":["@;
    let tail = json::rest_text(t, top, i) + "]"@ + "}"@;
    assert(json::node_text(t, top, i) =~= head + list + tail);
    lemma_stands(head, list, tail);
    lemma_stands_within(
        json::node_text(t, top, json::by_size(t, i)[m].1 as int),
        list,
        json::node_text(t, top, i),
    );
}

/// Where no directory has more children than are kept, every node of the tree is written, and no
/// leaf stands for any of them.
pub proof fn law_nothing_is_pruned_below_the_limit(t: Seq<NodeView>, top: nat, i: int)
    requires
        arena::is_arena(t),
        t.len() <= usize::MAX,
        forall|p: int|
            0 <= p < t.len() ==> (#[trigger] hash::children(arena::parents(t), p)).len() <= top,
        0 <= i < t.len(),
    ensures
        stands_in(json::node_text(t, top, i), json::node_text(t, top, 0)),
        json::rest_text(t, top, i).len() == 0,
    decreases i,
{
    law_how_many_children_are_kept(t, top, i);
    assert(hash::children(arena::parents(t), i).len() <= top);
    if i == 0 {
        let none = Seq::<char>::empty();
        let x = json::node_text(t, top, 0);
        assert(x =~= none + x + none);
    } else {
        let p = t[i].parent as int;
        let ps = arena::parents(t);
        law_nothing_is_pruned_below_the_limit(t, top, p);
        law_children_are_those_with_that_parent(ps, p, i);
        assert(ps[i] == t[i].parent);
        let ids = hash::children(ps, p);
        let items = json::sized(t, ids);
        let j = choose|j: int| 0 <= j < ids.len() && ids[j] == i as usize;
        rank::law_ranked(items);
        assert(items[j] == (t[i].sub, i as usize));
        let x = items[j];
        lemma_still_there(items, rank::ranked(items), j);
        let m = choose|m: int| 0 <= m < rank::ranked(items).len() && rank::ranked(items)[m] == x;
        assert(json::by_size(t, p)[m].1 == i);
        assert(hash::children(arena::parents(t), p).len() <= top);
        law_kept_children_are_written(t, top, p, m);
        lemma_stands_within(
            json::node_text(t, top, i),
            json::node_text(t, top, p),
            json::node_text(t, top, 0),
        );
    }
}

proof fn lemma_still_there(a: Seq<(u64, usize)>, b: Seq<(u64, usize)>, j: int)
    requires
        a.to_multiset() == b.to_multiset(),
        0 <= j < a.len(),
    ensures
        b.contains(a[j]),
{
    broadcast use vstd::seq_lib::group_to_multiset_ensures;

    assert(a.contains(a[j]));
    assert(a.to_multiset().count(a[j]) > 0);
}

/// A node with children lists them in brackets, the largest first, with commas between them, and
/// then the leaf for those that were left out.
pub proof fn law_children_are_written_in_order(t: Seq<NodeView>, top: nat, i: int, k: int)
    requires
        arena::is_arena(t),
        t.len() <= usize::MAX,
        0 <= i < t.len(),
        0 <= k < json::by_size(t, i).len(),
    ensures
        json::node_text(t, top, i) == json::node_head(t[i]) + ",\"c\":["@ + json::list_text(
            t,
            top,
            i,
            json::kept(t, top, i),
        ) + json::rest_text(t, top, i) + "]}"@,
        json::list_text(t, top, i, k + 1) == json::list_text(t, top, i, k) + (if k > 0 {
            ","@
        } else {
            ""@
        }) + json::node_text(t, top, json::by_size(t, i)[k].1 as int),
        json::list_text(t, top, i, 0).len() == 0,
{
    reveal_strlit("]");
    reveal_strlit("}");
    reveal_strlit("]}");
    reveal_strlit("");
    law_listed_children(t, i, k);
    let c = json::by_size(t, i)[k].1 as int;
    assert(t[c].parent < c);
    assert(""@ =~= Seq::<char>::empty());
    let head = json::node_head(t[i]) + ",\"c\":["@ + json::list_text(
        t,
        top,
        i,
        json::kept(t, top, i),
    ) + json::rest_text(t, top, i);
    assert(head + "]"@ + "}"@ =~= head + "]}"@);
}

} // verus!
