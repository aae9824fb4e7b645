//! Ordering by size: the largest first, and among equals the one with the lower number.

use vstd::prelude::*;

verus! {

/// Whether an item `(size, number)` may stand before another one.
pub open spec fn larger_first() -> spec_fn((u64, usize), (u64, usize)) -> bool {
    |x: (u64, usize), y: (u64, usize)| x.0 > y.0 || (x.0 == y.0 && x.1 <= y.1)
}

/// The items, the largest first.
pub open spec fn ranked(items: Seq<(u64, usize)>) -> Seq<(u64, usize)> {
    items.sort_by(larger_first())
}

/// `larger_first` is a total order.
pub proof fn lemma_larger_first_total()
    ensures
        vstd::relations::total_ordering(larger_first()),
{
}

/// Ranking is a rearrangement, and it is in order.
pub proof fn law_ranked(items: Seq<(u64, usize)>)
    ensures
        ranked(items).to_multiset() == items.to_multiset(),
        ranked(items).len() == items.len(),
        forall|i: int, j: int|
            0 <= i < j < items.len() ==> larger_first()(
                #[trigger] ranked(items)[i],
                #[trigger] ranked(items)[j],
            ),
{
    lemma_larger_first_total();
    items.lemma_sort_by_ensures(larger_first());
    items.to_multiset_ensures();
    ranked(items).to_multiset_ensures();
}

/// Every ranked item is one of the items.
pub proof fn lemma_ranked_member(items: Seq<(u64, usize)>, i: int)
    requires
        0 <= i < items.len(),
    ensures
        i < ranked(items).len(),
        items.contains(ranked(items)[i]),
{
    law_ranked(items);
    lemma_larger_first_total();
    items.lemma_sort_by_ensures(larger_first());
    if !items.contains(ranked(items)[i]) {
        assert(!items.sort_by(larger_first()).contains(ranked(items)[i]));
    }
}

/// Merges two ranked lists.
fn merge(l: &Vec<(u64, usize)>, r: &Vec<(u64, usize)>) -> (out: Vec<(u64, usize)>)
    requires
        vstd::relations::sorted_by(l@, larger_first()),
        vstd::relations::sorted_by(r@, larger_first()),
    ensures
        vstd::relations::sorted_by(out@, larger_first()),
        out@.to_multiset() == l@.to_multiset().add(r@.to_multiset()),
{
    broadcast use {
        vstd::seq_lib::group_to_multiset_ensures,
        vstd::multiset::group_multiset_axioms,
    };

    let ghost leq = larger_first();
    let mut out: Vec<(u64, usize)> = Vec::new();
    let mut i: usize = 0;
    let mut j: usize = 0;
    proof {
        lemma_larger_first_total();
        assert(l@.skip(0) == l@);
        assert(r@.skip(0) == r@);
        assert(out@.to_multiset().add(l@.to_multiset()).add(r@.to_multiset())
            == l@.to_multiset().add(r@.to_multiset()));
    }
    while i < l.len() || j < r.len()
        invariant
            leq == larger_first(),
            vstd::relations::total_ordering(leq),
            vstd::relations::sorted_by(l@, leq),
            vstd::relations::sorted_by(r@, leq),
            i <= l@.len(),
            j <= r@.len(),
            vstd::relations::sorted_by(out@, leq),
            forall|a: int, b: int|
                0 <= a < out@.len() && i <= b < l@.len() ==> leq(#[trigger] out@[a], #[trigger] l@[b]),
            forall|a: int, b: int|
                0 <= a < out@.len() && j <= b < r@.len() ==> leq(#[trigger] out@[a], #[trigger] r@[b]),
            out@.to_multiset().add(l@.skip(i as int).to_multiset()).add(
                r@.skip(j as int).to_multiset(),
            ) == l@.to_multiset().add(r@.to_multiset()),
        decreases l@.len() - i + r@.len() - j,
    {
        let ghost before = out@;
        let left = j == r.len() || (i < l.len() && (l[i].0 > r[j].0 || (l[i].0 == r[j].0 && l[i].1
            <= r[j].1)));
        if left {
            proof {
                assert(l@.skip(i as int).drop_first() == l@.skip(i + 1));
                lemma_move(before, l@.skip(i as int), r@.skip(j as int));
                assert forall|b: int| i < b < l@.len() implies leq(l@[i as int], #[trigger] l@[b]) by {
                    assert(leq(l@[i as int], l@[b]));
                }
                assert forall|b: int| j <= b < r@.len() implies leq(l@[i as int], #[trigger] r@[b]) by {
                    assert(b == j || leq(r@[j as int], r@[b]));
                }
            }
            out.push(l[i]);
            i = i + 1;
        } else {
            proof {
                assert(r@.skip(j as int).drop_first() == r@.skip(j + 1));
                lemma_move(before, r@.skip(j as int), l@.skip(i as int));
                assert forall|b: int| j < b < r@.len() implies leq(r@[j as int], #[trigger] r@[b]) by {
                    assert(leq(r@[j as int], r@[b]));
                }
                assert forall|b: int| i <= b < l@.len() implies leq(r@[j as int], #[trigger] l@[b]) by {
                    assert(b == i || leq(l@[i as int], l@[b]));
                }
            }
            out.push(r[j]);
            j = j + 1;
        }
    }
    proof {
        assert(l@.skip(i as int) == Seq::<(u64, usize)>::empty());
        assert(r@.skip(j as int) == Seq::<(u64, usize)>::empty());
        assert(out@.to_multiset() == l@.to_multiset().add(r@.to_multiset()));
    }
    out
}

/// Moving the first item of one list to the end of the output keeps the items together.
proof fn lemma_move(out: Seq<(u64, usize)>, s: Seq<(u64, usize)>, other: Seq<(u64, usize)>)
    requires
        s.len() > 0,
    ensures
        out.push(s[0]).to_multiset().add(s.drop_first().to_multiset()).add(other.to_multiset())
            == out.to_multiset().add(s.to_multiset()).add(other.to_multiset()),
        out.push(s[0]).to_multiset().add(other.to_multiset()).add(s.drop_first().to_multiset())
            == out.to_multiset().add(other.to_multiset()).add(s.to_multiset()),
{
    broadcast use {
        vstd::seq_lib::group_to_multiset_ensures,
        vstd::multiset::group_multiset_axioms,
    };

    assert(s.drop_first() == s.remove(0));
    assert(s.to_multiset().contains(s[0]));
    assert(s.to_multiset() == s.remove(0).to_multiset().insert(s[0]));
    assert(out.push(s[0]).to_multiset() == out.to_multiset().insert(s[0]));
    assert(out.push(s[0]).to_multiset().add(s.drop_first().to_multiset()).add(other.to_multiset())
        =~= out.to_multiset().add(s.to_multiset()).add(other.to_multiset()));
    assert(out.push(s[0]).to_multiset().add(other.to_multiset()).add(s.drop_first().to_multiset())
        =~= out.to_multiset().add(other.to_multiset()).add(s.to_multiset()));
}

/// Ranks the items.
pub fn rank(items: Vec<(u64, usize)>) -> (r: Vec<(u64, usize)>)
    ensures
        r@ == ranked(items@),
        r@.to_multiset() == items@.to_multiset(),
        forall|i: int, j: int| 0 <= i < j < r@.len() ==> (#[trigger] r@[i]).0 >= (#[trigger] r@[j]).0,
    decreases items@.len(),
{
    proof {
        law_ranked(items@);
        lemma_larger_first_total();
        items@.lemma_sort_by_ensures(larger_first());
    }
    let n = items.len();
    if n <= 1 {
        proof {
            vstd::seq_lib::lemma_sorted_unique(items@, ranked(items@), larger_first());
        }
        return items;
    }
    let ghost whole = items@;
    let mut items = items;
    let tail = items.split_off(n / 2);
    proof {
        assert(whole == items@ + tail@);
        vstd::seq_lib::lemma_multiset_commutative(items@, tail@);
        items@.lemma_sort_by_ensures(larger_first());
        tail@.lemma_sort_by_ensures(larger_first());
    }
    let l = rank(items);
    let r = rank(tail);
    let out = merge(&l, &r);
    proof {
        vstd::seq_lib::lemma_sorted_unique(out@, ranked(whole), larger_first());
    }
    out
}

} // verus!
