//! Sums over sequences and finite sets, and how often something stands in a sequence.

use vstd::prelude::*;

verus! {

/// What `f` gives for the members of `s`, added up.
pub open spec fn seq_sum<A>(s: Seq<A>, f: spec_fn(A) -> nat) -> nat
    decreases s.len(),
{
    if s.len() == 0 {
        0
    } else {
        seq_sum(s.drop_last(), f) + f(s.last())
    }
}

pub(crate) proof fn lemma_sum_push<A>(s: Seq<A>, a: A, f: spec_fn(A) -> nat)
    ensures
        seq_sum(s.push(a), f) == seq_sum(s, f) + f(a),
{
    assert(s.push(a).drop_last() == s);
}

pub(crate) proof fn lemma_sum_add<A>(s: Seq<A>, t: Seq<A>, f: spec_fn(A) -> nat)
    ensures
        seq_sum(s + t, f) == seq_sum(s, f) + seq_sum(t, f),
    decreases t.len(),
{
    if t.len() == 0 {
        assert(s + t == s);
    } else {
        lemma_sum_add(s, t.drop_last(), f);
        assert((s + t).drop_last() == s + t.drop_last());
    }
}

pub(crate) proof fn lemma_sum_remove<A>(s: Seq<A>, k: int, f: spec_fn(A) -> nat)
    requires
        0 <= k < s.len(),
    ensures
        seq_sum(s, f) == seq_sum(s.remove(k), f) + f(s[k]),
    decreases s.len(),
{
    if k == s.len() - 1 {
        assert(s.remove(k) == s.drop_last());
    } else {
        lemma_sum_remove(s.drop_last(), k, f);
        assert(s.remove(k).drop_last() == s.drop_last().remove(k));
    }
}

pub(crate) proof fn lemma_sum_update<A>(s: Seq<A>, k: int, a: A, f: spec_fn(A) -> nat)
    requires
        0 <= k < s.len(),
    ensures
        seq_sum(s.update(k, a), f) + f(s[k]) == seq_sum(s, f) + f(a),
    decreases s.len(),
{
    if k == s.len() - 1 {
        assert(s.update(k, a).drop_last() == s.drop_last());
    } else {
        lemma_sum_update(s.drop_last(), k, a, f);
        assert(s.update(k, a).drop_last() == s.drop_last().update(k, a));
    }
}

pub(crate) proof fn lemma_sum_same<A>(s: Seq<A>, f: spec_fn(A) -> nat, g: spec_fn(A) -> nat)
    requires
        forall|i: int| 0 <= i < s.len() ==> f(#[trigger] s[i]) == g(s[i]),
    ensures
        seq_sum(s, f) == seq_sum(s, g),
    decreases s.len(),
{
    if s.len() > 0 {
        lemma_sum_same(s.drop_last(), f, g);
        assert(f(s[s.len() - 1]) == g(s[s.len() - 1]));
    }
}

pub(crate) proof fn lemma_sum_mapped<A, B>(s: Seq<A>, t: Seq<B>, f: spec_fn(A) -> nat, g: spec_fn(B) -> nat)
    requires
        s.len() == t.len(),
        forall|i: int| 0 <= i < s.len() ==> f(#[trigger] s[i]) == g(t[i]),
    ensures
        seq_sum(s, f) == seq_sum(t, g),
    decreases s.len(),
{
    if s.len() > 0 {
        lemma_sum_mapped(s.drop_last(), t.drop_last(), f, g);
        assert(f(s[s.len() - 1]) == g(t[s.len() - 1]));
    }
}

pub(crate) proof fn lemma_sum_has<A>(s: Seq<A>, f: spec_fn(A) -> nat)
    ensures
        seq_sum(s, f) > 0 <==> exists|i: int| 0 <= i < s.len() && f(#[trigger] s[i]) > 0,
    decreases s.len(),
{
    if s.len() > 0 {
        let front = s.drop_last();
        lemma_sum_has(front, f);
        if seq_sum(front, f) > 0 {
            let i = choose|i: int| 0 <= i < front.len() && f(#[trigger] front[i]) > 0;
            assert(f(s[i]) > 0);
        } else if f(s.last()) > 0 {
            assert(f(s[s.len() - 1]) > 0);
        } else {
            assert forall|i: int| 0 <= i < s.len() implies f(#[trigger] s[i]) == 0 by {
                if i < front.len() {
                    assert(front[i] == s[i]);
                }
            }
        }
    }
}

pub(crate) proof fn lemma_sum_nothing<A>(s: Seq<A>, f: spec_fn(A) -> nat)
    requires
        forall|i: int| 0 <= i < s.len() ==> f(#[trigger] s[i]) == 0,
    ensures
        seq_sum(s, f) == 0,
{
    lemma_sum_has(s, f);
}

pub(crate) proof fn lemma_sum_ones<A>(s: Seq<A>, f: spec_fn(A) -> nat)
    requires
        forall|a: A| #[trigger] f(a) == 1,
    ensures
        seq_sum(s, f) == s.len(),
    decreases s.len(),
{
    if s.len() > 0 {
        lemma_sum_ones(s.drop_last(), f);
    }
}

/// One for `a`, and nothing for anything else.
pub open spec fn one_for<A>(a: A) -> spec_fn(A) -> nat {
    |b: A|
        if b == a {
            1
        } else {
            0
        }
}

/// How often `a` stands in `s`.
pub open spec fn count_in<A>(s: Seq<A>, a: A) -> nat {
    seq_sum(s, one_for(a))
}

/// A multiset holds a member as often as the sequence that it is made of.
pub(crate) proof fn lemma_count<A>(s: Seq<A>, a: A)
    ensures
        s.to_multiset().count(a) == count_in(s, a),
    decreases s.len(),
{
    broadcast use vstd::seq_lib::group_to_multiset_ensures;

    if s.len() > 0 {
        let front = s.drop_last();
        lemma_count(front, a);
        assert(s == front.push(s.last()));
        assert(s.to_multiset() == front.to_multiset().insert(s.last()));
    }
}

/// Two sequences in which everything stands as often make the same multiset.
pub(crate) proof fn lemma_same_counts<A>(s: Seq<A>, t: Seq<A>)
    requires
        forall|a: A| #[trigger] count_in(s, a) == count_in(t, a),
    ensures
        s.to_multiset() == t.to_multiset(),
{
    assert forall|a: A| s.to_multiset().count(a) == t.to_multiset().count(a) by {
        lemma_count(s, a);
        lemma_count(t, a);
        assert(count_in(s, a) == count_in(t, a));
    }
    assert(s.to_multiset() =~= t.to_multiset());
}

/// What `f` gives for the members of a finite set, added up.
pub open spec fn set_sum<A>(s: Set<A>, f: spec_fn(A) -> nat) -> nat
    decreases s.len(),
    when s.finite()
{
    if s.len() == 0 {
        0
    } else {
        set_sum(s.remove(s.choose()), f) + f(s.choose())
    }
}

pub(crate) proof fn lemma_set_sum_remove<A>(s: Set<A>, a: A, f: spec_fn(A) -> nat)
    requires
        s.finite(),
        s.contains(a),
    ensures
        set_sum(s, f) == set_sum(s.remove(a), f) + f(a),
    decreases s.len(),
{
    let c = s.choose();
    assert(s.contains(c));
    if c != a {
        lemma_set_sum_remove(s.remove(c), a, f);
        lemma_set_sum_remove(s.remove(a), c, f);
        assert(s.remove(c).remove(a) == s.remove(a).remove(c));
    }
}

pub(crate) proof fn lemma_set_sum_insert<A>(s: Set<A>, a: A, f: spec_fn(A) -> nat)
    requires
        s.finite(),
        !s.contains(a),
    ensures
        set_sum(s.insert(a), f) == set_sum(s, f) + f(a),
{
    lemma_set_sum_remove(s.insert(a), a, f);
    assert(s.insert(a).remove(a) == s);
}

} // verus!
