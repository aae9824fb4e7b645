//! Merging values under one key, and folding lists.

use crate::hash;
use crate::hash::{HMap, OMap};
use vstd::prelude::*;

verus! {

/// A member stays a member, and only what neither side has is none.
pub proof fn law_sets_are_united(new: bool, old: bool, r: bool)
    requires
        call_ensures(hash::set_merge, (new, &old), r),
    ensures
        new ==> r,
        old ==> r,
        !new && !old ==> !r,
{
}

/// The first value stays where values are kept, and the new one replaces it where they are mapped.
pub proof fn law_first_and_last_values(new: u64, old: u64, first: u64, last: u64)
    requires
        call_ensures(hash::first_merge::<u64>, (new, &old), first),
        call_ensures(hash::map_merge::<u64>, (new, &old), last),
    ensures
        first == old,
        last == new,
{
}

/// Numbers that are added up are added in full.
pub proof fn law_sums(new: u64, old: u64, r: u64)
    requires
        call_ensures(hash::acc_merge_add::<u64>, (new, &old), r),
        old + new <= u64::MAX,
    ensures
        r == old + new,
{
}

/// The larger of two numbers is kept.
pub proof fn law_maxima(new: u64, old: u64, r: u64)
    requires
        call_ensures(hash::acc_merge_max::<u64>, (new, &old), r),
    ensures
        r >= new,
        r >= old,
        r == new || r == old,
{
}

/// Lists are linked with the old elements first.
pub proof fn law_links(new: Vec<u64>, old: &[u64], r: Vec<u64>)
    requires
        call_ensures(hash::link_merge::<u64>, (new, old), r),
    ensures
        r@ == old@ + new@,
{
    assert forall|i: int| 0 <= i < r@.len() implies r@[i] == (old@ + new@)[i] by {
        if i < old@.len() {
            assert(cloned::<u64>(old@[i], r@[i]));
        } else {
            assert(r@.skip(old@.len() as int)[i - old@.len()] == new@[i - old@.len()]);
        }
    }
    assert(r@ =~= old@ + new@);
}

/// A value under a new key is put in as it is; under a key that is there, what the function makes
/// of the new value and the old one. No other key changes.
pub proof fn law_values_are_put_in<F: FnOnce(u64, &u64) -> u64>(
    map: &mut HMap<u64, u64>,
    k: u64,
    v: u64,
    f: F,
    other: u64,
)
    requires
        call_ensures(hash::insert_with::<u64, u64, F>, (map, k, v, f), ()),
        other != k,
    ensures
        !old(map)@.contains_key(k) ==> final(map)@.contains_key(k) && final(map)@[k] == v,
        old(map)@.contains_key(k) ==> final(map)@.contains_key(k)
            && f.ensures((v, &old(map)@[k]), final(map)@[k]),
        final(map)@.contains_key(other) <==> old(map)@.contains_key(other),
        old(map)@.contains_key(other) ==> final(map)@[other] == old(map)@[other],
{
    broadcast use vstd::std_specs::hash::group_hash_axioms;
}

/// Folding starts at the last element with the initial value and ends with the first element; where
/// there are none, the initial value is the result.
pub proof fn law_folds<A, B, F: Fn(&A, B) -> B>(op: F, init: B, xs: &[A], r: B)
    requires
        call_ensures(hash::fold::<A, B, F>, (op, init, xs), r),
    ensures
        xs@.len() == 0 ==> r == init,
        xs@.len() == 1 ==> op.ensures((&xs@[0], init), r),
        xs@.len() == 2 ==> exists|m: B|
            #[trigger] op.ensures((&xs@[1], init), m) && op.ensures((&xs@[0], m), r),
{
    let accs = choose|accs: Seq<B>| #[trigger] hash::fold_run(op, init, xs@, accs) && accs[0] == r;
    assert(hash::fold_run(op, init, xs@, accs));
    if xs@.len() == 1 {
        assert(op.ensures((&xs@[0], accs[0int + 1]), accs[0]));
    }
    if xs@.len() == 2 {
        assert(op.ensures((&xs@[0], accs[0int + 1]), accs[0]));
        assert(op.ensures((&xs@[1], accs[1int + 1]), accs[1]));
    }
}

/// In an ordered map values are put in the same way.
pub proof fn law_values_are_put_in_order<F: FnOnce(u64, &u64) -> u64>(
    map: &mut OMap<u64, u64>,
    k: u64,
    v: u64,
    f: F,
    other: u64,
)
    requires
        call_ensures(hash::insert_with_ord::<u64, u64, F>, (map, k, v, f), ()),
        vstd::laws_cmp::obeys_cmp::<u64>(),
        other != k,
    ensures
        !old(map)@.contains_key(k) ==> final(map)@.contains_key(k) && final(map)@[k] == v,
        old(map)@.contains_key(k) ==> final(map)@.contains_key(k) && f.ensures(
            (v, &old(map)@[k]),
            final(map)@[k],
        ),
        final(map)@.contains_key(other) <==> old(map)@.contains_key(other),
        old(map)@.contains_key(other) ==> final(map)@[other] == old(map)@[other],
{
}

} // verus!
