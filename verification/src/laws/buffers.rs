//! Buffers: what is appended to them, and what they give back.

use crate::arena;
use crate::arena::Node;
use crate::builder;
use crate::builder::Builder;
use crate::escape;
use crate::hash;
use crate::hash::{Acc, Csr};
use crate::scan_cache::ScanCache;
use crate::summary;
use crate::text;
use vstd::prelude::*;

verus! {

/// A new buffer is empty, whatever room it has.
pub proof fn law_new_buffers(n: usize, a: Acc, empty: bool, len: usize)
    requires
        call_ensures(Acc::with_capacity, (n,), a),
        call_ensures(Acc::is_empty, (&a,), empty),
        call_ensures(Acc::len, (&a,), len),
    ensures
        a@.len() == 0,
        empty,
        len == 0,
{
}

/// A buffer gives back the bytes that it holds, and their number.
pub proof fn law_contents_of_buffers(
    a: Acc,
    s: &[u8],
    v: Vec<u8>,
    t: String,
    content: Seq<char>,
    len: usize,
    empty: bool,
)
    requires
        call_ensures(Acc::as_slice, (&a,), s),
        call_ensures(Acc::into_bytes, (a,), v),
        call_ensures(Acc::into_string, (a,), t),
        call_ensures(Acc::len, (&a,), len),
        call_ensures(Acc::is_empty, (&a,), empty),
    ensures
        s@ == a@,
        v@ == a@,
        len == a@.len(),
        empty <==> a@.len() == 0,
        a@ == vstd::utf8::encode_utf8(content) ==> t@ == content,
{
    crate::laws::texts::law_encoded_texts_are_read_back(content);
}

/// Bytes and texts are appended as they are.
pub proof fn law_appended_bytes(a: &mut Acc, b: u8, bytes: &[u8], s: &str, r: &mut Acc)
    ensures
        call_ensures(Acc::byte, (a, b), r) ==> old(r)@ == old(a)@.push(b),
        call_ensures(Acc::bytes, (a, bytes), r) ==> old(r)@ == old(a)@ + bytes@,
        call_ensures(Acc::str, (a, s), r) ==> old(r)@ == old(a)@ + vstd::utf8::encode_utf8(s@),
        call_ensures(Acc::esc, (a, s), r) ==> old(r)@ == old(a)@ + vstd::utf8::encode_utf8(
            escape::cache_escaped(s@),
        ),
        call_ensures(Acc::esc_json, (a, s), r) ==> old(r)@ == old(a)@ + vstd::utf8::encode_utf8(
            escape::json_escaped(s@),
        ),
{
}

/// Numbers are appended in decimal, octal and hexadecimal.
pub proof fn law_appended_numbers(a: &mut Acc, v: u64, r: &mut Acc)
    ensures
        call_ensures(Acc::u64, (a, v), r) ==> old(r)@ == old(a)@ + vstd::utf8::encode_utf8(
            text::radix_text(v as nat, 10),
        ),
        call_ensures(Acc::oct, (a, v), r) ==> old(r)@ == old(a)@ + vstd::utf8::encode_utf8(
            text::radix_text(v as nat, 8),
        ),
        call_ensures(Acc::hex, (a, v), r) ==> old(r)@ == old(a)@ + vstd::utf8::encode_utf8(
            text::radix_text(v as nat, 16),
        ),
{
}

/// A new tree has its root alone, a directory under its name; what it holds is given back.
pub proof fn law_new_trees(name: &str, b: Builder, nodes: Vec<Node>)
    requires
        call_ensures(Builder::new, (name,), b),
        call_ensures(Builder::into_nodes, (b,), nodes),
    ensures
        nodes@.len() == 1,
        nodes@[0]@.name == name@ && nodes@[0]@.is_dir && nodes@[0]@.sub == 0,
{
    let t = arena::tree(nodes@);
    assert(t.len() == nodes@.len());
    assert(t[0] == nodes@[0]@);
}

/// A directory that is asked for is there, at its path.
pub proof fn law_directories_of_trees(b: &mut Builder, comps: &[&[char]], r: usize)
    requires
        builder::sound(old(b)@),
        call_ensures(Builder::dir, (b, comps), r),
        old(b)@.t.len() + comps@.len() <= usize::MAX,
    ensures
        r < final(b)@.t.len(),
        final(b)@.t[r as int].is_dir,
        builder::tree_path(final(b)@.t, r as int) == builder::path_text(text::views(comps@)),
        old(b)@.t.is_prefix_of(final(b)@.t),
        comps@.len() == 0 ==> r == 0,
{
    builder::lemma_with_dir_sound(old(b)@, text::views(comps@));
}

/// The lists of children are those of the nodes' parents.
pub proof fn law_children_of_nodes(nodes: &[Node], r: Csr, i: int)
    requires
        call_ensures(summary::children_of, (nodes,), r),
        0 <= i < nodes@.len(),
    ensures
        r@.len() == nodes@.len(),
        r@[i] == hash::children(arena::parents(arena::tree(nodes@)), i),
{
}

/// The number of kept responses is counted, and a new cache keeps none.
pub proof fn law_numbers_of_responses(c: &ScanCache, n: usize, new: ScanCache)
    requires
        call_ensures(ScanCache::len, (c,), n),
        call_ensures(ScanCache::new, (), new),
    ensures
        n == c@.len(),
        n <= 32,
        new@.len() == 0,
{
}

/// A node is listed under the parent that is given for it, and every node but the first is listed.
pub proof fn law_children_of_given_parents<F: Fn(usize) -> usize>(
    n: usize,
    parent: F,
    r: Csr,
    c: usize,
)
    requires
        n < usize::MAX,
        call_ensures(Csr::from_parents::<F>, (n, parent), r),
        forall|i: usize, p: usize| 1 <= i < n && #[trigger] parent.ensures((i,), p) ==> p < n,
        1 <= c < n,
    ensures
        r@.len() == n,
        exists|p: usize|
            #![trigger parent.ensures((c,), p)]
            p < n && parent.ensures((c,), p) && r@[p as int].contains(c),
        forall|p: usize|
            #![trigger r@[p as int].contains(c)]
            p < n && r@[p as int].contains(c) ==> parent.ensures((c,), p),
{
    let ps = choose|ps: Seq<usize>| #[trigger]
        hash::are_parents(n, parent, ps) && r@ == hash::adjacency(ps);
    assert(hash::are_parents(n, parent, ps));
    let p = ps[c as int];
    assert(parent.ensures((c,), p));
    crate::laws::pruning::law_children_are_those_with_that_parent(ps, p as int, c as int);
    assert(r@[p as int].contains(c));
    assert forall|p: usize|
        #![trigger r@[p as int].contains(c)]
        p < n && r@[p as int].contains(c) implies parent.ensures((c,), p) by {
        crate::laws::pruning::law_children_are_those_with_that_parent(ps, p as int, c as int);
    }
}

} // verus!
