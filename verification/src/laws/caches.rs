//! Cache files as they are written.

use crate::arena;
use crate::arena::{Node, NodeView};
use crate::cache;
use crate::escape;
use crate::hash;
use crate::hash::{Acc, Csr};
use crate::text;
use vstd::prelude::*;

verus! {

/// A cache file starts with its mark and a warning, and then has the lines of the root.
pub proof fn law_cache_files(kids: &Csr, nodes: &[Node], r: Acc)
    requires
        call_ensures(cache::emit_cache, (kids, nodes), r),
        nodes@.len() > 0,
    ensures
        r@ == vstd::utf8::encode_utf8(
            "[qdirstat 2.0 cache file]\n# Generated by sdirstat\n# Do not edit!\n#\n"@
                + cache::dir_text(arena::tree(nodes@), 0, nodes@[0].name@),
        ),
{
    assert(arena::tree(nodes@)[0] == nodes@[0]@);
    assert(r@ == vstd::utf8::encode_utf8(cache::cache_text(arena::tree(nodes@))));
}

proof fn lemma_permissions(mode: u32)
    by (bit_vector)
    ensures
        mode & 0o7777 == mode % 4096,
{
}

proof fn lemma_time(t: i64)
    by (bit_vector)
    ensures
        t >= 0 ==> t as u64 == t,
        t < 0 ==> t as u64 == 0x1_0000_0000_0000_0000 + t,
{
}

/// Behind its name an entry has its size, its owner and its group in decimal, its twelve bits of
/// permissions in octal, and its time in hexadecimal, as a number of 64 bits.
pub proof fn law_fields_of_entries(n: NodeView, permissions: nat, time: nat)
    requires
        permissions < 4096,
        (n.mode - permissions) % 4096 == 0,
        0 <= time < 0x1_0000_0000_0000_0000,
        time == n.mtime || time == 0x1_0000_0000_0000_0000 + n.mtime,
    ensures
        cache::fixed_fields(n) == "\t"@ + text::decimal(n.size as nat) + "\t"@ + text::decimal(
            n.uid as nat,
        ) + "\t"@ + text::decimal(n.gid as nat) + "\t0"@ + text::radix_text(permissions, 8)
            + "\t0x"@ + text::radix_text(time, 16),
{
    lemma_permissions(n.mode);
    lemma_time(n.mtime);
    assert(n.mode % 4096 == permissions);
}

/// A file that holds some blocks, but too few for its size, has their number on its line; a file
/// with more names than one has the number of them; a directory has neither.
pub proof fn law_optional_fields(n: NodeView)
    ensures
        n.is_dir ==> cache::tail(n) == cache::fixed_fields(n),
        !n.is_dir && 0 < n.blocks && n.blocks * 512 < n.size && n.nlink <= 1 ==> cache::tail(n)
            == cache::fixed_fields(n) + "\tblocks: "@ + text::decimal(n.blocks as nat),
        !n.is_dir && (n.blocks == 0 || n.blocks * 512 >= n.size) && n.nlink > 1 ==> cache::tail(n)
            == cache::fixed_fields(n) + "\tlinks: "@ + text::decimal(n.nlink as nat),
        !n.is_dir && 0 < n.blocks && n.blocks * 512 < n.size && n.nlink > 1 ==> cache::tail(n)
            == cache::fixed_fields(n) + "\tblocks: "@ + text::decimal(n.blocks as nat)
            + "\tlinks: "@ + text::decimal(n.nlink as nat),
        !n.is_dir && (n.blocks == 0 || n.blocks * 512 >= n.size) && n.nlink <= 1 ==> cache::tail(n)
            == cache::fixed_fields(n),
{
    let none = Seq::<char>::empty();
    let f = cache::fixed_fields(n);
    let b = "\tblocks: "@ + text::decimal(n.blocks as nat);
    let l = "\tlinks: "@ + text::decimal(n.nlink as nat);
    assert(f + none + none =~= f);
    assert(f + b + none =~= f + "\tblocks: "@ + text::decimal(n.blocks as nat));
    assert(f + none + l =~= f + "\tlinks: "@ + text::decimal(n.nlink as nat));
    assert(f + b + l =~= f + "\tblocks: "@ + text::decimal(n.blocks as nat) + "\tlinks: "@
        + text::decimal(n.nlink as nat));
}

/// A directory's line has its path, a file's and a link's its name.
pub proof fn law_lines_of_entries(n: NodeView, path: Seq<char>)
    ensures
        cache::dir_line(n, path) == "D "@ + escape::cache_escaped(path) + cache::tail(n) + "\n"@,
        n.is_link ==> cache::file_line(n) == "L "@ + escape::cache_escaped(n.name) + cache::tail(n)
            + "\n"@,
        !n.is_link ==> cache::file_line(n) == "F "@ + escape::cache_escaped(n.name) + cache::tail(n)
            + "\n"@,
{
}

/// A name stands behind its path with one slash between, however many slashes the path ends in.
pub proof fn law_joined_paths(path: Seq<char>, name: Seq<char>)
    ensures
        path.len() == 0 || path.last() != '/'
            ==> cache::join(path, name) == path + seq!['/'] + name,
        cache::join(path.push('/'), name) == cache::join(path, name),
{
    reveal_strlit("/");
    assert("/"@ =~= seq!['/']);
    assert(path.push('/').drop_last() =~= path);
    assert(path.push('/').last() == '/');
}

/// The lines of a directory are its own, those of its entries that are no directories, and those of
/// each of its directories, which stand under the joined path.
pub proof fn law_lines_of_directories(
    t: Seq<NodeView>,
    ids: Seq<usize>,
    i: int,
    path: Seq<char>,
    k: int,
)
    requires
        arena::is_arena(t),
        0 <= i < t.len() <= usize::MAX,
        ids == hash::children(arena::parents(t), i),
        0 <= k < ids.len(),
    ensures
        cache::dir_text(t, i, path) == cache::dir_line(t[i], path) + cache::file_lines(
            t,
            ids,
            ids.len() as int,
        ) + cache::dirs_text(t, i, path, ids.len() as int),
        ({
            let n = t[ids[k] as int];
            &&& n.is_dir ==> cache::file_lines(t, ids, k + 1) == cache::file_lines(t, ids, k)
            &&& !n.is_dir ==> cache::file_lines(t, ids, k + 1) == cache::file_lines(t, ids, k)
                + cache::file_line(n)
            &&& n.is_dir ==> cache::dirs_text(t, i, path, k + 1) == cache::dirs_text(t, i, path, k)
                + cache::dir_text(t, ids[k] as int, cache::join(path, n.name))
            &&& !n.is_dir ==> cache::dirs_text(t, i, path, k + 1) == cache::dirs_text(t, i, path, k)
        }),
        cache::file_lines(t, ids, 0).len() == 0,
        cache::dirs_text(t, i, path, 0).len() == 0,
{
    hash::lemma_children_below(arena::parents(t), i, t.len() as int);
    let c = ids[k] as int;
    assert(i < c < t.len());
    assert(cache::file_lines(t, ids, k) + Seq::<char>::empty() =~= cache::file_lines(t, ids, k));
    assert(cache::dirs_text(t, i, path, k) + Seq::<char>::empty() =~= cache::dirs_text(
        t,
        i,
        path,
        k,
    ));
}

/// The blocks of a file fit where 64 bits can count their bytes; those of a directory always do.
pub proof fn law_blocks_that_fit(n: NodeView)
    ensures
        n.is_dir ==> cache::blocks_fit(n),
        !n.is_dir ==> (cache::blocks_fit(n) <==> n.blocks * 512 < 0x1_0000_0000_0000_0000),
{
}

/// Every file is looked at: all fit where each does, and where one does not, not all do.
pub proof fn law_all_blocks_are_looked_at(nodes: &[Node], r: bool, j: int)
    requires
        call_ensures(cache::all_blocks_fit, (nodes,), r),
    ensures
        r && 0 <= j < nodes@.len() && !nodes@[j].is_dir ==> nodes@[j].blocks * 512
            <= 0xffff_ffff_ffff_ffff,
        (forall|k: int|
            0 <= k < nodes@.len() ==> (#[trigger] nodes@[k]).is_dir || nodes@[k].blocks * 512
                <= 0xffff_ffff_ffff_ffff) ==> r,
{
    let t = arena::tree(nodes@);
    if 0 <= j < nodes@.len() {
        assert(t[j] == nodes@[j]@);
    }
    if forall|k: int|
        0 <= k < nodes@.len() ==> (#[trigger] nodes@[k]).is_dir || nodes@[k].blocks * 512
            <= 0xffff_ffff_ffff_ffff {
        assert forall|k: int| 0 <= k < t.len() implies cache::blocks_fit(#[trigger] t[k]) by {
            assert(t[k] == nodes@[k]@);
            assert(nodes@[k].is_dir || nodes@[k].blocks * 512 <= 0xffff_ffff_ffff_ffff);
        }
    }
}

} // verus!
