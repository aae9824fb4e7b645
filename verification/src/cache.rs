//! The QDirStat cache format, version 2.0: one line per entry, directories with their full path,
//! the entries of a directory below it by base name.

use crate::arena;
use crate::arena::{Node, NodeView};
use crate::escape;
use crate::hash;
use crate::hash::{Acc, Csr};
use crate::text;
use vstd::prelude::*;

verus! {

/// What stands before the first entry.
pub open spec fn header() -> Seq<char> {
    "[qdirstat 2.0 cache file]\n# Generated by sdirstat\n# Do not edit!\n#\n"@
}

/// Whether the entry is a file with fewer allocated bytes than its size.
pub open spec fn is_sparse(n: NodeView) -> bool {
    !n.is_dir && n.blocks > 0 && n.blocks * 512 < n.size
}

/// Whether the allocated bytes of a file can be counted in 64 bits.
pub open spec fn blocks_fit(n: NodeView) -> bool {
    !n.is_dir && n.blocks > 0 ==> n.blocks * 512 <= u64::MAX
}

/// Whether the allocated bytes of every file of a tree can be counted in 64 bits.
pub open spec fn tree_blocks_fit(t: Seq<NodeView>) -> bool {
    forall|j: int| 0 <= j < t.len() ==> blocks_fit(#[trigger] t[j])
}

/// The number of blocks, where the entry is a sparse file.
pub open spec fn blocks_field(n: NodeView) -> Seq<char> {
    if is_sparse(n) {
        "\tblocks: "@ + text::decimal(n.blocks as nat)
    } else {
        seq![]
    }
}

/// The number of links, where the entry is a file with more than one.
pub open spec fn links_field(n: NodeView) -> Seq<char> {
    if !n.is_dir && n.nlink > 1 {
        "\tlinks: "@ + text::decimal(n.nlink as nat)
    } else {
        seq![]
    }
}

/// The fields that every line has after the type and the name: size, owner, group, permissions and
/// modification time.
pub open spec fn fixed_fields(n: NodeView) -> Seq<char> {
    "\t"@ + text::decimal(n.size as nat) + "\t"@ + text::decimal(n.uid as nat) + "\t"@
        + text::decimal(n.gid as nat) + "\t0"@ + text::radix_text((n.mode & 0o7777) as nat, 8)
        + "\t0x"@ + text::radix_text((n.mtime as u64) as nat, 16)
}

/// Everything after the type and the name.
pub open spec fn tail(n: NodeView) -> Seq<char> {
    fixed_fields(n) + blocks_field(n) + links_field(n)
}

/// Appends the fields after the type and the name.
pub fn cache_tail(acc: &mut Acc, n: &Node)
    requires
        blocks_fit(n@),
    ensures
        final(acc)@ == old(acc)@ + vstd::utf8::encode_utf8(tail(n@)),
{
    let ghost base = acc@;
    let ghost mut g = Seq::<char>::empty();
    assert(base + vstd::utf8::encode_utf8(g) == base);
    acc.str("\t");
    proof {
        text::lemma_append_encoded(base, g, "\t"@);
        g = g + "\t"@;
    }
    acc.u64(n.size);
    proof {
        text::lemma_append_encoded(base, g, text::decimal(n.size as nat));
        g = g + text::decimal(n.size as nat);
    }
    acc.str("\t");
    proof {
        text::lemma_append_encoded(base, g, "\t"@);
        g = g + "\t"@;
    }
    acc.u64(n.uid as u64);
    proof {
        text::lemma_append_encoded(base, g, text::decimal(n.uid as nat));
        g = g + text::decimal(n.uid as nat);
    }
    acc.str("\t");
    proof {
        text::lemma_append_encoded(base, g, "\t"@);
        g = g + "\t"@;
    }
    acc.u64(n.gid as u64);
    proof {
        text::lemma_append_encoded(base, g, text::decimal(n.gid as nat));
        g = g + text::decimal(n.gid as nat);
    }
    acc.str("\t0");
    proof {
        text::lemma_append_encoded(base, g, "\t0"@);
        g = g + "\t0"@;
    }
    acc.oct((n.mode & 0o7777) as u64);
    proof {
        text::lemma_append_encoded(base, g, text::radix_text((n.mode & 0o7777) as nat, 8));
        g = g + text::radix_text((n.mode & 0o7777) as nat, 8);
    }
    acc.str("\t0x");
    proof {
        text::lemma_append_encoded(base, g, "\t0x"@);
        g = g + "\t0x"@;
    }
    acc.hex(n.mtime as u64);
    proof {
        text::lemma_append_encoded(base, g, text::radix_text((n.mtime as u64) as nat, 16));
        g = g + text::radix_text((n.mtime as u64) as nat, 16);
    }
    assert(g == fixed_fields(n@));
    if !n.is_dir && n.blocks > 0 && n.blocks * 512 < n.size {
        acc.str("\tblocks: ");
        proof {
            text::lemma_append_encoded(base, g, "\tblocks: "@);
            g = g + "\tblocks: "@;
        }
        acc.u64(n.blocks);
        proof {
            text::lemma_append_encoded(base, g, text::decimal(n.blocks as nat));
            g = g + text::decimal(n.blocks as nat);
        }
    }
    assert(g == fixed_fields(n@) + blocks_field(n@));
    if !n.is_dir && n.nlink > 1 {
        acc.str("\tlinks: ");
        proof {
            text::lemma_append_encoded(base, g, "\tlinks: "@);
            g = g + "\tlinks: "@;
        }
        acc.u64(n.nlink);
        proof {
            text::lemma_append_encoded(base, g, text::decimal(n.nlink as nat));
            g = g + text::decimal(n.nlink as nat);
        }
    }
    assert(g == tail(n@));
}

/// `s` without the slashes at its end.
pub open spec fn trim_slashes(s: Seq<char>) -> Seq<char>
    decreases s.len(),
{
    if s.len() > 0 && s.last() == '/' {
        trim_slashes(s.drop_last())
    } else {
        s
    }
}

/// The path of the entry `name` of the directory `path`.
pub open spec fn join(path: Seq<char>, name: Seq<char>) -> Seq<char> {
    trim_slashes(path) + "/"@ + name
}

/// The path of the entry `name` of the directory `path`.
pub fn join_path(path: &str, name: &str) -> (r: String)
    ensures
        r@ == join(path@, name@),
{
    let p = text::chars_of(path);
    let mut end: usize = p.len();
    assert(p@.take(end as int) == path@);
    while end > 0 && p[end - 1] == '/'
        invariant
            end <= p@.len(),
            trim_slashes(path@) == trim_slashes(p@.take(end as int)),
        decreases end,
    {
        assert(p@.take(end as int).drop_last() == p@.take(end - 1));
        end = end - 1;
    }
    assert(p@.take(end as int) == p@.subrange(0, end as int));
    let mut r = text::text_of(&p.as_slice()[0..end]);
    r.append("/");
    r.append(name);
    r
}

/// The line of an entry that is not a directory.
pub open spec fn file_line(n: NodeView) -> Seq<char> {
    (if n.is_link { "L "@ } else { "F "@ }) + escape::cache_escaped(n.name) + tail(n) + "\n"@
}

/// The line of a directory.
pub open spec fn dir_line(n: NodeView, path: Seq<char>) -> Seq<char> {
    "D "@ + escape::cache_escaped(path) + tail(n) + "\n"@
}

/// The lines of those of the first `k` ids of `ids` that are not directories.
pub open spec fn file_lines(t: Seq<NodeView>, ids: Seq<usize>, k: int) -> Seq<char>
    decreases k,
{
    if k <= 0 {
        seq![]
    } else {
        let n = t[ids[k - 1] as int];
        file_lines(t, ids, k - 1) + if n.is_dir {
            seq![]
        } else {
            file_line(n)
        }
    }
}

/// The lines of directory `i` and of everything below it: its own line, its other entries, then
/// each of its directories in turn.
pub open spec fn dir_text(t: Seq<NodeView>, i: int, path: Seq<char>) -> Seq<char>
    decreases t.len() - i, 1int, 0int,
{
    let ids = hash::children(arena::parents(t), i);
    dir_line(t[i], path) + file_lines(t, ids, ids.len() as int) + dirs_text(
        t,
        i,
        path,
        ids.len() as int,
    )
}

/// The lines of those of the first `k` children of `i` that are directories, and of everything
/// below them.
pub open spec fn dirs_text(t: Seq<NodeView>, i: int, path: Seq<char>, k: int) -> Seq<char>
    decreases t.len() - i, 0int, k,
{
    let ids = hash::children(arena::parents(t), i);
    if k <= 0 || k > ids.len() {
        seq![]
    } else {
        let c = ids[k - 1] as int;
        dirs_text(t, i, path, k - 1) + if i < c < t.len() && t[c].is_dir {
            dir_text(t, c, join(path, t[c].name))
        } else {
            seq![]
        }
    }
}

/// The children lists belong to the nodes.
pub open spec fn kids_match(kids: &Csr, t: Seq<NodeView>) -> bool {
    kids@ == hash::adjacency(arena::parents(t))
}

/// A child's index is above that of its parent and within the tree.
pub proof fn lemma_child_in_range(t: Seq<NodeView>, i: int, j: int)
    requires
        arena::is_arena(t),
        t.len() <= usize::MAX,
        0 <= i < t.len(),
        0 <= j < hash::children(arena::parents(t), i).len(),
    ensures
        i < hash::children(arena::parents(t), i)[j] < t.len(),
        t[hash::children(arena::parents(t), i)[j] as int].parent == i,
{
    let ps = arena::parents(t);
    hash::lemma_children_below(ps, i, ps.len() as int);
    let c = hash::children_below(ps, i, ps.len() as int)[j];
    assert(ps[c as int] == t[c as int].parent);
}

/// Appends the lines of directory `i` and of everything below it.
pub fn cache_dir(acc: &mut Acc, i: usize, path: &str, kids: &Csr, nodes: &[Node])
    requires
        i < nodes@.len(),
        arena::is_arena(arena::tree(nodes@)),
        kids_match(kids, arena::tree(nodes@)),
        forall|j: int| 0 <= j < nodes@.len() ==> blocks_fit(#[trigger] nodes@[j]@),
    ensures
        final(acc)@ == old(acc)@ + vstd::utf8::encode_utf8(
            dir_text(arena::tree(nodes@), i as int, path@),
        ),
    decreases nodes@.len() - i,
{
    let ghost t = arena::tree(nodes@);
    let ghost ids = hash::children(arena::parents(t), i as int);
    assert(nodes.len() <= usize::MAX);
    let ghost base = acc@;
    let ghost mut g = Seq::<char>::empty();
    assert(base + vstd::utf8::encode_utf8(g) == base);
    assert(t[i as int] == nodes@[i as int]@);
    acc.str("D ");
    proof {
        text::lemma_append_encoded(base, g, "D "@);
        g = g + "D "@;
    }
    acc.esc(path);
    proof {
        text::lemma_append_encoded(base, g, escape::cache_escaped(path@));
        g = g + escape::cache_escaped(path@);
    }
    cache_tail(acc, &nodes[i]);
    proof {
        text::lemma_append_encoded(base, g, tail(t[i as int]));
        g = g + tail(t[i as int]);
    }
    acc.str("\n");
    proof {
        text::lemma_append_encoded(base, g, "\n"@);
        g = g + "\n"@;
    }
    assert(g == dir_line(t[i as int], path@));
    let cs = kids.of(i);
    assert(cs@ == ids);
    let n = cs.len();
    let mut j: usize = 0;
    assert(g + file_lines(t, ids, 0) == g);
    while j < n
        invariant
            n == cs@.len(),
            cs@ == ids,
            ids == hash::children(arena::parents(t), i as int),
            i < nodes@.len(),
            t == arena::tree(nodes@),
            arena::is_arena(t),
            forall|j: int| 0 <= j < nodes@.len() ==> blocks_fit(#[trigger] nodes@[j]@),
            j <= n,
            acc@ == base + vstd::utf8::encode_utf8(g + file_lines(t, ids, j as int)),
            nodes@.len() <= usize::MAX,
        decreases n - j,
    {
        let c = cs[j];
        proof {
            lemma_child_in_range(t, i as int, j as int);
            assert(t[c as int] == nodes@[c as int]@);
        }
        let nd = &nodes[c];
        if !nd.is_dir {
            let ghost base0 = base;
            let ghost g0 = g;
            let ghost base = acc@;
            let ghost done = g + file_lines(t, ids, j as int);
            let ghost mut g = Seq::<char>::empty();
            assert(base + vstd::utf8::encode_utf8(g) == base);
            if nd.is_link {
                acc.str("L ");
                proof {
                    text::lemma_append_encoded(base, g, "L "@);
                    g = g + "L "@;
                }
            } else {
                acc.str("F ");
                proof {
                    text::lemma_append_encoded(base, g, "F "@);
                    g = g + "F "@;
                }
            }
            let ghost kind = if t[c as int].is_link {
                "L "@
            } else {
                "F "@
            };
            assert(g == kind);
            acc.esc(nd.name.as_str());
            proof {
                text::lemma_append_encoded(base, g, escape::cache_escaped(t[c as int].name));
                g = g + escape::cache_escaped(t[c as int].name);
            }
            cache_tail(acc, nd);
            proof {
                text::lemma_append_encoded(base, g, tail(t[c as int]));
                g = g + tail(t[c as int]);
            }
            acc.str("\n");
            proof {
                text::lemma_append_encoded(base, g, "\n"@);
                g = g + "\n"@;
            }
            proof {
                assert(g == file_line(t[c as int]));
                text::lemma_append_encoded(base0, done, g);
                assert(done + file_line(t[c as int]) == g0 + file_lines(t, ids, j + 1));
            }
        } else {
            assert(g + file_lines(t, ids, j + 1) == g + file_lines(t, ids, j as int));
        }
        j = j + 1;
    }
    let ghost files = g + file_lines(t, ids, n as int);
    let mut j: usize = 0;
    assert(files + dirs_text(t, i as int, path@, 0) == files);
    while j < n
        invariant
            n == cs@.len(),
            cs@ == ids,
            ids == hash::children(arena::parents(t), i as int),
            i < nodes@.len(),
            t == arena::tree(nodes@),
            arena::is_arena(t),
            kids_match(kids, t),
            forall|j: int| 0 <= j < nodes@.len() ==> blocks_fit(#[trigger] nodes@[j]@),
            j <= n,
            acc@ == base + vstd::utf8::encode_utf8(
                files + dirs_text(t, i as int, path@, j as int),
            ),
            nodes@.len() <= usize::MAX,
        decreases n - j,
    {
        let c = cs[j];
        proof {
            lemma_child_in_range(t, i as int, j as int);
            assert(t[c as int] == nodes@[c as int]@);
        }
        if nodes[c].is_dir {
            let sub = join_path(path, nodes[c].name.as_str());
            cache_dir(acc, c, sub.as_str(), kids, nodes);
            proof {
                let done = files + dirs_text(t, i as int, path@, j as int);
                let more = dir_text(t, c as int, join(path@, t[c as int].name));
                text::lemma_append_encoded(base, done, more);
                assert(done + more == files + dirs_text(t, i as int, path@, j + 1));
            }
        } else {
            assert(files + dirs_text(t, i as int, path@, j + 1) == files + dirs_text(
                t,
                i as int,
                path@,
                j as int,
            ));
        }
        j = j + 1;
    }
    assert(files + dirs_text(t, i as int, path@, n as int) == dir_text(t, i as int, path@));
}

/// The cache file of a tree.
pub open spec fn cache_text(t: Seq<NodeView>) -> Seq<char> {
    header() + dir_text(t, 0, t[0].name)
}

/// The cache file of a tree.
pub fn emit_cache(kids: &Csr, nodes: &[Node]) -> (r: Acc)
    requires
        arena::is_arena(arena::tree(nodes@)),
        kids_match(kids, arena::tree(nodes@)),
        forall|j: int| 0 <= j < nodes@.len() ==> blocks_fit(#[trigger] nodes@[j]@),
    ensures
        r@ == vstd::utf8::encode_utf8(cache_text(arena::tree(nodes@))),
{
    let n = nodes.len();
    let room: usize = if n > usize::MAX / 96 {
        usize::MAX
    } else if n * 96 < 65536 {
        65536
    } else {
        n * 96
    };
    let mut acc = Acc::with_capacity(room);
    let ghost empty = acc@;
    acc.str("[qdirstat 2.0 cache file]\n# Generated by sdirstat\n# Do not edit!\n#\n");
    let name = nodes[0].name.clone();
    cache_dir(&mut acc, 0, name.as_str(), kids, nodes);
    proof {
        assert(arena::tree(nodes@)[0] == nodes@[0]@);
        text::lemma_append_encoded(
            empty,
            header(),
            dir_text(arena::tree(nodes@), 0, nodes@[0]@.name),
        );
        assert(acc@ == empty + vstd::utf8::encode_utf8(cache_text(arena::tree(nodes@))));
        assert(empty + vstd::utf8::encode_utf8(cache_text(arena::tree(nodes@)))
            == vstd::utf8::encode_utf8(cache_text(arena::tree(nodes@))));
    }
    acc
}

/// Whether the allocated bytes of every file can be counted in 64 bits.
pub fn all_blocks_fit(nodes: &[Node]) -> (r: bool)
    ensures
        r == (forall|j: int| 0 <= j < nodes@.len() ==> blocks_fit(#[trigger] nodes@[j]@)),
        r == tree_blocks_fit(arena::tree(nodes@)),
{
    let mut i: usize = 0;
    while i < nodes.len()
        invariant
            i <= nodes@.len(),
            forall|j: int| 0 <= j < i ==> blocks_fit(#[trigger] nodes@[j]@),
        decreases nodes@.len() - i,
    {
        if !nodes[i].is_dir && nodes[i].blocks > u64::MAX / 512 {
            assert(!blocks_fit(nodes@[i as int]@));
            assert(!blocks_fit(arena::tree(nodes@)[i as int]));
            return false;
        }
        i = i + 1;
    }
    true
}

} // verus!
