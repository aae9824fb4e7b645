//! File types: what the extension of a name is, what counts for it, and which are listed.

use crate::arena::NodeView;
use crate::filetypes;
use crate::rank;
use vstd::prelude::*;

verus! {

/// The extension of a name is what stands behind its last dot, however long that is.
pub proof fn law_extension_is_the_suffix(stem: Seq<char>, suffix: Seq<char>)
    requires
        stem.len() > 0,
        suffix.len() > 0,
        !suffix.contains('.'),
    ensures
        filetypes::extension(stem + seq!['.'] + suffix) == suffix,
{
    let name = stem + seq!['.'] + suffix;
    lemma_last_dot(name, stem.len() as int);
    assert(name.skip(stem.len() as int + 1) == suffix);
}

proof fn lemma_last_dot(s: Seq<char>, p: int)
    requires
        0 <= p < s.len(),
        s[p] == '.',
        forall|i: int| p < i < s.len() ==> s[i] != '.',
    ensures
        filetypes::last_dot(s) == p,
    decreases s.len(),
{
    if p < s.len() - 1 {
        assert(s[s.len() - 1] != '.');
        lemma_last_dot(s.drop_last(), p);
    }
}

proof fn lemma_no_dot(s: Seq<char>)
    requires
        !s.contains('.'),
    ensures
        filetypes::last_dot(s) == -1,
    decreases s.len(),
{
    if s.len() > 0 {
        assert(s.contains(s[s.len() - 1]));
        let front = s.drop_last();
        assert forall|i: int| 0 <= i < front.len() implies front[i] != '.' by {
            assert(s.contains(s[i]));
        }
        lemma_no_dot(front);
    }
}

/// Names with different suffixes are counted under different extensions.
pub proof fn law_suffixes_are_told_apart(
    stem: Seq<char>,
    suffix: Seq<char>,
    other_stem: Seq<char>,
    other: Seq<char>,
)
    requires
        stem.len() > 0,
        other_stem.len() > 0,
        suffix.len() > 0,
        other.len() > 0,
        !suffix.contains('.'),
        !other.contains('.'),
    ensures
        filetypes::extension(stem + seq!['.'] + suffix) == filetypes::extension(
            other_stem + seq!['.'] + other,
        ) <==> suffix == other,
{
    law_extension_is_the_suffix(stem, suffix);
    law_extension_is_the_suffix(other_stem, other);
}

/// A name without a dot, with one at its start only, or with one at its end, has no extension.
pub proof fn law_names_without_extension(name: Seq<char>)
    requires
        !name.contains('.'),
    ensures
        filetypes::extension(name) == "(no ext)"@,
        filetypes::extension(seq!['.'] + name) == "(no ext)"@,
{
    lemma_no_dot(name);
    let hidden = seq!['.'] + name;
    assert forall|i: int| 0 < i < hidden.len() implies hidden[i] != '.' by {
        assert(name.contains(name[i - 1]));
    }
    assert(hidden[0] == '.');
    lemma_last_dot(hidden, 0);
}

/// A name that ends in a dot has no extension.
pub proof fn law_a_dot_at_the_end_is_no_extension(name: Seq<char>)
    ensures
        filetypes::extension(name.push('.')) == "(no ext)"@,
{
    lemma_last_dot(name.push('.'), name.len() as int);
}

/// A file more counts under its extension and under no other; directories and links count nowhere.
pub proof fn law_files_count_under_their_extension(t: Seq<NodeView>, n: NodeView, e: Seq<char>)
    ensures
        ({
            let u = t.push(n);
            let here = !n.is_dir && !n.is_link && filetypes::extension(n.name) == e;
            &&& filetypes::bytes_of(u, e, u.len() as int) == filetypes::bytes_of(
                t,
                e,
                t.len() as int,
            ) + if here {
                n.sub as nat
            } else {
                0
            }
            &&& filetypes::count_of(u, e, u.len() as int) == filetypes::count_of(
                t,
                e,
                t.len() as int,
            ) + if here {
                1nat
            } else {
                0
            }
        }),
        filetypes::bytes_of(Seq::<NodeView>::empty(), e, 0) == 0,
        filetypes::count_of(Seq::<NodeView>::empty(), e, 0) == 0,
{
    lemma_prefix_counts(t, t.push(n), e, t.len() as int);
}

proof fn lemma_prefix_counts(t: Seq<NodeView>, u: Seq<NodeView>, e: Seq<char>, k: int)
    requires
        0 <= k <= t.len() <= u.len(),
        forall|j: int| 0 <= j < t.len() ==> #[trigger] t[j] == u[j],
    ensures
        filetypes::bytes_of(t, e, k) == filetypes::bytes_of(u, e, k),
        filetypes::count_of(t, e, k) == filetypes::count_of(u, e, k),
    decreases k,
{
    if k > 0 {
        lemma_prefix_counts(t, u, e, k - 1);
        assert(t[k - 1] == u[k - 1]);
    }
}

/// Every extension of a file is known, once, and no other is.
pub proof fn law_which_extensions_are_known(t: Seq<NodeView>, k: int, i: int)
    requires
        0 <= i < k <= t.len(),
    ensures
        !t[i].is_dir && !t[i].is_link ==> filetypes::extensions(t, k).contains(
            filetypes::extension(t[i].name),
        ),
        filetypes::extensions(t, k).no_duplicates(),
        forall|e: Seq<char>| #[trigger]
            filetypes::extensions(t, k).contains(e) ==> filetypes::count_of(t, e, k) > 0,
    decreases k,
{
    let before = filetypes::extensions(t, k - 1);
    let now = filetypes::extensions(t, k);
    let e = filetypes::extension(t[k - 1].name);
    if k > 1 {
        law_which_extensions_are_known(
            t,
            k - 1,
            if i < k - 1 {
                i
            } else {
                0
            },
        );
    }
    if filetypes::counts(t[k - 1]) && !before.contains(e) {
        assert(now == before.push(e));
        assert(now[before.len() as int] == e);
        assert forall|x: int, y: int| 0 <= x < y < now.len() implies now[x] != now[y] by {
            if y == before.len() {
                assert(before.contains(before[x]));
            }
        }
        assert forall|f: Seq<char>| before.contains(f) implies now.contains(f) by {
            let j = choose|j: int| 0 <= j < before.len() && before[j] == f;
            assert(now[j] == f);
        }
    }
    assert forall|f: Seq<char>| #[trigger] now.contains(f) implies filetypes::count_of(t, f, k)
        > 0 by {
        if before.contains(f) {
            assert(filetypes::count_of(t, f, k - 1) > 0);
        } else {
            let j = choose|j: int| 0 <= j < now.len() && now[j] == f;
            if j < before.len() {
                assert(before[j] == f);
            }
            assert(f == e);
        }
    }
}

/// The sixty largest extensions are listed, all where there are not more, the largest first.
pub proof fn law_which_extensions_are_listed(t: Seq<NodeView>, i: int, j: int)
    requires
        0 <= i < j < filetypes::by_bytes(t).len(),
    ensures
        filetypes::by_bytes(t).len() == filetypes::extensions(t, t.len() as int).len(),
        filetypes::by_bytes(t)[i].0 >= filetypes::by_bytes(t)[j].0,
        filetypes::listed(t) <= 60,
        filetypes::extensions(t, t.len() as int).len() <= 60 ==> filetypes::listed(t)
            == filetypes::extensions(t, t.len() as int).len(),
        filetypes::extensions(t, t.len() as int).len() > 60 ==> filetypes::listed(t) == 60,
{
    let es = filetypes::extensions(t, t.len() as int);
    let items = Seq::new(
        es.len(),
        |k: int| (filetypes::bytes_of(t, es[k], t.len() as int) as u64, k as usize),
    );
    rank::law_ranked(items);
    crate::laws::pruning::law_sizes_never_grow(items, i, j);
}

/// What is listed of an extension are its bytes.
pub proof fn law_listed_extensions_have_their_bytes(t: Seq<NodeView>, k: int)
    requires
        filetypes::types_fit(t),
        t.len() <= usize::MAX,
        0 <= k < filetypes::by_bytes(t).len(),
    ensures
        ({
            let (bytes, j) = filetypes::by_bytes(t)[k];
            let es = filetypes::extensions(t, t.len() as int);
            j < es.len() && bytes == filetypes::bytes_of(t, es[j as int], t.len() as int)
        }),
{
    let es = filetypes::extensions(t, t.len() as int);
    let items = Seq::new(
        es.len(),
        |k: int| (filetypes::bytes_of(t, es[k], t.len() as int) as u64, k as usize),
    );
    rank::law_ranked(items);
    rank::lemma_ranked_member(items, k);
    let j = choose|j: int| 0 <= j < items.len() && items[j] == rank::ranked(items)[k];
    lemma_few_extensions(t, t.len() as int);
    assert(filetypes::bytes_of(t, es[j], t.len() as int) <= u64::MAX);
}

proof fn lemma_few_extensions(t: Seq<NodeView>, k: int)
    requires
        0 <= k <= t.len(),
    ensures
        filetypes::extensions(t, k).len() <= k,
    decreases k,
{
    if k > 0 {
        lemma_few_extensions(t, k - 1);
    }
}

/// An extension is listed with its name, its bytes and the number of its files.
pub proof fn law_how_an_extension_is_written(e: Seq<char>, bytes: nat, count: nat)
    ensures
        filetypes::type_text(e, bytes, count) == "{\"e\":\""@ + crate::escape::json_escaped(e)
            + "\",\"v\":"@ + crate::text::decimal(bytes) + ",\"c\":"@ + crate::text::decimal(count)
            + "}"@,
{
}

/// The list is the elements with commas between them.
pub proof fn law_how_the_list_is_written(t: Seq<NodeView>, k: int)
    requires
        0 < k <= filetypes::by_bytes(t).len(),
    ensures
        ({
            let e = filetypes::extensions(t, t.len() as int)[filetypes::by_bytes(t)[k - 1].1 as int];
            filetypes::list_text(t, k) == filetypes::list_text(t, k - 1) + (if k > 1 {
                ","@
            } else {
                ""@
            }) + filetypes::type_text(
                e,
                filetypes::bytes_of(t, e, t.len() as int),
                filetypes::count_of(t, e, t.len() as int),
            )
        }),
        filetypes::list_text(t, 0).len() == 0,
        filetypes::types_text(t) == "["@ + filetypes::list_text(t, filetypes::listed(t)) + "]"@,
{
    reveal_strlit("");
    assert(""@ == Seq::<char>::empty());
}

/// Extensions stand in the order in which they first occur: a file more adds its extension at the
/// end, where that is new, and nothing else does.
pub proof fn law_extensions_stand_in_order(t: Seq<NodeView>, k: int)
    requires
        0 <= k < t.len(),
    ensures
        ({
            let before = filetypes::extensions(t, k);
            let e = filetypes::extension(t[k].name);
            let new = !t[k].is_dir && !t[k].is_link && !before.contains(e);
            &&& new ==> filetypes::extensions(t, k + 1) == before.push(e)
            &&& !new ==> filetypes::extensions(t, k + 1) == before
        }),
        filetypes::extensions(t, 0).len() == 0,
{
}

/// Up to sixty extensions all are listed, and of more the first sixty.
pub proof fn law_how_many_extensions_are_listed(t: Seq<NodeView>)
    ensures
        filetypes::extensions(t, t.len() as int).len() <= 60 ==> filetypes::listed(t)
            == filetypes::extensions(t, t.len() as int).len(),
        filetypes::extensions(t, t.len() as int).len() > 60 ==> filetypes::listed(t) == 60,
{
}

} // verus!
