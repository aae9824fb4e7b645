//! Actions on paths.

use crate::action;
use crate::action::{Action, PathFacts, Platform};
use crate::text;
use vstd::prelude::*;

verus! {

// ── paths ──

proof fn lemma_last_slash_before(p: Seq<char>, name: Seq<char>)
    requires
        !name.contains('/'),
    ensures
        action::last_slash(p + seq!['/'] + name) == p.len(),
        action::last_part(p + seq!['/'] + name) == name,
        action::without_last_part(p + seq!['/'] + name) == p,
    decreases name.len(),
{
    let s = p + seq!['/'] + name;
    if name.len() == 0 {
        assert(s.last() == '/');
    } else {
        let front = name.drop_last();
        assert(!front.contains('/')) by {
            if front.contains('/') {
                let i = choose|i: int| 0 <= i < front.len() && front[i] == '/';
                assert(name[i] == '/');
            }
        }
        lemma_last_slash_before(p, front);
        assert(name.contains(name[name.len() - 1]));
        assert(s.last() == name.last());
        assert(s.drop_last() =~= p + seq!['/'] + front);
    }
    assert(s.skip(p.len() as int + 1) =~= name);
    assert(s.take(p.len() as int) =~= p);
}

/// A path has the parts of what stands before its last slash and, unless it is empty or a single
/// dot, what stands behind it; a double dot is a part like any other.
pub proof fn law_parts_of_paths(p: Seq<char>, name: Seq<char>)
    requires
        !name.contains('/'),
    ensures
        name.len() > 0 && name != seq!['.'] ==> action::path_parts(p + seq!['/'] + name)
            == action::path_parts(p).push(name),
        name.len() == 0 || name == seq!['.'] ==> action::path_parts(p + seq!['/'] + name)
            == action::path_parts(p),
        action::path_parts(Seq::<char>::empty()).len() == 0,
{
    lemma_last_slash_before(p, name);
}

/// A path is absolute where it starts with a slash.
pub proof fn law_absolute_paths(p: Seq<char>)
    ensures
        action::is_absolute(seq!['/'] + p),
        !action::is_absolute(Seq::<char>::empty()),
        p.len() > 0 && p[0] != '/' ==> !action::is_absolute(p),
{
}

proof fn lemma_trimmed_is_prefix(s: Seq<char>)
    ensures
        action::trim_parts(s).is_prefix_of(s),
    decreases s.len(),
{
    action::lemma_last_slash(s);
    if s.len() > 0 && !action::is_part(action::last_part(s)) {
        let w = action::without_last_part(s);
        lemma_trimmed_is_prefix(w);
        let t = action::trim_parts(w);
        assert(w.is_prefix_of(s)) by {
            assert(s.subrange(0, w.len() as int) =~= w);
        }
        assert(s.subrange(0, t.len() as int) =~= w.subrange(0, t.len() as int));
    } else {
        assert(s.subrange(0, s.len() as int) =~= s);
    }
}

/// The directory of an absolute path is the start of it with every part but the last, and no slash
/// or single dot too many at its end; only a path without parts has none.
pub proof fn law_directories_of_paths(path: Seq<char>)
    requires
        action::is_absolute(path),
    ensures
        action::parent_dir(path) is None <==> action::path_parts(path).len() == 0,
        action::parent_dir(path) is Some ==> {
            let d = action::parent_dir(path)->0;
            &&& d.is_prefix_of(path)
            &&& action::is_absolute(d)
            &&& action::path_parts(d) == action::path_parts(path).drop_last()
            &&& d == seq!['/'] || action::is_part(action::last_part(d.drop_first()))
        },
{
    action::lemma_root_has_no_parts(path);
    if action::parent_dir(path) is Some {
        let d = action::parent_dir(path)->0;
        let tail = path.drop_first();
        let body = action::trim_parts(tail);
        let w = action::without_last_part(body);
        let t = action::trim_parts(w);
        action::lemma_parts_behind_the_first_slash(path);
        action::lemma_trim_keeps_parts(tail);
        action::lemma_last_slash(body);
        action::lemma_trim_keeps_parts(w);
        assert(action::path_parts(body) == action::path_parts(w).push(action::last_part(body)));
        assert(action::path_parts(path).drop_last() =~= action::path_parts(w));
        assert(d == seq!['/'] + t);
        assert(d.drop_first() =~= t);
        action::lemma_parts_behind_the_first_slash(d);
        lemma_trimmed_is_prefix(tail);
        lemma_trimmed_is_prefix(w);
        assert(body.subrange(0, w.len() as int) =~= w);
        assert(w.subrange(0, t.len() as int) =~= t);
        assert(tail.subrange(0, body.len() as int) =~= body);
        assert(path.subrange(0, d.len() as int) =~= d) by {
            assert forall|i: int| 0 <= i < d.len() implies path[i] == d[i] by {
                if i > 0 {
                    assert(t[i - 1] == w[i - 1]);
                    assert(w[i - 1] == body[i - 1]);
                    assert(body[i - 1] == tail[i - 1]);
                }
            }
        }
        if t.len() == 0 {
            assert(d =~= seq!['/']);
        }
    }
}

// ── what is done ──

/// An operation on what is there is carried out wherever the path is absolute, has a part and is
/// not the home directory; revealing opens the directory of the path.
pub proof fn law_actions_are_carried_out(
    op: &str,
    path: &str,
    home: &str,
    facts: PathFacts,
    r: Result<Action, String>,
)
    requires
        call_ensures(action::path_facts, (path, true), facts),
        call_ensures(action::run_action, (op, path, &facts, home), r),
        path@.len() > 0,
        path@[0] == '/',
        action::path_parts(path@).len() > 0,
        !(home@.len() > 0 && home@[0] == '/' && action::path_parts(home@) == action::path_parts(
            path@,
        )),
    ensures
        op@ == "trash"@ ==> r == Ok::<Action, String>(Action::Trash),
        op@ == "open"@ ==> r == Ok::<Action, String>(Action::Open),
        op@ == "reveal"@ ==> r is Ok && r->Ok_0 is Reveal && action::parent_dir(path@) == Some(
            r->Ok_0->Reveal_0@,
        ),
        op@ != "trash"@ && op@ != "open"@ && op@ != "reveal"@ ==> r is Err && r->Err_0@
            == "unknown action"@,
{
    reveal_strlit("trash");
    reveal_strlit("open");
    reveal_strlit("reveal");
    assert("trash"@[0] == 't' && "open"@[0] == 'o' && "reveal"@[0] == 'r');
    law_directories_of_paths(path@);
}

/// No operation is carried out on what is not there, nor on the root, the home directory or a path
/// that is not absolute.
pub proof fn law_actions_are_refused(
    op: &str,
    path: &str,
    home: &str,
    exists: bool,
    facts: PathFacts,
    r: Result<Action, String>,
)
    requires
        call_ensures(action::path_facts, (path, exists), facts),
        call_ensures(action::run_action, (op, path, &facts, home), r),
    ensures
        path@.len() == 0 || path@[0] != '/' || action::path_parts(path@).len() == 0 ==> r is Err
            && r->Err_0@ == "refused: unsafe or invalid path"@,
        home@.len() > 0 && home@[0] == '/' && path@.len() > 0 && path@[0] == '/'
            && action::path_parts(home@) == action::path_parts(path@) ==> r is Err && r->Err_0@
            == "refused: unsafe or invalid path"@,
        !exists ==> r is Err,
        r is Ok ==> path@.len() > 0 && path@[0] == '/' && action::path_parts(path@).len() > 0,
{
    if action::is_absolute(path@) {
        law_directories_of_paths(path@);
    }
}

/// Every operation has its own report.
pub proof fn law_reports_of_actions(a: &Action, r: String)
    requires
        call_ensures(action::action_done, (a,), r),
    ensures
        *a is Trash ==> r@ == "moved to trash"@,
        *a is Open ==> r@ == "opened"@,
        *a is Reveal ==> r@ == "revealed"@,
{
}

// ── commands ──

/// A path is opened by one program of the system, with the path as its only argument.
pub proof fn law_open_commands(platform: Platform, path: &str, r: Result<Vec<String>, String>)
    requires
        call_ensures(action::open_command, (platform, path), r),
    ensures
        r is Err <==> platform == Platform::Other,
        r is Err ==> r->Err_0@ == "open not supported on this platform"@,
        r is Ok ==> r->Ok_0@.len() == 2 && r->Ok_0@[1]@ == path@,
        platform == Platform::Linux ==> r->Ok_0@[0]@ == "xdg-open"@,
        platform == Platform::MacOs ==> r->Ok_0@[0]@ == "open"@,
        platform == Platform::Windows ==> r->Ok_0@[0]@ == "explorer"@,
{
    if r is Ok {
        let w = action::word_views(r->Ok_0@);
        assert(w.len() == r->Ok_0@.len());
        assert(w[0] == r->Ok_0@[0]@);
        assert(w[1] == r->Ok_0@[1]@);
    }
}

/// A path is moved to the trash by the system's own means: on Linux it is the last argument, behind
/// the mark that no option follows; elsewhere it stands in a script, with the quotes that would end
/// it written otherwise.
pub proof fn law_trash_commands(platform: Platform, path: &str, r: Result<Vec<String>, String>)
    requires
        call_ensures(action::trash_command, (platform, path), r),
    ensures
        r is Err <==> platform == Platform::Other,
        r is Err ==> r->Err_0@ == "trash not supported on this platform"@,
        platform == Platform::Linux ==> r->Ok_0@.len() == 4 && r->Ok_0@[0]@ == "gio"@
            && r->Ok_0@[1]@ == "trash"@ && r->Ok_0@[2]@ == "--"@ && r->Ok_0@[3]@ == path@,
        platform == Platform::MacOs ==> r->Ok_0@.len() == 3 && r->Ok_0@[0]@ == "osascript"@
            && r->Ok_0@[1]@ == "-e"@ && r->Ok_0@[2]@
            == "tell application \"Finder\" to delete POSIX file \""@ + text::replace(
            path@,
            "\""@,
            "\\\""@,
        ) + "\""@,
        platform == Platform::Windows ==> r->Ok_0@.len() == 4 && r->Ok_0@[0]@ == "powershell"@
            && r->Ok_0@[1]@ == "-NoProfile"@ && r->Ok_0@[2]@ == "-Command"@ && ({
            let p = text::replace(path@, "'"@, "''"@);
            r->Ok_0@[3]@
                == "Add-Type -AssemblyName Microsoft.VisualBasic; if (Test-Path -PathType Container '"@
                + p + "') { [Microsoft.VisualBasic.FileIO.FileSystem]::DeleteDirectory('"@ + p
                + "','OnlyErrorDialogs','SendToRecycleBin') } else { [Microsoft.VisualBasic.FileIO.FileSystem]::DeleteFile('"@
                + p + "','OnlyErrorDialogs','SendToRecycleBin') }"@
        }),
{
    if r is Ok {
        let w = action::word_views(r->Ok_0@);
        assert(w.len() == r->Ok_0@.len());
        assert(w[0] == r->Ok_0@[0]@);
        assert(w[1] == r->Ok_0@[1]@);
        assert(w[2] == r->Ok_0@[2]@);
        if w.len() == 4 {
            assert(w[3] == r->Ok_0@[3]@);
        }
    }
}

/// A trash that failed is reported by the program's name on Linux.
pub proof fn law_failed_trash(platform: Platform, r: String)
    requires
        call_ensures(action::trash_failed, (platform,), r),
    ensures
        platform == Platform::Linux ==> r@ == "gio trash failed"@,
        platform != Platform::Linux ==> r@ == "trash failed"@,
{
}

} // verus!
