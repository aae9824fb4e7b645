//! File actions: what is refused, what is done, and with which command. Nothing is ever deleted for
//! good: the one action that removes a file moves it to the trash.

use crate::text;
use vstd::prelude::*;

verus! {

// ── paths ──

/// The position of the last slash, or -1.
pub open spec fn last_slash(s: Seq<char>) -> int
    decreases s.len(),
{
    if s.len() == 0 {
        -1
    } else if s.last() == '/' {
        s.len() - 1
    } else {
        last_slash(s.drop_last())
    }
}

/// What stands after the last slash.
pub open spec fn last_part(s: Seq<char>) -> Seq<char> {
    s.skip(last_slash(s) + 1)
}

/// What stands before the last slash.
pub open spec fn without_last_part(s: Seq<char>) -> Seq<char> {
    if last_slash(s) < 0 {
        seq![]
    } else {
        s.take(last_slash(s))
    }
}

/// `s` without the empty parts and single dots at its end.
pub open spec fn trim_parts(s: Seq<char>) -> Seq<char>
    decreases s.len(),
{
    if s.len() > 0 && (last_part(s).len() == 0 || last_part(s) == seq!['.'])
        && without_last_part(s).len() < s.len() {
        trim_parts(without_last_part(s))
    } else {
        s
    }
}

/// Whether a path starts at the root.
pub open spec fn is_absolute(path: Seq<char>) -> bool {
    path.len() > 0 && path[0] == '/'
}

/// The directory of an absolute path; the root has none.
pub open spec fn parent_dir(path: Seq<char>) -> Option<Seq<char>> {
    let body = trim_parts(path.drop_first());
    if body.len() == 0 {
        None
    } else {
        Some(seq!['/'] + trim_parts(without_last_part(body)))
    }
}

/// The last slash is a slash, and none stands behind it.
pub proof fn lemma_last_slash(s: Seq<char>)
    ensures
        -1 <= last_slash(s) < s.len(),
        last_slash(s) >= 0 ==> s[last_slash(s)] == '/',
        forall|k: int| last_slash(s) < k < s.len() ==> s[k] != '/',
    decreases s.len(),
{
    if s.len() > 0 && s.last() != '/' {
        let front = s.drop_last();
        lemma_last_slash(front);
        assert forall|k: int| last_slash(s) < k < s.len() implies s[k] != '/' by {
            if k < s.len() - 1 {
                assert(s[k] == front[k]);
            }
        }
    }
}

/// Whether a part between slashes says where a path leads: an empty part and a single dot do not.
pub open spec fn is_part(p: Seq<char>) -> bool {
    p.len() > 0 && p != seq!['.']
}

/// The parts of a path that say where it leads.
pub open spec fn path_parts(s: Seq<char>) -> Seq<Seq<char>>
    decreases s.len(),
{
    if s.len() == 0 {
        seq![]
    } else {
        proof {
            lemma_last_slash(s);
        }
        let front = path_parts(without_last_part(s));
        if is_part(last_part(s)) {
            front.push(last_part(s))
        } else {
            front
        }
    }
}

/// Whether two paths are written alike, but for repeated slashes, slashes at the end, and single
/// dots. What a double dot leads to depends on the links on disk, so it is a part like any other.
pub open spec fn same_path(a: Seq<char>, b: Seq<char>) -> bool {
    is_absolute(a) == is_absolute(b) && path_parts(a) == path_parts(b)
}

/// What is trimmed from the end has no parts, and what is left ends in one.
pub(crate) proof fn lemma_trim_keeps_parts(s: Seq<char>)
    ensures
        path_parts(trim_parts(s)) == path_parts(s),
        trim_parts(s).len() > 0 ==> is_part(last_part(trim_parts(s))),
    decreases s.len(),
{
    lemma_last_slash(s);
    if s.len() > 0 && !is_part(last_part(s)) {
        lemma_trim_keeps_parts(without_last_part(s));
    }
}

proof fn lemma_parts_of_nothing(s: Seq<char>)
    ensures
        path_parts(s).len() == 0 <==> trim_parts(s).len() == 0,
{
    lemma_trim_keeps_parts(s);
    lemma_last_slash(trim_parts(s));
}

/// The slash that makes a path absolute is not a part of it.
pub(crate) proof fn lemma_parts_behind_the_first_slash(s: Seq<char>)
    requires
        is_absolute(s),
    ensures
        path_parts(s) == path_parts(s.drop_first()),
    decreases s.len(),
{
    let t = s.drop_first();
    lemma_last_slash(s);
    lemma_last_slash(t);
    let k = last_slash(s);
    assert(s[0] == '/');
    assert(k >= 0);
    if k == 0 {
        assert(last_slash(t) == -1) by {
            if last_slash(t) >= 0 {
                assert(s[last_slash(t) + 1] == '/');
            }
        }
        assert(last_part(s) == t);
        assert(last_part(t) == t);
        assert(without_last_part(s) == Seq::<char>::empty());
        assert(without_last_part(t) == Seq::<char>::empty());
        assert(path_parts(Seq::<char>::empty()) == Seq::<Seq<char>>::empty());
    } else {
        assert(last_slash(t) == k - 1) by {
            assert(t[k - 1] == '/');
            if last_slash(t) > k - 1 {
                assert(s[last_slash(t) + 1] == '/');
            }
        }
        assert(last_part(s) == last_part(t));
        assert(without_last_part(s).drop_first() == without_last_part(t));
        lemma_parts_behind_the_first_slash(without_last_part(s));
    }
}

/// The root is the one absolute path without parts, and the one without a directory.
pub(crate) proof fn lemma_root_has_no_parts(path: Seq<char>)
    requires
        is_absolute(path),
    ensures
        parent_dir(path) is None <==> path_parts(path).len() == 0,
{
    lemma_parts_behind_the_first_slash(path);
    lemma_parts_of_nothing(path.drop_first());
}

/// What is known of a path.
pub struct PathFacts {
    /// Whether it starts at the root.
    pub absolute: bool,
    /// The directory that holds it.
    pub parent: Option<String>,
    /// Whether there is anything at the path.
    pub exists: bool,
}

fn last_slash_of(s: &[char], n: usize) -> (r: Option<usize>)
    requires
        n <= s@.len(),
    ensures
        match r {
            Some(k) => last_slash(s@.take(n as int)) == k && k < n,
            None => last_slash(s@.take(n as int)) == -1,
        },
{
    let mut k: usize = n;
    while k > 0
        invariant
            k <= n <= s@.len(),
            last_slash(s@.take(n as int)) == last_slash(s@.take(k as int)),
        decreases k,
    {
        assert(s@.take(k as int).drop_last() == s@.take(k - 1));
        assert(s@.take(k as int).last() == s@[k - 1]);
        if s[k - 1] == '/' {
            return Some(k - 1);
        }
        k = k - 1;
    }
    None
}

/// How much of the first `n` characters is left without the empty parts and single dots at the end.
fn trimmed_len(s: &[char], n: usize) -> (r: usize)
    requires
        n <= s@.len(),
    ensures
        r <= n,
        trim_parts(s@.take(n as int)) == s@.take(r as int),
{
    let mut k: usize = n;
    while k > 0
        invariant
            k <= n <= s@.len(),
            trim_parts(s@.take(n as int)) == trim_parts(s@.take(k as int)),
        decreases k,
    {
        let ghost part = s@.take(k as int);
        let slash = last_slash_of(s, k);
        let (start, rest): (usize, usize) = match slash {
            Some(p) => (p + 1, p),
            None => (0, 0),
        };
        proof {
            assert(last_part(part) == s@.subrange(start as int, k as int));
            assert(without_last_part(part) == s@.take(rest as int));
            if k - start == 1 {
                assert(s@.subrange(start as int, k as int) == seq![s@[start as int]]);
            }
            assert(seq!['.'][0] == '.');
        }
        if k == start || (k - start == 1 && s[start] == '.') {
            k = rest;
        } else {
            return k;
        }
    }
    k
}

/// What is known of a path with slashes between its parts, where `exists` says whether anything is
/// there.
pub fn path_facts(path: &str, exists: bool) -> (r: PathFacts)
    ensures
        r.absolute == is_absolute(path@),
        is_absolute(path@) ==> match r.parent {
            Some(p) => parent_dir(path@) == Some(p@),
            None => parent_dir(path@) is None,
        },
        !is_absolute(path@) ==> r.parent is None,
        r.exists == exists,
{
    let chars = text::chars_of(path);
    let n = chars.len();
    if n == 0 || chars[0] != '/' {
        return PathFacts { absolute: false, parent: None, exists: exists };
    }
    let body = &chars.as_slice()[1..n];
    proof {
        assert(body@ == path@.drop_first());
        assert(body@.take(body@.len() as int) == body@);
    }
    let k = trimmed_len(body, body.len());
    if k == 0 {
        assert(body@.take(0) == Seq::<char>::empty());
        return PathFacts { absolute: true, parent: None, exists: exists };
    }
    let rest: usize = match last_slash_of(body, k) {
        Some(p) => p,
        None => 0,
    };
    assert(without_last_part(body@.take(k as int)) == body@.take(rest as int));
    let m = trimmed_len(body, rest);
    let mut parent = String::new();
    parent.push('/');
    text::push_chars(&mut parent, &body[0..m]);
    assert(body@.subrange(0, m as int) == body@.take(m as int));
    assert(parent@ == seq!['/'] + body@.take(m as int));
    PathFacts { absolute: true, parent: Some(parent), exists: exists }
}

/// Where the last part of the first `n` characters starts, and where what stands before its slash
/// ends.
fn last_part_of(s: &[char], n: usize) -> (r: (usize, usize))
    requires
        0 < n <= s@.len(),
    ensures
        r.0 <= n,
        r.1 < n,
        last_part(s@.take(n as int)) == s@.subrange(r.0 as int, n as int),
        without_last_part(s@.take(n as int)) == s@.take(r.1 as int),
{
    match last_slash_of(s, n) {
        Some(p) => {
            assert(last_part(s@.take(n as int)) == s@.subrange(p + 1, n as int));
            assert(without_last_part(s@.take(n as int)) == s@.take(p as int));
            (p + 1, p)
        },
        None => {
            assert(last_part(s@.take(n as int)) == s@.subrange(0, n as int));
            assert(without_last_part(s@.take(n as int)) == s@.take(0));
            (0, 0)
        },
    }
}

/// Whether two paths are the same.
fn is_same_path(a: &[char], b: &[char]) -> (r: bool)
    ensures
        r == same_path(a@, b@),
{
    let a_absolute = a.len() > 0 && a[0] == '/';
    let b_absolute = b.len() > 0 && b[0] == '/';
    if a_absolute != b_absolute {
        return false;
    }
    let mut i: usize = a.len();
    let mut j: usize = b.len();
    assert(a@.take(i as int) == a@ && b@.take(j as int) == b@);
    loop
        invariant
            i <= a@.len(),
            j <= b@.len(),
            is_absolute(a@) == is_absolute(b@),
            (path_parts(a@) == path_parts(b@)) == (path_parts(a@.take(i as int)) == path_parts(
                b@.take(j as int),
            )),
        decreases i,
    {
        proof {
            lemma_trim_keeps_parts(a@.take(i as int));
            lemma_trim_keeps_parts(b@.take(j as int));
        }
        i = trimmed_len(a, i);
        j = trimmed_len(b, j);
        let ghost x = a@.take(i as int);
        let ghost y = b@.take(j as int);
        proof {
            lemma_last_slash(x);
            lemma_last_slash(y);
            assert(x.len() > 0 ==> path_parts(x) == path_parts(without_last_part(x)).push(
                last_part(x),
            ));
            assert(y.len() > 0 ==> path_parts(y) == path_parts(without_last_part(y)).push(
                last_part(y),
            ));
        }
        if i == 0 || j == 0 {
            assert(x.len() == 0 ==> path_parts(x).len() == 0);
            assert(y.len() == 0 ==> path_parts(y).len() == 0);
            return i == 0 && j == 0;
        }
        let (a_start, a_rest) = last_part_of(a, i);
        let (b_start, b_rest) = last_part_of(b, j);
        proof {
            let p = path_parts(without_last_part(x));
            let q = path_parts(without_last_part(y));
            assert(p.push(last_part(x)).last() == last_part(x));
            assert(q.push(last_part(y)).last() == last_part(y));
            assert(p.push(last_part(x)).drop_last() == p);
            assert(q.push(last_part(y)).drop_last() == q);
        }
        if !text::same_chars(&a[a_start..i], &b[b_start..j]) {
            return false;
        }
        i = a_rest;
        j = b_rest;
    }
}

// ── actions ──

/// What is done with a path.
pub enum Action {
    /// It is moved to the trash.
    Trash,
    /// It is opened.
    Open,
    /// Its directory is opened.
    Reveal(String),
}

/// Why an unsafe path is refused.
pub open spec fn refused() -> Seq<char> {
    "refused: unsafe or invalid path"@
}

/// Whether a path is refused: the empty one, one that is not absolute, the root, and the home
/// directory, however their slashes and single dots are written.
pub open spec fn is_refused(path: Seq<char>, facts: PathFacts, home: Seq<char>) -> bool {
    path.len() == 0 || !facts.absolute || facts.parent is None || same_path(
        path,
        home,
    )
}

/// Decides what is done: an unsafe path is refused, then one where nothing is, then an operation
/// that there is not.
pub fn run_action(op: &str, path: &str, facts: &PathFacts, home: &str) -> (r: Result<
    Action,
    String,
>)
    ensures
        match r {
            Ok(a) => {
                &&& !is_refused(path@, *facts, home@)
                &&& facts.exists
                &&& match a {
                    Action::Trash => op@ == "trash"@,
                    Action::Open => op@ == "open"@,
                    Action::Reveal(dir) => op@ == "reveal"@ && dir@ == facts.parent->0@,
                }
            },
            Err(e) => if is_refused(path@, *facts, home@) {
                e@ == refused()
            } else if !facts.exists {
                e@ == "path does not exist"@
            } else {
                &&& e@ == "unknown action"@
                &&& op@ != "trash"@ && op@ != "open"@ && op@ != "reveal"@
            },
        },
{
    let chars = text::chars_of(path);
    let parent = match &facts.parent {
        Some(p) => p.clone(),
        None => {
            return Err("refused: unsafe or invalid path".to_string());
        },
    };
    let home_chars = text::chars_of(home);
    if chars.len() == 0 || !facts.absolute || is_same_path(chars.as_slice(), home_chars.as_slice()) {
        return Err("refused: unsafe or invalid path".to_string());
    }
    if !facts.exists {
        return Err("path does not exist".to_string());
    }
    let o = text::chars_of(op);
    proof {
        reveal_strlit("trash");
        reveal_strlit("open");
        reveal_strlit("reveal");
        assert("trash"@.len() == 5 && "open"@.len() == 4 && "reveal"@.len() == 6);
    }
    if text::is_text(o.as_slice(), "trash") {
        Ok(Action::Trash)
    } else if text::is_text(o.as_slice(), "open") {
        Ok(Action::Open)
    } else if text::is_text(o.as_slice(), "reveal") {
        Ok(Action::Reveal(parent))
    } else {
        Err("unknown action".to_string())
    }
}

/// The root, the home directory and relative paths are refused, whatever the operation, and however
/// slashes and single dots are written.
pub proof fn law_root_and_home_are_refused(path: Seq<char>, facts: PathFacts, home: Seq<char>)
    requires
        facts.absolute == is_absolute(path),
        facts.parent is None <==> !is_absolute(path) || parent_dir(path) is None,
    ensures
        is_absolute(path) && path_parts(path).len() == 0 ==> is_refused(path, facts, home),
        same_path(path, seq!['/']) ==> is_refused(path, facts, home),
        same_path(path, home) ==> is_refused(path, facts, home),
        !is_absolute(path) ==> is_refused(path, facts, home),
        path.len() == 0 ==> is_refused(path, facts, home),
{
    if is_absolute(path) {
        lemma_root_has_no_parts(path);
    }
    if same_path(path, seq!['/']) {
        let root = seq!['/'];
        assert(root.drop_first() == Seq::<char>::empty());
        lemma_parts_behind_the_first_slash(root);
    }
}

/// A slash or a single dot more at the end does not change which path it is.
pub proof fn law_endings_do_not_matter(path: Seq<char>)
    requires
        path.len() > 0,
    ensures
        same_path(path.push('/'), path),
        same_path(path + seq!['/', '.'], path),
{
    let a = path.push('/');
    assert(a.drop_last() == path);
    assert(last_slash(a) == path.len());
    assert(last_part(a) == Seq::<char>::empty());
    assert(without_last_part(a) == path);
    let b = path + seq!['/', '.'];
    assert(b.drop_last() == a);
    assert(b.last() == '.');
    assert(last_slash(b) == path.len());
    assert(last_part(b) == seq!['.']);
    assert(without_last_part(b) == path);
}

/// What is reported when an action was done.
pub fn action_done(a: &Action) -> (r: String)
    ensures
        r@ == match a {
            Action::Trash => "moved to trash"@,
            Action::Open => "opened"@,
            Action::Reveal(_) => "revealed"@,
        },
{
    match a {
        Action::Trash => "moved to trash".to_string(),
        Action::Open => "opened".to_string(),
        Action::Reveal(_) => "revealed".to_string(),
    }
}

/// The platforms whose commands are known.
#[derive(Clone, Copy, PartialEq, Eq, Structural)]
pub enum Platform {
    Linux,
    MacOs,
    Windows,
    Other,
}

/// Words as mathematical values.
pub open spec fn word_views(v: Seq<String>) -> Seq<Seq<char>> {
    Seq::new(v.len(), |i: int| v[i]@)
}

/// The command that opens a path with the program that the system has for it.
pub open spec fn open_words(platform: Platform, path: Seq<char>) -> Option<Seq<Seq<char>>> {
    match platform {
        Platform::Linux => Some(seq!["xdg-open"@, path]),
        Platform::MacOs => Some(seq!["open"@, path]),
        Platform::Windows => Some(seq!["explorer"@, path]),
        Platform::Other => None,
    }
}

/// The command that opens a path.
pub fn open_command(platform: Platform, path: &str) -> (r: Result<Vec<String>, String>)
    ensures
        match r {
            Ok(v) => open_words(platform, path@) == Some(word_views(v@)),
            Err(e) => open_words(platform, path@) is None && e@
                == "open not supported on this platform"@,
        },
{
    let program = match platform {
        Platform::Linux => "xdg-open",
        Platform::MacOs => "open",
        Platform::Windows => "explorer",
        Platform::Other => {
            return Err("open not supported on this platform".to_string());
        },
    };
    let mut v: Vec<String> = Vec::new();
    v.push(program.to_string());
    v.push(path.to_string());
    assert(word_views(v@) == seq![program@, path@]);
    Ok(v)
}

/// The script with which the Finder moves a file to the trash.
pub open spec fn finder_script(path: Seq<char>) -> Seq<char> {
    "tell application \"Finder\" to delete POSIX file \""@ + text::replace(path, "\""@, "\\\""@)
        + "\""@
}

/// The script that moves a file or a directory to the recycle bin.
pub open spec fn recycle_script(path: Seq<char>) -> Seq<char> {
    let p = text::replace(path, "'"@, "''"@);
    "Add-Type -AssemblyName Microsoft.VisualBasic; if (Test-Path -PathType Container '"@ + p
        + "') { [Microsoft.VisualBasic.FileIO.FileSystem]::DeleteDirectory('"@ + p
        + "','OnlyErrorDialogs','SendToRecycleBin') } else { [Microsoft.VisualBasic.FileIO.FileSystem]::DeleteFile('"@
        + p + "','OnlyErrorDialogs','SendToRecycleBin') }"@
}

/// The command that moves a path to the trash.
pub open spec fn trash_words(platform: Platform, path: Seq<char>) -> Option<Seq<Seq<char>>> {
    match platform {
        Platform::Linux => Some(seq!["gio"@, "trash"@, "--"@, path]),
        Platform::MacOs => Some(seq!["osascript"@, "-e"@, finder_script(path)]),
        Platform::Windows => Some(
            seq!["powershell"@, "-NoProfile"@, "-Command"@, recycle_script(path)],
        ),
        Platform::Other => None,
    }
}

/// `s` with `p` replaced by `q`.
fn replaced_text(s: &str, p: &str, q: &str) -> (r: String)
    requires
        p@.len() > 0,
    ensures
        r@ == text::replace(s@, p@, q@),
{
    let a = text::chars_of(s);
    let b = text::chars_of(p);
    let c = text::chars_of(q);
    let v = text::replaced(a.as_slice(), b.as_slice(), c.as_slice());
    text::text_of(v.as_slice())
}

/// The command that moves a path to the trash.
pub fn trash_command(platform: Platform, path: &str) -> (r: Result<Vec<String>, String>)
    ensures
        match r {
            Ok(v) => trash_words(platform, path@) == Some(word_views(v@)),
            Err(e) => trash_words(platform, path@) is None && e@
                == "trash not supported on this platform"@,
        },
{
    let mut v: Vec<String> = Vec::new();
    match platform {
        Platform::Linux => {
            v.push("gio".to_string());
            v.push("trash".to_string());
            v.push("--".to_string());
            v.push(path.to_string());
            assert(word_views(v@) == seq!["gio"@, "trash"@, "--"@, path@]);
        },
        Platform::MacOs => {
            proof {
                reveal_strlit("\"");
            }
            let p = replaced_text(path, "\"", "\\\"");
            let mut script = String::new();
            script.append("tell application \"Finder\" to delete POSIX file \"");
            script.append(p.as_str());
            script.append("\"");
            v.push("osascript".to_string());
            v.push("-e".to_string());
            v.push(script);
            assert(script@ == finder_script(path@));
            assert(word_views(v@) == seq!["osascript"@, "-e"@, finder_script(path@)]);
        },
        Platform::Windows => {
            proof {
                reveal_strlit("'");
            }
            let p = replaced_text(path, "'", "''");
            let mut script = String::new();
            script.append(
                "Add-Type -AssemblyName Microsoft.VisualBasic; if (Test-Path -PathType Container '",
            );
            script.append(p.as_str());
            script.append("') { [Microsoft.VisualBasic.FileIO.FileSystem]::DeleteDirectory('");
            script.append(p.as_str());
            script.append(
                "','OnlyErrorDialogs','SendToRecycleBin') } else { [Microsoft.VisualBasic.FileIO.FileSystem]::DeleteFile('",
            );
            script.append(p.as_str());
            script.append("','OnlyErrorDialogs','SendToRecycleBin') }");
            assert(script@ == recycle_script(path@));
            v.push("powershell".to_string());
            v.push("-NoProfile".to_string());
            v.push("-Command".to_string());
            v.push(script);
            assert(word_views(v@) == seq![
                "powershell"@,
                "-NoProfile"@,
                "-Command"@,
                recycle_script(path@),
            ]);
        },
        Platform::Other => {
            return Err("trash not supported on this platform".to_string());
        },
    }
    Ok(v)
}

/// What is reported when the command that moves a path to the trash failed.
pub fn trash_failed(platform: Platform) -> (r: String)
    ensures
        r@ == (if platform == Platform::Linux {
            "gio trash failed"@
        } else {
            "trash failed"@
        }),
{
    if platform == Platform::Linux {
        "gio trash failed".to_string()
    } else {
        "trash failed".to_string()
    }
}

} // verus!
