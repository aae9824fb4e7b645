//! Requests and answers.

use crate::arena::Cfg;
use crate::laws::texts;
use crate::escape;
use crate::text;
use crate::web;
use crate::web::{Answer, Route, RouteView};
use vstd::prelude::*;

verus! {

// ── parameters ──

/// The text of a query: every key with its value, joined by ampersands.
pub open spec fn query_text(pairs: Seq<(Seq<char>, Seq<char>)>) -> Seq<char>
    decreases pairs.len(),
{
    if pairs.len() == 0 {
        seq![]
    } else if pairs.len() == 1 {
        pairs[0].0 + seq!['='] + pairs[0].1
    } else {
        pairs[0].0 + seq!['='] + pairs[0].1 + seq!['&'] + query_text(pairs.drop_first())
    }
}

/// Keys and values that stand in a query as they are.
pub open spec fn is_plain_pair(p: (Seq<char>, Seq<char>)) -> bool {
    &&& !p.0.contains('=') && !p.0.contains('&')
    &&& !p.1.contains('&') && !p.1.contains('%') && !p.1.contains('+')
}

/// A part of a query gives its value to its key and to no other; a part without a sign of equality
/// gives none.
pub proof fn law_parts_give_values(k: Seq<char>, v: Seq<char>, key: Seq<char>)
    requires
        !k.contains('='),
    ensures
        k == key && !v.contains('%') && !v.contains('+') ==> web::value_in(k + seq!['='] + v, key)
            == Some(v),
        k == key ==> web::value_in(k + seq!['='] + v, key) == Some(
            text::utf8_text(escape::percent_decoded(vstd::utf8::encode_utf8(v), true)),
        ),
        k != key ==> web::value_in(k + seq!['='] + v, key) is None,
        web::value_in(k, key) is None,
{
    texts::law_pieces(k, '=', v);
    if !v.contains('%') && !v.contains('+') {
        escape::law_plain_text_is_decoded_to_itself(v, true);
    }
}

proof fn lemma_query_parts(pairs: Seq<(Seq<char>, Seq<char>)>)
    requires
        pairs.len() > 0,
        forall|i: int| 0 <= i < pairs.len() ==> is_plain_pair(#[trigger] pairs[i]),
    ensures
        text::split(query_text(pairs), '&') == Seq::new(
            pairs.len(),
            |i: int| pairs[i].0 + seq!['='] + pairs[i].1,
        ),
    decreases pairs.len(),
{
    let expected = Seq::new(pairs.len(), |i: int| pairs[i].0 + seq!['='] + pairs[i].1);
    let first = pairs[0].0 + seq!['='] + pairs[0].1;
    assert(is_plain_pair(pairs[0]));
    assert(!first.contains('&')) by {
        if first.contains('&') {
            let i = choose|i: int| 0 <= i < first.len() && first[i] == '&';
            if i < pairs[0].0.len() {
                assert(pairs[0].0[i] == '&');
            } else if i > pairs[0].0.len() {
                assert(pairs[0].1[i - pairs[0].0.len() - 1] == '&');
            }
        }
    }
    let rest = pairs.drop_first();
    texts::law_pieces(first, '&', query_text(rest));
    if pairs.len() > 1 {
        assert forall|i: int| 0 <= i < rest.len() implies is_plain_pair(#[trigger] rest[i]) by {
            assert(rest[i] == pairs[i + 1]);
        }
        lemma_query_parts(rest);
    }
    assert(text::split(query_text(pairs), '&') =~= expected);
}

proof fn lemma_first_value(parts: Seq<Seq<char>>, key: Seq<char>, i: int)
    requires
        0 <= i < parts.len(),
        web::value_in(parts[i], key) is Some,
        forall|j: int| 0 <= j < i ==> web::value_in(#[trigger] parts[j], key) is None,
    ensures
        web::first_value(parts, key) == web::value_in(parts[i], key),
    decreases i,
{
    if i > 0 {
        assert(web::value_in(parts[0], key) is None);
        let rest = parts.drop_first();
        assert(rest[i - 1] == parts[i]);
        assert forall|j: int| 0 <= j < i - 1 implies web::value_in(
            #[trigger] rest[j],
            key,
        ) is None by {
            assert(rest[j] == parts[j + 1]);
        }
        lemma_first_value(rest, key, i - 1);
    }
}

proof fn lemma_no_value(parts: Seq<Seq<char>>, key: Seq<char>)
    requires
        forall|j: int| 0 <= j < parts.len() ==> web::value_in(#[trigger] parts[j], key) is None,
    ensures
        web::first_value(parts, key) is None,
        web::last_value(parts, key).len() == 0,
    decreases parts.len(),
{
    if parts.len() > 0 {
        let rest = parts.drop_first();
        let front = parts.drop_last();
        assert(web::value_in(parts[0], key) is None);
        assert(web::value_in(parts[parts.len() - 1], key) is None);
        assert forall|j: int| 0 <= j < rest.len() implies web::value_in(
            #[trigger] rest[j],
            key,
        ) is None by {
            assert(rest[j] == parts[j + 1]);
        }
        assert forall|j: int| 0 <= j < front.len() implies web::value_in(
            #[trigger] front[j],
            key,
        ) is None by {
            assert(front[j] == parts[j]);
        }
        lemma_no_value(rest, key);
        lemma_no_value(front, key);
    }
}

proof fn lemma_last_value(parts: Seq<Seq<char>>, key: Seq<char>, i: int)
    requires
        0 <= i < parts.len(),
        web::value_in(parts[i], key) is Some,
        forall|j: int| i < j < parts.len() ==> web::value_in(#[trigger] parts[j], key) is None,
    ensures
        web::last_value(parts, key) == web::value_in(parts[i], key)->0,
    decreases parts.len(),
{
    if i < parts.len() - 1 {
        assert(web::value_in(parts[parts.len() - 1], key) is None);
        let front = parts.drop_last();
        assert(front[i] == parts[i]);
        assert forall|j: int| i < j < front.len() implies web::value_in(
            #[trigger] front[j],
            key,
        ) is None by {
            assert(front[j] == parts[j]);
        }
        lemma_last_value(front, key, i);
    }
}

/// A parameter of a target has the value that the first pair of the query with its key gives it;
/// one that no pair gives has none, nor has any in a target without a query.
pub proof fn law_parameters_are_found(
    path: Seq<char>,
    pairs: Seq<(Seq<char>, Seq<char>)>,
    key: Seq<char>,
    i: int,
)
    requires
        !path.contains('?'),
        pairs.len() > 0,
        forall|j: int| 0 <= j < pairs.len() ==> is_plain_pair(#[trigger] pairs[j]),
    ensures
        web::param(path, key) is None,
        0 <= i < pairs.len() && pairs[i].0 == key && (forall|j: int|
            0 <= j < i ==> (#[trigger] pairs[j]).0 != key) ==> web::param(
            path + seq!['?'] + query_text(pairs),
            key,
        ) == Some(pairs[i].1),
        (forall|j: int| 0 <= j < pairs.len() ==> (#[trigger] pairs[j]).0 != key) ==> web::param(
            path + seq!['?'] + query_text(pairs),
            key,
        ) is None,
{
    let parts = Seq::new(pairs.len(), |i: int| pairs[i].0 + seq!['='] + pairs[i].1);
    texts::law_pieces(path, '?', query_text(pairs));
    lemma_query_parts(pairs);
    assert forall|j: int| 0 <= j < pairs.len() implies {
        &&& (#[trigger] pairs[j]).0 == key ==> web::value_in(parts[j], key) == Some(pairs[j].1)
        &&& pairs[j].0 != key ==> web::value_in(parts[j], key) is None
    } by {
        assert(is_plain_pair(pairs[j]));
        law_parts_give_values(pairs[j].0, pairs[j].1, key);
    }
    if 0 <= i < pairs.len() && pairs[i].0 == key && (forall|j: int|
        0 <= j < i ==> (#[trigger] pairs[j]).0 != key) {
        assert forall|j: int| 0 <= j < i implies web::value_in(
            #[trigger] parts[j],
            key,
        ) is None by {
            assert(pairs[j].0 != key);
        }
        lemma_first_value(parts, key, i);
    }
    if forall|j: int| 0 <= j < pairs.len() ==> (#[trigger] pairs[j]).0 != key {
        assert forall|j: int| 0 <= j < parts.len() implies web::value_in(
            #[trigger] parts[j],
            key,
        ) is None by {
            assert(pairs[j].0 != key);
        }
        lemma_no_value(parts, key);
    }
}

/// A posted action is asked for by the last pairs of the query with the keys of the operation and
/// of the path.
pub proof fn law_posted_actions(
    rest: Seq<char>,
    pairs: Seq<(Seq<char>, Seq<char>)>,
    i: int,
    k: int,
)
    requires
        !rest.contains('?'),
        forall|j: int| 0 <= j < pairs.len() ==> is_plain_pair(#[trigger] pairs[j]),
        0 <= i < pairs.len(),
        0 <= k < pairs.len(),
        pairs[i].0 == "op"@,
        pairs[k].0 == "path"@,
        forall|j: int| i < j < pairs.len() ==> (#[trigger] pairs[j]).0 != "op"@,
        forall|j: int| k < j < pairs.len() ==> (#[trigger] pairs[j]).0 != "path"@,
    ensures
        web::route_of("POST"@, "/act"@ + rest + seq!['?'] + query_text(pairs)) == (RouteView::Act {
            op: pairs[i].1,
            path: pairs[k].1,
        }),
{
    reveal_strlit("/act");
    let path = "/act"@ + rest;
    let target = path + seq!['?'] + query_text(pairs);
    assert(!path.contains('?')) by {
        if path.contains('?') {
            let j = choose|j: int| 0 <= j < path.len() && path[j] == '?';
            if j >= 4 {
                assert(rest[j - 4] == '?');
            }
        }
    }
    assert(target.subrange(0, 4) =~= "/act"@);
    let parts = Seq::new(pairs.len(), |i: int| pairs[i].0 + seq!['='] + pairs[i].1);
    texts::law_pieces(path, '?', query_text(pairs));
    lemma_query_parts(pairs);
    assert forall|j: int| 0 <= j < pairs.len() implies {
        &&& (#[trigger] pairs[j]).0 == "op"@ ==> web::value_in(parts[j], "op"@) == Some(pairs[j].1)
        &&& pairs[j].0 != "op"@ ==> web::value_in(parts[j], "op"@) is None
        &&& pairs[j].0 == "path"@ ==> web::value_in(parts[j], "path"@) == Some(pairs[j].1)
        &&& pairs[j].0 != "path"@ ==> web::value_in(parts[j], "path"@) is None
    } by {
        assert(is_plain_pair(pairs[j]));
        law_parts_give_values(pairs[j].0, pairs[j].1, "op"@);
        law_parts_give_values(pairs[j].0, pairs[j].1, "path"@);
    }
    assert forall|j: int| i < j < parts.len() implies web::value_in(
        #[trigger] parts[j],
        "op"@,
    ) is None by {
        assert(pairs[j].0 != "op"@);
    }
    assert forall|j: int| k < j < parts.len() implies web::value_in(
        #[trigger] parts[j],
        "path"@,
    ) is None by {
        assert(pairs[j].0 != "path"@);
    }
    assert(web::value_in(parts[i], "op"@) == Some(pairs[i].1));
    assert(web::value_in(parts[k], "path"@) == Some(pairs[k].1));
    lemma_last_value(parts, "op"@, i);
    lemma_last_value(parts, "path"@, k);
}

/// A value is decoded as a text of its bytes, with every plus sign a space.
pub proof fn law_values_are_decoded(a: Seq<char>)
    requires
        !a.contains('%'),
    ensures
        web::decoded(a) == text::replace(a, seq!['+'], seq![' ']),
{
    let b = text::replace(a, seq!['+'], seq![' ']);
    texts::law_replacing_a_character(a, '+', ' ');
    escape::law_plus_signs_are_spaces(a, b);
    texts::law_encoded_texts_are_read_back(b);
}

// ── requests ──

/// The first line of a request has its method and its target, between spaces.
pub proof fn law_requests_are_read(
    content: &str,
    method: Seq<char>,
    target: Seq<char>,
    version: Seq<char>,
    rest: Seq<char>,
    r: (String, String),
)
    requires
        method.len() > 0,
        target.len() > 0,
        version.len() > 0,
        forall|i: int| 0 <= i < method.len() ==> !text::is_space(#[trigger] method[i]),
        forall|i: int| 0 <= i < target.len() ==> !text::is_space(#[trigger] target[i]),
        forall|i: int| 0 <= i < version.len() ==> !text::is_space(#[trigger] version[i]),
        content@ == method + seq![' '] + target + seq![' '] + version + seq!['\r', '\n'] + rest,
        call_ensures(web::request_line, (content,), r),
    ensures
        r.0@ == method,
        r.1@ == target,
{
    let line = method + seq![' '] + target + seq![' '] + version;
    assert(!line.contains('\n')) by {
        if line.contains('\n') {
            let i = choose|i: int| 0 <= i < line.len() && line[i] == '\n';
            let m = method.len() as int;
            let t = target.len() as int;
            if i < m {
                assert(text::is_space(method[i]));
            } else if m < i < m + 1 + t {
                assert(text::is_space(target[i - m - 1]));
            } else if i > m + 1 + t {
                assert(text::is_space(version[i - m - t - 2]));
            }
        }
    }
    assert(line.last() == version.last());
    assert(!text::is_space(version[version.len() - 1]));
    assert(content@ =~= line + seq!['\r', '\n'] + rest);
    texts::law_lines(line, rest);
    assert(web::first_line(content@) == line);
    texts::law_words(method, ' ', target + seq![' '] + version);
    texts::law_words(target, ' ', version);
    texts::law_words(version, ' ', version);
    assert(line =~= method + seq![' '] + (target + seq![' '] + version));
    assert(text::words(line) =~= seq![method, target, version]);
}

/// A request without words asks for the front page.
pub proof fn law_empty_requests(content: &str, r: (String, String))
    requires
        content@.len() == 0,
        call_ensures(web::request_line, (content,), r),
    ensures
        r.0@ == "GET"@,
        r.1@ == "/"@,
{
    let none = Seq::<char>::empty();
    assert(content@ =~= none);
    texts::law_lines(none, none);
    texts::law_words(seq!['a'], ' ', none);
}

// ── routes ──

proof fn lemma_starts(p: Seq<char>, rest: Seq<char>)
    ensures
        p.is_prefix_of(p + rest),
{
    assert((p + rest).subrange(0, p.len() as int) =~= p);
}

proof fn lemma_differs(p: Seq<char>, s: Seq<char>, i: int)
    requires
        0 <= i < p.len(),
        i < s.len(),
        p[i] != s[i],
    ensures
        !p.is_prefix_of(s),
{
    if p.is_prefix_of(s) {
        assert(s.subrange(0, p.len() as int)[i] == s[i]);
    }
}

/// Every route is asked for by its own path, whatever stands behind it.
pub proof fn law_routes(method: Seq<char>, rest: Seq<char>)
    ensures
        web::route_of(method, "/"@) is Page,
        web::route_of(method, "/?"@ + rest) is Page,
        web::route_of(method, "/index.html"@) is Page,
        web::route_of(method, "/scan"@ + rest) is Scan,
        web::route_of(method, "/mounts"@ + rest) is Mounts,
        web::route_of(method, "/remotes"@ + rest) is Remotes,
        web::route_of(method, "/remote/scan"@ + rest) is RemoteScan,
        web::route_of(method, "/report/get"@ + rest) is ReportGet,
        web::route_of(method, "/report/import"@ + rest) is Import,
        web::route_of(method, "/reports"@ + rest) is Reports,
        web::route_of("POST"@, "/act"@ + rest) is Act,
        method != "POST"@ ==> web::route_of(method, "/act"@ + rest) is NotPosted,
        web::route_of(method, "/report/save"@ + rest) is SaveRemote || web::route_of(
            method,
            "/report/save"@ + rest,
        ) is SaveLocal,
{
    reveal_strlit("/");
    reveal_strlit("/?");
    reveal_strlit("/index.html");
    reveal_strlit("/act");
    reveal_strlit("/scan");
    reveal_strlit("/mounts");
    reveal_strlit("/remotes");
    reveal_strlit("/remote/scan");
    reveal_strlit("/report/get");
    reveal_strlit("/report/save");
    reveal_strlit("/report/import");
    reveal_strlit("/reports");
    lemma_starts("/?"@, rest);
    lemma_starts("/act"@, rest);
    lemma_starts("/scan"@, rest);
    lemma_starts("/mounts"@, rest);
    lemma_starts("/remotes"@, rest);
    lemma_starts("/remote/scan"@, rest);
    lemma_starts("/report/get"@, rest);
    lemma_starts("/report/save"@, rest);
    lemma_starts("/report/import"@, rest);
    lemma_starts("/reports"@, rest);
    lemma_routed("/?"@ + rest);
    lemma_routed("/index.html"@);
    lemma_routed("/scan"@ + rest);
    lemma_routed("/mounts"@ + rest);
    lemma_routed("/remotes"@ + rest);
    lemma_routed("/remote/scan"@ + rest);
    lemma_routed("/report/get"@ + rest);
    lemma_routed("/report/save"@ + rest);
    lemma_routed("/report/import"@ + rest);
    lemma_routed("/reports"@ + rest);
}

// Which paths a target cannot start with, by its characters.
proof fn lemma_routed(s: Seq<char>)
    requires
        s.len() >= 2,
    ensures
        s != "/"@,
        s[1] != 'a' ==> !"/act"@.is_prefix_of(s),
        s[1] != '?' ==> !"/?"@.is_prefix_of(s),
        s[1] != 'i' ==> s != "/index.html"@,
        s[1] != 's' ==> !"/scan"@.is_prefix_of(s),
        s[1] != 'm' ==> !"/mounts"@.is_prefix_of(s),
        s.len() >= 8 && s[7] != 's' ==> !"/remotes"@.is_prefix_of(s),
        s.len() >= 8 && s[7] != '/' ==> !"/remote/scan"@.is_prefix_of(s),
        s.len() >= 4 && s[3] != 'm' ==> !"/remotes"@.is_prefix_of(s)
            && !"/remote/scan"@.is_prefix_of(
            s,
        ),
        s.len() >= 9 && s[8] != 'g' ==> !"/report/get"@.is_prefix_of(s),
        s.len() >= 9 && s[8] != 's' ==> !"/report/save"@.is_prefix_of(s),
        s.len() >= 9 && s[8] != 'i' ==> !"/report/import"@.is_prefix_of(s),
        s.len() >= 8 && s[7] != '/' ==> !"/report/get"@.is_prefix_of(s)
            && !"/report/save"@.is_prefix_of(
            s,
        ) && !"/report/import"@.is_prefix_of(s),
{
    reveal_strlit("/");
    reveal_strlit("/?");
    reveal_strlit("/index.html");
    reveal_strlit("/act");
    reveal_strlit("/scan");
    reveal_strlit("/mounts");
    reveal_strlit("/remotes");
    reveal_strlit("/remote/scan");
    reveal_strlit("/report/get");
    reveal_strlit("/report/save");
    reveal_strlit("/report/import");
    if s[1] != 'a' {
        lemma_differs("/act"@, s, 1);
    }
    if s[1] != '?' {
        lemma_differs("/?"@, s, 1);
    }
    if s[1] != 's' {
        lemma_differs("/scan"@, s, 1);
    }
    if s[1] != 'm' {
        lemma_differs("/mounts"@, s, 1);
    }
    if s.len() >= 8 && s[7] != 's' {
        lemma_differs("/remotes"@, s, 7);
    }
    if s.len() >= 8 && s[7] != '/' {
        lemma_differs("/remote/scan"@, s, 7);
        lemma_differs("/report/get"@, s, 7);
        lemma_differs("/report/save"@, s, 7);
        lemma_differs("/report/import"@, s, 7);
    }
    if s.len() >= 4 && s[3] != 'm' {
        lemma_differs("/remotes"@, s, 3);
        lemma_differs("/remote/scan"@, s, 3);
    }
    if s.len() >= 9 && s[8] != 'g' {
        lemma_differs("/report/get"@, s, 8);
    }
    if s.len() >= 9 && s[8] != 's' {
        lemma_differs("/report/save"@, s, 8);
    }
    if s.len() >= 9 && s[8] != 'i' {
        lemma_differs("/report/import"@, s, 8);
    }
}

/// What is asked for under no other path is not found.
pub proof fn law_unknown_paths_are_not_found(method: Seq<char>, target: Seq<char>)
    ensures
        web::route_of(method, target) is NotFound <==> target != "/"@ && target != "/index.html"@
            && !"/act"@.is_prefix_of(target) && !"/?"@.is_prefix_of(target)
            && !"/scan"@.is_prefix_of(target) && !"/mounts"@.is_prefix_of(target)
            && !"/remotes"@.is_prefix_of(target) && !"/remote/scan"@.is_prefix_of(target)
            && !"/report/get"@.is_prefix_of(target) && !"/report/save"@.is_prefix_of(target)
            && !"/report/import"@.is_prefix_of(target) && !"/reports"@.is_prefix_of(target),
{
}

/// A scan is asked for with the root, the numbers and the force of the request's parameters:
/// numbers of children up to the size of a word, depths up to 32 bits, and force where the
/// parameter is one.
pub proof fn law_scan_requests(target: Seq<char>, rest: Seq<char>, method: Seq<char>, n: nat)
    requires
        target == "/scan"@ + rest,
    ensures
        ({
            let r = web::route_of(method, target);
            &&& r is Scan
            &&& r->Scan_root == web::param(target, "path"@)
            &&& web::param(target, "top"@) == Some(text::decimal(n)) && n <= usize::MAX ==> r->top
                == Some(n)
            &&& web::param(target, "top"@) == Some(text::decimal(n)) && n > usize::MAX
                ==> r->top is None
            &&& web::param(target, "top"@) is None ==> r->top is None
            &&& web::param(target, "depth"@) == Some(text::decimal(n)) && n <= 0xffff_ffff
                ==> r->depth == Some(n)
            &&& web::param(target, "depth"@) == Some(text::decimal(n)) && n > 0xffff_ffff
                ==> r->depth is None
            &&& web::param(target, "depth"@) is None ==> r->depth is None
            &&& r->force <==> web::param(target, "force"@) == Some("1"@)
        }),
{
    law_routes(method, rest);
    texts::law_numbers_are_read(n, usize::MAX as nat);
    texts::law_numbers_are_read(n, u32::MAX as nat);
}

/// The other routes carry the parameters of the request; a missing one is empty.
pub proof fn law_requests_carry_their_parameters(method: Seq<char>, rest: Seq<char>)
    ensures
        ({
            let target = "/remote/scan"@ + rest;
            web::route_of(method, target)->RemoteScan_remote == match web::param(target, "remote"@) {
                Some(v) => v,
                None => ""@,
            }
        }),
        ({
            let target = "/report/get"@ + rest;
            web::route_of(method, target)->id == match web::param(target, "id"@) {
                Some(v) => v,
                None => ""@,
            }
        }),
        ({
            let target = "/report/import"@ + rest;
            let r = web::route_of(method, target);
            &&& r->file == match web::param(target, "file"@) {
                Some(v) => v,
                None => ""@,
            }
            &&& r->Import_label == match web::param(target, "label"@) {
                Some(v) => v,
                None => ""@,
            }
        }),
        ({
            let target = "/report/save"@ + rest;
            let r = web::route_of(method, target);
            let label = match web::param(target, "label"@) {
                Some(v) => v,
                None => ""@,
            };
            let path = match web::param(target, "path"@) {
                Some(v) => v,
                None => ""@,
            };
            match web::param(target, "remote"@) {
                Some(v) => r == (RouteView::SaveRemote { label: label, remote: v }),
                None => r == (RouteView::SaveLocal { label: label, path: path }),
            }
        }),
{
    reveal_strlit("");
    law_routes(method, rest);
    assert(""@ =~= Seq::<char>::empty());
}

/// The numbers of a request replace those of the program; all other settings stay.
pub proof fn law_requests_change_two_settings(
    base: &Cfg,
    top: Option<usize>,
    depth: Option<u32>,
    r: Cfg,
)
    requires
        call_ensures(web::scan_settings, (base, top, depth), r),
    ensures
        top is Some ==> r.top == top->0,
        top is None ==> r.top == base.top,
        depth is Some ==> r.max_depth == depth->0,
        depth is None ==> r.max_depth == base.max_depth,
        r == (Cfg { top: r.top, max_depth: r.max_depth, ..*base }),
{
}

// ── answers ──

/// An answer is sent as its head, which ends with an empty line, and its body; the head has the
/// status, the type and the number of bytes of the body.
pub proof fn law_answers_are_sent(a: &Answer, r: Vec<u8>)
    requires
        call_ensures(web::http_write, (a,), r),
    ensures
        r@ == vstd::utf8::encode_utf8(
            "HTTP/1.1 "@ + a.status@ + "\r\nContent-Type: "@ + a.ctype@ + "\r\nContent-Length: "@
                + text::decimal(vstd::utf8::encode_utf8(a.body@).len())
                + "\r\nAccess-Control-Allow-Origin: *\r\nConnection: close\r\n\r\n"@,
        ) + vstd::utf8::encode_utf8(a.body@),
        vstd::utf8::encode_utf8(a.body@).is_suffix_of(r@),
{
    let b = vstd::utf8::encode_utf8(a.body@);
    assert(r@.skip(r@.len() - b.len()) =~= b);
}

/// A message in an answer has as many characters as before, none of them a double quote; only those
/// are changed, into single ones.
pub proof fn law_messages_hold_no_quotes(m: Seq<char>, i: int)
    requires
        0 <= i < m.len(),
    ensures
        web::quoted(m).len() == m.len(),
        web::quoted(m)[i] == if m[i] == '"' {
            '\''
        } else {
            m[i]
        },
{
    texts::law_replacing_a_character(m, '"', '\'');
}

/// An action that was carried out is answered with its message, one that failed with its error.
pub proof fn law_action_answers(result: &Result<String, String>, r: String)
    requires
        call_ensures(web::action_body, (result,), r),
    ensures
        *result is Ok ==> r@ == "{\"ok\":true,\"msg\":\""@ + (*result)->Ok_0@ + "\"}"@,
        *result is Err
            ==> r@ == "{\"ok\":false,\"err\":\""@ + web::quoted((*result)->Err_0@) + "\"}"@,
{
}

/// A saved report is answered with what is known of it, one that could not be saved with the error.
pub proof fn law_saved_report_answers(result: &Result<String, String>, r: String)
    requires
        call_ensures(web::report_body, (result,), r),
    ensures
        *result is Ok ==> r@ == "{\"ok\":true,\"meta\":"@ + (*result)->Ok_0@ + "}"@,
        *result is Err
            ==> r@ == "{\"ok\":false,\"err\":\""@ + web::quoted((*result)->Err_0@) + "\"}"@,
{
}

/// A report that is there is the body of a success; one that is not is answered as not found.
pub proof fn law_report_answers(report: Option<String>, r: Answer)
    requires
        call_ensures(web::report_answer, (report,), r),
    ensures
        r.ctype@ == "application/json"@,
        report is Some ==> r.status@ == "200 OK"@ && r.body@ == report->0@,
        report is None ==> r.status@ == "404 Not Found"@ && r.body@ == "{\"error\":\"not found\"}"@,
{
}

/// Bodies are sent with success under their own types.
pub proof fn law_successes(body: String, j: Answer, p: Answer)
    requires
        call_ensures(web::json_answer, (body,), j),
        call_ensures(web::page_answer, (body,), p),
    ensures
        j.status@ == "200 OK"@ && j.ctype@ == "application/json"@ && j.body@ == body@,
        p.status@ == "200 OK"@ && p.ctype@ == "text/html; charset=utf-8"@ && p.body@ == body@,
{
}

/// Only actions that were not posted and unknown paths are refused, each with its own status.
pub proof fn law_refusals(route: &Route, r: Option<Answer>)
    requires
        call_ensures(web::refusal, (route,), r),
    ensures
        r is Some <==> *route is NotPosted || *route is NotFound,
        *route is NotPosted ==> r->0.status@ == "405 Method Not Allowed"@ && r->0.ctype@
            == "text/plain"@ && r->0.body@ == "POST only"@,
        *route is NotFound ==> r->0.status@ == "404 Not Found"@ && r->0.ctype@ == "text/plain"@
            && r->0.body@ == "not found"@,
{
}

/// The parts of a query stand between ampersands behind the first question mark; the first part
/// that gives a value to a key decides for a parameter, and the last one for an action.
pub proof fn law_which_part_decides(
    path: Seq<char>,
    query: Seq<char>,
    key: Seq<char>,
    part: Seq<char>,
    parts: Seq<Seq<char>>,
)
    requires
        !path.contains('?'),
    ensures
        web::param(path + seq!['?'] + query, key) == web::first_value(text::split(query, '&'), key),
        web::param(path, key) is None,
        web::value_in(part, key) is Some ==> web::first_value(seq![part] + parts, key)
            == web::value_in(part, key),
        web::value_in(part, key) is None ==> web::first_value(seq![part] + parts, key)
            == web::first_value(parts, key),
        web::first_value(Seq::<Seq<char>>::empty(), key) is None,
        web::value_in(part, key) is Some
            ==> web::last_value(parts.push(part), key) == web::value_in(
            part,
            key,
        )->0,
        web::value_in(part, key) is None ==> web::last_value(parts.push(part), key)
            == web::last_value(parts, key),
        web::last_value(Seq::<Seq<char>>::empty(), key).len() == 0,
{
    texts::law_pieces(path, '?', query);
    let a = seq![part] + parts;
    assert(a[0] == part && a.drop_first() =~= parts);
    let b = parts.push(part);
    assert(b.last() == part && b.drop_last() =~= parts);
}

/// Only the first line of a request counts: its first word is the method and its second the target,
/// and the front page is asked for where there is none.
pub proof fn law_first_lines(content: &str, line: Seq<char>, rest: Seq<char>, r: (String, String))
    requires
        !line.contains('\n'),
        content@ == line + seq!['\r', '\n'] + rest,
        call_ensures(web::request_line, (content,), r),
    ensures
        text::words(line).len() == 0 ==> r.0@ == "GET"@ && r.1@ == "/"@,
        text::words(line).len() == 1 ==> r.0@ == text::words(line)[0] && r.1@ == "/"@,
        text::words(line).len() >= 2 ==> r.0@ == text::words(line)[0]
            && r.1@ == text::words(line)[1],
{
    texts::law_lines(line, rest);
}

} // verus!
