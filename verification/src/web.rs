//! The local web server: what a request asks for, and the heads and bodies of the answers.

use crate::action;
use crate::action::{Action, PathFacts};
use crate::arena::Cfg;
use crate::escape;
use crate::text;
use vstd::prelude::*;

verus! {

// ── queries ──

/// The query of a target: what stands after the first question mark.
pub open spec fn query_of(target: Seq<char>) -> Option<Seq<char>> {
    match text::split_once(target, '?') {
        Some((_, q)) => Some(q),
        None => None,
    }
}

/// A value of a query, decoded.
pub open spec fn decoded(v: Seq<char>) -> Seq<char> {
    text::utf8_text(escape::percent_decoded(vstd::utf8::encode_utf8(v), true))
}

/// The value that `part` gives to `key`, if it does.
pub open spec fn value_in(part: Seq<char>, key: Seq<char>) -> Option<Seq<char>> {
    match text::split_once(part, '=') {
        Some((k, v)) => if k == key {
            Some(decoded(v))
        } else {
            None
        },
        None => None,
    }
}

/// The value that the first of the parts with this key gives to it.
pub open spec fn first_value(parts: Seq<Seq<char>>, key: Seq<char>) -> Option<Seq<char>>
    decreases parts.len(),
{
    if parts.len() == 0 {
        None
    } else {
        match value_in(parts[0], key) {
            Some(v) => Some(v),
            None => first_value(parts.drop_first(), key),
        }
    }
}

/// The value that the last of the parts with this key gives to it; empty where there is none.
pub open spec fn last_value(parts: Seq<Seq<char>>, key: Seq<char>) -> Seq<char>
    decreases parts.len(),
{
    if parts.len() == 0 {
        seq![]
    } else {
        match value_in(parts.last(), key) {
            Some(v) => v,
            None => last_value(parts.drop_last(), key),
        }
    }
}

/// The value of a parameter of a target.
pub open spec fn param(target: Seq<char>, key: Seq<char>) -> Option<Seq<char>> {
    match query_of(target) {
        Some(q) => first_value(text::split(q, '&'), key),
        None => None,
    }
}

/// The value of a parameter, or the empty text.
pub open spec fn param_or_empty(target: Seq<char>, key: Seq<char>) -> Seq<char> {
    match param(target, key) {
        Some(v) => v,
        None => seq![],
    }
}

/// The number that a parameter gives, of at most `max`.
pub open spec fn param_number(target: Seq<char>, key: Seq<char>, max: nat) -> Option<nat> {
    match param(target, key) {
        Some(v) => text::uint_value(v, max),
        None => None,
    }
}

/// An optional text as a mathematical value.
pub open spec fn opt_view(s: Option<String>) -> Option<Seq<char>> {
    match s {
        Some(v) => Some(v@),
        None => None,
    }
}

/// The value that `part` gives to `key`.
fn value_of(part: &[char], key: &str) -> (r: Option<String>)
    ensures
        opt_view(r) == value_in(part@, key@),
{
    match text::split_once_at(part, '=') {
        Some((k, v)) => {
            if text::is_text(k, key) {
                let raw = text::text_of(v);
                Some(escape::url_decode(raw.as_str()))
            } else {
                None
            }
        },
        None => None,
    }
}

/// The value of one parameter of a target: the first one counts.
pub fn qparam(target: &str, key: &str) -> (r: Option<String>)
    ensures
        opt_view(r) == param(target@, key@),
{
    let chars = text::chars_of(target);
    let q = match text::split_once_at(chars.as_slice(), '?') {
        Some((_, q)) => q,
        None => {
            return None;
        },
    };
    let parts = text::split_at_char(q, '&');
    let ghost all = text::views(parts@);
    let mut i: usize = 0;
    assert(all.skip(0) == all);
    while i < parts.len()
        invariant
            i <= parts@.len(),
            all == text::views(parts@),
            query_of(target@) == Some(q@),
            all == text::split(q@, '&'),
            first_value(all, key@) == first_value(all.skip(i as int), key@),
        decreases parts@.len() - i,
    {
        proof {
            assert(all.skip(i as int)[0] == parts@[i as int]@);
            assert(all.skip(i as int).drop_first() == all.skip(i + 1));
        }
        let v = value_of(parts[i], key);
        if v.is_some() {
            return v;
        }
        i = i + 1;
    }
    assert(all.skip(all.len() as int) == Seq::<Seq<char>>::empty());
    None
}

/// The value of a parameter, or the empty text.
fn qparam_or_empty(target: &str, key: &str) -> (r: String)
    ensures
        r@ == param_or_empty(target@, key@),
{
    match qparam(target, key) {
        Some(v) => v,
        None => String::new(),
    }
}

/// The number that a parameter gives.
fn qparam_number(target: &str, key: &str, max: u64) -> (r: Option<u64>)
    ensures
        match r {
            Some(v) => param_number(target@, key@, max as nat) == Some(v as nat),
            None => param_number(target@, key@, max as nat) is None,
        },
{
    match qparam(target, key) {
        Some(v) => {
            let chars = text::chars_of(v.as_str());
            text::parse_uint(chars.as_slice(), max)
        },
        None => None,
    }
}

/// What an action is asked for: the operation and the path. Of several values the last one counts.
fn action_params(target: &str) -> (r: (String, String))
    ensures
        ({
            let q = match query_of(target@) {
                Some(q) => q,
                None => seq![],
            };
            &&& r.0@ == last_value(text::split(q, '&'), "op"@)
            &&& r.1@ == last_value(text::split(q, '&'), "path"@)
        }),
{
    let chars = text::chars_of(target);
    let none: Vec<char> = Vec::new();
    let q: &[char] = match text::split_once_at(chars.as_slice(), '?') {
        Some((_, q)) => q,
        None => none.as_slice(),
    };
    let ghost query = match query_of(target@) {
        Some(q) => q,
        None => seq![],
    };
    assert(q@ == query);
    let parts = text::split_at_char(q, '&');
    let ghost all = text::views(parts@);
    let mut op = String::new();
    let mut path = String::new();
    let mut i: usize = 0;
    proof {
        assert(all.take(0) == Seq::<Seq<char>>::empty());
        reveal_strlit("op");
        reveal_strlit("path");
        assert("op"@.len() != "path"@.len());
    }
    while i < parts.len()
        invariant
            i <= parts@.len(),
            all == text::views(parts@),
            "op"@ != "path"@,
            op@ == last_value(all.take(i as int), "op"@),
            path@ == last_value(all.take(i as int), "path"@),
        decreases parts@.len() - i,
    {
        proof {
            assert(all.take(i + 1).drop_last() == all.take(i as int));
            assert(all.take(i + 1).last() == parts@[i as int]@);
        }
        if let Some(v) = value_of(parts[i], "op") {
            op = v;
        }
        if let Some(v) = value_of(parts[i], "path") {
            path = v;
        }
        i = i + 1;
    }
    assert(all.take(all.len() as int) == all);
    (op, path)
}

// ── requests ──

/// The first line of a request.
pub open spec fn first_line(request: Seq<char>) -> Seq<char> {
    let ls = text::lines(request);
    if ls.len() == 0 {
        seq![]
    } else {
        ls[0]
    }
}

/// The method of a request: the first word of its first line, or `GET`.
pub open spec fn method_of(request: Seq<char>) -> Seq<char> {
    let w = text::words(first_line(request));
    if w.len() == 0 {
        "GET"@
    } else {
        w[0]
    }
}

/// The target of a request: the second word of its first line, or `/`.
pub open spec fn target_of(request: Seq<char>) -> Seq<char> {
    let w = text::words(first_line(request));
    if w.len() < 2 {
        "/"@
    } else {
        w[1]
    }
}

/// Reads method and target from the bytes of a request.
pub fn parse_request(bytes: &[u8]) -> (r: (String, String))
    ensures
        r.0@ == method_of(text::utf8_text(bytes@)),
        r.1@ == target_of(text::utf8_text(bytes@)),
{
    let content = text::text_from_utf8_lossy(bytes);
    request_line(content.as_str())
}

/// Reads method and target from the text of a request.
pub fn request_line(content: &str) -> (r: (String, String))
    ensures
        r.0@ == method_of(content@),
        r.1@ == target_of(content@),
{
    let chars = text::chars_of(content);
    let ls = text::lines_of(chars.as_slice());
    let none: Vec<char> = Vec::new();
    assert(text::views(ls@).len() == ls@.len());
    let line: &[char] = if ls.len() > 0 {
        assert(text::views(ls@)[0] == ls@[0]@);
        ls[0]
    } else {
        none.as_slice()
    };
    assert(line@ == first_line(content@));
    let w = text::words_of(line);
    assert(text::views(w@).len() == w@.len());
    let method = if w.len() > 0 {
        assert(text::views(w@)[0] == w@[0]@);
        text::text_of(w[0])
    } else {
        "GET".to_string()
    };
    let target = if w.len() > 1 {
        assert(text::views(w@)[1] == w@[1]@);
        text::text_of(w[1])
    } else {
        "/".to_string()
    };
    (method, target)
}

/// What a request asks for.
pub enum Route {
    /// An action that was not posted.
    NotPosted,
    /// An action on a path.
    Act { op: String, path: String },
    /// The page of the application.
    Page,
    /// A scan; without a path, of the home directory.
    Scan { root: Option<String>, top: Option<usize>, depth: Option<u32>, force: bool },
    /// The sources that can be scanned.
    Mounts,
    /// The configured remotes.
    Remotes,
    /// A scan of a remote.
    RemoteScan { remote: String },
    /// A saved report.
    ReportGet { id: String },
    /// A scan of a remote that is saved as a report.
    SaveRemote { label: String, remote: String },
    /// A scan that is saved as a report.
    SaveLocal { label: String, path: String },
    /// A file that is saved as a report.
    Import { file: String, label: String },
    /// The list of reports.
    Reports,
    /// Nothing that there is.
    NotFound,
}

/// What a request asks for, as a mathematical value.
pub enum RouteView {
    NotPosted,
    Act { op: Seq<char>, path: Seq<char> },
    Page,
    Scan { root: Option<Seq<char>>, top: Option<nat>, depth: Option<nat>, force: bool },
    Mounts,
    Remotes,
    RemoteScan { remote: Seq<char> },
    ReportGet { id: Seq<char> },
    SaveRemote { label: Seq<char>, remote: Seq<char> },
    SaveLocal { label: Seq<char>, path: Seq<char> },
    Import { file: Seq<char>, label: Seq<char> },
    Reports,
    NotFound,
}

impl View for Route {
    type V = RouteView;

    open spec fn view(&self) -> RouteView {
        match self {
            Route::NotPosted => RouteView::NotPosted,
            Route::Act { op, path } => RouteView::Act { op: op@, path: path@ },
            Route::Page => RouteView::Page,
            Route::Scan { root, top, depth, force } => RouteView::Scan {
                root: opt_view(*root),
                top: match top {
                    Some(n) => Some(*n as nat),
                    None => None,
                },
                depth: match depth {
                    Some(n) => Some(*n as nat),
                    None => None,
                },
                force: *force,
            },
            Route::Mounts => RouteView::Mounts,
            Route::Remotes => RouteView::Remotes,
            Route::RemoteScan { remote } => RouteView::RemoteScan { remote: remote@ },
            Route::ReportGet { id } => RouteView::ReportGet { id: id@ },
            Route::SaveRemote { label, remote } => RouteView::SaveRemote {
                label: label@,
                remote: remote@,
            },
            Route::SaveLocal { label, path } => RouteView::SaveLocal { label: label@, path: path@ },
            Route::Import { file, label } => RouteView::Import { file: file@, label: label@ },
            Route::Reports => RouteView::Reports,
            Route::NotFound => RouteView::NotFound,
        }
    }
}

/// What a scan request asks for.
pub open spec fn scan_route(target: Seq<char>) -> RouteView {
    RouteView::Scan {
        root: param(target, "path"@),
        top: param_number(target, "top"@, usize::MAX as nat),
        depth: param_number(target, "depth"@, u32::MAX as nat),
        force: param(target, "force"@) == Some("1"@),
    }
}

/// What an action request asks for.
pub open spec fn act_route(method: Seq<char>, target: Seq<char>) -> RouteView {
    let q = match query_of(target) {
        Some(q) => q,
        None => seq![],
    };
    if method != "POST"@ {
        RouteView::NotPosted
    } else {
        RouteView::Act {
            op: last_value(text::split(q, '&'), "op"@),
            path: last_value(text::split(q, '&'), "path"@),
        }
    }
}

/// What a request to save a report asks for.
pub open spec fn save_route(target: Seq<char>) -> RouteView {
    let label = param_or_empty(target, "label"@);
    match param(target, "remote"@) {
        Some(remote) => RouteView::SaveRemote { label: label, remote: remote },
        None => RouteView::SaveLocal { label: label, path: param_or_empty(target, "path"@) },
    }
}

/// What a request asks for. The first prefix that fits decides.
pub open spec fn route_of(method: Seq<char>, target: Seq<char>) -> RouteView {
    if "/act"@.is_prefix_of(target) {
        act_route(method, target)
    } else if target == "/"@ || "/?"@.is_prefix_of(target) || target == "/index.html"@ {
        RouteView::Page
    } else if "/scan"@.is_prefix_of(target) {
        scan_route(target)
    } else if "/mounts"@.is_prefix_of(target) {
        RouteView::Mounts
    } else if "/remotes"@.is_prefix_of(target) {
        RouteView::Remotes
    } else if "/remote/scan"@.is_prefix_of(target) {
        RouteView::RemoteScan { remote: param_or_empty(target, "remote"@) }
    } else if "/report/get"@.is_prefix_of(target) {
        RouteView::ReportGet { id: param_or_empty(target, "id"@) }
    } else if "/report/save"@.is_prefix_of(target) {
        save_route(target)
    } else if "/report/import"@.is_prefix_of(target) {
        RouteView::Import {
            file: param_or_empty(target, "file"@),
            label: param_or_empty(target, "label"@),
        }
    } else if "/reports"@.is_prefix_of(target) {
        RouteView::Reports
    } else {
        RouteView::NotFound
    }
}

/// What a scan request asks for.
fn route_scan(target: &str) -> (r: Route)
    ensures
        r@ == scan_route(target@),
{
    let root = qparam(target, "path");
    let top: Option<usize> = match qparam_number(target, "top", usize::MAX as u64) {
        Some(n) => Some(n as usize),
        None => None,
    };
    let depth: Option<u32> = match qparam_number(target, "depth", u32::MAX as u64) {
        Some(n) => Some(n as u32),
        None => None,
    };
    let force = match qparam(target, "force") {
        Some(v) => {
            let chars = text::chars_of(v.as_str());
            text::is_text(chars.as_slice(), "1")
        },
        None => false,
    };
    proof {
        lemma_number_bounded(target@, "top"@, usize::MAX as nat);
        lemma_number_bounded(target@, "depth"@, u32::MAX as nat);
    }
    Route::Scan { root: root, top: top, depth: depth, force: force }
}

proof fn lemma_number_bounded(target: Seq<char>, key: Seq<char>, max: nat)
    ensures
        param_number(target, key, max) is Some ==> param_number(target, key, max)->0 <= max,
{
}

/// What a request asks for.
pub fn route(method: &str, target: &str) -> (r: Route)
    ensures
        r@ == route_of(method@, target@),
{
    let m = text::chars_of(method);
    let chars = text::chars_of(target);
    let t = chars.as_slice();
    if text::starts_with(t, "/act") {
        if !text::is_text(m.as_slice(), "POST") {
            return Route::NotPosted;
        }
        let (op, path) = action_params(target);
        return Route::Act { op: op, path: path };
    }
    if text::is_text(t, "/") || text::starts_with(t, "/?") || text::is_text(t, "/index.html") {
        return Route::Page;
    }
    if text::starts_with(t, "/scan") {
        return route_scan(target);
    }
    if text::starts_with(t, "/mounts") {
        return Route::Mounts;
    }
    if text::starts_with(t, "/remotes") {
        return Route::Remotes;
    }
    if text::starts_with(t, "/remote/scan") {
        return Route::RemoteScan { remote: qparam_or_empty(target, "remote") };
    }
    if text::starts_with(t, "/report/get") {
        return Route::ReportGet { id: qparam_or_empty(target, "id") };
    }
    if text::starts_with(t, "/report/save") {
        let label = qparam_or_empty(target, "label");
        return match qparam(target, "remote") {
            Some(remote) => Route::SaveRemote { label: label, remote: remote },
            None => Route::SaveLocal { label: label, path: qparam_or_empty(target, "path") },
        };
    }
    if text::starts_with(t, "/report/import") {
        let file = qparam_or_empty(target, "file");
        return Route::Import { file: file, label: qparam_or_empty(target, "label") };
    }
    if text::starts_with(t, "/reports") {
        return Route::Reports;
    }
    Route::NotFound
}

/// Files are only ever acted upon when that was posted: any other method on the same target is
/// refused.
pub proof fn law_only_posted_actions_act(method: Seq<char>, target: Seq<char>)
    ensures
        route_of(method, target) is Act ==> method == "POST"@ && "/act"@.is_prefix_of(target),
        "/act"@.is_prefix_of(target) && method != "POST"@ ==> route_of(method, target) is NotPosted,
{
}

/// The settings of a requested scan.
pub fn scan_settings(base: &Cfg, top: Option<usize>, depth: Option<u32>) -> (r: Cfg)
    ensures
        r == (Cfg {
            top: match top {
                Some(n) => n,
                None => base.top,
            },
            max_depth: match depth {
                Some(n) => n,
                None => base.max_depth,
            },
            ..*base
        }),
{
    let mut cfg = *base;
    if let Some(n) = top {
        cfg.top = n;
    }
    if let Some(n) = depth {
        cfg.max_depth = n;
    }
    cfg
}

// ── answers ──

/// The head of an answer with a body of `len` bytes.
pub open spec fn head_text(status: Seq<char>, ctype: Seq<char>, len: nat) -> Seq<char> {
    "HTTP/1.1 "@ + status + "\r\nContent-Type: "@ + ctype + "\r\nContent-Length: "@ + text::decimal(
        len,
    ) + "\r\nAccess-Control-Allow-Origin: *\r\nConnection: close\r\n\r\n"@
}

/// The head of an answer.
pub fn http_head(status: &str, ctype: &str, len: usize) -> (r: String)
    ensures
        r@ == head_text(status@, ctype@, len as nat),
{
    let mut r = String::new();
    r.append("HTTP/1.1 ");
    r.append(status);
    r.append("\r\nContent-Type: ");
    r.append(ctype);
    r.append("\r\nContent-Length: ");
    text::push_decimal(&mut r, len as u64);
    r.append("\r\nAccess-Control-Allow-Origin: *\r\nConnection: close\r\n\r\n");
    assert(r@ == head_text(status@, ctype@, len as nat));
    r
}

/// A message with its double quotes replaced by single ones.
pub open spec fn quoted(message: Seq<char>) -> Seq<char> {
    text::replace(message, seq!['"'], seq!['\''])
}

/// Appends a message with its double quotes replaced by single ones.
fn push_quoted(out: &mut String, message: &str)
    ensures
        final(out)@ == old(out)@ + quoted(message@),
{
    let chars = text::chars_of(message);
    let mut p: Vec<char> = Vec::new();
    p.push('"');
    let mut q: Vec<char> = Vec::new();
    q.push('\'');
    assert(p@ == seq!['"']);
    assert(q@ == seq!['\'']);
    let v = text::replaced(chars.as_slice(), p.as_slice(), q.as_slice());
    text::push_chars(out, v.as_slice());
}

/// The answer to an action.
pub open spec fn action_answer(r: Result<Seq<char>, Seq<char>>) -> Seq<char> {
    match r {
        Ok(m) => "{\"ok\":true,\"msg\":\""@ + m + "\"}"@,
        Err(e) => "{\"ok\":false,\"err\":\""@ + quoted(e) + "\"}"@,
    }
}

/// A result as a mathematical value.
pub open spec fn result_view(r: Result<String, String>) -> Result<Seq<char>, Seq<char>> {
    match r {
        Ok(v) => Ok(v@),
        Err(e) => Err(e@),
    }
}

/// The answer to an action.
pub fn action_body(result: &Result<String, String>) -> (r: String)
    ensures
        r@ == action_answer(result_view(*result)),
{
    let mut r = String::new();
    match result {
        Ok(m) => {
            r.append("{\"ok\":true,\"msg\":\"");
            r.append(m.as_str());
        },
        Err(e) => {
            r.append("{\"ok\":false,\"err\":\"");
            push_quoted(&mut r, e.as_str());
        },
    }
    r.append("\"}");
    assert(r@ == action_answer(result_view(*result)));
    r
}

/// The answer when a remote could not be scanned.
pub fn error_body(e: &str) -> (r: String)
    ensures
        r@ == "{\"error\":\""@ + quoted(e@) + "\"}"@,
{
    let mut r = String::new();
    r.append("{\"error\":\"");
    push_quoted(&mut r, e);
    r.append("\"}");
    assert(r@ == "{\"error\":\""@ + quoted(e@) + "\"}"@);
    r
}

/// The answer when a report was saved, with what is known of it, or could not be.
pub open spec fn saved_answer(r: Result<Seq<char>, Seq<char>>) -> Seq<char> {
    match r {
        Ok(meta) => "{\"ok\":true,\"meta\":"@ + meta + "}"@,
        Err(e) => "{\"ok\":false,\"err\":\""@ + quoted(e) + "\"}"@,
    }
}

/// The answer when a report was saved or could not be.
pub fn report_body(result: &Result<String, String>) -> (r: String)
    ensures
        r@ == saved_answer(result_view(*result)),
{
    let mut r = String::new();
    match result {
        Ok(meta) => {
            r.append("{\"ok\":true,\"meta\":");
            r.append(meta.as_str());
            r.append("}");
        },
        Err(e) => {
            r.append("{\"ok\":false,\"err\":\"");
            push_quoted(&mut r, e.as_str());
            r.append("\"}");
        },
    }
    assert(r@ == saved_answer(result_view(*result)));
    r
}

/// An answer.
pub struct Answer {
    pub status: String,
    pub ctype: String,
    pub body: String,
}

/// An answer as a mathematical value.
#[verifier::ext_equal]
pub struct AnswerView {
    pub status: Seq<char>,
    pub ctype: Seq<char>,
    pub body: Seq<char>,
}

impl View for Answer {
    type V = AnswerView;

    open spec fn view(&self) -> AnswerView {
        AnswerView { status: self.status@, ctype: self.ctype@, body: self.body@ }
    }
}

/// An answer as it is sent: its head, with the length of the body in bytes, and its body.
pub open spec fn answer_bytes(a: AnswerView) -> Seq<u8> {
    let body = vstd::utf8::encode_utf8(a.body);
    vstd::utf8::encode_utf8(head_text(a.status, a.ctype, body.len())) + body
}

/// An answer as it is sent.
pub fn http_write(a: &Answer) -> (r: Vec<u8>)
    ensures
        r@ == answer_bytes(a@),
{
    let body = a.body.as_str().as_bytes();
    let head = http_head(a.status.as_str(), a.ctype.as_str(), body.len());
    let mut r: Vec<u8> = Vec::new();
    r.extend_from_slice(head.as_str().as_bytes());
    let ghost before = r@;
    assert(before == vstd::utf8::encode_utf8(head@));
    r.extend_from_slice(body);
    assert(r@ == before + body@);
    r
}

/// A body of JSON, with success.
pub open spec fn json_of(body: Seq<char>) -> AnswerView {
    AnswerView { status: "200 OK"@, ctype: "application/json"@, body: body }
}

/// A body of JSON, with success.
pub fn json_answer(body: String) -> (r: Answer)
    ensures
        r@ == json_of(body@),
{
    Answer { status: "200 OK".to_string(), ctype: "application/json".to_string(), body: body }
}

/// The page of the application.
pub fn page_answer(page: String) -> (r: Answer)
    ensures
        r@ == (AnswerView {
            status: "200 OK"@,
            ctype: "text/html; charset=utf-8"@,
            body: page@,
        }),
{
    Answer {
        status: "200 OK".to_string(),
        ctype: "text/html; charset=utf-8".to_string(),
        body: page,
    }
}

/// The answer to a request for a report: the report, or that there is none.
pub open spec fn report_of(report: Option<Seq<char>>) -> AnswerView {
    match report {
        Some(body) => json_of(body),
        None => AnswerView {
            status: "404 Not Found"@,
            ctype: "application/json"@,
            body: "{\"error\":\"not found\"}"@,
        },
    }
}

/// The answer to a request for a report.
pub fn report_answer(report: Option<String>) -> (r: Answer)
    ensures
        r@ == report_of(opt_view(report)),
{
    match report {
        Some(body) => json_answer(body),
        None => Answer {
            status: "404 Not Found".to_string(),
            ctype: "application/json".to_string(),
            body: "{\"error\":\"not found\"}".to_string(),
        },
    }
}

/// The answer to a request that is refused: an action that was not posted, or something that there
/// is not.
pub open spec fn refusal_of(route: RouteView) -> Option<AnswerView> {
    match route {
        RouteView::NotPosted => Some(
            AnswerView {
                status: "405 Method Not Allowed"@,
                ctype: "text/plain"@,
                body: "POST only"@,
            },
        ),
        RouteView::NotFound => Some(
            AnswerView { status: "404 Not Found"@, ctype: "text/plain"@, body: "not found"@ },
        ),
        _ => None,
    }
}

/// The answer to a request that is refused; nothing where it is not.
pub fn refusal(route: &Route) -> (r: Option<Answer>)
    ensures
        match r {
            Some(a) => refusal_of(route@) == Some(a@),
            None => refusal_of(route@) is None,
        },
{
    match route {
        Route::NotPosted => Some(
            Answer {
                status: "405 Method Not Allowed".to_string(),
                ctype: "text/plain".to_string(),
                body: "POST only".to_string(),
            },
        ),
        Route::NotFound => Some(
            Answer {
                status: "404 Not Found".to_string(),
                ctype: "text/plain".to_string(),
                body: "not found".to_string(),
            },
        ),
        _ => None,
    }
}

/// An action that was not posted is answered that it must be, whatever it asks for.
pub proof fn law_unposted_actions_are_answered(method: Seq<char>, target: Seq<char>)
    requires
        "/act"@.is_prefix_of(target),
        method != "POST"@,
    ensures
        refusal_of(route_of(method, target)) == Some(
            AnswerView {
                status: "405 Method Not Allowed"@,
                ctype: "text/plain"@,
                body: "POST only"@,
            },
        ),
{
}

proof fn lemma_no_quotes(s: Seq<char>)
    requires
        !s.contains('"'),
    ensures
        text::find_text(s, seq!['"']) is None,
    decreases s.len(),
{
    let p = seq!['"'];
    if p.is_prefix_of(s) {
        assert(s.subrange(0, 1)[0] == '"');
        assert(s.contains(s[0]));
    }
    if s.len() > 0 {
        let rest = s.drop_first();
        if rest.contains('"') {
            let i = choose|i: int| 0 <= i < rest.len() && rest[i] == '"';
            assert(s[i + 1] == '"');
        }
        lemma_no_quotes(rest);
    }
}

/// An action on a path that is refused is answered that it was, whatever the operation.
pub proof fn law_refused_actions_are_answered(
    op: &str,
    path: &str,
    facts: &PathFacts,
    home: &str,
    r: Result<Action, String>,
)
    requires
        action::is_refused(path@, *facts, home@),
        call_ensures(action::run_action, (op, path, facts, home), r),
    ensures
        r is Err,
        action_answer(Err(r->Err_0@))
            == "{\"ok\":false,\"err\":\"refused: unsafe or invalid path\"}"@,
{
    reveal_strlit("{\"ok\":false,\"err\":\"refused: unsafe or invalid path\"}");
    reveal_strlit("{\"ok\":false,\"err\":\"");
    reveal_strlit("refused: unsafe or invalid path");
    reveal_strlit("\"}");
    let s = action::refused();
    assert(!s.contains('"'));
    lemma_no_quotes(s);
    assert(quoted(s) == s);
    assert("{\"ok\":false,\"err\":\""@ + s + "\"}"@
        == "{\"ok\":false,\"err\":\"refused: unsafe or invalid path\"}"@);
}

} // verus!
