//! Saved reports: where they are, what they are called, and what is written of them.

use crate::escape;
use crate::sources;
use crate::text;
use vstd::prelude::*;

verus! {

/// A relative path below a base: after a slash, unless the base ends in one or is empty.
pub open spec fn path_below(base: Seq<char>, rest: Seq<char>) -> Seq<char> {
    if base.len() == 0 || base.last() == '/' {
        base + rest
    } else {
        base.push('/') + rest
    }
}

/// A relative path below a base.
pub fn join_below(base: &str, rest: &str) -> (r: String)
    ensures
        r@ == path_below(base@, rest@),
{
    let chars = text::chars_of(base);
    let n = chars.len();
    let mut r = base.to_string();
    if n > 0 && chars[n - 1] != '/' {
        r.push('/');
    }
    r.append(rest);
    r
}

/// An optional text as a mathematical value.
pub open spec fn opt_text(s: Option<&str>) -> Option<Seq<char>> {
    match s {
        Some(v) => Some(v@),
        None => None,
    }
}

/// The directory of the reports: below the data directory where one is set, else below the home
/// directory's, else below the current directory.
pub open spec fn reports_path(data: Option<Seq<char>>, home: Option<Seq<char>>) -> Seq<char> {
    let base = match data {
        Some(d) => d,
        None => match home {
            Some(h) => path_below(h, ".local/share"@),
            None => "."@,
        },
    };
    path_below(base, "sdirstat/reports"@)
}

/// The directory of the reports.
pub fn reports_dir(data: Option<&str>, home: Option<&str>) -> (r: String)
    ensures
        r@ == reports_path(opt_text(data), opt_text(home)),
{
    let base = match data {
        Some(d) => d.to_string(),
        None => match home {
            Some(h) => join_below(h, ".local/share"),
            None => ".".to_string(),
        },
    };
    join_below(base.as_str(), "sdirstat/reports")
}

/// Whether a character may stand in the name of a report.
pub open spec fn id_char(c: char) -> bool {
    ('0' <= c && c <= '9') || ('A' <= c && c <= 'Z') || ('a' <= c && c <= 'z') || c == '_' || c
        == '-'
}

/// Whether a text is the name of a report: it names a file in the directory of the reports and
/// nowhere else.
pub open spec fn is_report_id(id: Seq<char>) -> bool {
    id.len() > 0 && forall|i: int| 0 <= i < id.len() ==> id_char(#[trigger] id[i])
}

/// Whether a character may stand in the name of a report.
fn may_name(c: char) -> (r: bool)
    ensures
        r == id_char(c),
{
    ('0' <= c && c <= '9') || ('A' <= c && c <= 'Z') || ('a' <= c && c <= 'z') || c == '_' || c
        == '-'
}

/// The name of the file of a report, where `id` names one.
pub fn get_report(id: &str) -> (r: Option<String>)
    ensures
        match r {
            Some(name) => is_report_id(id@) && name@ == id@ + ".json"@,
            None => !is_report_id(id@),
        },
{
    let chars = text::chars_of(id);
    if chars.len() == 0 {
        return None;
    }
    let mut i: usize = 0;
    while i < chars.len()
        invariant
            i <= chars@.len(),
            chars@ == id@,
            forall|k: int| 0 <= k < i ==> id_char(#[trigger] id@[k]),
        decreases chars@.len() - i,
    {
        if !may_name(chars[i]) {
            assert(!id_char(id@[i as int]));
            return None;
        }
        i = i + 1;
    }
    let mut name = id.to_string();
    name.append(".json");
    Some(name)
}

/// The name of a report never leads out of the directory of the reports: it has no slash and no dot.
pub proof fn law_report_ids_stay_inside(id: Seq<char>)
    requires
        is_report_id(id),
    ensures
        !id.contains('/'),
        !id.contains('\\'),
        !id.contains('.'),
{
    assert forall|c: char| id.contains(c) implies id_char(c) by {
        let i = choose|i: int| 0 <= i < id.len() && id[i] == c;
        assert(id_char(id[i]));
    }
}

/// The lines that hold more than white space.
pub open spec fn full_lines(ls: Seq<Seq<char>>) -> Seq<Seq<char>>
    decreases ls.len(),
{
    if ls.len() == 0 {
        seq![]
    } else if text::trim(ls.last()).len() == 0 {
        full_lines(ls.drop_last())
    } else {
        full_lines(ls.drop_last()).push(ls.last())
    }
}

/// The texts with commas between them.
pub open spec fn joined(v: Seq<Seq<char>>) -> Seq<char>
    decreases v.len(),
{
    if v.len() == 0 {
        seq![]
    } else {
        sources::with_element(joined(v.drop_last()), v.len() == 1, v.last())
    }
}

/// The list of reports as a JSON array, from the index that has one per line; an empty one where
/// there is no index.
pub fn list_reports(index: Option<&str>) -> (r: String)
    ensures
        r@ == "["@ + match index {
            Some(s) => joined(full_lines(text::lines(s@))),
            None => seq![],
        } + "]"@,
{
    let mut out = "[".to_string();
    if let Some(s) = index {
        let chars = text::chars_of(s);
        let ls = text::lines_of(chars.as_slice());
        let ghost all = text::views(ls@);
        let mut first = true;
        let mut i: usize = 0;
        assert(all.take(0) == Seq::<Seq<char>>::empty());
        assert("["@ + joined(full_lines(all.take(0))) == "["@);
        while i < ls.len()
            invariant
                i <= ls@.len(),
                all == text::views(ls@),
                first == (full_lines(all.take(i as int)).len() == 0),
                out@ == "["@ + joined(full_lines(all.take(i as int))),
            decreases ls@.len() - i,
        {
            let ghost v = full_lines(all.take(i as int));
            proof {
                assert(all.take(i + 1).drop_last() == all.take(i as int));
                assert(all.take(i + 1).last() == ls@[i as int]@);
            }
            if text::trimmed(ls[i]).len() > 0 {
                if !first {
                    out.push(',');
                }
                first = false;
                text::push_chars(&mut out, ls[i]);
                proof {
                    let l = ls@[i as int]@;
                    assert(v.push(l).drop_last() == v);
                    assert(v.push(l).last() == l);
                    assert(out@ == "["@ + joined(v.push(l)));
                }
            }
            i = i + 1;
        }
        assert(all.take(all.len() as int) == all);
    } else {
        assert("["@ + Seq::<char>::empty() == "["@);
    }
    out.append("]");
    out
}

/// The name of the report that is saved `ms` milliseconds after the epoch.
pub open spec fn id_at(ms: nat) -> Seq<char> {
    "r"@ + text::decimal(ms)
}

/// What is known of a report, as a line of the index: when it was saved, of what, under which label,
/// its bytes and entries, and where it came from. An empty label is replaced by the path.
pub open spec fn meta_text(
    ms: nat,
    label: Seq<char>,
    src: Seq<char>,
    source: Seq<char>,
    total: nat,
    entries: nat,
) -> Seq<char> {
    "{\"id\":\""@ + id_at(ms) + "\",\"path\":\""@ + escape::json_escaped(src) + "\",\"label\":\""@
        + escape::json_escaped(
        if label.len() == 0 {
            src
        } else {
            label
        },
    ) + "\",\"time\":"@ + text::decimal(ms / 1000) + ",\"total\":"@ + text::decimal(total)
        + ",\"entries\":"@ + text::decimal(entries) + ",\"source\":\""@ + source + "\"}"@
}

/// The file of a report: what is known of it, and the response.
pub open spec fn file_text(meta: Seq<char>, response: Seq<char>) -> Seq<char> {
    "{\"meta\":"@ + meta + ",\"data\":"@ + response + "}"@
}

/// A report to be saved.
pub struct Saved {
    /// Its name.
    pub id: String,
    /// The line of the index.
    pub meta: String,
    /// The contents of its file.
    pub file: String,
}

/// Makes a report of a response.
pub fn save_report(
    ms: u128,
    label: &str,
    src: &str,
    source: &str,
    response: &str,
    total: u64,
    entries: usize,
) -> (r: Saved)
    ensures
        r.id@ == id_at(ms as nat),
        r.meta@ == meta_text(
            ms as nat,
            label@,
            src@,
            source@,
            total as nat,
            entries as nat,
        ),
        r.file@ == file_text(r.meta@, response@),
        is_report_id(r.id@),
{
    let mut id = String::new();
    id.append("r");
    text::push_long_decimal(&mut id, ms);
    proof {
        reveal_strlit("r");
        crate::readback::law_decimal_reads_back(ms as nat);
        assert forall|i: int| 0 <= i < id@.len() implies id_char(#[trigger] id@[i]) by {
            if i > 0 {
                assert(id@[i] == text::decimal(ms as nat)[i - 1]);
                assert(text::is_digit(text::decimal(ms as nat)[i - 1]));
            }
        }
    }
    let chars = text::chars_of(label);
    let mut meta = String::new();
    meta.append("{\"id\":\"");
    meta.append(id.as_str());
    meta.append("\",\"path\":\"");
    escape::json_escape(src, &mut meta);
    meta.append("\",\"label\":\"");
    if chars.len() == 0 {
        escape::json_escape(src, &mut meta);
    } else {
        escape::json_escape(label, &mut meta);
    }
    meta.append("\",\"time\":");
    text::push_long_decimal(&mut meta, ms / 1000);
    meta.append(",\"total\":");
    text::push_decimal(&mut meta, total);
    meta.append(",\"entries\":");
    text::push_decimal(&mut meta, entries as u64);
    meta.append(",\"source\":\"");
    meta.append(source);
    meta.append("\"}");
    assert(meta@ == meta_text(ms as nat, label@, src@, source@, total as nat, entries as nat));
    let mut file = String::new();
    file.append("{\"meta\":");
    file.append(meta.as_str());
    file.append(",\"data\":");
    file.append(response);
    file.append("}");
    assert(file@ == file_text(meta@, response@));
    Saved { id: id, meta: meta, file: file }
}

} // verus!
