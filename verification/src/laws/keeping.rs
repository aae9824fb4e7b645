//! The responses that are kept, and the reports that are saved.

use crate::arena::Cfg;
use crate::escape;
use crate::laws::texts;
use crate::reports;
use crate::reports::Saved;
use crate::scan_cache;
use crate::scan_cache::SlotView;
use crate::text;
use vstd::prelude::*;

verus! {

// ── responses ──

/// There is room for 32 responses: until then a response under a new key is put behind the others,
/// and after that it takes the place of the one that was used longest ago.
pub proof fn law_room_for_responses(v: Seq<SlotView>, s: SlotView)
    requires
        forall|i: int| 0 <= i < v.len() ==> (#[trigger] v[i]).key != s.key,
    ensures
        v.len() < 32 ==> scan_cache::stored(v, s) == v.push(s),
        v.len() >= 32 ==> scan_cache::stored(v, s) == v.drop_first().push(s),
{
    law_positions_of_keys(v, s.key);
    assert(v.len() > 0 ==> v.remove(0) =~= v.drop_first());
}

/// The position of a key is that of the first response under it; where there is none, nothing is
/// kept under the key.
pub proof fn law_positions_of_keys(v: Seq<SlotView>, key: Seq<char>)
    ensures
        0 <= scan_cache::position(v, key) <= v.len(),
        scan_cache::position(v, key) < v.len() ==> v[scan_cache::position(v, key)].key == key,
        forall|i: int| 0 <= i < scan_cache::position(v, key) ==> (#[trigger] v[i]).key != key,
        scan_cache::keeps(v, key) <==> exists|i: int| 0 <= i < v.len() && (#[trigger] v[i]).key == key,
    decreases v.len(),
{
    if v.len() > 0 && v[0].key != key {
        let rest = v.drop_first();
        law_positions_of_keys(rest, key);
        let k = scan_cache::position(rest, key);
        assert forall|i: int| 0 <= i < scan_cache::position(v, key) implies (#[trigger] v[i]).key
            != key by {
            if i > 0 {
                assert(rest[i - 1] == v[i]);
            }
        }
        if k < rest.len() {
            assert(v[k + 1] == rest[k]);
        }
    } else if v.len() > 0 {
        assert(v[0].key == key);
    }
}

/// A response under a key that was kept takes the place of the old one as the one used last; the
/// others stay, in their order.
pub proof fn law_responses_are_replaced(v: Seq<SlotView>, s: SlotView, k: int, i: int)
    requires
        0 <= k < v.len(),
        v[k].key == s.key,
        forall|j: int| 0 <= j < k ==> (#[trigger] v[j]).key != s.key,
        0 <= i < v.len() - 1,
    ensures
        scan_cache::stored(v, s).len() == v.len(),
        scan_cache::stored(v, s).last() == s,
        i < k ==> scan_cache::stored(v, s)[i] == v[i],
        i >= k ==> scan_cache::stored(v, s)[i] == v[i + 1],
{
    law_positions_of_keys(v, s.key);
    assert(v[k].key == s.key);
    let p = scan_cache::position(v, s.key);
    assert(p == k) by {
        if p < k {
            assert(v[p].key != s.key);
        }
        if p > k {
            assert(v[k].key != s.key);
        }
    }
}

/// A response that is served becomes the one used last; the others stay, in their order.
pub proof fn law_served_responses_are_used_last(v: Seq<SlotView>, k: int, i: int)
    requires
        0 <= k < v.len(),
        0 <= i < v.len() - 1,
    ensures
        scan_cache::used(v, k).len() == v.len(),
        scan_cache::used(v, k).last() == v[k],
        i < k ==> scan_cache::used(v, k)[i] == v[i],
        i >= k ==> scan_cache::used(v, k)[i] == v[i + 1],
{
}

/// A response is served only while what was scanned has the very modification time under which it
/// was stored, and never where that time is not known.
pub proof fn law_responses_are_fresh(v: Seq<SlotView>, s: SlotView, now: i128)
    requires
        scan_cache::sound(v),
    ensures
        scan_cache::is_fresh(scan_cache::stored(v, s), s.key, Some(now)) <==> s.mtime == now,
        !scan_cache::is_fresh(v, s.key, None),
{
    scan_cache::law_stored_is_served_while_unchanged(v, s, Some(now));
}

/// What was stored under a time is served at that time alone; what was stored without one is served
/// at no time that a file can have.
pub proof fn law_times_of_responses(now: i128, seconds: i64, nanoseconds: i64, r: i128)
    requires
        call_ensures(scan_cache::mtime_nanos, (seconds, nanoseconds), r),
    ensures
        scan_cache::slot_time(Some(now)) == now,
        scan_cache::slot_time(None) != r,
        scan_cache::slot_time(None) < scan_cache::slot_time(Some(r)),
        r == 1_000_000_000 * seconds + nanoseconds,
{
}

/// Times are told apart to the nanosecond.
pub proof fn law_times_are_distinct(s: i64, n: i64, a: i128, s2: i64, n2: i64, b: i128)
    requires
        call_ensures(scan_cache::mtime_nanos, (s, n), a),
        call_ensures(scan_cache::mtime_nanos, (s2, n2), b),
        0 <= n < 1_000_000_000,
        0 <= n2 < 1_000_000_000,
    ensures
        a == b <==> s == s2 && n == n2,
        a < b <==> s < s2 || (s == s2 && n < n2),
{
}

/// Two scans have the same key only where they are of the same path, with the same numbers of
/// children and levels and the same measure of size; nothing else of the settings matters.
pub proof fn law_keys_of_scans(p: &str, c: &Cfg, a: String, p2: &str, c2: &Cfg, b: String)
    requires
        call_ensures(scan_cache::cache_key, (p, c), a),
        call_ensures(scan_cache::cache_key, (p2, c2), b),
    ensures
        a@ == b@ <==> p@ == p2@ && c.top == c2.top && c.max_depth == c2.max_depth && c.apparent
            == c2.apparent,
{
    if a@ == b@ {
        scan_cache::law_keys_are_distinct(
            p@,
            c.top as nat,
            c.max_depth as nat,
            c.apparent,
            p2@,
            c2.top as nat,
            c2.max_depth as nat,
            c2.apparent,
        );
    }
}

// ── reports ──

/// A path stands below a base behind exactly one slash where the base ends in none, and right
/// behind the base where it is empty or ends in one.
pub proof fn law_paths_below(base: Seq<char>, rest: Seq<char>)
    ensures
        base.len() > 0 && base.last() != '/' ==> reports::path_below(base, rest) == base + seq!['/']
            + rest,
        reports::path_below(base + seq!['/'], rest) == base + seq!['/'] + rest,
        reports::path_below(Seq::<char>::empty(), rest) == rest,
{
    assert(base.push('/') =~= base + seq!['/']);
    assert((base + seq!['/']).last() == '/');
    assert(Seq::<char>::empty() + rest =~= rest);
}

/// Reports lie below the data directory, which is the home directory's where none is set.
pub proof fn law_reports_directory(
    data: &str,
    home: &str,
    other: Option<&str>,
    r: String,
    s: String,
    t: String,
)
    requires
        call_ensures(reports::reports_dir, (Some(data), other), r),
        call_ensures(reports::reports_dir, (None, Some(home)), s),
        call_ensures(reports::reports_dir, (None, None), t),
        data@.len() > 0,
        data@.last() != '/',
        home@.len() > 0,
        home@.last() != '/',
    ensures
        r@ == data@ + "/sdirstat/reports"@,
        s@ == home@ + "/.local/share/sdirstat/reports"@,
        t@ == "./sdirstat/reports"@,
{
    reveal_strlit("/sdirstat/reports");
    reveal_strlit("sdirstat/reports");
    reveal_strlit("/.local/share/sdirstat/reports");
    reveal_strlit(".local/share");
    reveal_strlit("./sdirstat/reports");
    reveal_strlit(".");
    assert(r@ =~= data@ + "/sdirstat/reports"@);
    let h = home@.push('/') + ".local/share"@;
    assert(h.last() == 'e');
    assert(s@ =~= home@ + "/.local/share/sdirstat/reports"@);
    assert("."@.last() == '.');
    assert(t@ =~= "./sdirstat/reports"@);
}

/// A text is the name of a report where it has letters and digits of ASCII, underscores and
/// hyphens, and nothing else.
pub proof fn law_names_of_reports(id: &str, r: Option<String>)
    requires
        call_ensures(reports::get_report, (id,), r),
    ensures
        r is Some <==> id@.len() > 0 && forall|i: int|
            0 <= i < id@.len() ==> {
                let c = #[trigger] id@[i];
                48 <= c as nat <= 57 || 65 <= c as nat <= 90 || 97 <= c as nat <= 122 || c as nat
                    == 95 || c as nat == 45
            },
        r is Some ==> r->0@ == id@ + ".json"@,
{
    if r is Some {
        assert forall|i: int| 0 <= i < id@.len() implies {
            let c = #[trigger] id@[i];
            48 <= c as nat <= 57 || 65 <= c as nat <= 90 || 97 <= c as nat <= 122 || c as nat == 95
                || c as nat == 45
        } by {
            assert(reports::id_char(id@[i]));
            lemma_id_char(id@[i]);
        }
    }
    if id@.len() > 0 && forall|i: int|
        0 <= i < id@.len() ==> {
            let c = #[trigger] id@[i];
            48 <= c as nat <= 57 || 65 <= c as nat <= 90 || 97 <= c as nat <= 122 || c as nat == 95
                || c as nat == 45
        } {
        assert forall|i: int| 0 <= i < id@.len() implies reports::id_char(#[trigger] id@[i]) by {
            lemma_id_char(id@[i]);
        }
    }
}

proof fn lemma_id_char(c: char)
    ensures
        reports::id_char(c) <==> 48 <= c as nat <= 57 || 65 <= c as nat <= 90 || 97 <= c as nat
            <= 122 || c as nat == 95 || c as nat == 45,
{
}

/// Reports that are saved at different times have different names, and the name is that of a
/// report.
pub proof fn law_saved_reports_are_found(
    ms: u128,
    ms2: u128,
    label: &str,
    src: &str,
    source: &str,
    response: &str,
    total: u64,
    entries: usize,
    r: Saved,
    r2: Saved,
)
    requires
        call_ensures(reports::save_report, (ms, label, src, source, response, total, entries), r),
        call_ensures(reports::save_report, (ms2, label, src, source, response, total, entries), r2),
    ensures
        r.id@ == r2.id@ <==> ms == ms2,
        r.id@ == seq!['r'] + text::decimal(ms as nat),
        reports::is_report_id(r.id@),
{
    reveal_strlit("r");
    assert("r"@ =~= seq!['r']);
    texts::law_decimals_are_distinct(ms as nat, ms2 as nat);
    assert(r.id@.skip(1) =~= text::decimal(ms as nat));
    assert(r2.id@.skip(1) =~= text::decimal(ms2 as nat));
}

/// What is saved of a report says what was scanned, under which label, or the path where that is
/// empty, at which second, and with how many bytes and entries; the response follows in the file.
pub proof fn law_saved_reports_say_what_they_are(
    ms: u128,
    label: &str,
    src: &str,
    source: &str,
    response: &str,
    total: u64,
    entries: usize,
    r: Saved,
    second: nat,
)
    requires
        call_ensures(reports::save_report, (ms, label, src, source, response, total, entries), r),
        1000 * second <= ms < 1000 * second + 1000,
    ensures
        r.file@ == "{\"meta\":"@ + r.meta@ + ",\"data\":"@ + response@ + "}"@,
        label@.len() > 0 ==> r.meta@ == "{\"id\":\""@ + r.id@ + "\",\"path\":\""@
            + escape::json_escaped(src@) + "\",\"label\":\""@ + escape::json_escaped(label@)
            + "\",\"time\":"@ + text::decimal(second) + ",\"total\":"@ + text::decimal(
            total as nat,
        ) + ",\"entries\":"@ + text::decimal(entries as nat) + ",\"source\":\""@ + source@ + "\"}"@,
        label@.len() == 0 ==> r.meta@ == "{\"id\":\""@ + r.id@ + "\",\"path\":\""@
            + escape::json_escaped(src@) + "\",\"label\":\""@ + escape::json_escaped(src@)
            + "\",\"time\":"@ + text::decimal(second) + ",\"total\":"@ + text::decimal(
            total as nat,
        ) + ",\"entries\":"@ + text::decimal(entries as nat) + ",\"source\":\""@ + source@ + "\"}"@,
{
    assert(ms as nat / 1000 == second);
}

/// The index lists its lines with commas between them, but for those that hold white space alone.
pub proof fn law_reports_are_listed(ls: Seq<Seq<char>>, l: Seq<char>, v: Seq<Seq<char>>)
    ensures
        text::trim(l).len() > 0 ==> reports::full_lines(ls.push(l)) == reports::full_lines(ls).push(
            l,
        ),
        text::trim(l).len() == 0 ==> reports::full_lines(ls.push(l)) == reports::full_lines(ls),
        reports::full_lines(Seq::<Seq<char>>::empty()).len() == 0,
        v.len() == 0 ==> reports::joined(v.push(l)) == l,
        v.len() > 0 ==> reports::joined(v.push(l)) == reports::joined(v) + seq![','] + l,
        reports::joined(Seq::<Seq<char>>::empty()).len() == 0,
{
    assert(ls.push(l).drop_last() == ls);
    assert(ls.push(l).last() == l);
    assert(v.push(l).drop_last() == v);
    assert(v.push(l).last() == l);
    if v.len() == 0 {
        assert(reports::joined(v) =~= Seq::<char>::empty());
        assert(reports::joined(v.push(l)) =~= l);
    } else {
        assert(reports::joined(v.push(l)) =~= reports::joined(v) + seq![','] + l);
    }
}

/// The list of reports stands in brackets, and is empty where there is no index.
pub proof fn law_report_lists(index: &str, r: String, q: String)
    requires
        call_ensures(reports::list_reports, (Some(index),), r),
        call_ensures(reports::list_reports, (None,), q),
    ensures
        r@ == "["@ + reports::joined(reports::full_lines(text::lines(index@))) + "]"@,
        q@ == "[]"@,
{
    reveal_strlit("[");
    reveal_strlit("]");
    reveal_strlit("[]");
    assert(q@ =~= "[]"@);
}

/// The key of a scan is its path, its numbers of children and levels and its measure.
pub proof fn law_how_keys_are_written(p: &str, c: &Cfg, r: String)
    requires
        call_ensures(scan_cache::cache_key, (p, c), r),
    ensures
        c.apparent ==> r@ == p@ + "|t"@ + text::decimal(c.top as nat) + "|d"@ + text::decimal(
            c.max_depth as nat,
        ) + "|a1"@,
        !c.apparent ==> r@ == p@ + "|t"@ + text::decimal(c.top as nat) + "|d"@ + text::decimal(
            c.max_depth as nat,
        ) + "|a0"@,
{
    reveal_strlit("|a");
    reveal_strlit("|a0");
    reveal_strlit("|a1");
    texts::law_decimal_digit_by_digit(0, 0);
    texts::law_decimal_digit_by_digit(0, 1);
    let head = p@ + "|t"@ + text::decimal(c.top as nat) + "|d"@ + text::decimal(c.max_depth as nat);
    assert(head + "|a"@ + seq!['0'] =~= head + "|a0"@);
    assert(head + "|a"@ + seq!['1'] =~= head + "|a1"@);
}

/// Wherever the data directory is, and however it is written, the reports lie below it.
pub proof fn law_reports_lie_below_the_data(
    data: &str,
    home: &str,
    other: Option<&str>,
    r: String,
    s: String,
)
    requires
        call_ensures(reports::reports_dir, (Some(data), other), r),
        call_ensures(reports::reports_dir, (None, Some(home)), s),
    ensures
        r@ == reports::path_below(data@, "sdirstat/reports"@),
        s@ == reports::path_below(
            reports::path_below(home@, ".local/share"@),
            "sdirstat/reports"@,
        ),
{
}

} // verus!
