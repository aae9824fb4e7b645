//! The entry in the application menu, and the window that shows the application.

use crate::reports;
use crate::text;
use vstd::prelude::*;

verus! {

/// The files of the menu entry.
pub struct Places {
    /// The directory of the entries.
    pub apps: String,
    /// The directory of the icon.
    pub icons: String,
    /// The entry.
    pub entry: String,
    /// The icon.
    pub icon: String,
}

/// The data directory: the one that is set, else the home directory's.
pub open spec fn data_path(data: Option<Seq<char>>, home: Seq<char>) -> Seq<char> {
    match data {
        Some(d) => d,
        None => home + "/.local/share"@,
    }
}

/// Where the menu entry and its icon stand; nowhere without a home directory.
pub fn desktop_places(data: Option<&str>, home: Option<&str>) -> (r: Option<Places>)
    ensures
        match r {
            Some(p) => {
                let d = data_path(reports::opt_text(data), home->0@);
                &&& home is Some
                &&& p.apps@ == d + "/applications"@
                &&& p.icons@ == d + "/icons/hicolor/scalable/apps"@
                &&& p.entry@ == p.apps@ + "/sdirstat.desktop"@
                &&& p.icon@ == p.icons@ + "/sdirstat.svg"@
            },
            None => home is None,
        },
{
    let h = match home {
        Some(h) => h,
        None => {
            return None;
        },
    };
    let mut d = String::new();
    match data {
        Some(v) => {
            d.append(v);
            assert(d@ == v@);
        },
        None => {
            d.append(h);
            d.append("/.local/share");
            assert(d@ == h@ + "/.local/share"@);
        },
    }
    let mut apps = d.clone();
    apps.append("/applications");
    let mut icons = d;
    icons.append("/icons/hicolor/scalable/apps");
    let mut entry = apps.clone();
    entry.append("/sdirstat.desktop");
    let mut icon = icons.clone();
    icon.append("/sdirstat.svg");
    Some(Places { apps: apps, icons: icons, entry: entry, icon: icon })
}

/// The menu entry that runs the program at `exe`.
pub open spec fn entry_text(exe: Seq<char>) -> Seq<char> {
    "[Desktop Entry]\nType=Application\nName=sdirstat\nGenericName=Disk Usage Analyzer\nComment=Explore disk usage as an interactive treemap or sunburst\nExec=\""@
        + exe
        + "\" gui\nIcon=sdirstat\nTerminal=false\nCategories=Utility;System;Filesystem;\nKeywords=disk;usage;treemap;sunburst;du;space;analyzer;\nStartupWMClass=sdirstat\n"@
}

/// The menu entry that runs the program at `exe`.
pub fn desktop_entry(exe: &str) -> (r: String)
    ensures
        r@ == entry_text(exe@),
{
    let mut r = String::new();
    r.append(
        "[Desktop Entry]\nType=Application\nName=sdirstat\nGenericName=Disk Usage Analyzer\nComment=Explore disk usage as an interactive treemap or sunburst\nExec=\"",
    );
    r.append(exe);
    r.append(
        "\" gui\nIcon=sdirstat\nTerminal=false\nCategories=Utility;System;Filesystem;\nKeywords=disk;usage;treemap;sunburst;du;space;analyzer;\nStartupWMClass=sdirstat\n",
    );
    assert(r@ == entry_text(exe@));
    r
}

/// How many browsers can show a page in a window of its own.
pub const BROWSERS: usize = 5;

/// The browsers that can show a page in a window of its own, in the order in which they are tried.
pub open spec fn browser_name(i: int) -> Seq<char> {
    if i == 0 {
        "chromium"@
    } else if i == 1 {
        "chromium-browser"@
    } else if i == 2 {
        "google-chrome"@
    } else if i == 3 {
        "google-chrome-stable"@
    } else {
        "brave-browser"@
    }
}

/// The name of a browser.
pub fn browser(i: usize) -> (r: String)
    requires
        i < BROWSERS,
    ensures
        r@ == browser_name(i as int),
{
    if i == 0 {
        "chromium".to_string()
    } else if i == 1 {
        "chromium-browser".to_string()
    } else if i == 2 {
        "google-chrome".to_string()
    } else if i == 3 {
        "google-chrome-stable".to_string()
    } else {
        "brave-browser".to_string()
    }
}

/// The arguments that make a browser show `url` in a window of its own, with a profile of its own.
pub fn window_args(url: &str, profile: &str) -> (r: Vec<String>)
    ensures
        crate::action::word_views(r@) == seq![
            "--app="@ + url@,
            "--class=sdirstat"@,
            "--no-first-run"@,
            "--user-data-dir="@ + profile@,
        ],
{
    let mut app = String::new();
    app.append("--app=");
    app.append(url);
    let mut dir = String::new();
    dir.append("--user-data-dir=");
    dir.append(profile);
    let mut r: Vec<String> = Vec::new();
    r.push(app);
    r.push("--class=sdirstat".to_string());
    r.push("--no-first-run".to_string());
    r.push(dir);
    proof {
        assert(app@ == "--app="@ + url@);
        assert(dir@ == "--user-data-dir="@ + profile@);
        assert(crate::action::word_views(r@) == seq![
            "--app="@ + url@,
            "--class=sdirstat"@,
            "--no-first-run"@,
            "--user-data-dir="@ + profile@,
        ]);
    }
    r
}

/// The address of the application on this machine.
pub fn local_url(port: u16) -> (r: String)
    ensures
        r@ == "http://127.0.0.1:"@ + text::decimal(port as nat) + "/"@,
{
    let mut r = String::new();
    r.append("http://127.0.0.1:");
    text::push_decimal(&mut r, port as u64);
    r.append("/");
    assert(r@ == "http://127.0.0.1:"@ + text::decimal(port as nat) + "/"@);
    r
}

// ── the report page ──

/// The mark in the template at which the tree is put in.
pub open spec fn data_mark() -> Seq<char> {
    "/*__DATA__*/"@
}

/// The template with the duration of the scan and the number of entries filled in.
pub open spec fn filled(template: Seq<char>, scan_ms: Seq<char>, entries: nat) -> Seq<char> {
    text::replace(
        text::replace(template, "__SCANMS__"@, scan_ms),
        "__NENTRIES__"@,
        text::decimal(entries),
    )
}

/// What stands before and after the tree in a report page: the numbers are filled in on the template
/// alone, so nothing in the tree is ever replaced. Nothing where the template has no mark.
pub fn html_parts(template: &str, scan_ms: &str, entries: usize) -> (r: Option<(String, String)>)
    ensures
        ({
            let page = filled(template@, scan_ms@, entries as nat);
            match r {
                Some((pre, post)) => {
                    &&& text::find_text(page, data_mark()) == Some(pre@.len() as int)
                    &&& page == pre@ + data_mark() + post@
                },
                None => text::find_text(page, data_mark()) is None,
            }
        }),
{
    proof {
        reveal_strlit("__SCANMS__");
        reveal_strlit("__NENTRIES__");
    }
    let t = text::chars_of(template);
    let ms_mark = text::chars_of("__SCANMS__");
    let n_mark = text::chars_of("__NENTRIES__");
    let ms = text::chars_of(scan_ms);
    let mut n = String::new();
    text::push_decimal(&mut n, entries as u64);
    let n_chars = text::chars_of(n.as_str());
    assert(n@ == text::decimal(entries as nat));
    let a = text::replaced(t.as_slice(), ms_mark.as_slice(), ms.as_slice());
    let page = text::replaced(a.as_slice(), n_mark.as_slice(), n_chars.as_slice());
    let mark = text::chars_of("/*__DATA__*/");
    assert(page@.skip(0) == page@);
    match text::find_text_from(page.as_slice(), 0, mark.as_slice()) {
        None => None,
        Some(i) => {
            let len = page.len();
            let end: usize = i + mark.len();
            let pre = text::text_of(&page.as_slice()[0..i]);
            let post = text::text_of(&page.as_slice()[end..len]);
            proof {
                text::lemma_find_text(page@, data_mark());
                assert(page@ == pre@ + data_mark() + post@);
            }
            Some((pre, post))
        },
    }
}

} // verus!
