//! The desktop: the menu entry, the window and the page.

use crate::action;
use crate::desktop;
use crate::desktop::Places;
use crate::laws::texts;
use crate::text;
use vstd::prelude::*;

verus! {

/// The menu entry and its icon lie below the data directory, which is the home directory's where
/// none is set; without a home directory they lie nowhere.
pub proof fn law_places_of_the_menu_entry(
    data: &str,
    home: &str,
    r: Option<Places>,
    s: Option<Places>,
    t: Option<Places>,
)
    requires
        call_ensures(desktop::desktop_places, (Some(data), Some(home)), r),
        call_ensures(desktop::desktop_places, (None, Some(home)), s),
        call_ensures(desktop::desktop_places, (Some(data), None), t),
    ensures
        r is Some && s is Some && t is None,
        r->0.apps@ == data@ + "/applications"@,
        r->0.entry@ == data@ + "/applications/sdirstat.desktop"@,
        r->0.icons@ == data@ + "/icons/hicolor/scalable/apps"@,
        r->0.icon@ == data@ + "/icons/hicolor/scalable/apps/sdirstat.svg"@,
        s->0.apps@ == home@ + "/.local/share/applications"@,
        s->0.icons@ == home@ + "/.local/share/icons/hicolor/scalable/apps"@,
{
    reveal_strlit("/applications");
    reveal_strlit("/sdirstat.desktop");
    reveal_strlit("/applications/sdirstat.desktop");
    reveal_strlit("/icons/hicolor/scalable/apps");
    reveal_strlit("/sdirstat.svg");
    reveal_strlit("/icons/hicolor/scalable/apps/sdirstat.svg");
    reveal_strlit("/.local/share");
    reveal_strlit("/.local/share/applications");
    reveal_strlit("/.local/share/icons/hicolor/scalable/apps");
    assert(r->0.entry@ =~= data@ + "/applications/sdirstat.desktop"@);
    assert(r->0.icon@ =~= data@ + "/icons/hicolor/scalable/apps/sdirstat.svg"@);
    assert(s->0.apps@ =~= home@ + "/.local/share/applications"@);
    assert(s->0.icons@ =~= home@ + "/.local/share/icons/hicolor/scalable/apps"@);
}

/// The menu entry runs the program, in quotes, and asks it for its window.
pub proof fn law_menu_entry(exe: &str, r: String)
    requires
        call_ensures(desktop::desktop_entry, (exe,), r),
    ensures
        r@
            == "[Desktop Entry]\nType=Application\nName=sdirstat\nGenericName=Disk Usage Analyzer\nComment=Explore disk usage as an interactive treemap or sunburst\nExec=\""@
            + exe@
            + "\" gui\nIcon=sdirstat\nTerminal=false\nCategories=Utility;System;Filesystem;\nKeywords=disk;usage;treemap;sunburst;du;space;analyzer;\nStartupWMClass=sdirstat\n"@,
{
}

/// Five browsers are tried, in this order.
pub proof fn law_browsers(i: usize, r: String)
    requires
        i < desktop::BROWSERS,
        call_ensures(desktop::browser, (i,), r),
    ensures
        desktop::BROWSERS == 5,
        i == 0 ==> r@ == "chromium"@,
        i == 1 ==> r@ == "chromium-browser"@,
        i == 2 ==> r@ == "google-chrome"@,
        i == 3 ==> r@ == "google-chrome-stable"@,
        i == 4 ==> r@ == "brave-browser"@,
{
}

/// A browser is asked to show the page alone, as this program, with a profile of its own.
pub proof fn law_window(url: &str, profile: &str, r: Vec<String>)
    requires
        call_ensures(desktop::window_args, (url, profile), r),
    ensures
        r@.len() == 4,
        r@[0]@ == "--app="@ + url@,
        r@[1]@ == "--class=sdirstat"@,
        r@[2]@ == "--no-first-run"@,
        r@[3]@ == "--user-data-dir="@ + profile@,
{
    let w = action::word_views(r@);
    assert(w.len() == r@.len());
    assert(w[0] == r@[0]@);
    assert(w[1] == r@[1]@);
    assert(w[2] == r@[2]@);
    assert(w[3] == r@[3]@);
}

/// The page is served on this machine alone, every port at an address of its own.
pub proof fn law_addresses(port: u16, r: String, port2: u16, r2: String)
    requires
        call_ensures(desktop::local_url, (port,), r),
        call_ensures(desktop::local_url, (port2,), r2),
    ensures
        r@ == "http://127.0.0.1:"@ + text::decimal(port as nat) + "/"@,
        r@ == r2@ <==> port == port2,
{
    let a = "http://127.0.0.1:"@;
    texts::law_decimals_are_distinct(port as nat, port2 as nat);
    reveal_strlit("/");
    if r@ == r2@ {
        assert(r@.subrange(a.len() as int, r@.len() - 1) =~= text::decimal(port as nat));
        assert(r2@.subrange(a.len() as int, r2@.len() - 1) =~= text::decimal(port2 as nat));
    }
}

/// The page is the template with its duration and its number of entries, cut at the first mark for
/// the tree; the mark is in neither part up to there, and a template without it gives no page.
pub proof fn law_pages(template: &str, scan_ms: &str, entries: usize, r: Option<(String, String)>)
    requires
        call_ensures(desktop::html_parts, (template, scan_ms, entries), r),
    ensures
        ({
            let page = text::replace(
                text::replace(template@, "__SCANMS__"@, scan_ms@),
                "__NENTRIES__"@,
                text::decimal(entries as nat),
            );
            &&& r is Some <==> text::find_text(page, "/*__DATA__*/"@) is Some
            &&& r is Some ==> page == (r->0).0@ + "/*__DATA__*/"@ + (r->0).1@
            &&& r is Some ==> text::find_text(page, "/*__DATA__*/"@) == Some((r->0).0@.len() as int)
        }),
{
}

} // verus!
