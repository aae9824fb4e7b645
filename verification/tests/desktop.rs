use sdirstat::desktop::{
    browser, desktop_entry, desktop_places, html_parts, local_url, window_args, BROWSERS,
};

#[test]
fn places() {
    let p = desktop_places(None, Some("/home/me")).unwrap();
    assert_eq!(p.apps, "/home/me/.local/share/applications");
    assert_eq!(p.icons, "/home/me/.local/share/icons/hicolor/scalable/apps");
    assert_eq!(p.entry, "/home/me/.local/share/applications/sdirstat.desktop");
    assert_eq!(p.icon, "/home/me/.local/share/icons/hicolor/scalable/apps/sdirstat.svg");
    let q = desktop_places(Some("/data"), Some("/home/me")).unwrap();
    assert_eq!(q.entry, "/data/applications/sdirstat.desktop");
    assert!(desktop_places(Some("/data"), None).is_none());
}

#[test]
fn menu_entry() {
    assert_eq!(
        desktop_entry("/opt/s d"),
        "[Desktop Entry]\n\
         Type=Application\n\
         Name=sdirstat\n\
         GenericName=Disk Usage Analyzer\n\
         Comment=Explore disk usage as an interactive treemap or sunburst\n\
         Exec=\"/opt/s d\" gui\n\
         Icon=sdirstat\n\
         Terminal=false\n\
         Categories=Utility;System;Filesystem;\n\
         Keywords=disk;usage;treemap;sunburst;du;space;analyzer;\n\
         StartupWMClass=sdirstat\n"
    );
}

#[test]
fn windows() {
    let all: Vec<String> = (0..BROWSERS).map(browser).collect();
    assert_eq!(
        all,
        vec!["chromium", "chromium-browser", "google-chrome", "google-chrome-stable", "brave-browser"]
    );
    assert_eq!(local_url(8080), "http://127.0.0.1:8080/");
    assert_eq!(
        window_args("http://x/", "/tmp/p"),
        vec!["--app=http://x/", "--class=sdirstat", "--no-first-run", "--user-data-dir=/tmp/p"]
    );
}

#[test]
fn report_page() {
    let t = "<i>__SCANMS__ __NENTRIES__ __SCANMS__</i>/*__DATA__*/<b>/*__DATA__*/";
    let (pre, post) = html_parts(t, "12", 34).unwrap();
    assert_eq!(pre, "<i>12 34 12</i>");
    assert_eq!(post, "<b>/*__DATA__*/");
    assert!(html_parts("no mark", "1", 2).is_none());
}
