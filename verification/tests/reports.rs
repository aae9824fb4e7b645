use sdirstat::reports::{get_report, join_below, list_reports, reports_dir, save_report};

#[test]
fn directory_of_the_reports() {
    assert_eq!(reports_dir(Some("/data"), Some("/home/me")), "/data/sdirstat/reports");
    assert_eq!(reports_dir(None, Some("/home/me")), "/home/me/.local/share/sdirstat/reports");
    assert_eq!(reports_dir(None, Some("/")), "/.local/share/sdirstat/reports");
    assert_eq!(reports_dir(None, None), "./sdirstat/reports");
    assert_eq!(join_below("", "x"), "x");
    assert_eq!(join_below("a/", "x"), "a/x");
}

#[test]
fn names_of_reports() {
    assert_eq!(get_report("r1700000000000"), Some("r1700000000000.json".to_string()));
    assert_eq!(get_report("aZ_-9"), Some("aZ_-9.json".to_string()));
    for id in ["", "..", "a/b", "a.b", "a b", "é", "../../etc/passwd", "a\\b", "a\0"] {
        assert_eq!(get_report(id), None, "{id}");
    }
}

#[test]
fn list_of_reports() {
    assert_eq!(list_reports(None), "[]");
    assert_eq!(list_reports(Some("")), "[]");
    assert_eq!(list_reports(Some("{\"a\":1}\n\n  \n {\"b\":2}\r\n")), "[{\"a\":1}, {\"b\":2}]");
}

#[test]
fn a_saved_report() {
    let s = save_report(1700000000123, "", "/a\"b", "fs", "{\"x\":1}", 42, 7);
    assert_eq!(s.id, "r1700000000123");
    assert_eq!(
        s.meta,
        "{\"id\":\"r1700000000123\",\"path\":\"/a\\\"b\",\"label\":\"/a\\\"b\",\"time\":1700000000,\"total\":42,\"entries\":7,\"source\":\"fs\"}"
    );
    assert_eq!(s.file, format!("{{\"meta\":{},\"data\":{{\"x\":1}}}}", s.meta));
    let t = save_report(0, "my\nlabel", "s3:", "rclone", "{}", 0, 0);
    assert_eq!(
        t.meta,
        "{\"id\":\"r0\",\"path\":\"s3:\",\"label\":\"my\\nlabel\",\"time\":0,\"total\":0,\"entries\":0,\"source\":\"rclone\"}"
    );
    assert_eq!(get_report(&s.id), Some("r1700000000123.json".to_string()));
    let u = save_report(u128::MAX, "", "", "json", "{}", u64::MAX, 1);
    assert_eq!(u.id, "r340282366920938463463374607431768211455");
}
