use sdirstat::arena::Cfg;
use sdirstat::action::{path_facts, run_action};
use sdirstat::web::{
    action_body, error_body, http_head, http_write, json_answer, page_answer, parse_request, qparam,
    refusal, report_answer, report_body, request_line, route, scan_settings, Route,
};

#[test]
fn parameters() {
    assert_eq!(qparam("/scan?path=%2Fusr+local&top=5", "path"), Some("/usr local".to_string()));
    assert_eq!(qparam("/scan?path=%2Fusr&top=5", "top"), Some("5".to_string()));
    assert_eq!(qparam("/scan?path=%2Fusr", "depth"), None);
    assert_eq!(qparam("/scan", "path"), None);
    assert_eq!(qparam("/scan?path", "path"), None);
    assert_eq!(qparam("/scan?path&path=", "path"), Some(String::new()));
    assert_eq!(qparam("/scan?a=b=c", "a"), Some("b=c".to_string()));
    assert_eq!(qparam("/scan?x=1&x=2", "x"), Some("1".to_string()));
    assert_eq!(qparam("/scan?p=a?b", "p"), Some("a?b".to_string()));
    assert_eq!(qparam("/scan?p=%ff", "p"), Some("\u{fffd}".to_string()));
}

#[test]
fn requests() {
    let r = parse_request(b"POST /act?op=open HTTP/1.1\r\nHost: x\r\n\r\n");
    assert_eq!(r, ("POST".to_string(), "/act?op=open".to_string()));
    assert_eq!(parse_request(b"GET"), ("GET".to_string(), "/".to_string()));
    assert_eq!(request_line("PUT\t/x y\nz"), ("PUT".to_string(), "/x".to_string()));
    assert_eq!(parse_request(b""), ("GET".to_string(), "/".to_string()));
    assert_eq!(parse_request(b"\r\nPUT /x"), ("GET".to_string(), "/".to_string()));
    assert_eq!(parse_request(b"GET /\xff"), ("GET".to_string(), "/\u{fffd}".to_string()));
}

#[test]
fn actions_must_be_posted() {
    for method in ["GET", "HEAD", "post", ""] {
        assert!(matches!(route(method, "/act?op=trash&path=/x"), Route::NotPosted));
    }
    match route("POST", "/act?op=trash&path=%2Fx+y&op=open&junk") {
        Route::Act { op, path } => {
            assert_eq!(op, "open");
            assert_eq!(path, "/x y");
        }
        _ => panic!("no action"),
    }
    match route("POST", "/action") {
        Route::Act { op, path } => assert_eq!((op.as_str(), path.as_str()), ("", "")),
        _ => panic!("no action"),
    }
}

#[test]
fn pages() {
    for target in ["/", "/?x=1", "/index.html"] {
        assert!(matches!(route("GET", target), Route::Page));
    }
    assert!(matches!(route("GET", "/index.htm"), Route::NotFound));
    assert!(matches!(route("GET", ""), Route::NotFound));
    assert!(matches!(route("GET", "/report"), Route::NotFound));
}

#[test]
fn scans() {
    match route("GET", "/scan?path=/usr&top=7&depth=3&force=1") {
        Route::Scan { root, top, depth, force } => {
            assert_eq!(root, Some("/usr".to_string()));
            assert_eq!((top, depth, force), (Some(7), Some(3), true));
        }
        _ => panic!("no scan"),
    }
    match route("GET", "/scan?top=x&depth=4294967296&force=yes") {
        Route::Scan { root, top, depth, force } => {
            assert_eq!(root, None);
            assert_eq!((top, depth, force), (None, None, false));
        }
        _ => panic!("no scan"),
    }
}

#[test]
fn settings_of_a_scan() {
    let base = Cfg {
        max_depth: 40,
        top: 80,
        threads: 2,
        apparent: true,
        no_stat: false,
        iouring: true,
        max_entries: 9,
        one_fs: true,
    };
    let c = scan_settings(&base, Some(5), None);
    assert_eq!((c.top, c.max_depth, c.threads, c.max_entries), (5, 40, 2, 9));
    assert!(c.apparent && c.iouring && c.one_fs && !c.no_stat);
    let d = scan_settings(&base, None, Some(6));
    assert_eq!((d.top, d.max_depth), (80, 6));
}

#[test]
fn sources_and_reports() {
    assert!(matches!(route("GET", "/mounts"), Route::Mounts));
    assert!(matches!(route("GET", "/remotes"), Route::Remotes));
    assert!(matches!(route("GET", "/reports"), Route::Reports));
    match route("GET", "/remote/scan?remote=s3:") {
        Route::RemoteScan { remote } => assert_eq!(remote, "s3:"),
        _ => panic!("no remote"),
    }
    match route("GET", "/report/get?id=r1") {
        Route::ReportGet { id } => assert_eq!(id, "r1"),
        _ => panic!("no report"),
    }
    match route("GET", "/report/save?label=L&path=/p") {
        Route::SaveLocal { label, path } => assert_eq!((label.as_str(), path.as_str()), ("L", "/p")),
        _ => panic!("not saved"),
    }
    match route("GET", "/report/save?remote=nas:&path=/p") {
        Route::SaveRemote { label, remote } => assert_eq!((label.as_str(), remote.as_str()), ("", "nas:")),
        _ => panic!("not saved"),
    }
    match route("GET", "/report/import?file=/f") {
        Route::Import { file, label } => assert_eq!((file.as_str(), label.as_str()), ("/f", "")),
        _ => panic!("not imported"),
    }
}

#[test]
fn heads() {
    assert_eq!(
        http_head("200 OK", "text/plain", 12),
        "HTTP/1.1 200 OK\r\nContent-Type: text/plain\r\nContent-Length: 12\r\nAccess-Control-Allow-Origin: *\r\nConnection: close\r\n\r\n"
    );
}

#[test]
fn bodies() {
    assert_eq!(action_body(&Ok("opened".to_string())), "{\"ok\":true,\"msg\":\"opened\"}");
    assert_eq!(
        action_body(&Err("no \"x\"".to_string())),
        "{\"ok\":false,\"err\":\"no 'x'\"}"
    );
    assert_eq!(error_body("a\"\"b"), "{\"error\":\"a''b\"}");
    assert_eq!(report_body(&Ok("{\"id\":1}".to_string())), "{\"ok\":true,\"meta\":{\"id\":1}}");
    assert_eq!(
        report_body(&Err("scan failed".to_string())),
        "{\"ok\":false,\"err\":\"scan failed\"}"
    );
}

#[test]
fn answers_as_they_are_sent() {
    let a = http_write(&json_answer("{\"é\":1}".to_string()));
    assert_eq!(
        String::from_utf8(a).unwrap(),
        "HTTP/1.1 200 OK\r\nContent-Type: application/json\r\nContent-Length: 8\r\nAccess-Control-Allow-Origin: *\r\nConnection: close\r\n\r\n{\"é\":1}"
    );
    let p = page_answer("<html>".to_string());
    assert_eq!((p.status.as_str(), p.ctype.as_str(), p.body.as_str()), ("200 OK", "text/html; charset=utf-8", "<html>"));
}

#[test]
fn reports_that_there_are_not() {
    assert_eq!(report_answer(Some("{}".to_string())).body, "{}");
    let a = report_answer(None);
    assert_eq!(
        (a.status.as_str(), a.ctype.as_str(), a.body.as_str()),
        ("404 Not Found", "application/json", "{\"error\":\"not found\"}")
    );
}

#[test]
fn refused_requests_are_answered() {
    let a = refusal(&route("GET", "/act?op=trash&path=/x")).unwrap();
    assert_eq!(
        (a.status.as_str(), a.ctype.as_str(), a.body.as_str()),
        ("405 Method Not Allowed", "text/plain", "POST only")
    );
    let b = refusal(&route("GET", "/nothing")).unwrap();
    assert_eq!(
        (b.status.as_str(), b.ctype.as_str(), b.body.as_str()),
        ("404 Not Found", "text/plain", "not found")
    );
    assert!(refusal(&route("GET", "/mounts")).is_none());
    assert!(refusal(&route("POST", "/act")).is_none());
}

#[test]
fn refused_actions_are_answered() {
    for path in ["/", "", "x", "/home/me"] {
        let e = run_action("trash", path, &path_facts(path, true), "/home/me").err().unwrap();
        assert_eq!(
            action_body(&Err(e)),
            "{\"ok\":false,\"err\":\"refused: unsafe or invalid path\"}"
        );
    }
}
