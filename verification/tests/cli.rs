use sdirstat::arena::DEFAULT_MAX_ENTRIES;
use sdirstat::cli::{is_incomplete, output_path, parse_args, parse_sweep_args, Args, Mode};

fn args(line: &str) -> Vec<String> {
    line.split_whitespace().map(|s| s.to_string()).collect()
}

fn parse(line: &str) -> Args {
    parse_args(&args(line)).unwrap()
}

#[test]
fn help() {
    assert!(parse_args(&vec![]).is_none());
    assert!(parse_args(&args("-h")).is_none());
    assert!(parse_args(&args("/usr --help")).is_none());
    assert!(parse_args(&args("-o -h")).is_none());
}

#[test]
fn defaults() {
    let a = parse("/usr");
    assert!(a.mode == Mode::Html);
    assert_eq!((a.root.as_str(), a.out.as_str(), a.port), ("/usr", "", 8080));
    assert_eq!((a.cfg.max_depth, a.cfg.top, a.cfg.threads), (40, 80, 0));
    assert_eq!(a.cfg.max_entries, DEFAULT_MAX_ENTRIES);
    assert!(!a.cfg.apparent && !a.cfg.no_stat && !a.cfg.iouring && !a.cfg.one_fs);
    assert_eq!(parse("--json").root, ".");
}

#[test]
fn modes() {
    for (word, mode) in [
        ("serve", Mode::Serve),
        ("gui", Mode::Gui),
        ("install-desktop", Mode::InstallDesktop),
        ("uninstall-desktop", Mode::UninstallDesktop),
        ("--json", Mode::Json),
        ("--cache", Mode::Cache),
        ("--total", Mode::Total),
    ] {
        assert!(parse(word).mode == mode, "{word}");
    }
    assert!(parse("--json --cache").mode == Mode::Cache);
}

#[test]
fn values() {
    let a = parse("/x -o out --max-depth 3 --top 5 --threads 2 --max-entries 9 -p 99");
    assert_eq!(a.out, "out");
    assert_eq!((a.cfg.max_depth, a.cfg.top, a.cfg.threads, a.cfg.max_entries), (3, 5, 2, 9));
    assert_eq!(a.port, 99);
    assert_eq!(parse("serve --port 1234").port, 1234);
    assert_eq!(parse("--max-entries 0").cfg.max_entries, usize::MAX);
}

#[test]
fn values_that_are_no_numbers_are_the_default() {
    let a = parse("--max-depth x --top -1 --threads y --max-entries z --port 65536");
    assert_eq!((a.cfg.max_depth, a.cfg.top, a.cfg.threads), (40, 80, 0));
    assert_eq!(a.cfg.max_entries, DEFAULT_MAX_ENTRIES);
    assert_eq!(a.port, 8080);
    // the value is taken all the same
    assert_eq!(a.root, ".");
    // a value that is missing
    assert_eq!(parse("/x --top 3 --top").cfg.top, 80);
    assert_eq!(parse("/x -o a -o").out, "");
}

#[test]
fn switches() {
    let a = parse("--no-stat --iouring --apparent -x --bogus /y");
    assert!(a.cfg.no_stat && a.cfg.iouring && a.cfg.apparent && a.cfg.one_fs);
    assert_eq!(a.root, "/y");
    assert!(parse("--one-file-system").cfg.one_fs);
    assert_eq!(parse("a b").root, "b");
}

#[test]
fn outputs() {
    assert_eq!(output_path(&parse("/x")), "report.html");
    assert_eq!(output_path(&parse("/x --json")), "tree.json");
    assert_eq!(output_path(&parse("/x --cache")), "out.qdirstat.cache");
    assert_eq!(output_path(&parse("/x --total")), "report.html");
    assert_eq!(output_path(&parse("/x --cache -o y")), "y");
}

#[test]
fn the_ceiling() {
    let a = parse("--max-entries 10");
    assert!(!is_incomplete(9, &a.cfg));
    assert!(is_incomplete(10, &a.cfg));
    assert!(is_incomplete(11, &a.cfg));
}

#[test]
fn arguments_of_the_sweep() {
    assert_eq!(parse_sweep_args(&vec![]), (String::new(), 256));
    assert_eq!(parse_sweep_args(&args("/usr --qd 64")), ("/usr".to_string(), 64));
    assert_eq!(parse_sweep_args(&args("--qd x /usr")), ("/usr".to_string(), 256));
    assert_eq!(parse_sweep_args(&args("/usr --qd 9 --qd")), ("/usr".to_string(), 256));
    assert_eq!(parse_sweep_args(&args("--other a b")), ("b".to_string(), 256));
}
