use sdirstat::arena::{fold_sizes, Cfg, Node};
use sdirstat::builder::{build_tree_from_flat, Builder, components_of, flat_listing_fits};
use sdirstat::cache::emit_cache;
use sdirstat::hash::Acc;
use sdirstat::import::{
    cache_size, cache_sizes_fit, can_import, ensure_cache_dir, import, parse_qdirstat_cache,
    parse_rclone, rclone_error, rclone_listing, read_lines, tree_of_lines, try_import, Kind,
};
use sdirstat::json::emit_json;
use sdirstat::summary::{children_of, finish};
use std::path::Path;

fn cfg(top: usize) -> Cfg {
    Cfg {
        max_depth: 1 << 20,
        top,
        threads: 1,
        apparent: false,
        no_stat: false,
        iouring: false,
        max_entries: usize::MAX,
        one_fs: false,
    }
}

fn shape(nodes: &[Node]) -> Vec<(String, usize, u64, bool)> {
    nodes.iter().map(|n| (n.name.clone(), n.parent, n.sub, n.is_dir)).collect()
}

fn row(name: &str, parent: usize, sub: u64, is_dir: bool) -> (String, usize, u64, bool) {
    (name.to_string(), parent, sub, is_dir)
}

fn path_of(nodes: &[Node], i: usize) -> String {
    if i == 0 {
        String::new()
    } else {
        format!("{}/{}", path_of(nodes, nodes[i].parent), nodes[i].name)
    }
}

#[test]
fn components_of_a_path() {
    let p: Vec<char> = "//a/b//c/".chars().collect();
    let c: Vec<String> = components_of(&p).iter().map(|s| s.iter().collect()).collect();
    assert_eq!(c, vec!["a", "b", "c"]);
}

#[test]
fn tree_of_a_flat_listing() {
    let lines = vec![
        (10, "a/b/f".to_string()),
        (20, "a/g".to_string()),
        (30, "/a//b/h/".to_string()),
        (99, "//".to_string()),
        (1, "top".to_string()),
    ];
    assert!(flat_listing_fits(&lines));
    let nodes = build_tree_from_flat("s3:", &lines);
    assert_eq!(
        shape(&nodes),
        vec![
            row("s3:", 0, 0, true),
            row("a", 0, 0, true),
            row("b", 1, 0, true),
            row("f", 2, 10, false),
            row("g", 1, 20, false),
            row("h", 2, 30, false),
            row("top", 0, 1, false),
        ]
    );
    assert_eq!(nodes[3].blocks, 1);
    assert_eq!(nodes[3].size, 10);
    assert_eq!(path_of(&nodes, 5), "/a/b/h");
    let mut folded = nodes;
    fold_sizes(&mut folded);
    assert_eq!(folded[0].sub, 61);
}

#[test]
fn sizes_that_cannot_be_rounded_to_blocks() {
    assert!(flat_listing_fits(&vec![(u64::MAX - 511, "a".to_string())]));
    assert!(!flat_listing_fits(&vec![(u64::MAX - 510, "a".to_string())]));
    assert!(flat_listing_fits(&vec![(u64::MAX, "/".to_string())]));
}

#[test]
fn rclone_output_is_read() {
    let v = parse_rclone(b" 12 \ta/b\r\nno tab\nx\ty\n+7\tc\td\n99999999999999999999\tbig\n\xff\tq\n5\t\xff\n");
    assert_eq!(
        v,
        vec![
            (12, "a/b".to_string()),
            (7, "c\td".to_string()),
            (5, "\u{fffd}".to_string()),
        ]
    );
}

#[test]
fn sizes_of_a_cache_file() {
    assert_eq!(cache_size("0"), 0);
    assert_eq!(cache_size(" 42 "), 42);
    assert_eq!(cache_size("4K"), 4096);
    assert_eq!(cache_size("3M"), 3 << 20);
    assert_eq!(cache_size("2G"), 2 << 30);
    assert_eq!(cache_size("K"), 0);
    assert_eq!(cache_size("4T"), 0);
    assert_eq!(cache_size("x"), 0);
    assert_eq!(cache_size(""), 0);
    assert_eq!(cache_size("18446744073709551615"), u64::MAX);
    assert_eq!(cache_size("18446744073709551616"), 0);
}

const CACHE: &str = "[qdirstat 1.0 cache file]\n# comment\n\nD /usr/lib\t4K\t0x5\nF a%20b\t100\t0x1\n\
L link\t5\nF /usr/bin/env 7 0x1\n  f   late 8\nX odd\t9\nlonely\nd /usr 1M\nF in%2Fusr 2\n";

#[test]
fn cache_file_is_read() {
    assert!(cache_sizes_fit(CACHE));
    let nodes = parse_qdirstat_cache(CACHE);
    assert_eq!(
        shape(&nodes),
        vec![
            row("/", 0, 0, true),
            row("usr", 0, 1 << 20, true),
            row("lib", 1, 4096, true),
            row("a b", 2, 100, false),
            row("link", 2, 5, false),
            row("bin", 1, 0, true),
            row("env", 5, 7, false),
            row("late", 2, 8, false),
            row("odd", 2, 9, false),
            row("in/usr", 1, 2, false),
        ]
    );
    assert!(nodes[4].is_link);
    assert!(!nodes[3].is_link);
}

#[test]
fn root_line_sets_the_root() {
    let nodes = parse_qdirstat_cache("D / 12\nF x 1\n");
    assert_eq!(shape(&nodes), vec![row("/", 0, 12, true), row("x", 0, 1, false)]);
}

#[test]
fn absolute_names_follow_the_rules_of_paths() {
    for name in ["/a/b", "/a//b/", "/a/./b", "/a/b/.", "/a/b/./", "/x", "/", "//", "/.", "/a/..", "/a/./.", "/./a"] {
        let nodes = parse_qdirstat_cache(&format!("F {name} 3\n"));
        let last = nodes.len() - 1;
        let p = Path::new(name);
        let leaf = p.file_name().map(|f| f.to_string_lossy().into_owned()).unwrap_or(name.to_string());
        let dir = p.parent().map(|d| d.to_string_lossy().into_owned()).unwrap_or_default();
        let parts: Vec<&str> = dir.split('/').filter(|s| !s.is_empty()).collect();
        assert_eq!(nodes[last].name, leaf, "{name}");
        assert_eq!(
            path_of(&nodes, nodes[last].parent),
            parts.iter().map(|s| format!("/{s}")).collect::<String>(),
            "{name}"
        );
    }
}

#[test]
fn cache_sizes_that_cannot_be_counted() {
    assert!(cache_sizes_fit("F x 18014398509481983K"));
    assert!(!cache_sizes_fit("F x 18014398509481984K"));
    assert!(!can_import("[qdirstat\nF x 18014398509481984K\n"));
    assert!(!can_import("[qdirstat\nF x 18446744073709551615\nF y 1\n"));
    assert!(can_import("[qdirstat\nF x 18446744073709551615\n"));
    assert!(can_import("anything else"));
    assert!(try_import("[qdirstat\nF x 18446744073709551615\nF y 1\n").is_none());
    assert_eq!(try_import("[qdirstat\nF x 7\n").unwrap().unwrap().total, 7);
    assert!(try_import("anything else").unwrap().is_err());
}

fn written() -> Vec<Node> {
    let mut nodes = Vec::new();
    for (parent, name, size, is_dir) in [
        (0, "/srv data", 4096, true),
        (0, "sub dir", 512, true),
        (0, "a%b", 10, false),
        (1, "x\ty", 20, false),
        (1, "deep", 30, true),
        (4, "é", 40, false),
    ] {
        let mut n = Node::empty();
        n.parent = parent;
        n.name = name.to_string();
        n.size = size;
        n.own = size;
        n.sub = size;
        n.is_dir = is_dir;
        nodes.push(n);
    }
    nodes
}

#[test]
fn cache_file_reads_back() {
    let nodes = written();
    let text = emit_cache(&children_of(&nodes), &nodes).into_string();
    let back = parse_qdirstat_cache(&text);
    let mut paths: Vec<(String, u64)> = (1..back.len()).map(|i| (path_of(&back, i), back[i].sub)).collect();
    paths.sort();
    assert_eq!(
        paths,
        vec![
            ("/srv data".to_string(), 4096),
            ("/srv data/a%b".to_string(), 10),
            ("/srv data/sub dir".to_string(), 512),
            ("/srv data/sub dir/deep".to_string(), 30),
            ("/srv data/sub dir/deep/é".to_string(), 40),
            ("/srv data/sub dir/x\ty".to_string(), 20),
        ]
    );
}

#[test]
fn cache_file_reads_back_nothing_else() {
    let mut nodes = written();
    nodes[0].name = "/srv/far//data/".to_string();
    let text = emit_cache(&children_of(&nodes), &nodes).into_string();
    let back = parse_qdirstat_cache(&text);
    let mut all: Vec<(String, u64, bool)> =
        (0..back.len()).map(|i| (path_of(&back, i), back[i].own, back[i].is_dir)).collect();
    all.sort();
    let row = |p: &str, own: u64, dir: bool| (p.to_string(), own, dir);
    assert_eq!(
        all,
        vec![
            row("", 0, true),
            row("/srv", 0, true),
            row("/srv/far", 0, true),
            row("/srv/far/data", 4096, true),
            row("/srv/far/data/a%b", 10, false),
            row("/srv/far/data/sub dir", 512, true),
            row("/srv/far/data/sub dir/deep", 30, true),
            row("/srv/far/data/sub dir/deep/é", 40, false),
            row("/srv/far/data/sub dir/x\ty", 20, false),
        ]
    );
    assert_eq!(back[0].name, "/");
    for (i, n) in back.iter().enumerate() {
        assert!(i == 0 || (n.parent < i && back[n.parent].is_dir));
        assert!(n.is_dir || n.own == n.size);
    }
}

#[test]
fn json_tree_gives_back_its_total() {
    for name in ["/r", "\"v\":9", "v", "\\", "\"", "\\\"v", "\"v", "…"] {
        let mut nodes = written();
        nodes[0].name = name.to_string();
        fold_sizes(&mut nodes);
        for top in [0, 1, 80] {
            let mut acc = Acc::with_capacity(0);
            emit_json(0, &children_of(&nodes), &nodes, &cfg(top), &mut acc);
            let text = acc.into_string();
            let i = import(&format!(" \n{text}")).unwrap();
            assert_eq!(i.total, 4708, "{name}");
            assert_eq!(i.entries, 0);
            assert_eq!(i.source, "json");
            assert_eq!(
                i.response,
                format!("{{\"scan_ms\":0,\"entries\":0,\"tree\":{text},\"types\":[]}}")
            );
        }
    }
}

#[test]
fn json_without_a_total() {
    assert_eq!(import("{}").unwrap().total, 0);
    assert_eq!(import("{\"v\":}").unwrap().total, 0);
    assert_eq!(import("{\"v\": x12y}").unwrap().total, 12);
    assert_eq!(import("{\"v\":\"v\":5}").unwrap().total, 0);
    assert_eq!(import("{\"v\":99999999999999999999}").unwrap().total, 0);
}

#[test]
fn cache_file_is_imported() {
    let text = "[qdirstat 2.0 cache file]\nD /d 5\nF a.txt 6\n";
    assert!(can_import(text));
    let i = import(text).unwrap();
    assert_eq!((i.total, i.entries, i.source.as_str()), (11, 3, "cache"));
    let (want, total, n) = finish(parse_qdirstat_cache(text), 0, &cfg(1 << 20));
    assert_eq!((i.response, i.total, i.entries), (want, total, n));
}

#[test]
fn unrecognized_files() {
    for text in ["", "hello", "[other", "<html>"] {
        assert_eq!(
            import(text).err().unwrap(),
            "unrecognized file (expected a QDirStat cache or a sdirstat JSON tree)"
        );
    }
}

#[test]
fn lines_of_a_cache_file() {
    let ls = read_lines("[x\n#c\nD /a%20b 4K\nl x 1\nF y\nlonely\n").unwrap();
    let got: Vec<(bool, bool, &str, u64)> = ls
        .iter()
        .map(|l| (l.kind == Kind::Dir, l.kind == Kind::Link, l.name.as_str(), l.size))
        .collect();
    assert_eq!(
        got,
        vec![(true, false, "/a b", 4096), (false, true, "x", 1), (false, false, "y", 0)]
    );
    assert_eq!(
        shape(&tree_of_lines(&ls)),
        vec![
            row("/", 0, 0, true),
            row("a b", 0, 4096, true),
            row("x", 1, 1, false),
            row("y", 1, 0, false),
        ]
    );
    assert!(read_lines("F x 18014398509481984K").is_none());
}

#[test]
fn rclone_listing_of_a_text() {
    assert_eq!(rclone_listing("3\ta b\nx\n"), vec![(3, "a b".to_string())]);
}

#[test]
fn directories_are_made_once() {
    let mut b = Builder::new("/");
    assert_eq!(ensure_cache_dir("/", &mut b), 0);
    assert_eq!(ensure_cache_dir("", &mut b), 0);
    let c = ensure_cache_dir("/a/b//c/", &mut b);
    assert_eq!(c, 3);
    assert_eq!(ensure_cache_dir("/a/b/c", &mut b), c);
    assert_eq!(ensure_cache_dir("/a/d", &mut b), 4);
    assert_eq!(ensure_cache_dir("a", &mut b), 1);
    assert_eq!(ensure_cache_dir("/a/b/c", &mut b), c);
    assert_eq!(
        shape(&b.into_nodes()),
        vec![
            row("/", 0, 0, true),
            row("a", 0, 0, true),
            row("b", 1, 0, true),
            row("c", 2, 0, true),
            row("d", 1, 0, true),
        ]
    );
}

#[test]
fn errors_of_rclone() {
    assert_eq!(rclone_error(b" \n no remote\xff \n"), "no remote\u{fffd}");
    assert_eq!(rclone_error(b""), "");
}
