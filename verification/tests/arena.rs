use sdirstat::arena::{fold_sizes, total_size, Cfg, Node, DEFAULT_MAX_ENTRIES};
use sdirstat::cache::{all_blocks_fit, emit_cache, join_path};
use sdirstat::filetypes::type_stats_into;
use sdirstat::hash::Acc;
use sdirstat::json::emit_json;
use sdirstat::rank::rank;
use sdirstat::summary::{can_finish, children_of, finish};

fn node(parent: usize, name: &str, own: u64, is_dir: bool) -> Node {
    let mut n = Node::empty();
    n.parent = parent;
    n.name = name.to_string();
    n.own = own;
    n.sub = own;
    n.size = own;
    n.is_dir = is_dir;
    n
}

fn cfg(top: usize) -> Cfg {
    Cfg {
        max_depth: 40,
        top,
        threads: 0,
        apparent: false,
        no_stat: false,
        iouring: false,
        max_entries: DEFAULT_MAX_ENTRIES,
        one_fs: false,
    }
}

fn sample() -> Vec<Node> {
    vec![
        node(0, "/r", 10, true),
        node(0, "a", 20, true),
        node(0, "big.txt", 500, false),
        node(1, "x.rs", 7, false),
        node(1, "y.rs", 9, false),
        node(0, "tiny", 1, false),
    ]
}

#[test]
fn empty_node() {
    let n = Node::empty();
    assert_eq!(n.nlink, 1);
    assert_eq!(n.name, "");
    assert_eq!((n.parent, n.own, n.sub, n.size, n.blocks), (0, 0, 0, 0, 0));
    assert!(!n.is_dir && !n.is_link);
}

#[test]
fn sizes_are_summed_up_the_tree() {
    let mut nodes = sample();
    assert_eq!(total_size(&nodes), Some(547));
    fold_sizes(&mut nodes);
    let subs: Vec<u64> = nodes.iter().map(|n| n.sub).collect();
    assert_eq!(subs, vec![547, 36, 500, 7, 9, 1]);
    let owns: Vec<u64> = nodes.iter().map(|n| n.own).collect();
    assert_eq!(owns, vec![10, 20, 500, 7, 9, 1]);
}

#[test]
fn a_total_that_cannot_be_counted() {
    let nodes = vec![node(0, "/", u64::MAX, true), node(0, "a", 1, false)];
    assert_eq!(total_size(&nodes), None);
    assert!(!can_finish(&nodes));
}

#[test]
fn ranking_is_stable() {
    let v = rank(vec![(5, 0), (9, 1), (5, 2), (9, 3), (1, 4)]);
    assert_eq!(v, vec![(9, 1), (9, 3), (5, 0), (5, 2), (1, 4)]);
}

#[test]
fn json_of_everything() {
    let mut nodes = sample();
    fold_sizes(&mut nodes);
    let kids = children_of(&nodes);
    let mut acc = Acc::with_capacity(0);
    emit_json(0, &kids, &nodes, &cfg(80), &mut acc);
    assert_eq!(
        acc.into_string(),
        "{\"n\":\"/r\",\"v\":547,\"d\":1,\"c\":[{\"n\":\"big.txt\",\"v\":500,\"d\":0},\
         {\"n\":\"a\",\"v\":36,\"d\":1,\"c\":[{\"n\":\"y.rs\",\"v\":9,\"d\":0},{\"n\":\"x.rs\",\"v\":7,\"d\":0}]},\
         {\"n\":\"tiny\",\"v\":1,\"d\":0}]}"
    );
}

#[test]
fn json_pruned_keeps_totals() {
    let mut nodes = sample();
    fold_sizes(&mut nodes);
    let kids = children_of(&nodes);
    let mut one = Acc::with_capacity(0);
    emit_json(0, &kids, &nodes, &cfg(1), &mut one);
    assert_eq!(
        one.into_string(),
        "{\"n\":\"/r\",\"v\":547,\"d\":1,\"c\":[{\"n\":\"big.txt\",\"v\":500,\"d\":0},\
         {\"n\":\"… (2 more)\",\"v\":37,\"d\":0}]}"
    );
    let mut none = Acc::with_capacity(0);
    emit_json(0, &kids, &nodes, &cfg(0), &mut none);
    assert_eq!(
        none.into_string(),
        "{\"n\":\"/r\",\"v\":547,\"d\":1,\"c\":[{\"n\":\"… (3 more)\",\"v\":537,\"d\":0}]}"
    );
}

#[test]
fn extensions() {
    let mut link = node(0, "l.txt", 100, false);
    link.is_link = true;
    let nodes = vec![
        node(0, "/", 1000, true),
        node(0, "a.txt", 1, false),
        node(0, ".hidden", 2, false),
        node(0, "dot.", 3, false),
        node(0, "b.tar.gz", 4, false),
        node(0, "c.txt", 5, false),
        node(0, "é.é", 6, false),
        link,
        node(0, "plain", 1, false),
    ];
    let mut acc = Acc::with_capacity(0);
    type_stats_into(&nodes, &mut acc);
    assert_eq!(
        acc.into_string(),
        "[{\"e\":\"txt\",\"v\":6,\"c\":2},{\"e\":\"(no ext)\",\"v\":6,\"c\":3},\
         {\"e\":\"é\",\"v\":6,\"c\":1},{\"e\":\"gz\",\"v\":4,\"c\":1}]"
    );
}

#[test]
fn at_most_sixty_extensions() {
    let mut nodes = vec![node(0, "/", 0, true)];
    for i in 0..70u64 {
        nodes.push(node(0, &format!("f.x{i}"), 1000 - i, false));
    }
    let mut acc = Acc::with_capacity(0);
    type_stats_into(&nodes, &mut acc);
    let s = acc.into_string();
    assert_eq!(s.matches("\"e\":").count(), 60);
    assert!(s.contains("\"x59\""));
    assert!(!s.contains("\"x60\""));
}

#[test]
fn response_of_a_scan() {
    let (body, total, n) = finish(sample(), 12, &cfg(1));
    assert_eq!(total, 547);
    assert_eq!(n, 6);
    assert_eq!(
        body,
        "{\"scan_ms\":12,\"entries\":6,\"tree\":{\"n\":\"/r\",\"v\":547,\"d\":1,\"c\":[\
         {\"n\":\"big.txt\",\"v\":500,\"d\":0},{\"n\":\"… (2 more)\",\"v\":37,\"d\":0}]},\
         \"types\":[{\"e\":\"txt\",\"v\":500,\"c\":1},{\"e\":\"rs\",\"v\":16,\"c\":2},\
         {\"e\":\"(no ext)\",\"v\":1,\"c\":1}]}"
    );
}

#[test]
fn what_can_be_finished() {
    assert!(can_finish(&sample()));
    assert!(!can_finish(&[]));
    assert!(!can_finish(&[node(0, "/", 0, true), node(1, "self", 0, true)]));
    assert!(!can_finish(&[
        node(0, "/", 0, true),
        node(0, "file", 0, false),
        node(1, "below a file", 0, false)
    ]));
}

#[test]
fn paths_are_joined() {
    assert_eq!(join_path("/usr", "lib"), "/usr/lib");
    assert_eq!(join_path("/", "usr"), "/usr");
    assert_eq!(join_path("/usr//", "lib"), "/usr/lib");
    assert_eq!(join_path("", "x"), "/x");
}

#[test]
fn cache_file() {
    let mut nodes = sample();
    nodes[0].mode = 0o40755;
    nodes[0].mtime = 0x5f;
    nodes[0].nlink = 5;
    nodes[2].size = 5000;
    nodes[2].blocks = 1;
    nodes[2].nlink = 3;
    nodes[2].uid = 1000;
    nodes[2].gid = 100;
    nodes[2].mode = 0o100644;
    nodes[2].mtime = -1;
    nodes[3].name = "x y.rs".to_string();
    nodes[5].is_link = true;
    assert!(all_blocks_fit(&nodes));
    let kids = children_of(&nodes);
    let text = emit_cache(&kids, &nodes).into_string();
    assert_eq!(
        text,
        "[qdirstat 2.0 cache file]\n# Generated by sdirstat\n# Do not edit!\n#\n\
         D /r\t10\t0\t0\t0755\t0x5f\n\
         F big.txt\t5000\t1000\t100\t0644\t0xffffffffffffffff\tblocks: 1\tlinks: 3\n\
         L tiny\t1\t0\t0\t00\t0x0\n\
         D /r/a\t20\t0\t0\t00\t0x0\n\
         F x%20y.rs\t7\t0\t0\t00\t0x0\n\
         F y.rs\t9\t0\t0\t00\t0x0\n"
    );
}

#[test]
fn blocks_that_cannot_be_counted() {
    let mut nodes = sample();
    nodes[2].blocks = u64::MAX / 512;
    assert!(all_blocks_fit(&nodes));
    nodes[2].blocks += 1;
    assert!(!all_blocks_fit(&nodes));
    nodes[2].is_dir = true;
    assert!(all_blocks_fit(&nodes));
}
