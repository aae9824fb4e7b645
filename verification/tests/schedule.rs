use sdirstat::arena::{Cfg, Node};
use sdirstat::cli::is_incomplete;
use sdirstat::records::FileMeta;
use sdirstat::uring::statx_dev;
use sdirstat::walk::{Entry, Job, Next, Walk};

fn cfg(max_depth: u32, max_entries: usize, one_fs: bool) -> Cfg {
    Cfg {
        max_depth,
        top: 80,
        threads: 0,
        apparent: false,
        no_stat: false,
        iouring: false,
        max_entries,
        one_fs,
    }
}

const DEV: u64 = 0x0103;
const OTHER: u64 = 0x0012_3456_0789_0abc;

fn entry(dir: &str, name: &str, is_dir: bool, own: u64, nlink: u64, dev: u64, ino: u64) -> Entry<String> {
    Entry {
        path: format!("{dir}/{name}"),
        name: name.to_string(),
        is_dir,
        is_link: false,
        meta: Some(FileMeta {
            own,
            size: own + 1,
            blocks: own,
            mtime: ino as i64,
            uid: 1,
            gid: 2,
            mode: 3,
            nlink,
            dev,
            ino,
        }),
    }
}

fn disk(dir: &str) -> Vec<Entry<String>> {
    match dir {
        "r" => vec![
            entry(dir, "a", true, 1, 2, DEV, 1),
            entry(dir, "b", true, 2, 2, DEV, 2),
            entry(dir, "m", true, 4, 2, OTHER, 3),
            entry(dir, "f", false, 8, 2, DEV, 9),
        ],
        "r/a" => vec![entry(dir, "f", false, 8, 2, DEV, 9), entry(dir, "d", true, 16, 2, DEV, 4)],
        "r/b" => vec![entry(dir, "g", false, 32, 1, DEV, 5), entry(dir, "h", false, 64, 2, OTHER, 9)],
        "r/a/d" => vec![entry(dir, "deep", false, 128, 1, DEV, 6)],
        "r/m" => vec![entry(dir, "h", false, 64, 2, OTHER, 9)],
        _ => vec![],
    }
}

/// Runs a walk whose steps come in an order that depends on `seed`.
fn scan(workers: usize, cfg: &Cfg, statx: bool, mut seed: u64) -> Vec<Node> {
    let root_dev = if statx { statx_dev(DEV) } else { DEV };
    let mut w = Walk::new("r".to_string(), workers, cfg, root_dev);
    let mut taken: Vec<(usize, Job<String>, bool)> = Vec::new();
    loop {
        seed = seed.wrapping_mul(6364136223846793005).wrapping_add(1442695040888963407);
        let t = (seed >> 33) as usize % workers;
        if (seed >> 40) % 2 == 0 && !taken.is_empty() {
            let k = (seed >> 44) as usize % taken.len();
            let (t, job, listed) = taken.remove(k);
            let mut entries = if listed { disk(&job.path) } else { vec![] };
            if statx {
                for e in entries.iter_mut() {
                    if let Some(m) = e.meta.as_mut() {
                        m.dev = statx_dev(m.dev);
                    }
                }
            }
            w.finish_dir(t, job, entries);
            continue;
        }
        match w.next_job(t) {
            Next::List(job) => {
                let listed = w.may_list(&job);
                taken.push((t, job, listed));
            }
            Next::Retry => assert!(!taken.is_empty()),
            Next::Done => break,
        }
    }
    assert!(taken.is_empty());
    w.into_arena("/r".to_string(), None)
}

fn path(nodes: &[Node], i: usize) -> String {
    if i == 0 {
        String::new()
    } else {
        format!("{}/{}", path(nodes, nodes[i].parent), nodes[i].name)
    }
}

fn files(nodes: &[Node]) -> Vec<(String, u64, i64, bool)> {
    let mut v: Vec<(String, u64, i64, bool)> = (0..nodes.len())
        .map(|i| (path(nodes, i), nodes[i].size, nodes[i].mtime, nodes[i].is_dir))
        .collect();
    v.sort();
    v
}

fn bytes(nodes: &[Node]) -> u64 {
    nodes.iter().map(|n| n.own).sum()
}

#[test]
fn every_schedule_finds_the_same_tree() {
    let expected: Vec<&str> = vec![
        "", "/a", "/a/d", "/a/d/deep", "/a/f", "/b", "/b/g", "/b/h", "/f", "/m", "/m/h",
    ];
    let c = cfg(40, 1000, false);
    let first = files(&scan(1, &c, false, 0));
    assert_eq!(first.iter().map(|f| f.0.as_str()).collect::<Vec<_>>(), expected);
    for seed in 0..200 {
        let workers = 1 + seed as usize % 5;
        let nodes = scan(workers, &c, false, seed);
        assert_eq!(files(&nodes), first);
        assert_eq!(bytes(&nodes), 1 + 2 + 4 + 8 + 16 + 32 + 64 + 128);
        for i in 1..nodes.len() {
            assert!(nodes[i].parent < i);
            assert_eq!(nodes[i].own, nodes[i].sub);
        }
    }
}

#[test]
fn one_name_carries_the_bytes_of_a_linked_file() {
    for seed in 0..100 {
        let nodes = scan(3, &cfg(40, 1000, false), false, seed);
        for (name, size) in [("f", 8), ("h", 64)] {
            let mut own: Vec<u64> =
                nodes.iter().filter(|n| n.name == name && !n.is_dir).map(|n| n.own).collect();
            own.sort();
            assert_eq!(own, vec![0, size]);
        }
    }
}

#[test]
fn both_ways_to_list_find_the_same_tree() {
    for one_fs in [false, true] {
        let c = cfg(40, 1000, one_fs);
        let first = scan(2, &c, false, 7);
        assert_eq!(first.len(), if one_fs { 10 } else { 11 });
        for seed in 0..50 {
            let nodes = scan(4, &c, true, seed);
            assert_eq!(files(&nodes), files(&first));
            assert_eq!(bytes(&nodes), bytes(&first));
        }
    }
    assert_ne!(statx_dev(DEV), statx_dev(OTHER));
}

#[test]
fn a_walk_that_is_cut_short_says_so() {
    let whole = files(&scan(1, &cfg(40, usize::MAX, false), false, 0));
    for limit in 0..14 {
        let c = cfg(40, limit, false);
        for seed in 0..40 {
            let nodes = scan(1 + seed as usize % 4, &c, false, seed);
            if is_incomplete(nodes.len(), &c) {
                assert!(nodes.len() >= limit);
            } else {
                assert_eq!(files(&nodes), whole);
            }
        }
    }
}

#[test]
fn no_file_is_below_the_depth_limit() {
    for depth in 0..6 {
        for seed in 0..20 {
            let nodes = scan(2, &cfg(depth, 1000, false), false, seed);
            let deepest = (0..nodes.len()).map(|i| path(&nodes, i).matches('/').count() + 1).max().unwrap();
            assert_eq!(deepest, (depth as usize).clamp(1, 4));
            let expected = [1, 1, 5, 10, 11, 11][depth as usize];
            assert_eq!(nodes.len(), expected);
        }
    }
}
