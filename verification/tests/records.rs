use sdirstat::arena::{Cfg, Node};
use sdirstat::records::{
    assemble, fill_root, path_dev, read_meta, read_meta_portable, scan_backend, Backend, FileMeta,
    Rec,
};
use sdirstat::uring::Stat;

fn stat() -> Stat {
    Stat {
        size: 5000,
        blocks: 16,
        mtime: -3,
        ino: 77,
        dev: 9,
        uid: 1,
        gid: 2,
        mode: 0o100644,
        nlink: 3,
        is_dir: false,
        is_link: false,
    }
}

fn rec(id: usize, parent: usize, name: &str, own: u64) -> Rec {
    Rec {
        id,
        parent,
        name: name.to_string(),
        own,
        size: own + 1,
        blocks: own + 2,
        mtime: 4,
        uid: 5,
        gid: 6,
        mode: 7,
        nlink: 8,
        is_dir: false,
        is_link: true,
    }
}

#[test]
fn allocated_and_apparent() {
    let m = read_meta(&stat(), false);
    assert_eq!(m.own, 16 * 512);
    assert_eq!(m.size, 5000);
    assert_eq!((m.blocks, m.mtime, m.uid, m.gid), (16, -3, 1, 2));
    assert_eq!((m.mode, m.nlink, m.dev, m.ino), (0o100644, 3, 9, 77));
    assert_eq!(read_meta(&stat(), true).own, 5000);
}

#[test]
fn portable_metadata() {
    let m = read_meta_portable(513, Some(12), false);
    assert_eq!((m.own, m.size, m.blocks, m.mtime), (513, 513, 2, 12));
    assert_eq!((m.mode, m.nlink, m.dev, m.ino), (0o100000, 1, 0, 0));
    let d = read_meta_portable(0, None, true);
    assert_eq!((d.blocks, d.mtime, d.mode), (0, 0, 0o040000));
}

#[test]
fn device_of_a_path() {
    assert_eq!(path_dev(Some(5)), 5);
    assert_eq!(path_dev(None), 0);
}

#[test]
fn root_gets_its_own_metadata() {
    let mut n = Node::empty();
    n.name = "/x".to_string();
    fill_root(&mut n, None);
    assert_eq!((n.own, n.nlink), (0, 1));
    let m: FileMeta = read_meta(&stat(), false);
    fill_root(&mut n, Some(m));
    assert_eq!((n.own, n.sub, n.size, n.nlink), (8192, 8192, 5000, 3));
    assert_eq!(n.name, "/x");
}

#[test]
fn records_are_placed_by_their_index() {
    let buckets = vec![vec![rec(2, 0, "b", 20)], vec![rec(1, 0, "a", 10), rec(3, 2, "c", 30)]];
    let nodes = assemble(4, buckets, "/r".to_string(), Some(read_meta(&stat(), true)));
    let names: Vec<&str> = nodes.iter().map(|n| n.name.as_str()).collect();
    assert_eq!(names, vec!["/r", "a", "b", "c"]);
    assert!(nodes[0].is_dir);
    assert_eq!(nodes[0].sub, 5000);
    assert_eq!((nodes[3].parent, nodes[3].own, nodes[3].sub), (2, 30, 30));
    assert_eq!((nodes[3].size, nodes[3].blocks, nodes[3].mtime), (31, 32, 4));
    assert_eq!((nodes[3].uid, nodes[3].gid, nodes[3].mode, nodes[3].nlink), (5, 6, 7, 8));
    assert!(nodes[3].is_link && !nodes[3].is_dir);
}

#[test]
fn the_later_record_counts_and_gaps_stay_empty() {
    let buckets = vec![vec![rec(1, 0, "old", 1)], vec![rec(1, 0, "new", 2)]];
    let nodes = assemble(3, buckets, "/r".to_string(), None);
    assert_eq!(nodes[1].name, "new");
    assert_eq!(nodes[2].name, "");
    assert_eq!(nodes[0].own, 0);
}

#[test]
fn backends() {
    let mut cfg = Cfg {
        max_depth: 1,
        top: 1,
        threads: 1,
        apparent: false,
        no_stat: false,
        iouring: false,
        max_entries: 1,
        one_fs: false,
    };
    assert!(scan_backend(&cfg, true) == Backend::Portable);
    cfg.iouring = true;
    assert!(scan_backend(&cfg, true) == Backend::IoUring);
    assert!(scan_backend(&cfg, false) == Backend::Portable);
}
