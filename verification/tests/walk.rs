use sdirstat::arena::Cfg;
use sdirstat::records::FileMeta;
use sdirstat::uring::{statx_dev, Stat};
use sdirstat::walk::{renumber_devices, statx_entry, worker_count, Entry, Next, Walk};

fn cfg(max_depth: u32, max_entries: usize, one_fs: bool) -> Cfg {
    Cfg {
        max_depth,
        top: 80,
        threads: 0,
        apparent: false,
        no_stat: false,
        iouring: false,
        max_entries,
        one_fs,
    }
}

fn meta(own: u64, nlink: u64, dev: u64, ino: u64) -> FileMeta {
    FileMeta {
        own,
        size: own,
        blocks: 0,
        mtime: 0,
        uid: 0,
        gid: 0,
        mode: 0,
        nlink,
        dev,
        ino,
    }
}

fn entry(path: &str, is_dir: bool, meta: Option<FileMeta>) -> Entry<String> {
    let name = path.rsplit('/').next().unwrap().to_string();
    Entry { path: path.to_string(), name, is_dir, is_link: false, meta }
}

fn take(w: &mut Walk<String>, t: usize) -> sdirstat::walk::Job<String> {
    match w.next_job(t) {
        Next::List(j) => j,
        _ => panic!("no job"),
    }
}

#[test]
fn a_walk_from_start_to_end() {
    let mut w = Walk::new("/r".to_string(), 1, &cfg(40, 100, false), 1);
    assert_eq!(w.entries(), 1);
    let j = take(&mut w, 0);
    assert_eq!((j.path.as_str(), j.id, j.depth), ("/r", 0, 1));
    assert!(w.may_list(&j));
    assert!(matches!(w.next_job(0), Next::Retry));
    w.finish_dir(
        0,
        j,
        vec![
            entry("/r/a", true, Some(meta(1, 2, 1, 10))),
            entry("/r/f", false, Some(meta(2, 1, 1, 11))),
            entry("/r/b", true, None),
        ],
    );
    // the newest directory comes first
    let b = take(&mut w, 0);
    assert_eq!((b.path.as_str(), b.id, b.depth), ("/r/b", 3, 2));
    w.finish_dir(0, b, vec![entry("/r/b/g", false, Some(meta(4, 1, 1, 12)))]);
    let a = take(&mut w, 0);
    assert_eq!((a.path.as_str(), a.id), ("/r/a", 1));
    w.finish_dir(0, a, vec![]);
    assert!(matches!(w.next_job(0), Next::Done));
    assert_eq!(w.entries(), 5);
    let nodes = w.into_arena("/r".to_string(), Some(meta(100, 1, 1, 1)));
    let all: Vec<(&str, usize, u64)> =
        nodes.iter().map(|n| (n.name.as_str(), n.parent, n.sub)).collect();
    assert_eq!(all, vec![("/r", 0, 100), ("a", 0, 1), ("f", 0, 2), ("b", 0, 0), ("g", 3, 4)]);
    assert_eq!(nodes[3].nlink, 1);
    assert!(nodes[0].is_dir && nodes[1].is_dir && !nodes[2].is_dir);
}

#[test]
fn an_idle_worker_takes_the_oldest_directory_of_another_one() {
    let mut w = Walk::new("/".to_string(), 3, &cfg(40, 100, false), 1);
    assert!(matches!(w.next_job(1), Next::List(_)));
    let mut w = Walk::new("/".to_string(), 3, &cfg(40, 100, false), 1);
    let j = take(&mut w, 0);
    w.finish_dir(
        0,
        j,
        vec![entry("/a", true, None), entry("/b", true, None), entry("/c", true, None)],
    );
    assert_eq!(take(&mut w, 2).path, "/a");
    assert_eq!(take(&mut w, 0).path, "/c");
    assert_eq!(take(&mut w, 1).path, "/b");
    assert!(matches!(w.next_job(0), Next::Retry));
}

#[test]
fn no_work_is_stranded() {
    let mut w = Walk::new("/".to_string(), 2, &cfg(40, 100, false), 1);
    let j = take(&mut w, 1);
    assert!(matches!(w.next_job(0), Next::Retry));
    w.finish_dir(1, j, vec![entry("/a", true, None)]);
    let k = take(&mut w, 0);
    assert!(matches!(w.next_job(1), Next::Retry));
    w.finish_dir(0, k, vec![]);
    assert!(matches!(w.next_job(0), Next::Done));
    assert!(matches!(w.next_job(1), Next::Done));
}

#[test]
fn files_with_several_links_count_once() {
    let mut w = Walk::new("/".to_string(), 1, &cfg(40, 100, false), 1);
    let j = take(&mut w, 0);
    w.finish_dir(
        0,
        j,
        vec![
            entry("/a", false, Some(meta(10, 2, 1, 5))),
            entry("/b", false, Some(meta(10, 2, 1, 5))),
            entry("/c", false, Some(meta(10, 2, 2, 5))),
            entry("/d", false, Some(meta(10, 1, 1, 5))),
            entry("/e", true, Some(meta(10, 2, 1, 5))),
        ],
    );
    let e = take(&mut w, 0);
    w.finish_dir(0, e, vec![entry("/e/f", false, Some(meta(10, 2, 1, 5)))]);
    let nodes = w.into_arena("/".to_string(), None);
    let own: Vec<u64> = nodes.iter().map(|n| n.own).collect();
    assert_eq!(own, vec![0, 10, 0, 10, 10, 10, 0]);
    assert_eq!(nodes[2].size, 10);
}

#[test]
fn links_are_not_followed() {
    let mut w = Walk::new("/".to_string(), 1, &cfg(40, 100, false), 1);
    let j = take(&mut w, 0);
    let mut l = entry("/l", true, None);
    l.is_link = true;
    w.finish_dir(0, j, vec![l]);
    assert!(matches!(w.next_job(0), Next::Done));
}

#[test]
fn other_file_systems_are_not_entered() {
    let mut w = Walk::new("/".to_string(), 1, &cfg(40, 100, true), 1);
    let j = take(&mut w, 0);
    w.finish_dir(
        0,
        j,
        vec![
            entry("/proc", true, Some(meta(3, 1, 2, 1))),
            entry("/usr", true, Some(meta(4, 1, 1, 1))),
            entry("/unknown", true, None),
        ],
    );
    assert_eq!(take(&mut w, 0).path, "/unknown");
    assert_eq!(take(&mut w, 0).path, "/usr");
    assert!(matches!(w.next_job(0), Next::Retry));
}

#[test]
fn limits() {
    let mut w = Walk::new("/".to_string(), 1, &cfg(2, 3, false), 1);
    let j = take(&mut w, 0);
    assert!(w.may_list(&j));
    w.finish_dir(0, j, vec![entry("/a", true, None)]);
    let a = take(&mut w, 0);
    // too deep
    assert!(!w.may_list(&a));
    let mut w = Walk::new("/".to_string(), 1, &cfg(9, 3, false), 1);
    let j = take(&mut w, 0);
    w.finish_dir(0, j, vec![entry("/a", true, None), entry("/b", true, None)]);
    let b = take(&mut w, 0);
    // as many entries as there may be
    assert!(!w.may_list(&b));
}

#[test]
fn workers() {
    let mut c = cfg(1, 1, false);
    assert_eq!(worker_count(&c, Some(4)), 4);
    assert_eq!(worker_count(&c, None), 8);
    c.threads = 3;
    assert_eq!(worker_count(&c, Some(4)), 3);
}

#[test]
fn entries_from_statx() {
    let st = Stat {
        size: 1000,
        blocks: 8,
        mtime: -3,
        ino: 4,
        dev: 5,
        uid: 6,
        gid: 7,
        mode: 0o040755,
        nlink: 9,
        is_dir: true,
        is_link: false,
    };
    let e = statx_entry(1u8, b"a\xff", Some(st), false);
    assert_eq!((e.path, e.name.as_str(), e.is_dir, e.is_link), (1, "a\u{fffd}", true, false));
    let m = e.meta.unwrap();
    assert_eq!((m.own, m.size, m.blocks, m.mtime), (4096, 1000, 8, -3));
    assert_eq!((m.ino, m.dev, m.uid, m.gid, m.mode, m.nlink), (4, 5, 6, 7, 0o040755, 9));
    assert_eq!(statx_entry(1u8, b"a", Some(st), true).meta.unwrap().own, 1000);
    let none = statx_entry("p", "é".as_bytes(), None, false);
    assert_eq!((none.path, none.name.as_str(), none.is_dir, none.is_link), ("p", "é", false, false));
    assert!(none.meta.is_none());
}

#[test]
fn devices_are_renumbered() {
    let v = renumber_devices(vec![
        entry("/a", true, Some(meta(1, 2, 0x0803, 4))),
        entry("/b", false, None),
    ]);
    assert_eq!(v.len(), 2);
    assert_eq!((v[0].path.as_str(), v[0].name.as_str(), v[0].is_dir), ("/a", "a", true));
    let m = v[0].meta.unwrap();
    assert_eq!((m.own, m.nlink, m.dev, m.ino), (1, 2, (8 << 32) | 3, 4));
    assert_eq!(m.dev, statx_dev(0x0803));
    assert!(v[1].meta.is_none());
}
