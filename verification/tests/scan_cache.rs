use sdirstat::arena::Cfg;
use sdirstat::scan_cache::{cache_key, mtime_nanos, ScanCache, SCAN_CACHE_CAP};

fn cfg(top: usize, max_depth: u32, apparent: bool) -> Cfg {
    Cfg {
        max_depth,
        top,
        threads: 0,
        apparent,
        no_stat: false,
        iouring: false,
        max_entries: 1,
        one_fs: false,
    }
}

fn put(c: &mut ScanCache, key: &str, body: &str, now: Option<i128>) {
    c.store(key.to_string(), body.to_string(), now);
}

#[test]
fn keys() {
    assert_eq!(cache_key("/usr", &cfg(80, 40, false)), "/usr|t80|d40|a0");
    assert_eq!(cache_key("/usr", &cfg(80, 40, true)), "/usr|t80|d40|a1");
    assert_ne!(cache_key("/u|t1", &cfg(2, 3, true)), cache_key("/u", &cfg(1, 3, true)));
    assert_ne!(cache_key("/usr", &cfg(8, 40, true)), cache_key("/usr", &cfg(80, 40, true)));
}

#[test]
fn modification_times() {
    assert_eq!(mtime_nanos(1, 5), 1_000_000_005);
    assert_eq!(mtime_nanos(-1, 5), -999_999_995);
    assert_eq!(mtime_nanos(i64::MAX, 999_999_999), i64::MAX as i128 * 1_000_000_000 + 999_999_999);
}

#[test]
fn stored_is_served_while_unchanged() {
    let mut c = ScanCache::new();
    assert_eq!(c.len(), 0);
    assert_eq!(c.lookup("k", Some(1), false), None);
    put(&mut c, "k", "body", Some(1));
    assert_eq!(c.lookup("k", Some(1), false), Some("body".to_string()));
    assert_eq!(c.lookup("k", Some(2), false), None);
    assert_eq!(c.lookup("k", None, false), None);
    assert_eq!(c.lookup("k", Some(1), true), None);
    assert_eq!(c.lookup("other", Some(1), false), None);
    put(&mut c, "k", "new", Some(2));
    assert_eq!(c.len(), 1);
    assert_eq!(c.lookup("k", Some(2), false), Some("new".to_string()));
}

#[test]
fn a_directory_that_was_gone_is_never_served() {
    let mut c = ScanCache::new();
    put(&mut c, "k", "body", None);
    assert_eq!(c.lookup("k", None, false), None);
    assert_eq!(c.lookup("k", Some(0), false), None);
}

#[test]
fn the_one_used_longest_ago_makes_room() {
    let mut c = ScanCache::new();
    for i in 0..SCAN_CACHE_CAP {
        put(&mut c, &format!("k{i}"), "b", Some(i as i128));
    }
    assert_eq!(c.len(), SCAN_CACHE_CAP);
    // k0 is used, so k1 is the next to go
    assert!(c.lookup("k0", Some(0), false).is_some());
    // storing under a key that is there displaces nothing else
    put(&mut c, "k5", "again", Some(5));
    assert_eq!(c.len(), SCAN_CACHE_CAP);
    put(&mut c, "new", "n", Some(9));
    assert_eq!(c.len(), SCAN_CACHE_CAP);
    assert_eq!(c.lookup("k1", Some(1), false), None);
    assert!(c.lookup("k0", Some(0), false).is_some());
    assert_eq!(c.lookup("k5", Some(5), false), Some("again".to_string()));
    for i in 2..SCAN_CACHE_CAP {
        assert!(c.lookup(&format!("k{i}"), Some(i as i128), false).is_some());
    }
}
