use sdirstat::sweep::{Step, Sweep, SWEEP_SUBMIT_AT};

#[test]
fn a_sweep_from_start_to_end() {
    let mut s = Sweep::new(b"/r", 2);
    match s.next() {
        Step::List(p) => assert_eq!(p, b"/r"),
        _ => panic!("nothing to list"),
    }
    assert_eq!(s.starved(), None);
    let (slot, path) = s.add_entry(b"/r", b"d", 4);
    assert_eq!((slot, path), (0, b"/r/d\0".to_vec()));
    assert_eq!(s.batch_is_full(), None);
    let (slot, path) = s.add_entry(b"/r", b"f", 8);
    assert_eq!((slot, path), (1, b"/r/f\0".to_vec()));
    // no slot is free
    assert!(!s.accepts(0, 0, 1));
    assert_eq!(s.starved(), Some(2));
    assert!(s.accepts(1, 0, 3));
    assert!(!s.accepts(2, 0, 3));
    s.complete(1, 0, 3);
    assert!(!s.accepts(1, 0, 3));
    assert_eq!(s.starved(), None);
    let (slot, _) = s.add_entry(b"/r", b"gone", 8);
    assert_eq!(slot, 1);
    match s.next() {
        Step::Enter { submit, wait } => assert_eq!((submit, wait), (1, 0)),
        _ => panic!("not submitted"),
    }
    match s.next() {
        Step::Enter { submit, wait } => assert_eq!((submit, wait), (0, 1)),
        _ => panic!("not waited"),
    }
    s.complete(0, 0, 8);
    s.complete(1, -2, 100);
    match s.next() {
        Step::List(p) => assert_eq!(p, b"/r/d"),
        _ => panic!("directory not listed"),
    }
    assert!(matches!(s.next(), Step::Done));
    assert_eq!(s.result(), (11 * 512, 3, 2));
}

#[test]
fn a_directory_that_cannot_be_read_is_not_listed() {
    let mut s = Sweep::new(b"/", 4);
    assert!(matches!(s.next(), Step::List(_)));
    let (slot, path) = s.add_entry(b"/", b"d", 4);
    assert_eq!(path, b"/d\0".to_vec());
    assert!(matches!(s.next(), Step::Enter { submit: 1, wait: 0 }));
    s.complete(slot, -13, 0);
    assert!(matches!(s.next(), Step::Done));
}

#[test]
fn requests_of_a_sweep_are_submitted_in_batches() {
    let mut s = Sweep::new(b"/", 256);
    for i in 0..SWEEP_SUBMIT_AT {
        assert_eq!(s.batch_is_full(), None);
        assert_eq!(s.add_entry(b"/", b"f", 8).0, i);
    }
    assert_eq!(s.batch_is_full(), Some(64));
    assert_eq!(s.batch_is_full(), None);
    assert_eq!(s.result(), (0, 64, 64));
}

#[test]
fn long_paths_are_cut() {
    let mut s = Sweep::new(b"/", 1);
    let name = vec![b'x'; 5000];
    let (_, path) = s.add_entry(b"/", &name, 8);
    assert_eq!(path.len(), 4096);
    assert_eq!(path[4095], 0);
    assert!(path[1..4095].iter().all(|&b| b == b'x'));
}

#[test]
fn bytes_that_cannot_be_counted() {
    let mut s = Sweep::new(b"/", 1);
    s.add_entry(b"/", b"f", 8);
    let _ = s.starved();
    assert!(s.accepts(0, 0, u64::MAX / 512));
    assert!(!s.accepts(0, 0, u64::MAX / 512 + 1));
    assert!(s.accepts(0, -1, u64::MAX));
}
