use sdirstat::batch::{Action, Batch, SUBMIT_AT};
use sdirstat::uring::{decode_cqe, decode_statx, read_dir, statx_dev, Ring, Stat, SQE_SIZE, STATX_SIZEOF};

fn put(b: &mut [u8], at: usize, bytes: &[u8]) {
    b[at..at + bytes.len()].copy_from_slice(bytes);
}

#[test]
fn statx_buffers() {
    let mut b = vec![0u8; STATX_SIZEOF];
    put(&mut b, 16, &3u32.to_le_bytes());
    put(&mut b, 20, &1000u32.to_le_bytes());
    put(&mut b, 24, &100u32.to_le_bytes());
    put(&mut b, 28, &0o040755u16.to_le_bytes());
    put(&mut b, 32, &0x1122334455667788u64.to_le_bytes());
    put(&mut b, 40, &4096u64.to_le_bytes());
    put(&mut b, 48, &8u64.to_le_bytes());
    put(&mut b, 112, &(-5i64).to_le_bytes());
    put(&mut b, 136, &8u32.to_le_bytes());
    put(&mut b, 140, &1u32.to_le_bytes());
    let s = decode_statx(&b);
    assert_eq!((s.nlink, s.uid, s.gid, s.mode), (3, 1000, 100, 0o040755));
    assert_eq!((s.ino, s.size, s.blocks, s.mtime), (0x1122334455667788, 4096, 8, -5));
    assert_eq!(s.dev, (8 << 32) | 1);
    assert!(s.is_dir && !s.is_link);
    put(&mut b, 28, &0o120777u16.to_le_bytes());
    let l = decode_statx(&b);
    assert!(!l.is_dir && l.is_link);
}

#[test]
fn empty_stat() {
    let s = Stat::default();
    assert_eq!((s.size, s.nlink, s.is_dir), (0, 0, false));
}

#[test]
fn devices() {
    // major 8, minor 1
    assert_eq!(statx_dev(0x801), (8 << 32) | 1);
    // major 0x12345, minor 0x6789a
    let d: u64 = 0x9a | (0x345 << 8) | ((0x678u64) << 20) | ((0x12u64) << 44);
    assert_eq!(statx_dev(d), (0x12345 << 32) | 0x6789a);
}

fn record(name: &[u8], d_type: u8, pad: usize) -> Vec<u8> {
    let len = 19 + name.len() + 1 + pad;
    let mut r = vec![0u8; len];
    put(&mut r, 16, &(len as u16).to_le_bytes());
    r[18] = d_type;
    put(&mut r, 19, name);
    r
}

#[test]
fn directory_records() {
    let mut b = record(b".", 4, 4);
    b.extend(record(b"..", 4, 0));
    b.extend(record(b"file", 8, 3));
    b.extend(record(b"...", 4, 1));
    b.extend(record(&[0xff, b'x'], 10, 0));
    let v = read_dir(&b).unwrap();
    assert_eq!(
        v,
        vec![(b"file".to_vec(), 8), (b"...".to_vec(), 4), (vec![0xff, b'x'], 10)]
    );
    assert_eq!(read_dir(&[]), Some(vec![]));
}

#[test]
fn broken_directory_records() {
    let r = record(b"file", 8, 0);
    // cut short
    assert_eq!(read_dir(&r[..r.len() - 1]), None);
    assert_eq!(read_dir(&r[..10]), None);
    // a length that leads nowhere
    let mut z = r.clone();
    put(&mut z, 16, &0u16.to_le_bytes());
    assert_eq!(read_dir(&z), None);
    // a name that does not end
    let mut e = r;
    let n = e.len();
    e[n - 1] = b'x';
    assert_eq!(read_dir(&e), None);
}

fn params(single: u32) -> Vec<u8> {
    let mut p = vec![0u8; 120];
    put(&mut p, 0, &256u32.to_le_bytes());
    put(&mut p, 4, &512u32.to_le_bytes());
    put(&mut p, 20, &single.to_le_bytes());
    put(&mut p, 44, &4u32.to_le_bytes());
    put(&mut p, 48, &16u32.to_le_bytes());
    put(&mut p, 64, &8768u32.to_le_bytes());
    put(&mut p, 80, &8u32.to_le_bytes());
    put(&mut p, 84, &12u32.to_le_bytes());
    put(&mut p, 88, &20u32.to_le_bytes());
    put(&mut p, 100, &64u32.to_le_bytes());
    p
}

#[test]
fn ring_layout() {
    let r = Ring::setup(&params(1));
    assert_eq!((r.sq_entries, r.cq_entries, r.single), (256, 512, true));
    assert_eq!((r.o_sq_tail, r.o_sq_mask, r.o_sq_array), (4, 16, 8768));
    assert_eq!((r.o_cq_head, r.o_cq_tail, r.o_cq_mask, r.o_cqes), (8, 12, 20, 64));
    assert_eq!(r.cq_map_size(), 64 + 512 * 16);
    assert_eq!(r.sq_map_size(), 8768 + 256 * 4);
    assert_eq!(r.sqes_map_size(), 256 * 64);
    let mut big = params(1);
    put(&mut big, 4, &4096u32.to_le_bytes());
    assert_eq!(Ring::setup(&big).sq_map_size(), 64 + 4096 * 16);
    let mut apart = params(0);
    put(&mut apart, 4, &4096u32.to_le_bytes());
    assert!(!Ring::setup(&apart).single);
    assert_eq!(Ring::setup(&apart).sq_map_size(), 8768 + 256 * 4);
}

#[test]
fn statx_requests() {
    let q = Ring::queue_statx(-100, 0x1000, 0x2000, 7);
    assert_eq!(q.len(), SQE_SIZE);
    let mut want = vec![0u8; 64];
    want[0] = 21;
    put(&mut want, 4, &(-100i32).to_le_bytes());
    put(&mut want, 8, &0x2000u64.to_le_bytes());
    put(&mut want, 16, &0x1000u64.to_le_bytes());
    put(&mut want, 24, &0x7ffu32.to_le_bytes());
    put(&mut want, 28, &0x100u32.to_le_bytes());
    put(&mut want, 32, &7u64.to_le_bytes());
    assert_eq!(q, want);
}

#[test]
fn completions() {
    let r = Ring::setup(&params(1));
    assert_eq!(r.sq_array_offset(257, 255), 8768 + 4);
    assert_eq!(r.reap(3, 3, 511), Vec::<u64>::new());
    assert_eq!(r.reap(510, 513, 511), vec![64 + 510 * 16, 64 + 511 * 16, 64]);
    assert_eq!(r.reap(u32::MAX, 1, 511), vec![64 + 511 * 16, 64]);
    let mut c = vec![0u8; 16];
    put(&mut c, 0, &9u64.to_le_bytes());
    put(&mut c, 8, &(-2i32).to_le_bytes());
    assert_eq!(decode_cqe(&c), (9, -2));
}

#[test]
fn every_request_is_queued_and_completed_once() {
    let mut b = Batch::new(4);
    for count in [0usize, 1, 4, 11, 300] {
        b.start(count);
        let mut queued = vec![0u32; count];
        let mut completed = vec![0u32; count];
        let mut flying: Vec<u32> = Vec::new();
        loop {
            match b.step() {
                Action::Queue { slot, entry } => {
                    queued[entry] += 1;
                    assert!(!flying.contains(&slot));
                    flying.push(slot);
                }
                Action::Enter { submit: _, wait } => {
                    assert_eq!(wait, 1);
                    let n = (flying.len() + 1) / 2;
                    for slot in flying.drain(..n) {
                        assert!(b.accepts(slot as u64));
                        completed[b.complete(slot)] += 1;
                        assert!(!b.accepts(slot as u64));
                    }
                }
                Action::Finished => break,
            }
        }
        assert!(flying.is_empty());
        assert!(queued.iter().all(|&q| q == 1));
        assert!(completed.iter().all(|&q| q == 1));
    }
}

#[test]
fn requests_are_submitted_in_batches() {
    let mut b = Batch::new(256);
    b.start(300);
    for i in 0..SUBMIT_AT as usize {
        match b.step() {
            Action::Queue { slot, entry } => {
                assert_eq!(entry, i);
                assert_eq!(slot as usize, i);
            }
            _ => panic!("not queued"),
        }
    }
    assert!(matches!(b.step(), Action::Enter { submit: 128, wait: 0 }));
    for _ in 0..128 {
        assert!(matches!(b.step(), Action::Queue { .. }));
    }
    assert!(matches!(b.step(), Action::Enter { submit: 128, wait: 0 }));
    assert!(matches!(b.step(), Action::Enter { submit: 0, wait: 1 }));
    assert!(!b.accepts(256));
}
