use sdirstat::sweep::{Step, Sweep};
use std::collections::VecDeque;

const DIR: u8 = 4;
const FILE: u8 = 8;

fn list(dir: &[u8]) -> Vec<(&'static [u8], u8)> {
    match dir {
        b"/r" => vec![(b"a", DIR), (b"f", FILE), (b"b", DIR), (b"gone", DIR)],
        b"/r/a" => vec![(b"x", FILE), (b"d", DIR), (b"y", FILE)],
        b"/r/a/d" => vec![(b"z", FILE)],
        b"/r/gone" => vec![(b"never", FILE)],
        _ => vec![],
    }
}

fn stat(path: &[u8]) -> Option<u64> {
    match path {
        b"/r/gone\0" | b"/r/a/y\0" => None,
        p => Some(p.len() as u64),
    }
}

struct Run {
    sweep: Sweep,
    pending: VecDeque<(u32, Vec<u8>)>,
    submitted: VecDeque<(u32, Vec<u8>)>,
    seed: u64,
}

impl Run {
    fn submit(&mut self, n: u32) {
        for _ in 0..n {
            let p = self.pending.pop_front().unwrap();
            self.submitted.push_back(p);
        }
    }

    /// Answers some of the submitted requests, at least `least` of them, in some order.
    fn answer(&mut self, least: usize) {
        let mut done = 0;
        while !self.submitted.is_empty() {
            self.seed = self.seed.wrapping_mul(6364136223846793005).wrapping_add(1442695040888963407);
            if done >= least && (self.seed >> 40) % 2 == 0 {
                break;
            }
            let k = (self.seed >> 33) as usize % self.submitted.len();
            let (slot, path) = self.submitted.remove(k).unwrap();
            let (res, blocks) = match stat(&path) {
                Some(b) => (0, b),
                None => (-2, 99),
            };
            assert!(self.sweep.accepts(slot as u64, res, blocks));
            self.sweep.complete(slot, res, blocks);
            done += 1;
        }
        assert!(done >= least);
    }
}

fn sweep(qd: u32, seed: u64) -> (u64, u64, u32, Vec<Vec<u8>>) {
    let mut r = Run {
        sweep: Sweep::new(b"/r", qd),
        pending: VecDeque::new(),
        submitted: VecDeque::new(),
        seed,
    };
    let mut listed = Vec::new();
    loop {
        match r.sweep.next() {
            Step::Done => break,
            Step::Enter { submit, wait } => {
                r.submit(submit);
                r.answer(wait as usize);
            }
            Step::List(dir) => {
                for (name, d_type) in list(&dir) {
                    while let Some(submit) = r.sweep.starved() {
                        r.submit(submit);
                        r.answer(1);
                    }
                    let (slot, path) = r.sweep.add_entry(&dir, name, d_type);
                    r.pending.push_back((slot, path));
                    if let Some(submit) = r.sweep.batch_is_full() {
                        r.submit(submit);
                        r.answer(0);
                    }
                }
                listed.push(dir);
            }
        }
    }
    listed.sort();
    let (total, entries, peak) = r.sweep.result();
    (total, entries, peak, listed)
}

#[test]
fn every_sweep_counts_the_same() {
    let dirs: Vec<Vec<u8>> =
        vec![b"/r".to_vec(), b"/r/a".to_vec(), b"/r/a/d".to_vec(), b"/r/b".to_vec()];
    // the answered paths, each with the zero byte at its end
    let blocks: u64 =
        ["/r/a", "/r/f", "/r/b", "/r/a/x", "/r/a/d", "/r/a/d/z"].iter().map(|p| p.len() as u64 + 1).sum();
    for qd in 1..9 {
        for seed in 0..60 {
            let (total, entries, peak, listed) = sweep(qd, seed);
            assert_eq!(listed, dirs);
            assert_eq!(entries, 8);
            assert_eq!(total, blocks * 512);
            assert!(peak >= 1 && peak <= qd && peak as u64 <= entries);
        }
    }
}
