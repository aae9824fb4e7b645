//! What the kernel hands over and takes: `statx` buffers, directory records, and the layout of an
//! io_uring instance, as plain bytes.

use vstd::prelude::*;

verus! {

/// The size of a `statx` buffer.
pub const STATX_SIZEOF: usize = 256;

/// The directory record type of a directory.
pub const DT_DIR: u8 = 4;

/// How many `statx` requests one thread keeps in flight.
pub const IOURING_QD: u32 = 256;

/// The size of the parameter block of `io_uring_setup`.
pub const PARAMS_SIZEOF: usize = 120;

/// The size of a submission queue entry.
pub const SQE_SIZE: usize = 64;

/// The opcode of a `statx` request.
pub const IORING_OP_STATX: u8 = 21;

/// Which fields a `statx` request asks for.
pub const STATX_BASIC_STATS: u32 = 0x7ff;

/// Do not follow a symbolic link at the end of the path.
pub const AT_SYMLINK_NOFOLLOW: u32 = 0x100;

/// Both rings share one mapping.
pub const IORING_FEAT_SINGLE_MMAP: u32 = 1;

/// The bits of a mode that hold the file type.
pub const S_IFMT: u32 = 0o170000;

/// The type of a directory.
pub const S_IFDIR: u32 = 0o040000;

/// The type of a symbolic link.
pub const S_IFLNK: u32 = 0o120000;

// ── little-endian numbers ──

/// The number that `n` bytes from `at` on hold, the lowest byte first.
pub open spec fn number_at(b: Seq<u8>, at: int, n: nat) -> nat
    decreases n,
{
    if n == 0 {
        0
    } else {
        b[at] as nat + 256 * number_at(b, at + 1, (n - 1) as nat)
    }
}

/// The bytes of `v`, the lowest byte first.
pub open spec fn number_bytes(v: nat, n: nat) -> Seq<u8>
    decreases n,
{
    if n == 0 {
        seq![]
    } else {
        seq![(v % 256) as u8] + number_bytes(v / 256, (n - 1) as nat)
    }
}

proof fn lemma_number_8(b: Seq<u8>, at: int)
    ensures
        number_at(b, at, 8) == b[at] + 256 * (b[at + 1] + 256 * (b[at + 2] + 256 * (b[at + 3] + 256
            * (b[at + 4] + 256 * (b[at + 5] + 256 * (b[at + 6] + 256 * b[at + 7])))))),
        number_at(b, at, 4) == b[at] + 256 * (b[at + 1] + 256 * (b[at + 2] + 256 * b[at + 3])),
        number_at(b, at, 2) == b[at] + 256 * b[at + 1],
{
    reveal_with_fuel(number_at, 9);
}

proof fn lemma_number_bytes_len(v: nat, n: nat)
    ensures
        number_bytes(v, n).len() == n,
    decreases n,
{
    if n > 0 {
        lemma_number_bytes_len(v / 256, (n - 1) as nat);
    }
}

/// Reading a number gives back the number that was written.
pub proof fn law_number_reads_back(v: nat, n: nat, before: Seq<u8>, after: Seq<u8>)
    requires
        v < vstd::arithmetic::power::pow(256, n),
    ensures
        number_at(before + number_bytes(v, n) + after, before.len() as int, n) == v,
    decreases n,
{
    broadcast use vstd::arithmetic::power::lemma_pow0;

    if n > 0 {
        let b = before + number_bytes(v, n) + after;
        let m = (n - 1) as nat;
        let low = seq![(v % 256) as u8];
        vstd::arithmetic::power::lemma_pow_adds(256, 1, m);
        vstd::arithmetic::power::lemma_pow1(256);
        assert(v / 256 < vstd::arithmetic::power::pow(256, m)) by (nonlinear_arith)
            requires
                v < 256 * vstd::arithmetic::power::pow(256, m),
                v >= 0,
        ;
        law_number_reads_back(v / 256, m, before + low, after);
        assert(b == before + low + number_bytes(v / 256, m) + after);
        assert(b[before.len() as int] == (v % 256) as u8);
    }
}

fn read_u16(b: &[u8], at: usize) -> (r: u16)
    requires
        at + 2 <= b@.len(),
    ensures
        r == number_at(b@, at as int, 2),
{
    proof {
        lemma_number_8(b@, at as int);
    }
    b[at] as u16 + 256 * (b[at + 1] as u16)
}

fn read_u32(b: &[u8], at: usize) -> (r: u32)
    requires
        at + 4 <= b@.len(),
    ensures
        r == number_at(b@, at as int, 4),
{
    proof {
        lemma_number_8(b@, at as int);
    }
    b[at] as u32 + 256 * (b[at + 1] as u32 + 256 * (b[at + 2] as u32 + 256 * (b[at + 3] as u32)))
}

fn read_u64(b: &[u8], at: usize) -> (r: u64)
    requires
        at + 8 <= b@.len(),
    ensures
        r == number_at(b@, at as int, 8),
{
    proof {
        lemma_number_8(b@, at as int);
    }
    b[at] as u64 + 256 * (b[at + 1] as u64 + 256 * (b[at + 2] as u64 + 256 * (b[at + 3] as u64 + 256
        * (b[at + 4] as u64 + 256 * (b[at + 5] as u64 + 256 * (b[at + 6] as u64 + 256 * (
    b[at + 7] as u64)))))))
}

/// Appends the `n` lowest bytes of `v`, the lowest first.
fn put_number(out: &mut Vec<u8>, v: u64, n: u32)
    ensures
        final(out)@ == old(out)@ + number_bytes(v as nat, n as nat),
{
    let mut r: u64 = v;
    let mut k: u32 = n;
    assert(out@ + number_bytes(r as nat, k as nat) == old(out)@ + number_bytes(v as nat, n as nat));
    while k > 0
        invariant
            out@ + number_bytes(r as nat, k as nat) == old(out)@ + number_bytes(v as nat, n as nat),
        decreases k,
    {
        let ghost before = out@;
        out.push((r % 256) as u8);
        proof {
            assert(before + number_bytes(r as nat, k as nat) == out@ + number_bytes(
                (r / 256) as nat,
                (k - 1) as nat,
            ));
        }
        r = r / 256;
        k = k - 1;
    }
}

// ── stat ──

/// What is known of one file.
#[derive(Clone, Copy)]
pub struct Stat {
    /// The apparent size.
    pub size: u64,
    /// The number of allocated 512-byte blocks.
    pub blocks: u64,
    /// The modification time in seconds.
    pub mtime: i64,
    /// The inode.
    pub ino: u64,
    /// The device.
    pub dev: u64,
    /// The owner.
    pub uid: u32,
    /// The group.
    pub gid: u32,
    /// Type and permission bits.
    pub mode: u32,
    /// The number of hard links.
    pub nlink: u64,
    /// Whether the file is a directory.
    pub is_dir: bool,
    /// Whether the file is a symbolic link.
    pub is_link: bool,
}

/// What a `statx` buffer says.
pub open spec fn statx_of(b: Seq<u8>) -> Stat {
    let mode = number_at(b, 28, 2) as u32;
    Stat {
        size: number_at(b, 40, 8) as u64,
        blocks: number_at(b, 48, 8) as u64,
        mtime: (number_at(b, 112, 8) as u64) as i64,
        ino: number_at(b, 32, 8) as u64,
        dev: (number_at(b, 136, 4) * 0x1_0000_0000 + number_at(b, 140, 4)) as u64,
        uid: number_at(b, 20, 4) as u32,
        gid: number_at(b, 24, 4) as u32,
        mode: mode,
        nlink: number_at(b, 16, 4) as u64,
        is_dir: mode & S_IFMT == S_IFDIR,
        is_link: mode & S_IFMT == S_IFLNK,
    }
}

impl Default for Stat {
    fn default() -> (r: Stat)
        ensures
            r == (Stat {
                size: 0,
                blocks: 0,
                mtime: 0,
                ino: 0,
                dev: 0,
                uid: 0,
                gid: 0,
                mode: 0,
                nlink: 0,
                is_dir: false,
                is_link: false,
            }),
    {
        Stat {
            size: 0,
            blocks: 0,
            mtime: 0,
            ino: 0,
            dev: 0,
            uid: 0,
            gid: 0,
            mode: 0,
            nlink: 0,
            is_dir: false,
            is_link: false,
        }
    }
}

/// Reads a `statx` buffer. The device is its major number in the upper and its minor number in the
/// lower half.
pub fn decode_statx(p: &[u8]) -> (r: Stat)
    requires
        p@.len() >= STATX_SIZEOF,
    ensures
        r == statx_of(p@),
{
    let mode = read_u16(p, 28) as u32;
    let fmt = mode & S_IFMT;
    let major = read_u32(p, 136) as u64;
    let minor = read_u32(p, 140) as u64;
    Stat {
        size: read_u64(p, 40),
        blocks: read_u64(p, 48),
        mtime: read_u64(p, 112) as i64,
        ino: read_u64(p, 32),
        dev: major * 0x1_0000_0000 + minor,
        uid: read_u32(p, 20),
        gid: read_u32(p, 24),
        mode: mode,
        nlink: read_u32(p, 16) as u64,
        is_dir: fmt == S_IFDIR,
        is_link: fmt == S_IFLNK,
    }
}

/// The major number of a device as `stat` encodes it: the minor number's low byte is below the major
/// number's low 12 bits, and the upper 20 bits of both stand in the upper half, the major's highest.
pub open spec fn dev_major(d: nat) -> nat {
    (d / 0x1000_0000_0000) * 0x1000 + (d / 0x100) % 0x1000
}

/// The minor number of a device as `stat` encodes it.
pub open spec fn dev_minor(d: nat) -> nat {
    (d / 0x10_0000) % 0x100_0000 * 0x100 + d % 0x100
}

/// The number of a device as `statx` reports it: the major number in the upper half, the minor
/// number in the lower one.
pub open spec fn statx_number(d: u64) -> u64 {
    (dev_major(d as nat) * 0x1_0000_0000 + dev_minor(d as nat)) as u64
}

/// Devices that `stat` tells apart, `statx` tells apart too.
pub proof fn law_statx_tells_devices_apart(a: u64, b: u64)
    ensures
        statx_number(a) == dev_major(a as nat) * 0x1_0000_0000 + dev_minor(a as nat),
        statx_number(a) == statx_number(b) <==> a == b,
{
    lemma_device_parts(a);
    lemma_device_parts(b);
}

proof fn lemma_device_parts(d: u64)
    ensures
        dev_major(d as nat) <= u32::MAX,
        dev_minor(d as nat) <= u32::MAX,
        d == (dev_major(d as nat) / 0x1000) * 0x1000_0000_0000 + (dev_minor(d as nat) / 0x100)
            * 0x10_0000 + (dev_major(d as nat) % 0x1000) * 0x100 + dev_minor(d as nat) % 0x100,
{
    let n = d as int;
    let a = n / 0x1000_0000_0000;
    let b = (n / 0x10_0000) % 0x100_0000;
    let c = (n / 0x100) % 0x1000;
    let e = n % 0x100;
    assert((n / 0x100) / 0x1000 == n / 0x10_0000);
    assert((n / 0x10_0000) / 0x100_0000 == a);
    assert(a < 0x10_0000);
    assert(n == a * 0x1000_0000_0000 + b * 0x10_0000 + c * 0x100 + e);
    assert((a * 0x1000 + c) / 0x1000 == a && (a * 0x1000 + c) % 0x1000 == c);
    assert((b * 0x100 + e) / 0x100 == b && (b * 0x100 + e) % 0x100 == e);
}

/// A device as `statx` reports it, from the same device as `stat` encodes it.
pub fn statx_dev(d: u64) -> (r: u64)
    ensures
        r == dev_major(d as nat) * 0x1_0000_0000 + dev_minor(d as nat),
        r == statx_number(d),
{
    let major: u64 = (d / 0x1000_0000_0000) * 0x1000 + (d / 0x100) % 0x1000;
    let minor: u64 = (d / 0x10_0000) % 0x100_0000 * 0x100 + d % 0x100;
    major * 0x1_0000_0000 + minor
}

// ── directory records ──

/// The number of bytes before the first zero byte, or all of them.
pub open spec fn zero_at(b: Seq<u8>) -> int
    decreases b.len(),
{
    if b.len() == 0 || b[0] == 0 {
        0
    } else {
        1 + zero_at(b.drop_first())
    }
}

/// Whether a name stands for the directory itself or the one above it.
pub open spec fn is_dot(name: Seq<u8>) -> bool {
    name == seq![0x2eu8] || name == seq![0x2eu8, 0x2eu8]
}

/// Whether `b` starts with a record: its length stands at 16, its type at 18 and its name, which a
/// zero byte ends, from 19 on.
pub open spec fn starts_with_record(b: Seq<u8>) -> bool {
    let len = number_at(b, 16, 2);
    b.len() >= 20 && 20 <= len <= b.len() && 19 + zero_at(b.skip(19)) < len
}

/// The name of the record at the start of `b`.
pub open spec fn record_name(b: Seq<u8>) -> Seq<u8> {
    b.subrange(19, 19 + zero_at(b.skip(19)))
}

/// Names and types of the records of a buffer, without those of the directory itself and the one
/// above it; nothing where the buffer is not made of records.
pub open spec fn records(b: Seq<u8>) -> Option<Seq<(Seq<u8>, u8)>>
    decreases b.len(),
{
    if b.len() == 0 {
        Some(seq![])
    } else if !starts_with_record(b) {
        None
    } else {
        match records(b.skip(number_at(b, 16, 2) as int)) {
            Some(rest) => Some(
                if is_dot(record_name(b)) {
                    rest
                } else {
                    seq![(record_name(b), b[18])] + rest
                },
            ),
            None => None,
        }
    }
}

/// Names and types as mathematical values.
pub open spec fn entry_views(v: Seq<(Vec<u8>, u8)>) -> Seq<(Seq<u8>, u8)> {
    Seq::new(v.len(), |i: int| (v[i].0@, v[i].1))
}

/// The position of the first zero byte at or after `from`, or the end.
fn find_zero(b: &[u8], from: usize) -> (r: usize)
    requires
        from <= b@.len(),
    ensures
        from <= r <= b@.len(),
        r - from == zero_at(b@.skip(from as int)),
{
    let mut i: usize = from;
    while i < b.len() && b[i] != 0
        invariant
            from <= i <= b@.len(),
            zero_at(b@.skip(from as int)) == i - from + zero_at(b@.skip(i as int)),
        decreases b@.len() - i,
    {
        assert(b@.skip(i as int).drop_first() == b@.skip(i + 1));
        i = i + 1;
    }
    i
}

/// Reads the directory records of a buffer.
pub fn read_dir(b: &[u8]) -> (r: Option<Vec<(Vec<u8>, u8)>>)
    ensures
        match r {
            Some(v) => records(b@) == Some(entry_views(v@)),
            None => records(b@) is None,
        },
{
    let n = b.len();
    let mut out: Vec<(Vec<u8>, u8)> = Vec::new();
    let mut off: usize = 0;
    assert(b@.skip(0) == b@);
    proof {
        if records(b@) is Some {
            assert(entry_views(out@) + records(b@)->0 == records(b@)->0);
        }
    }
    while off < n
        invariant
            n == b@.len(),
            off <= n,
            records(b@) is Some <==> records(b@.skip(off as int)) is Some,
            records(b@) is Some ==> records(b@)->0 == entry_views(out@) + records(
                b@.skip(off as int),
            )->0,
        decreases n - off,
    {
        let ghost s = b@.skip(off as int);
        if n - off < 20 {
            return None;
        }
        proof {
            lemma_number_8(b@, off + 16);
            lemma_number_8(s, 16);
            assert(s[16] == b@[off + 16] && s[17] == b@[off + 17]);
        }
        let reclen = read_u16(b, off + 16) as usize;
        if reclen < 20 || reclen > n - off {
            return None;
        }
        let end = find_zero(b, off + 19);
        assert(s.skip(19) == b@.skip(off + 19));
        if end >= off + reclen {
            return None;
        }
        let ghost name = record_name(s);
        let ghost before = out@;
        let len: usize = end - (off + 19);
        let at: usize = off + 19;
        let dot = (len == 1 && b[at] == 0x2e) || (len == 2 && b[at] == 0x2e && b[at + 1] == 0x2e);
        proof {
            assert(name.len() == len);
            assert forall|i: int| 0 <= i < len implies name[i] == b@[at + i] by {}
            if dot {
                assert(len == 1 ==> name == seq![0x2eu8]);
                assert(len == 2 ==> name == seq![0x2eu8, 0x2eu8]);
            } else {
                assert(!is_dot(name));
            }
            assert(s.skip(reclen as int) == b@.skip(off + reclen));
        }
        if !dot {
            let mut bytes: Vec<u8> = Vec::with_capacity(len);
            let mut i: usize = 0;
            while i < len
                invariant
                    i <= len,
                    n == b@.len(),
                    at + len <= n,
                    bytes@ == b@.subrange(at as int, at + i),
                decreases len - i,
            {
                bytes.push(b[at + i]);
                i = i + 1;
                assert(bytes@ == b@.subrange(at as int, at + i));
            }
            assert(bytes@ == name);
            out.push((bytes, b[off + 18]));
            proof {
                assert(entry_views(out@) == entry_views(before).push((name, s[18])));
                if records(b@) is Some {
                    let rest = records(b@.skip(off + reclen))->0;
                    assert(entry_views(before) + (seq![(name, s[18])] + rest) == entry_views(out@)
                        + rest);
                }
            }
        }
        off = off + reclen;
    }
    proof {
        assert(records(b@.skip(off as int)) == Some(Seq::<(Seq<u8>, u8)>::empty()));
        assert(entry_views(out@) + Seq::<(Seq<u8>, u8)>::empty() == entry_views(out@));
    }
    Some(out)
}

// ── the ring ──

/// The layout of an io_uring instance: where, in bytes, its parts stand in the two ring mappings.
#[derive(Clone, Copy)]
pub struct Ring {
    /// The number of submission entries.
    pub sq_entries: u32,
    /// The number of completion entries.
    pub cq_entries: u32,
    /// Whether both rings share one mapping.
    pub single: bool,
    /// The tail of the submission ring.
    pub o_sq_tail: u32,
    /// The mask of the submission ring.
    pub o_sq_mask: u32,
    /// The indices of the submission ring.
    pub o_sq_array: u32,
    /// The head of the completion ring.
    pub o_cq_head: u32,
    /// The tail of the completion ring.
    pub o_cq_tail: u32,
    /// The mask of the completion ring.
    pub o_cq_mask: u32,
    /// The entries of the completion ring.
    pub o_cqes: u32,
}

/// The layout that a parameter block describes.
pub open spec fn ring_of(p: Seq<u8>) -> Ring {
    Ring {
        sq_entries: number_at(p, 0, 4) as u32,
        cq_entries: number_at(p, 4, 4) as u32,
        single: number_at(p, 20, 4) as u32 & IORING_FEAT_SINGLE_MMAP != 0,
        o_sq_tail: number_at(p, 44, 4) as u32,
        o_sq_mask: number_at(p, 48, 4) as u32,
        o_sq_array: number_at(p, 64, 4) as u32,
        o_cq_head: number_at(p, 80, 4) as u32,
        o_cq_tail: number_at(p, 84, 4) as u32,
        o_cq_mask: number_at(p, 88, 4) as u32,
        o_cqes: number_at(p, 100, 4) as u32,
    }
}

/// A `statx` request relative to directory `dirfd`: the kernel reads the path at address `path`,
/// writes the answer to address `buf`, and returns `ud` with the completion.
pub open spec fn statx_request(dirfd: i32, path: u64, buf: u64, ud: u64) -> Seq<u8> {
    seq![IORING_OP_STATX, 0u8, 0u8, 0u8] + number_bytes((dirfd as u32) as nat, 4) + number_bytes(
        buf as nat,
        8,
    ) + number_bytes(path as nat, 8) + number_bytes(STATX_BASIC_STATS as nat, 4) + number_bytes(
        AT_SYMLINK_NOFOLLOW as nat,
        4,
    ) + number_bytes(ud as nat, 8) + number_bytes(0, 8) + number_bytes(0, 8) + number_bytes(0, 8)
}

impl Ring {
    /// Reads the parameter block that the kernel filled in.
    pub fn setup(params: &[u8]) -> (r: Ring)
        requires
            params@.len() >= PARAMS_SIZEOF,
        ensures
            r == ring_of(params@),
    {
        Ring {
            sq_entries: read_u32(params, 0),
            cq_entries: read_u32(params, 4),
            single: read_u32(params, 20) & IORING_FEAT_SINGLE_MMAP != 0,
            o_sq_tail: read_u32(params, 44),
            o_sq_mask: read_u32(params, 48),
            o_sq_array: read_u32(params, 64),
            o_cq_head: read_u32(params, 80),
            o_cq_tail: read_u32(params, 84),
            o_cq_mask: read_u32(params, 88),
            o_cqes: read_u32(params, 100),
        }
    }

    /// The size of the submission ring.
    pub open spec fn sq_size(&self) -> nat {
        (self.o_sq_array + self.sq_entries * 4) as nat
    }

    /// The size of the completion ring.
    pub open spec fn cq_size(&self) -> nat {
        (self.o_cqes + self.cq_entries * 16) as nat
    }

    /// How much to map for the submission ring: where both rings share the mapping, as much as the
    /// larger one takes.
    pub fn sq_map_size(&self) -> (r: u64)
        ensures
            r == (if self.single && self.cq_size() > self.sq_size() {
                self.cq_size()
            } else {
                self.sq_size()
            }),
    {
        let sq = self.o_sq_array as u64 + self.sq_entries as u64 * 4;
        let cq = self.cq_map_size();
        if self.single && cq > sq {
            cq
        } else {
            sq
        }
    }

    /// How much to map for the completion ring, where it has a mapping of its own.
    pub fn cq_map_size(&self) -> (r: u64)
        ensures
            r == self.cq_size(),
    {
        self.o_cqes as u64 + self.cq_entries as u64 * 16
    }

    /// How much to map for the submission entries.
    pub fn sqes_map_size(&self) -> (r: u64)
        ensures
            r == self.sq_entries * 64,
    {
        self.sq_entries as u64 * 64
    }

    /// The bytes of a `statx` request.
    pub fn queue_statx(dirfd: i32, path: u64, buf: u64, ud: u64) -> (r: Vec<u8>)
        ensures
            r@ == statx_request(dirfd, path, buf, ud),
            r@.len() == SQE_SIZE,
    {
        let mut r: Vec<u8> = Vec::with_capacity(SQE_SIZE);
        r.push(IORING_OP_STATX);
        r.push(0);
        r.push(0);
        r.push(0);
        assert(r@ == seq![IORING_OP_STATX, 0u8, 0u8, 0u8]);
        put_number(&mut r, dirfd as u32 as u64, 4);
        put_number(&mut r, buf, 8);
        put_number(&mut r, path, 8);
        put_number(&mut r, STATX_BASIC_STATS as u64, 4);
        put_number(&mut r, AT_SYMLINK_NOFOLLOW as u64, 4);
        put_number(&mut r, ud, 8);
        put_number(&mut r, 0, 8);
        put_number(&mut r, 0, 8);
        put_number(&mut r, 0, 8);
        proof {
            lemma_number_bytes_len((dirfd as u32) as nat, 4);
            lemma_number_bytes_len(buf as nat, 8);
            lemma_number_bytes_len(path as nat, 8);
            lemma_number_bytes_len(STATX_BASIC_STATS as nat, 4);
            lemma_number_bytes_len(AT_SYMLINK_NOFOLLOW as nat, 4);
            lemma_number_bytes_len(ud as nat, 8);
            lemma_number_bytes_len(0, 8);
        }
        r
    }

    /// Where the submission ring takes the index of the entry that tail `tail` publishes.
    pub fn sq_array_offset(&self, tail: u32, mask: u32) -> (r: u64)
        ensures
            r == self.o_sq_array + (tail & mask) * 4,
    {
        self.o_sq_array as u64 + (tail & mask) as u64 * 4
    }

    /// Where the completions from `head` up to `tail` stand, in order. Heads and tails count without
    /// end and wrap around.
    pub fn reap(&self, head: u32, tail: u32, mask: u32) -> (r: Vec<u64>)
        ensures
            r@.len() == (tail - head) % 0x1_0000_0000,
            forall|i: int|
                0 <= i < r@.len() ==> #[trigger] r@[i] == self.o_cqes + (((head + i)
                    % 0x1_0000_0000) as u32 & mask) * 16,
    {
        let mut r: Vec<u64> = Vec::new();
        let mut h: u32 = head;
        while h != tail
            invariant
                r@.len() <= (tail - head) % 0x1_0000_0000,
                h == (head + r@.len()) % 0x1_0000_0000,
                forall|i: int|
                    0 <= i < r@.len() ==> #[trigger] r@[i] == self.o_cqes + (((head + i)
                        % 0x1_0000_0000) as u32 & mask) * 16,
            decreases (tail - head) % 0x1_0000_0000 - r@.len(),
        {
            r.push(self.o_cqes as u64 + (h & mask) as u64 * 16);
            h = h.wrapping_add(1);
        }
        r
    }
}

/// The completion at the start of `b`: what the request carried, and its result.
pub fn decode_cqe(b: &[u8]) -> (r: (u64, i32))
    requires
        b@.len() >= 16,
    ensures
        r.0 == number_at(b@, 0, 8),
        r.1 == (number_at(b@, 8, 4) as u32) as i32,
{
    (read_u64(b, 0), read_u32(b, 8) as i32)
}

} // verus!
