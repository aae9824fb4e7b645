//! What is asked of the kernel, and what it answers.

use crate::uring;
use crate::uring::{Ring, Stat};
use vstd::prelude::*;

verus! {

/// The number in two bytes, the lower one first.
pub open spec fn word2(b: Seq<u8>, at: int) -> int {
    b[at] + b[at + 1] * 0x100
}

/// The number in four bytes, the lowest one first.
pub open spec fn word4(b: Seq<u8>, at: int) -> int {
    word2(b, at) + word2(b, at + 2) * 0x1_0000
}

/// The number in eight bytes, the lowest one first.
pub open spec fn word8(b: Seq<u8>, at: int) -> int {
    word4(b, at) + word4(b, at + 4) * 0x1_0000_0000
}

proof fn lemma_words(b: Seq<u8>, at: int)
    ensures
        uring::number_at(b, at, 2) == word2(b, at),
        uring::number_at(b, at, 4) == word4(b, at),
        uring::number_at(b, at, 8) == word8(b, at),
        0 <= word2(b, at) <= 0xffff,
        0 <= word4(b, at) <= 0xffff_ffff,
        0 <= word8(b, at) <= 0xffff_ffff_ffff_ffff,
{
    reveal_with_fuel(uring::number_at, 9);
}

proof fn lemma_file_types(mode: u32)
    by (bit_vector)
    ensures
        mode & 0o170000 == 0o040000 <==> (mode / 4096) % 16 == 4,
        mode & 0o170000 == 0o120000 <==> (mode / 4096) % 16 == 10,
{
}

proof fn lemma_signed(v: u64, w: u32)
    by (bit_vector)
    ensures
        v < 0x8000_0000_0000_0000 ==> v as i64 == v,
        v >= 0x8000_0000_0000_0000 ==> v as i64 == v - 0x1_0000_0000_0000_0000,
        w < 0x8000_0000 ==> w as i32 == w,
        w >= 0x8000_0000 ==> w as i32 == w - 0x1_0000_0000,
{
}

/// The fields of an answer stand at their places, the lowest byte first; the kind is in the upper
/// four bits of the mode, and the time can be before the epoch.
pub proof fn law_answers_are_decoded(p: &[u8], r: Stat)
    requires
        p@.len() >= 256,
        call_ensures(uring::decode_statx, (p,), r),
    ensures
        r.nlink == word4(p@, 16),
        r.uid == word4(p@, 20),
        r.gid == word4(p@, 24),
        r.mode == word2(p@, 28),
        r.ino == word8(p@, 32),
        r.size == word8(p@, 40),
        r.blocks == word8(p@, 48),
        r.mtime == word8(p@, 112) || r.mtime == word8(p@, 112) - 0x1_0000_0000_0000_0000,
        r.dev == word4(p@, 136) * 0x1_0000_0000 + word4(p@, 140),
        r.is_dir <==> (word2(p@, 28) / 4096) % 16 == 4,
        r.is_link <==> (word2(p@, 28) / 4096) % 16 == 10,
{
    lemma_words(p@, 16);
    lemma_words(p@, 20);
    lemma_words(p@, 24);
    lemma_words(p@, 28);
    lemma_words(p@, 32);
    lemma_words(p@, 40);
    lemma_words(p@, 48);
    lemma_words(p@, 112);
    lemma_words(p@, 136);
    lemma_words(p@, 140);
    lemma_file_types(r.mode);
    lemma_signed(word8(p@, 112) as u64, 0);
}

/// A completion has the number of its request, and an outcome that can be negative.
pub proof fn law_completions_are_decoded(b: &[u8], r: (u64, i32))
    requires
        b@.len() >= 16,
        call_ensures(uring::decode_cqe, (b,), r),
    ensures
        r.0 == word8(b@, 0),
        r.1 == word4(b@, 8) || r.1 == word4(b@, 8) - 0x1_0000_0000,
{
    lemma_words(b@, 0);
    lemma_words(b@, 8);
    lemma_signed(0, word4(b@, 8) as u32);
}

proof fn lemma_single(f: u32)
    by (bit_vector)
    ensures
        f & 1 != 0 <==> f % 2 == 1,
{
}

/// The layout of the rings is read from the places of the parameters.
pub proof fn law_rings_are_laid_out(p: &[u8], r: Ring)
    requires
        p@.len() >= 120,
        call_ensures(Ring::setup, (p,), r),
    ensures
        r.sq_entries == word4(p@, 0),
        r.cq_entries == word4(p@, 4),
        r.single <==> word4(p@, 20) % 2 == 1,
        r.o_sq_tail == word4(p@, 44),
        r.o_sq_mask == word4(p@, 48),
        r.o_sq_array == word4(p@, 64),
        r.o_cq_head == word4(p@, 80),
        r.o_cq_tail == word4(p@, 84),
        r.o_cq_mask == word4(p@, 88),
        r.o_cqes == word4(p@, 100),
{
    lemma_words(p@, 0);
    lemma_words(p@, 4);
    lemma_words(p@, 20);
    lemma_words(p@, 44);
    lemma_words(p@, 48);
    lemma_words(p@, 64);
    lemma_words(p@, 80);
    lemma_words(p@, 84);
    lemma_words(p@, 88);
    lemma_words(p@, 100);
    lemma_single(word4(p@, 20) as u32);
}

/// The rings are mapped up to their last slot: four bytes for a submission, sixteen for a
/// completion and sixty-four for a request; where both rings share a mapping, it holds the larger
/// one.
pub proof fn law_sizes_of_mappings(ring: &Ring, sq: u64, cq: u64, sqes: u64)
    requires
        call_ensures(Ring::sq_map_size, (ring,), sq),
        call_ensures(Ring::cq_map_size, (ring,), cq),
        call_ensures(Ring::sqes_map_size, (ring,), sqes),
    ensures
        cq == ring.o_cqes + 16 * ring.cq_entries,
        sqes == 64 * ring.sq_entries,
        !ring.single ==> sq == ring.o_sq_array + 4 * ring.sq_entries,
        ring.single ==> sq >= cq && sq >= ring.o_sq_array + 4 * ring.sq_entries,
        ring.single ==> sq == cq || sq == ring.o_sq_array + 4 * ring.sq_entries,
{
}

/// A submission stands in the slot of its number, counted around the ring.
pub proof fn law_slots_of_submissions(ring: &Ring, tail: u32, mask: u32, r: u64)
    requires
        call_ensures(Ring::sq_array_offset, (ring, tail, mask), r),
    ensures
        r == ring.o_sq_array + 4 * (tail & mask),
        mask == 255 ==> r == ring.o_sq_array + 4 * (tail % 256),
{
    assert(tail & 255 == tail % 256) by (bit_vector);
}

/// The completions between head and tail stand in their slots, counted around the ring and past the
/// largest number.
pub proof fn law_slots_of_completions(
    ring: &Ring,
    head: u32,
    tail: u32,
    mask: u32,
    r: Vec<u64>,
    i: int,
)
    requires
        call_ensures(Ring::reap, (ring, head, tail, mask), r),
    ensures
        head <= tail ==> r@.len() == tail - head,
        head > tail ==> r@.len() == 0x1_0000_0000 - head + tail,
        0 <= i < r@.len() && head + i <= 0xffff_ffff
            ==> r@[i] == ring.o_cqes + 16 * ((head + i) as u32
            & mask),
        0 <= i < r@.len() && mask == 511 && head + i <= 0xffff_ffff
            ==> r@[i] == ring.o_cqes + 16 * (
        (head + i) % 512),
        0 <= i < r@.len() && mask == 511 && head + i > 0xffff_ffff ==> r@[i] == ring.o_cqes + 16 * (
        (head + i - 0x1_0000_0000) % 512),
{
    if 0 <= i < r@.len() {
        let x = ((head + i) % 0x1_0000_0000) as u32;
        assert(x & 511 == x % 512) by (bit_vector);
        assert(r@[i] == ring.o_cqes + (x & mask) * 16);
    }
}

proof fn lemma_written(v: nat)
    ensures
        uring::number_bytes(v, 4).len() == 4,
        uring::number_bytes(v, 8).len() == 8,
        v <= 0xffff_ffff ==> word4(uring::number_bytes(v, 4), 0) == v,
        v <= 0xffff_ffff_ffff_ffff ==> word8(uring::number_bytes(v, 8), 0) == v,
{
    reveal_with_fuel(uring::number_bytes, 9);
    let a = v / 0x100;
    let b = a / 0x100;
    let c = b / 0x100;
    let d = c / 0x100;
    let e = d / 0x100;
    let f = e / 0x100;
    let g = f / 0x100;
    let four = uring::number_bytes(v, 4);
    assert(four =~= seq![
        (v % 256) as u8,
        (a % 256) as u8,
        (b % 256) as u8,
        (c % 256) as u8,
    ]);
    let eight = uring::number_bytes(v, 8);
    assert(eight =~= seq![
        (v % 256) as u8,
        (a % 256) as u8,
        (b % 256) as u8,
        (c % 256) as u8,
        (d % 256) as u8,
        (e % 256) as u8,
        (f % 256) as u8,
        (g % 256) as u8,
    ]);
}

proof fn lemma_word_within(b: Seq<u8>, at: int, part: Seq<u8>)
    requires
        0 <= at,
        at + part.len() <= b.len(),
        b.subrange(at, at + part.len()) == part,
    ensures
        part.len() == 4 ==> word4(b, at) == word4(part, 0),
        part.len() == 8 ==> word8(b, at) == word8(part, 0),
{
    assert forall|i: int| 0 <= i < part.len() implies b[at + i] == #[trigger] part[i] by {
        assert(b.subrange(at, at + part.len())[i] == part[i]);
    }
    if part.len() == 4 || part.len() == 8 {
        assert(b[at + 0] == part[0] && b[at + 1] == part[1] && b[at + 2] == part[2] && b[at + 3]
            == part[3]);
    }
    if part.len() == 8 {
        assert(b[at + 4] == part[4] && b[at + 5] == part[5] && b[at + 6] == part[6] && b[at + 7]
            == part[7]);
    }
}

proof fn lemma_descriptor(d: i32)
    by (bit_vector)
    ensures
        d >= 0 ==> d as u32 == d,
        d < 0 ==> d as u32 == 0x1_0000_0000 + d,
{
}

/// A request asks for the metadata of one path, of the links themselves, in 64 bytes: the kind of
/// the request, the directory, where the answer goes, where the path stands, what is asked for,
/// how, and the number that comes back with the completion.
pub proof fn law_requests_are_written(dirfd: i32, path: u64, buf: u64, ud: u64, r: Vec<u8>, i: int)
    requires
        call_ensures(Ring::queue_statx, (dirfd, path, buf, ud), r),
    ensures
        r@.len() == 64,
        r@[0] == 21,
        1 <= i < 4 ==> r@[i] == 0,
        dirfd >= 0 ==> word4(r@, 4) == dirfd,
        dirfd < 0 ==> word4(r@, 4) == 0x1_0000_0000 + dirfd,
        word8(r@, 8) == buf,
        word8(r@, 16) == path,
        word4(r@, 24) == 0x7ff,
        word4(r@, 28) == 0x100,
        word8(r@, 32) == ud,
        40 <= i < 64 ==> r@[i] == 0,
{
    lemma_descriptor(dirfd);
    lemma_written((dirfd as u32) as nat);
    lemma_written(buf as nat);
    lemma_written(path as nat);
    lemma_written(0x7ff);
    lemma_written(0x100);
    lemma_written(ud as nat);
    lemma_written(0);
    let z = uring::number_bytes(0, 8);
    lemma_zeros();
    let d = uring::number_bytes((dirfd as u32) as nat, 4);
    let b = uring::number_bytes(buf as nat, 8);
    let p = uring::number_bytes(path as nat, 8);
    let m = uring::number_bytes(0x7ff, 4);
    let f = uring::number_bytes(0x100, 4);
    let u = uring::number_bytes(ud as nat, 8);
    assert(r@ =~= seq![21u8, 0u8, 0u8, 0u8] + d + b + p + m + f + u + z + z + z);
    assert(r@.subrange(4, 8) =~= d);
    assert(r@.subrange(8, 16) =~= b);
    assert(r@.subrange(16, 24) =~= p);
    assert(r@.subrange(24, 28) =~= m);
    assert(r@.subrange(28, 32) =~= f);
    assert(r@.subrange(32, 40) =~= u);
    lemma_word_within(r@, 4, d);
    lemma_word_within(r@, 8, b);
    lemma_word_within(r@, 16, p);
    lemma_word_within(r@, 24, m);
    lemma_word_within(r@, 28, f);
    lemma_word_within(r@, 32, u);
    if 40 <= i < 48 {
        assert(r@[i] == z[i - 40]);
    } else if 48 <= i < 56 {
        assert(r@[i] == z[i - 48]);
    } else if 56 <= i < 64 {
        assert(r@[i] == z[i - 56]);
    }
}

proof fn lemma_zeros()
    ensures
        uring::number_bytes(0, 8) == seq![0u8, 0u8, 0u8, 0u8, 0u8, 0u8, 0u8, 0u8],
{
    reveal_with_fuel(uring::number_bytes, 9);
    assert(uring::number_bytes(0, 8) =~= seq![0u8, 0u8, 0u8, 0u8, 0u8, 0u8, 0u8, 0u8]);
}

/// A device has the same number in both forms: from the one in which the low bits of the minor
/// number come first, then those of the major one, then the others, to the one with the major
/// number above the minor.
pub proof fn law_numbers_of_devices(major: u32, minor: u32, d: u64, r: u64)
    requires
        d == minor % 256 + (major % 4096) * 0x100 + (minor / 256) * 0x10_0000 + (major / 4096)
            * 0x1000_0000_0000,
        call_ensures(uring::statx_dev, (d,), r),
    ensures
        r == major * 0x1_0000_0000 + minor,
{
    lemma_parts_of_devices(major as u64, minor as u64, d);
    assert(major == (major / 4096) * 4096 + major % 4096);
    assert(minor == (minor / 256) * 256 + minor % 256);
}

pub(crate) proof fn lemma_parts_of_devices(major: u64, minor: u64, d: u64)
    by (bit_vector)
    requires
        major <= 0xffff_ffff,
        minor <= 0xffff_ffff,
        d == minor % 256 + (major % 4096) * 0x100 + (minor / 256) * 0x10_0000 + (major / 4096)
            * 0x1000_0000_0000,
    ensures
        d / 0x1000_0000_0000 == major / 4096,
        (d / 0x100) % 0x1000 == major % 4096,
        (d / 0x10_0000) % 0x100_0000 == minor / 256,
        d % 0x100 == minor % 256,
{
}

proof fn lemma_zero_at(name: Seq<u8>, rest: Seq<u8>)
    requires
        forall|i: int| 0 <= i < name.len() ==> #[trigger] name[i] != 0,
        rest.len() > 0,
        rest[0] == 0,
    ensures
        uring::zero_at(name + rest) == name.len(),
    decreases name.len(),
{
    let s = name + rest;
    if name.len() == 0 {
        assert(s[0] == rest[0]);
    } else {
        assert(s[0] == name[0]);
        assert(s.drop_first() =~= name.drop_first() + rest);
        assert forall|i: int| 0 <= i < name.drop_first().len() implies #[trigger] name.drop_first()[i]
            != 0 by {
            assert(name.drop_first()[i] == name[i + 1]);
        }
        lemma_zero_at(name.drop_first(), rest);
    }
}

/// A listing is read record by record: each has sixteen bytes, its own length, its kind, and its
/// name up to a zero byte. The names of the directory itself and of the one above it are left out.
pub proof fn law_listings_are_read(
    head: Seq<u8>,
    kind: u8,
    name: Seq<u8>,
    padding: Seq<u8>,
    rest: Seq<u8>,
)
    requires
        head.len() == 18,
        head[16] + head[17] * 0x100 == 20 + name.len() + padding.len(),
        forall|i: int| 0 <= i < name.len() ==> #[trigger] name[i] != 0,
    ensures
        ({
            let b = head + seq![kind] + name + seq![0u8] + padding + rest;
            &&& uring::records(rest) is None ==> uring::records(b) is None
            &&& uring::records(rest) is Some && (name == seq![46u8] || name == seq![46u8, 46u8])
                ==> uring::records(b) == uring::records(rest)
            &&& uring::records(rest) is Some && name != seq![46u8] && name != seq![46u8, 46u8]
                ==> uring::records(b) == Some(seq![(name, kind)] + uring::records(rest)->0)
        }),
        uring::records(Seq::<u8>::empty()) == Some(Seq::<(Seq<u8>, u8)>::empty()),
{
    let b = head + seq![kind] + name + seq![0u8] + padding + rest;
    let tail = seq![0u8] + padding + rest;
    lemma_words(b, 16);
    assert(b[16] == head[16] && b[17] == head[17] && b[18] == kind);
    assert(b.skip(19) =~= name + tail);
    lemma_zero_at(name, tail);
    assert(b.subrange(19, 19int + name.len()) =~= name);
    assert(b.skip(20 + name.len() as int + padding.len()) =~= rest);
}

/// A listing that ends within a record is no listing.
pub proof fn law_cut_listings(b: Seq<u8>)
    requires
        0 < b.len() < 20 || (b.len() >= 20 && (b[16] + b[17] * 0x100 < 20 || b[16] + b[17] * 0x100
            > b.len())),
    ensures
        uring::records(b) is None,
{
    lemma_words(b, 16);
}

/// A record whose name does not end within it makes no listing.
pub proof fn law_names_that_do_not_end(b: Seq<u8>, len: int)
    requires
        b.len() >= 20,
        len == b[16] + b[17] * 0x100,
        20 <= len <= b.len(),
        forall|i: int| 19 <= i < len ==> #[trigger] b[i] != 0,
    ensures
        uring::records(b) is None,
{
    lemma_words(b, 16);
    lemma_zero_is_far(b.skip(19), len - 19);
}

proof fn lemma_zero_is_far(s: Seq<u8>, k: int)
    requires
        0 <= k <= s.len(),
        forall|i: int| 0 <= i < k ==> #[trigger] s[i] != 0,
    ensures
        uring::zero_at(s) >= k,
    decreases s.len(),
{
    if s.len() > 0 && s[0] != 0 {
        let t = s.drop_first();
        let m = if k > 0 {
            k - 1
        } else {
            0
        };
        assert forall|i: int| 0 <= i < m implies #[trigger] t[i] != 0 by {
            assert(t[i] == s[i + 1]);
        }
        lemma_zero_is_far(t, m);
    }
}

} // verus!
