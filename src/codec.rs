//! Byte layouts of the snapshot file header and of a frame header, little-endian.

use vstd::prelude::*;

use crate::builder::{FrameHeader, SnapshotHeader};

verus! {

/// Size of a snapshot file header: log id, start, end, frame count, size
/// after, and four bytes of padding.
pub const SNAPSHOT_HEADER_SIZE: usize = 48;

/// Size of a frame header: frame number, checksum, page number, size after.
pub const FRAME_HEADER_SIZE: usize = 24;

/// Size of a page, the payload of a frame.
pub const PAGE_SIZE: usize = 4096;

/// Size of a log file header: magic, start checksum, log id, start frame,
/// frame count, version, page size, server version. A log file of exactly
/// this length holds no frame.
pub const LOG_FILE_HEADER_SIZE: usize = 64;

/// What the compactor reads of a log file header.
#[derive(Clone, Copy, Debug, PartialEq, Eq, Structural)]
pub struct LogHeader {
    pub log_id: u128,
    pub start_frame_no: u64,
    pub frame_count: u64,
}

/// The log header fields that the first 64 bytes of `b` hold.
pub open spec fn log_header_at(b: Seq<u8>) -> LogHeader {
    LogHeader {
        log_id: le_value(b.subrange(16, 32)) as u128,
        start_frame_no: le_value(b.subrange(32, 40)) as u64,
        frame_count: le_value(b.subrange(40, 48)) as u64,
    }
}

pub open spec fn pow256(n: nat) -> nat
    decreases n,
{
    if n == 0 {
        1
    } else {
        256 * pow256((n - 1) as nat)
    }
}

/// The `n` low bytes of `v`, least significant first.
pub open spec fn le_bytes(v: nat, n: nat) -> Seq<u8>
    decreases n,
{
    if n == 0 {
        Seq::empty()
    } else {
        seq![(v % 256) as u8] + le_bytes(v / 256, (n - 1) as nat)
    }
}

/// The value of bytes read least significant first.
pub open spec fn le_value(s: Seq<u8>) -> nat
    decreases s.len(),
{
    if s.len() == 0 {
        0
    } else {
        s[0] as nat + 256 * le_value(s.drop_first())
    }
}

pub open spec fn snapshot_header_bytes(h: SnapshotHeader) -> Seq<u8> {
    le_bytes(h.log_id as nat, 16) + le_bytes(h.start_frame_no as nat, 8) + le_bytes(
        h.end_frame_no as nat,
        8,
    ) + le_bytes(h.frame_count as nat, 8) + le_bytes(h.size_after as nat, 4) + le_bytes(0, 4)
}

pub open spec fn frame_header_bytes(f: FrameHeader) -> Seq<u8> {
    le_bytes(f.frame_no as nat, 8) + le_bytes(f.checksum as nat, 8) + le_bytes(
        f.page_no as nat,
        4,
    ) + le_bytes(f.size_after as nat, 4)
}

/// The header that the first 48 bytes of `b` hold.
pub open spec fn snapshot_header_at(b: Seq<u8>) -> SnapshotHeader {
    SnapshotHeader {
        log_id: le_value(b.subrange(0, 16)) as u128,
        start_frame_no: le_value(b.subrange(16, 24)) as u64,
        end_frame_no: le_value(b.subrange(24, 32)) as u64,
        frame_count: le_value(b.subrange(32, 40)) as u64,
        size_after: le_value(b.subrange(40, 44)) as u32,
    }
}

/// The frame header that the first 24 bytes of `b` hold.
pub open spec fn frame_header_at(b: Seq<u8>) -> FrameHeader {
    FrameHeader {
        frame_no: le_value(b.subrange(0, 8)) as u64,
        checksum: le_value(b.subrange(8, 16)) as u64,
        page_no: le_value(b.subrange(16, 20)) as u32,
        size_after: le_value(b.subrange(20, 24)) as u32,
    }
}

fn push_le(out: &mut Vec<u8>, v: u128, n: usize)
    ensures
        final(out)@ == old(out)@ + le_bytes(v as nat, n as nat),
    decreases n,
{
    if n > 0 {
        out.push((v % 256) as u8);
        push_le(out, v / 256, n - 1);
        assert(out@ =~= old(out)@ + le_bytes(v as nat, n as nat));
    } else {
        assert(out@ =~= old(out)@ + le_bytes(v as nat, n as nat));
    }
}

proof fn lemma_pow256_step(n: nat)
    ensures
        pow256(n) > 0,
        pow256(n + 1) == 256 * pow256(n),
    decreases n,
{
    if n > 0 {
        lemma_pow256_step((n - 1) as nat);
    }
}

fn read_le(b: &[u8], at: usize, n: usize) -> (r: u128)
    requires
        at + n <= b@.len(),
        n <= 16,
    ensures
        r as nat == le_value(b@.subrange(at as int, at + n)),
        (r as nat) < pow256(n as nat),
    decreases n,
{
    if n == 0 {
        assert(b@.subrange(at as int, at as int) =~= Seq::<u8>::empty());
        0
    } else {
        let len = b.len();
        assert(at < len);
        let rest = read_le(b, at + 1, n - 1);
        proof {
            lemma_pow256_step((n - 1) as nat);
            lemma_pow256_mono((n - 1) as nat, 15);
            reveal_with_fuel(pow256, 16);
            assert(pow256(15) == 0x1000000000000000000000000000000);
            assert(b@.subrange(at as int, at + n).drop_first() =~= b@.subrange(at + 1, at + n));
        }
        b[at] as u128 + 256 * rest
    }
}

proof fn lemma_pow256_mono(a: nat, b: nat)
    requires
        a <= b,
    ensures
        pow256(a) <= pow256(b),
    decreases b,
{
    if a < b {
        lemma_pow256_mono(a, (b - 1) as nat);
        lemma_pow256_step((b - 1) as nat);
    }
}

/// The bytes of a snapshot file header.
pub fn encode_snapshot_header(h: &SnapshotHeader) -> (r: Vec<u8>)
    ensures
        r@ == snapshot_header_bytes(*h),
        r@.len() == SNAPSHOT_HEADER_SIZE,
{
    let mut out: Vec<u8> = Vec::new();
    push_le(&mut out, h.log_id, 16);
    push_le(&mut out, h.start_frame_no as u128, 8);
    push_le(&mut out, h.end_frame_no as u128, 8);
    push_le(&mut out, h.frame_count as u128, 8);
    push_le(&mut out, h.size_after as u128, 4);
    push_le(&mut out, 0, 4);
    proof {
        lemma_le_bytes_len(h.log_id as nat, 16);
        lemma_le_bytes_len(h.start_frame_no as nat, 8);
        lemma_le_bytes_len(h.end_frame_no as nat, 8);
        lemma_le_bytes_len(h.frame_count as nat, 8);
        lemma_le_bytes_len(h.size_after as nat, 4);
        lemma_le_bytes_len(0, 4);
    }
    assert(out@ =~= snapshot_header_bytes(*h));
    out
}

/// Reads a snapshot file header from the front of `b`; `None` where `b` is
/// shorter than a header.
pub fn decode_snapshot_header(b: &[u8]) -> (r: Option<SnapshotHeader>)
    ensures
        r is Some <==> b@.len() >= SNAPSHOT_HEADER_SIZE,
        r matches Some(h) ==> h == snapshot_header_at(b@),
{
    if b.len() < SNAPSHOT_HEADER_SIZE {
        return None;
    }
    Some(
        SnapshotHeader {
            log_id: read_le(b, 0, 16),
            start_frame_no: read_le(b, 16, 8) as u64,
            end_frame_no: read_le(b, 24, 8) as u64,
            frame_count: read_le(b, 32, 8) as u64,
            size_after: read_le(b, 40, 4) as u32,
        },
    )
}

/// Reads the fields the compactor needs from a log file header at the front
/// of `b`; `None` where `b` is shorter than a log header.
pub fn decode_log_header(b: &[u8]) -> (r: Option<LogHeader>)
    ensures
        r is Some <==> b@.len() >= LOG_FILE_HEADER_SIZE,
        r matches Some(h) ==> h == log_header_at(b@),
{
    if b.len() < LOG_FILE_HEADER_SIZE {
        return None;
    }
    Some(
        LogHeader {
            log_id: read_le(b, 16, 16),
            start_frame_no: read_le(b, 32, 8) as u64,
            frame_count: read_le(b, 40, 8) as u64,
        },
    )
}

/// The bytes of a frame header.
pub fn encode_frame_header(f: &FrameHeader) -> (r: Vec<u8>)
    ensures
        r@ == frame_header_bytes(*f),
        r@.len() == FRAME_HEADER_SIZE,
{
    let mut out: Vec<u8> = Vec::new();
    push_le(&mut out, f.frame_no as u128, 8);
    push_le(&mut out, f.checksum as u128, 8);
    push_le(&mut out, f.page_no as u128, 4);
    push_le(&mut out, f.size_after as u128, 4);
    proof {
        lemma_le_bytes_len(f.frame_no as nat, 8);
        lemma_le_bytes_len(f.checksum as nat, 8);
        lemma_le_bytes_len(f.page_no as nat, 4);
        lemma_le_bytes_len(f.size_after as nat, 4);
    }
    assert(out@ =~= frame_header_bytes(*f));
    out
}

/// Reads a frame header from the front of `b`; `None` where `b` is shorter
/// than a frame header.
pub fn decode_frame_header(b: &[u8]) -> (r: Option<FrameHeader>)
    ensures
        r is Some <==> b@.len() >= FRAME_HEADER_SIZE,
        r matches Some(f) ==> f == frame_header_at(b@),
{
    if b.len() < FRAME_HEADER_SIZE {
        return None;
    }
    Some(
        FrameHeader {
            frame_no: read_le(b, 0, 8) as u64,
            checksum: read_le(b, 8, 8) as u64,
            page_no: read_le(b, 16, 4) as u32,
            size_after: read_le(b, 20, 4) as u32,
        },
    )
}

proof fn lemma_le_bytes_len(v: nat, n: nat)
    ensures
        le_bytes(v, n).len() == n,
    decreases n,
{
    if n > 0 {
        lemma_le_bytes_len(v / 256, (n - 1) as nat);
    }
}

proof fn lemma_le_round_trip(v: nat, n: nat)
    ensures
        le_value(le_bytes(v, n)) == v % pow256(n),
    decreases n,
{
    if n > 0 {
        let m = (n - 1) as nat;
        lemma_le_round_trip(v / 256, m);
        let t = le_bytes(v, n);
        assert(t.drop_first() =~= le_bytes(v / 256, m));
        lemma_pow256_step(m);
        vstd::arithmetic::div_mod::lemma_mod_breakdown(v as int, 256, pow256(m) as int);
    }
}

proof fn lemma_field(v: nat, n: nat)
    requires
        v < pow256(n),
    ensures
        le_value(le_bytes(v, n)) == v,
{
    lemma_le_round_trip(v, n);
    vstd::arithmetic::div_mod::lemma_small_mod(v, pow256(n));
}

/// A snapshot header reads back as written.
pub proof fn lemma_snapshot_header_round_trip(h: SnapshotHeader)
    ensures
        snapshot_header_at(snapshot_header_bytes(h)) == h,
{
    let b = snapshot_header_bytes(h);
    reveal_with_fuel(pow256, 17);
    assert(pow256(16) == 0x1_0000_0000_0000_0000_0000_0000_0000_0000);
    assert(pow256(8) == 0x1_0000_0000_0000_0000);
    assert(pow256(4) == 0x1_0000_0000);
    lemma_le_bytes_len(h.log_id as nat, 16);
    lemma_le_bytes_len(h.start_frame_no as nat, 8);
    lemma_le_bytes_len(h.end_frame_no as nat, 8);
    lemma_le_bytes_len(h.frame_count as nat, 8);
    lemma_le_bytes_len(h.size_after as nat, 4);
    lemma_le_bytes_len(0, 4);
    assert(b.subrange(0, 16) =~= le_bytes(h.log_id as nat, 16));
    assert(b.subrange(16, 24) =~= le_bytes(h.start_frame_no as nat, 8));
    assert(b.subrange(24, 32) =~= le_bytes(h.end_frame_no as nat, 8));
    assert(b.subrange(32, 40) =~= le_bytes(h.frame_count as nat, 8));
    assert(b.subrange(40, 44) =~= le_bytes(h.size_after as nat, 4));
    lemma_field(h.log_id as nat, 16);
    lemma_field(h.start_frame_no as nat, 8);
    lemma_field(h.end_frame_no as nat, 8);
    lemma_field(h.frame_count as nat, 8);
    lemma_field(h.size_after as nat, 4);
}

/// A frame header reads back as written.
pub proof fn lemma_frame_header_round_trip(f: FrameHeader)
    ensures
        frame_header_at(frame_header_bytes(f)) == f,
{
    let b = frame_header_bytes(f);
    reveal_with_fuel(pow256, 9);
    assert(pow256(8) == 0x1_0000_0000_0000_0000);
    assert(pow256(4) == 0x1_0000_0000);
    lemma_le_bytes_len(f.frame_no as nat, 8);
    lemma_le_bytes_len(f.checksum as nat, 8);
    lemma_le_bytes_len(f.page_no as nat, 4);
    lemma_le_bytes_len(f.size_after as nat, 4);
    assert(b.subrange(0, 8) =~= le_bytes(f.frame_no as nat, 8));
    assert(b.subrange(8, 16) =~= le_bytes(f.checksum as nat, 8));
    assert(b.subrange(16, 20) =~= le_bytes(f.page_no as nat, 4));
    assert(b.subrange(20, 24) =~= le_bytes(f.size_after as nat, 4));
    lemma_field(f.frame_no as nat, 8);
    lemma_field(f.checksum as nat, 8);
    lemma_field(f.page_no as nat, 4);
    lemma_field(f.size_after as nat, 4);
}

} // verus!
