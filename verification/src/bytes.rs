//! Little-endian views of 16- and 32-bit fields inside raw byte sequences.
//!
//! Every on-disk multi-byte field of the volume (allocation-table entries,
//! cluster numbers and sizes inside directory records, the boot-sector
//! parameters) is little-endian; these are the shared spec-level readers and
//! writers for them.

use vstd::prelude::*;

verus! {

/// The 16-bit little-endian value stored at `off`.
pub open spec fn le16_at(d: Seq<u8>, off: int) -> int {
    d[off] + d[off + 1] * 0x100
}

/// The 32-bit little-endian value stored at `off`.
pub open spec fn le32_at(d: Seq<u8>, off: int) -> int {
    d[off] + d[off + 1] * 0x100 + d[off + 2] * 0x10000 + d[off + 3] * 0x1000000
}

/// `v` laid out as two little-endian bytes.
pub open spec fn le16_bytes(v: int) -> Seq<u8> {
    seq![(v % 0x100) as u8, ((v / 0x100) % 0x100) as u8]
}

/// `v` laid out as four little-endian bytes.
pub open spec fn le32_bytes(v: int) -> Seq<u8> {
    seq![
        (v % 0x100) as u8,
        ((v / 0x100) % 0x100) as u8,
        ((v / 0x10000) % 0x100) as u8,
        ((v / 0x1000000) % 0x100) as u8,
    ]
}

/// Reading back four little-endian bytes yields the value they were made from.
pub proof fn lemma_le32_roundtrip(v: int)
    requires
        0 <= v < 0x100000000,
    ensures
        le32_at(le32_bytes(v), 0) == v,
{
    let b = le32_bytes(v);
    assert(b[0] == v % 0x100 && b[1] == (v / 0x100) % 0x100 && b[2] == (v / 0x10000) % 0x100
        && b[3] == (v / 0x1000000) % 0x100);
    assert(v % 0x100 + ((v / 0x100) % 0x100) * 0x100 + ((v / 0x10000) % 0x100) * 0x10000 + ((v
        / 0x1000000) % 0x100) * 0x1000000 == v) by (nonlinear_arith)
        requires
            0 <= v < 0x100000000,
    ;
}

/// Reading back two little-endian bytes yields the value they were made from.
pub proof fn lemma_le16_roundtrip(v: int)
    requires
        0 <= v < 0x10000,
    ensures
        le16_at(le16_bytes(v), 0) == v,
{
    assert(v % 0x100 + ((v / 0x100) % 0x100) * 0x100 == v) by (nonlinear_arith)
        requires
            0 <= v < 0x10000,
    ;
}

/// The 32-bit little-endian value stored at `off` of `d`, read out of memory.
pub fn read_le32(d: &Vec<u8>, off: usize) -> (r: u32)
    requires
        off + 4 <= d@.len(),
    ensures
        r == le32_at(d@, off as int),
{
    let n = d.len();
    assert(off + 4 <= n);
    let r = d[off] as u32 + d[off + 1] as u32 * 0x100 + d[off + 2] as u32 * 0x10000 + d[off + 3] as u32
        * 0x1000000;
    r
}

/// The 16-bit little-endian value stored at `off` of `d`, read out of memory.
pub fn read_le16(d: &Vec<u8>, off: usize) -> (r: u16)
    requires
        off + 2 <= d@.len(),
    ensures
        r == le16_at(d@, off as int),
{
    let n = d.len();
    assert(off + 2 <= n);
    let r = d[off] as u16 + d[off + 1] as u16 * 0x100;
    r
}

/// `v` as four little-endian bytes, built in memory.
pub fn make_le32(v: u32) -> (r: Vec<u8>)
    ensures
        r@ == le32_bytes(v as int),
{
    let mut r: Vec<u8> = Vec::new();
    r.push((v % 0x100) as u8);
    r.push(((v / 0x100) % 0x100) as u8);
    r.push(((v / 0x10000) % 0x100) as u8);
    r.push(((v / 0x1000000) % 0x100) as u8);
    proof {
        assert(r@ =~= le32_bytes(v as int));
    }
    r
}

} // verus!
