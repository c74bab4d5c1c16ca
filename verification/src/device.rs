//! An in-memory block storage device.
//!
//! The engine addresses storage by byte offset and length, as the kernel's
//! synchronous driver primitives do. This model backs the device with a byte
//! vector and keeps a log of every transfer request it served, so a caller
//! can audit how an operation batched its I/O.

use vstd::prelude::*;

verus! {

/// What a single transfer did.
#[derive(Clone, Copy, PartialEq, Eq, Structural)]
pub enum IoKind {
    Read,
    Write,
    Zero,
}

/// One transfer request served by the device.
#[derive(Clone, Copy, PartialEq, Eq, Structural)]
pub struct IoRecord {
    pub kind: IoKind,
    pub offset: usize,
    pub len: usize,
}

/// A block storage device backed by memory.
pub struct BlockDevice {
    pub data: Vec<u8>,
    pub log: Vec<IoRecord>,
}

/// `data` with the bytes at `off .. off + patch.len()` replaced by `patch`.
pub open spec fn splice(data: Seq<u8>, off: int, patch: Seq<u8>) -> Seq<u8> {
    data.subrange(0, off) + patch + data.subrange(off + patch.len(), data.len() as int)
}

/// `n` zero bytes.
pub open spec fn zero_seq(n: nat) -> Seq<u8> {
    Seq::new(n, |i: int| 0u8)
}

/// Splicing keeps the length and changes exactly the patched range.
pub proof fn lemma_splice(data: Seq<u8>, off: int, patch: Seq<u8>)
    requires
        0 <= off,
        off + patch.len() <= data.len(),
    ensures
        splice(data, off, patch).len() == data.len(),
        forall|i: int|
            0 <= i < data.len() ==> splice(data, off, patch)[i] == if off <= i < off + patch.len() {
                patch[i - off]
            } else {
                data[i]
            },
{
}

/// Prefixes chain.
pub proof fn lemma_prefix_trans(a: Seq<IoRecord>, b: Seq<IoRecord>, c: Seq<IoRecord>)
    requires
        a.is_prefix_of(b),
        b.is_prefix_of(c),
    ensures
        a.is_prefix_of(c),
{
    assert(a =~= c.subrange(0, a.len() as int));
}

/// Two adjacent splices compose into one.
pub proof fn lemma_splice_adjacent(data: Seq<u8>, off: int, a: Seq<u8>, b: Seq<u8>)
    requires
        0 <= off,
        off + a.len() + b.len() <= data.len(),
    ensures
        splice(splice(data, off, a), off + a.len(), b) == splice(data, off, a + b),
{
    lemma_splice(data, off, a);
    lemma_splice(splice(data, off, a), off + a.len(), b);
    lemma_splice(data, off, a + b);
    assert(splice(splice(data, off, a), off + a.len(), b) =~= splice(data, off, a + b));
}

impl BlockDevice {
    /// A device of `size` zeroed bytes with an empty transfer log.
    pub fn new(size: usize) -> (d: BlockDevice)
        ensures
            d.data@ == zero_seq(size as nat),
            d.log@ == Seq::<IoRecord>::empty(),
    {
        let mut data: Vec<u8> = Vec::new();
        let mut i: usize = 0;
        while i < size
            invariant
                i <= size,
                data@ == zero_seq(i as nat),
            decreases size - i,
        {
            data.push(0);
            proof {
                assert(data@ =~= zero_seq((i + 1) as nat));
            }
            i = i + 1;
        }
        let d = BlockDevice { data, log: Vec::new() };
        d
    }

    /// One synchronous read transfer: hands back the `len` bytes at `offset`.
    pub fn read_at(&mut self, offset: usize, len: usize) -> (r: Vec<u8>)
        requires
            offset + len <= old(self).data@.len(),
        ensures
            r@ == old(self).data@.subrange(offset as int, offset + len),
            final(self).data@ == old(self).data@,
            final(self).log@ == old(self).log@.push(IoRecord { kind: IoKind::Read, offset, len }),
    {
        let mut r: Vec<u8> = Vec::new();
        let mut i: usize = 0;
        let dlen = self.data.len();
        while i < len
            invariant
                i <= len,
                offset + len <= dlen,
                dlen == self.data@.len(),
                r@ == self.data@.subrange(offset as int, offset + i),
                self == old(self),
            decreases len - i,
        {
            r.push(self.data[offset + i]);
            proof {
                assert(r@ =~= self.data@.subrange(offset as int, offset + i + 1));
            }
            i = i + 1;
        }
        self.log.push(IoRecord { kind: IoKind::Read, offset, len });
        r
    }

    /// One synchronous write transfer: stores `src[src_off .. src_off + len]`
    /// at `offset`.
    pub fn write_at(&mut self, offset: usize, src: &Vec<u8>, src_off: usize, len: usize)
        requires
            offset + len <= old(self).data@.len(),
            src_off + len <= src@.len(),
        ensures
            final(self).data@ == splice(old(self).data@, offset as int, src@.subrange(src_off as int, src_off + len)),
            final(self).log@ == old(self).log@.push(IoRecord { kind: IoKind::Write, offset, len }),
    {
        let mut i: usize = 0;
        let dlen = self.data.len();
        let slen = src.len();
        while i < len
            invariant
                i <= len,
                offset + len <= dlen,
                dlen == self.data@.len(),
                src_off + len <= slen,
                slen == src@.len(),
                self.data@.len() == old(self).data@.len(),
                forall|j: int|
                    0 <= j < self.data@.len() ==> self.data@[j] == if offset <= j < offset + i {
                        src@[src_off + j - offset]
                    } else {
                        old(self).data@[j]
                    },
                self.log@ == old(self).log@,
            decreases len - i,
        {
            let b = src[src_off + i];
            self.data.set(offset + i, b);
            i = i + 1;
        }
        proof {
            lemma_splice(old(self).data@, offset as int, src@.subrange(src_off as int, src_off + len));
            assert(self.data@ =~= splice(
                old(self).data@,
                offset as int,
                src@.subrange(src_off as int, src_off + len),
            ));
        }
        self.log.push(IoRecord { kind: IoKind::Write, offset, len });
    }

    /// One synchronous zeroing transfer: stores `len` zero bytes at `offset`.
    pub fn write_zero(&mut self, offset: usize, len: usize)
        requires
            offset + len <= old(self).data@.len(),
        ensures
            final(self).data@ == splice(old(self).data@, offset as int, zero_seq(len as nat)),
            final(self).log@ == old(self).log@.push(IoRecord { kind: IoKind::Zero, offset, len }),
    {
        let mut i: usize = 0;
        let dlen = self.data.len();
        while i < len
            invariant
                i <= len,
                offset + len <= dlen,
                dlen == self.data@.len(),
                self.data@.len() == old(self).data@.len(),
                forall|j: int|
                    0 <= j < self.data@.len() ==> self.data@[j] == if offset <= j < offset + i {
                        0u8
                    } else {
                        old(self).data@[j]
                    },
                self.log@ == old(self).log@,
            decreases len - i,
        {
            self.data.set(offset + i, 0);
            i = i + 1;
        }
        proof {
            lemma_splice(old(self).data@, offset as int, zero_seq(len as nat));
            assert(self.data@ =~= splice(old(self).data@, offset as int, zero_seq(len as nat)));
        }
        self.log.push(IoRecord { kind: IoKind::Zero, offset, len });
    }

    /// The `len` bytes at `offset`, without a transfer: a bounds-checked view
    /// into the backing memory for callers that already hold the device.
    pub fn peek(&self, offset: usize, len: usize) -> (r: Vec<u8>)
        requires
            offset + len <= self.data@.len(),
        ensures
            r@ == self.data@.subrange(offset as int, offset + len),
    {
        let mut r: Vec<u8> = Vec::new();
        let mut i: usize = 0;
        let dlen = self.data.len();
        while i < len
            invariant
                i <= len,
                offset + len <= dlen,
                dlen == self.data@.len(),
                r@ == self.data@.subrange(offset as int, offset + i),
            decreases len - i,
        {
            r.push(self.data[offset + i]);
            proof {
                assert(r@ =~= self.data@.subrange(offset as int, offset + i + 1));
            }
            i = i + 1;
        }
        r
    }
}

} // verus!
