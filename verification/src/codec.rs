//! The directory-record codec: both record kinds share one 32-byte slot.
//!
//! A short-name record carries the 11-byte 8.3 name, the attribute byte, the
//! start cluster split into two 16-bit halves, and the byte size. A long-name
//! record carries up to 13 UTF-16 code units of a long name spread over three
//! byte ranges, a sequence number (descending towards the short record, bit 6
//! of the first byte marking the run's first stored, highest-numbered
//! fragment), and the checksum of the short name it belongs to. A slot whose
//! first byte is zero or 0xE5 is unused.

use vstd::prelude::*;

use crate::bytes::{le16_at, le32_at, le32_bytes, lemma_le32_roundtrip};
use crate::device::zero_seq;
use crate::name::valid_unit;

verus! {

/// Attribute byte of a regular file.
pub const ATTR_FILE: u8 = 0x20;

/// Attribute byte of a subdirectory.
pub const ATTR_SUBDIR: u8 = 0x10;

/// Attribute byte that marks a long-name record: not a file type.
pub const ATTR_LONG_NAME: u8 = 0x0F;

/// A decoded directory slot.
pub enum RecordV {
    /// First byte zero or 0xE5: the slot holds no record.
    Free,
    Short { name: Seq<u8>, attr: u8, cluster: u32, size: u32 },
    Long { frag: Seq<u16>, seq_no: u8, ck: u8, last: bool },
}

/// The code unit stored little-endian at `off`.
pub open spec fn unit_at(b: Seq<u8>, off: int) -> u16 {
    (b[off] + b[off + 1] * 0x100) as u16
}

/// Byte position of the `i`-th code unit inside a long-name slot: five units
/// after the sequence byte, six after the checksum, two at the slot's end.
pub open spec fn unit_pos(i: int) -> int {
    if i < 5 {
        1 + 2 * i
    } else if i < 11 {
        14 + 2 * (i - 5)
    } else {
        28 + 2 * (i - 11)
    }
}

/// All 13 code-unit places of a long-name slot.
pub open spec fn slot_units(b: Seq<u8>) -> Seq<u16> {
    Seq::new(13, |i: int| unit_at(b, unit_pos(i)))
}

/// The fragment a long-name slot carries: its code units up to the first
/// terminator (zero) or fill (0xFFFF) unit.
pub open spec fn trim_frag(s: Seq<u16>) -> Seq<u16>
    decreases s.len(),
{
    if s.len() == 0 || !valid_unit(s[0]) {
        Seq::empty()
    } else {
        seq![s[0]] + trim_frag(s.subrange(1, s.len() as int))
    }
}

/// Trimming stops exactly at the first invalid unit.
pub proof fn lemma_trim(s: Seq<u16>, k: int)
    requires
        0 <= k <= s.len(),
        forall|i: int| 0 <= i < k ==> valid_unit(s[i]),
        k < s.len() ==> !valid_unit(s[k]),
    ensures
        trim_frag(s) == s.take(k),
    decreases k,
{
    if s.len() == 0 || k == 0 {
        assert(s.take(0) =~= Seq::<u16>::empty());
        if s.len() > 0 && k == 0 {
            assert(!valid_unit(s[0]));
        }
    } else {
        let rest = s.subrange(1, s.len() as int);
        lemma_trim(rest, k - 1);
        assert(s.take(k) =~= seq![s[0]] + rest.take(k - 1));
    }
}

/// What decoding a slot yields.
pub open spec fn decode_slot(b: Seq<u8>) -> RecordV {
    if b[0] == 0 || b[0] == 0xE5 {
        RecordV::Free
    } else if b[11] == ATTR_LONG_NAME {
        RecordV::Long {
            frag: trim_frag(slot_units(b)),
            seq_no: (b[0] % 0x40) as u8,
            ck: b[13],
            last: b[0] / 0x40 % 2 == 1,
        }
    } else {
        RecordV::Short {
            name: b.subrange(0, 11),
            attr: b[11],
            cluster: (le16_at(b, 20) * 0x10000 + le16_at(b, 26)) as u32,
            size: le32_at(b, 28) as u32,
        }
    }
}

/// A fragment padded to the 13 unit places of a slot: a zero terminator right
/// after it when room is left, 0xFFFF fill after that.
pub open spec fn pad13(f: Seq<u16>) -> Seq<u16> {
    if f.len() >= 13 {
        f.take(13)
    } else {
        f + seq![0u16] + Seq::new((12 - f.len()) as nat, |i: int| 0xFFFFu16)
    }
}

/// The low or high byte of a code unit.
pub open spec fn unit_byte(c: u16, hi: int) -> u8 {
    if hi == 0 {
        (c % 0x100) as u8
    } else {
        (c / 0x100) as u8
    }
}

/// Byte `k` of an encoded long-name slot.
pub open spec fn long_byte(frag: Seq<u16>, seq_no: u8, ck: u8, last: bool, k: int) -> u8 {
    let p = pad13(frag);
    if k == 0 {
        (seq_no + if last {
            0x40int
        } else {
            0int
        }) as u8
    } else if k < 11 {
        unit_byte(p[(k - 1) / 2], (k - 1) % 2)
    } else if k == 11 {
        ATTR_LONG_NAME
    } else if k == 12 {
        0
    } else if k == 13 {
        ck
    } else if k < 26 {
        unit_byte(p[5 + (k - 14) / 2], (k - 14) % 2)
    } else if k < 28 {
        0
    } else {
        unit_byte(p[11 + (k - 28) / 2], (k - 28) % 2)
    }
}

/// An encoded long-name slot.
pub open spec fn encode_long(frag: Seq<u16>, seq_no: u8, ck: u8, last: bool) -> Seq<u8> {
    Seq::new(32, |k: int| long_byte(frag, seq_no, ck, last, k))
}

/// Byte `k` of an encoded short-name slot; the timestamp fields this engine
/// does not keep are zero.
pub open spec fn short_byte(name: Seq<u8>, attr: u8, cluster: u32, size: u32, k: int) -> u8 {
    if k < 11 {
        name[k]
    } else if k == 11 {
        attr
    } else if k < 20 {
        0
    } else if k == 20 {
        unit_byte((cluster / 0x10000) as u16, 0)
    } else if k == 21 {
        unit_byte((cluster / 0x10000) as u16, 1)
    } else if k < 26 {
        0
    } else if k == 26 {
        unit_byte((cluster % 0x10000) as u16, 0)
    } else if k == 27 {
        unit_byte((cluster % 0x10000) as u16, 1)
    } else {
        le32_bytes(size as int)[k - 28]
    }
}

/// An encoded short-name slot.
pub open spec fn encode_short(name: Seq<u8>, attr: u8, cluster: u32, size: u32) -> Seq<u8> {
    Seq::new(32, |k: int| short_byte(name, attr, cluster, size, k))
}

/// The fields of a long-name record that fit its slot: a nonempty fragment of
/// at most 13 units, none a terminator or fill, and a sequence number below
/// the last-fragment flag bit.
pub open spec fn long_fields_wf(frag: Seq<u16>, seq_no: u8) -> bool {
    &&& 1 <= frag.len() <= 13
    &&& forall|i: int| 0 <= i < frag.len() ==> valid_unit(#[trigger] frag[i])
    &&& 1 <= seq_no < 0x40
}

/// The fields of a short-name record that fit its slot: 11 name bytes whose
/// first marks the slot used, an attribute other than the long-name marker,
/// and a cluster number within the table's 28 significant bits.
pub open spec fn short_fields_wf(name: Seq<u8>, attr: u8, cluster: u32) -> bool {
    &&& name.len() == 11
    &&& name[0] != 0
    &&& name[0] != 0xE5
    &&& attr != ATTR_LONG_NAME
    &&& cluster < 0x10000000
}

/// Law: decoding an encoded long-name slot gives back exactly the record that
/// was encoded.
pub proof fn lemma_long_roundtrip(frag: Seq<u16>, seq_no: u8, ck: u8, last: bool)
    requires
        long_fields_wf(frag, seq_no),
    ensures
        encode_long(frag, seq_no, ck, last).len() == 32,
        decode_slot(encode_long(frag, seq_no, ck, last)) == (RecordV::Long {
            frag,
            seq_no,
            ck,
            last,
        }),
{
    let e = encode_long(frag, seq_no, ck, last);
    let p = pad13(frag);
    assert(p.len() == 13);
    let b0 = e[0];
    assert(b0 == seq_no + if last {
        0x40int
    } else {
        0int
    });
    assert(b0 % 0x40 == seq_no);
    assert(b0 / 0x40 % 2 == (if last {
        1int
    } else {
        0int
    }));
    assert(b0 != 0 && b0 != 0xE5);
    assert(e[11] == ATTR_LONG_NAME);
    assert(e[13] == ck);
    assert forall|i: int| 0 <= i < 13 implies slot_units(e)[i] == p[i] by {
        let pos = unit_pos(i);
        assert(e[pos] == unit_byte(p[i], 0));
        assert(e[pos + 1] == unit_byte(p[i], 1));
        assert(p[i] % 0x100 + (p[i] / 0x100) * 0x100 == p[i]);
    }
    assert(slot_units(e) =~= p);
    lemma_trim(p, frag.len() as int);
    assert(p.take(frag.len() as int) =~= frag);
}

/// Law: decoding an encoded short-name slot gives back exactly the record
/// that was encoded.
pub proof fn lemma_short_roundtrip(name: Seq<u8>, attr: u8, cluster: u32, size: u32)
    requires
        short_fields_wf(name, attr, cluster),
    ensures
        encode_short(name, attr, cluster, size).len() == 32,
        decode_slot(encode_short(name, attr, cluster, size)) == (RecordV::Short {
            name,
            attr,
            cluster,
            size,
        }),
{
    let e = encode_short(name, attr, cluster, size);
    assert(e.subrange(0, 11) =~= name);
    assert(e[11] == attr);
    let hi = (cluster / 0x10000) as int;
    let lo = (cluster % 0x10000) as int;
    assert(le16_at(e, 20) == hi % 0x100 + (hi / 0x100) * 0x100);
    assert(hi % 0x100 + (hi / 0x100) * 0x100 == hi);
    assert(le16_at(e, 26) == lo % 0x100 + (lo / 0x100) * 0x100);
    assert(lo % 0x100 + (lo / 0x100) * 0x100 == lo);
    assert(hi * 0x10000 + lo == cluster);
    lemma_le32_roundtrip(size as int);
    assert forall|j: int| 0 <= j < 4 implies e[28 + j] == le32_bytes(size as int)[j] by {}
    assert(le32_at(e, 28) == le32_at(le32_bytes(size as int), 0));
}

/// A short-name record as the engine builds and reads it.
pub struct FATShortDirItem {
    /// The 11-byte 8.3 name.
    pub name: Vec<u8>,
    pub attr: u8,
    pub start_cluster: u32,
    pub size: u32,
}

impl FATShortDirItem {
    pub fn new(name: Vec<u8>, attr: u8, start_cluster: u32, size: u32) -> (r: FATShortDirItem)
        ensures
            r.name == name,
            r.attr == attr,
            r.start_cluster == start_cluster,
            r.size == size,
    {
        FATShortDirItem { name, attr, start_cluster, size }
    }
}

/// A long-name record as the engine builds and reads it.
pub struct FATLongDirItem {
    /// Up to 13 code units of the long name.
    pub fragment: Vec<u16>,
    /// Position in the run, counted from 1 at the record just before the
    /// short record.
    pub seq_no: u8,
    /// Checksum of the run's short name.
    pub checksum: u8,
    /// Whether this is the run's first stored, highest-numbered record.
    pub last: bool,
}

impl FATLongDirItem {
    pub fn new(fragment: Vec<u16>, seq_no: u8, checksum: u8, last: bool) -> (r: FATLongDirItem)
        ensures
            r.fragment == fragment,
            r.seq_no == seq_no,
            r.checksum == checksum,
            r.last == last,
    {
        FATLongDirItem { fragment, seq_no, checksum, last }
    }
}

/// One decoded directory slot.
pub enum DirRecord {
    Free,
    Short(FATShortDirItem),
    Long(FATLongDirItem),
}

impl View for DirRecord {
    type V = RecordV;

    open spec fn view(&self) -> RecordV {
        match self {
            DirRecord::Free => RecordV::Free,
            DirRecord::Short(s) => RecordV::Short {
                name: s.name@,
                attr: s.attr,
                cluster: s.start_cluster,
                size: s.size,
            },
            DirRecord::Long(l) => RecordV::Long {
                frag: l.fragment@,
                seq_no: l.seq_no,
                ck: l.checksum,
                last: l.last,
            },
        }
    }
}

fn unit_pos_exec(i: usize) -> (r: usize)
    requires
        i < 13,
    ensures
        r == unit_pos(i as int),
        r <= 30,
{
    if i < 5 {
        1 + 2 * i
    } else if i < 11 {
        14 + 2 * (i - 5)
    } else {
        28 + 2 * (i - 11)
    }
}

fn byte_of_unit(c: u16, hi: bool) -> (r: u8)
    ensures
        r == unit_byte(
            c,
            if hi {
                1int
            } else {
                0int
            },
        ),
{
    if hi {
        (c / 0x100) as u8
    } else {
        (c % 0x100) as u8
    }
}

/// Pads a fragment to the 13 unit places of a slot.
fn pad13_exec(frag: &Vec<u16>) -> (r: Vec<u16>)
    requires
        frag@.len() <= 13,
    ensures
        r@ == pad13(frag@),
        r@.len() == 13,
{
    let mut r: Vec<u16> = Vec::new();
    let n = frag.len();
    let mut i: usize = 0;
    while i < n
        invariant
            i <= n,
            n == frag@.len() <= 13,
            r@ == frag@.take(i as int),
        decreases n - i,
    {
        r.push(frag[i]);
        proof {
            assert(r@ =~= frag@.take(i + 1));
        }
        i = i + 1;
    }
    proof {
        assert(frag@.take(n as int) =~= frag@);
    }
    if n < 13 {
        r.push(0);
        while r.len() < 13
            invariant
                frag@.len() < 13,
                frag@.len() + 1 <= r@.len() <= 13,
                r@.take(frag@.len() as int) == frag@,
                r@[frag@.len() as int] == 0u16,
                forall|j: int| frag@.len() < j < r@.len() ==> r@[j] == 0xFFFFu16,
            decreases 13 - r.len(),
        {
            r.push(0xFFFF);
        }
        proof {
            assert(r@ =~= pad13(frag@));
        }
    } else {
        proof {
            assert(r@ =~= pad13(frag@));
        }
    }
    r
}

/// Encodes a long-name record into its 32 slot bytes.
pub fn encode_long_item(item: &FATLongDirItem) -> (r: Vec<u8>)
    requires
        item.fragment@.len() <= 13,
        item.seq_no < 0x40,
    ensures
        r@ == encode_long(item.fragment@, item.seq_no, item.checksum, item.last),
{
    let p = pad13_exec(&item.fragment);
    let mut r: Vec<u8> = Vec::new();
    if item.last {
        r.push(item.seq_no + 0x40);
    } else {
        r.push(item.seq_no);
    }
    let mut k: usize = 1;
    while k < 11
        invariant
            1 <= k <= 11,
            p@ == pad13(item.fragment@),
            p@.len() == 13,
            item.seq_no < 0x40,
            r@ == encode_long(item.fragment@, item.seq_no, item.checksum, item.last).take(k as int),
        decreases 11 - k,
    {
        r.push(byte_of_unit(p[(k - 1) / 2], (k - 1) % 2 == 1));
        proof {
            assert(r@ =~= encode_long(item.fragment@, item.seq_no, item.checksum, item.last).take(
                k + 1,
            ));
        }
        k = k + 1;
    }
    r.push(ATTR_LONG_NAME);
    r.push(0);
    r.push(item.checksum);
    proof {
        assert(r@ =~= encode_long(item.fragment@, item.seq_no, item.checksum, item.last).take(14));
    }
    let mut k: usize = 14;
    while k < 26
        invariant
            14 <= k <= 26,
            p@ == pad13(item.fragment@),
            p@.len() == 13,
            item.seq_no < 0x40,
            r@ == encode_long(item.fragment@, item.seq_no, item.checksum, item.last).take(k as int),
        decreases 26 - k,
    {
        r.push(byte_of_unit(p[5 + (k - 14) / 2], (k - 14) % 2 == 1));
        proof {
            assert(r@ =~= encode_long(item.fragment@, item.seq_no, item.checksum, item.last).take(
                k + 1,
            ));
        }
        k = k + 1;
    }
    r.push(0);
    r.push(0);
    r.push(byte_of_unit(p[11], false));
    r.push(byte_of_unit(p[11], true));
    r.push(byte_of_unit(p[12], false));
    r.push(byte_of_unit(p[12], true));
    proof {
        assert(r@ =~= encode_long(item.fragment@, item.seq_no, item.checksum, item.last));
    }
    r
}

/// Encodes a short-name record into its 32 slot bytes.
pub fn encode_short_item(item: &FATShortDirItem) -> (r: Vec<u8>)
    requires
        item.name@.len() == 11,
    ensures
        r@ == encode_short(item.name@, item.attr, item.start_cluster, item.size),
{
    let ghost e = encode_short(item.name@, item.attr, item.start_cluster, item.size);
    let mut r: Vec<u8> = Vec::new();
    let mut k: usize = 0;
    while k < 11
        invariant
            k <= 11,
            item.name@.len() == 11,
            e == encode_short(item.name@, item.attr, item.start_cluster, item.size),
            r@ == e.take(k as int),
        decreases 11 - k,
    {
        r.push(item.name[k]);
        proof {
            assert(r@ =~= e.take(k + 1));
        }
        k = k + 1;
    }
    r.push(item.attr);
    let mut k: usize = 12;
    while k < 20
        invariant
            12 <= k <= 20,
            item.name@.len() == 11,
            e == encode_short(item.name@, item.attr, item.start_cluster, item.size),
            r@ == e.take(k as int),
        decreases 20 - k,
    {
        r.push(0);
        proof {
            assert(r@ =~= e.take(k + 1));
        }
        k = k + 1;
    }
    let hi = (item.start_cluster / 0x10000) as u16;
    let lo = (item.start_cluster % 0x10000) as u16;
    r.push(byte_of_unit(hi, false));
    r.push(byte_of_unit(hi, true));
    r.push(0);
    r.push(0);
    r.push(0);
    r.push(0);
    r.push(byte_of_unit(lo, false));
    r.push(byte_of_unit(lo, true));
    let sz = crate::bytes::make_le32(item.size);
    r.push(sz[0]);
    r.push(sz[1]);
    r.push(sz[2]);
    r.push(sz[3]);
    proof {
        assert(r@ =~= e);
    }
    r
}

/// Decodes one 32-byte slot into the record it holds.
pub fn parse_record(slot: &Vec<u8>) -> (r: DirRecord)
    requires
        slot@.len() == 32,
    ensures
        r@ == decode_slot(slot@),
{
    let b0 = slot[0];
    if b0 == 0 || b0 == 0xE5 {
        DirRecord::Free
    } else if slot[11] == ATTR_LONG_NAME {
        let seq_no = b0 % 0x40;
        let last = b0 / 0x40 % 2 == 1;
        let ck = slot[13];
        let mut frag: Vec<u16> = Vec::new();
        let mut i: usize = 0;
        let mut stopped = false;
        while i < 13 && !stopped
            invariant
                i <= 13,
                slot@.len() == 32,
                frag@ == slot_units(slot@).take(i as int),
                forall|j: int| 0 <= j < i ==> valid_unit(#[trigger] slot_units(slot@)[j]),
                stopped ==> i < 13 && !valid_unit(slot_units(slot@)[i as int]),
                !stopped ==> frag@.len() == i,
            decreases 13 - i, (if stopped {
                0int
            } else {
                1int
            }),
        {
            let pos = unit_pos_exec(i);
            let u = slot[pos] as u16 + slot[pos + 1] as u16 * 0x100;
            proof {
                assert(u == slot_units(slot@)[i as int]);
            }
            if u == 0 || u == 0xFFFF {
                stopped = true;
            } else {
                frag.push(u);
                proof {
                    assert(frag@ =~= slot_units(slot@).take(i + 1));
                }
                i = i + 1;
            }
        }
        proof {
            lemma_trim(slot_units(slot@), i as int);
        }
        DirRecord::Long(FATLongDirItem { fragment: frag, seq_no, checksum: ck, last })
    } else {
        let mut name: Vec<u8> = Vec::new();
        let mut i: usize = 0;
        while i < 11
            invariant
                i <= 11,
                slot@.len() == 32,
                name@ == slot@.subrange(0, i as int),
            decreases 11 - i,
        {
            name.push(slot[i]);
            proof {
                assert(name@ =~= slot@.subrange(0, i + 1));
            }
            i = i + 1;
        }
        let hi = crate::bytes::read_le16(slot, 20);
        let lo = crate::bytes::read_le16(slot, 26);
        let cluster = hi as u32 * 0x10000 + lo as u32;
        let size = crate::bytes::read_le32(slot, 28);
        DirRecord::Short(
            FATShortDirItem { name, attr: slot[11], start_cluster: cluster, size },
        )
    }
}

} // verus!
