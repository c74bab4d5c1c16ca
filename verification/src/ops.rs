//! The filesystem operations: directory listing, creation and deletion, the
//! byte-range read/write path, and volume accounting, built on the chain
//! manager, the codec and the tree builder.

use vstd::prelude::*;

use crate::codec::{
    decode_slot, encode_long, encode_short, DirRecord, FATLongDirItem, FATShortDirItem, RecordV,
    ATTR_SUBDIR,
};
use crate::bytes::{le16_at, le32_at};
use crate::device::{splice, zero_seq, BlockDevice, IoKind, IoRecord};
use crate::fat::{chain, chain_ok, has_next, is_eoc, lemma_chain_elem, lemma_chain_fuel,
    lemma_chain_steps, FatManager, FLAG_CHAIN_END_MIN, FLAG_END};
use crate::name::{checksum_of, short_of, split_name};
use crate::tree::{
    acc_empty, attr_is_dir, build_entries, fold_entries, items_view, AccV, EntryV, FileTree,
    TreeItem,
};

verus! {

/// Slots `s .. s + count` are all unused.
pub open spec fn free_run(slots: Seq<RecordV>, s: int, count: int) -> bool {
    forall|j: int| s <= j < s + count ==> slots[j] == RecordV::Free
}

/// Every 32-byte slot of a directory block, decoded.
pub open spec fn decode_slots(data: Seq<u8>) -> Seq<RecordV> {
    Seq::new((data.len() / 32) as nat, |i: int| decode_slot(data.subrange(32 * i, 32 * i + 32)))
}

impl FatManager {
    /// The listing a directory's stored bytes stand for.
    pub open spec fn dir_entries(self, dev_data: Seq<u8>, cluster: int) -> Seq<EntryV> {
        fold_entries(decode_slots(self.cluster_bytes(dev_data, cluster)), 0, acc_empty())
    }

    /// Slots of one directory cluster.
    pub open spec fn slot_count(self) -> int {
        self.cluster_size as int / 32
    }

    /// Decodes the directory block at `cluster` into its raw records, one per
    /// slot, or nothing when the cluster is not a data cluster of this volume.
    pub fn get_dir_items(&self, dev: &BlockDevice, cluster: usize) -> (r: Option<Vec<DirRecord>>)
        requires
            self.valid_for(dev.data@),
        ensures
            match r {
                Some(items) => self.cluster_in_range(cluster as int) && items@.map_values(
                    |d: DirRecord| d@,
                ) == decode_slots(self.cluster_bytes(dev.data@, cluster as int)),
                None => !self.cluster_in_range(cluster as int),
            },
    {
        if cluster < 2 || cluster >= self.fat_entry_count {
            return None;
        }
        proof {
            self.lemma_cluster_fits(dev.data@, cluster as int);
        }
        let addr = self.data_addr + (cluster - 2) * self.cluster_size;
        let ghost cb = self.cluster_bytes(dev.data@, cluster as int);
        let n_slots = self.cluster_size / 32;
        let mut items: Vec<DirRecord> = Vec::new();
        let mut i: usize = 0;
        while i < n_slots
            invariant
                i <= n_slots,
                self.valid_for(dev.data@),
                self.cluster_in_range(cluster as int),
                n_slots == self.slot_count(),
                addr == self.cluster_addr(cluster as int),
                addr + self.cluster_size <= dev.data@.len(),
                cb == self.cluster_bytes(dev.data@, cluster as int),
                items@.map_values(|d: DirRecord| d@) == decode_slots(cb).take(i as int),
            decreases n_slots - i,
        {
            proof {
                assert(32 * (i as int) + 32 <= self.cluster_size as int);
            }
            let slot = dev.peek(addr + 32 * i, 32);
            proof {
                assert(slot@ =~= cb.subrange(32 * (i as int), 32 * (i as int) + 32));
            }
            let rec = crate::codec::parse_record(&slot);
            let ghost items0 = items@;
            items.push(rec);
            proof {
                assert(items@.map_values(|d: DirRecord| d@) =~= items0.map_values(
                    |d: DirRecord| d@,
                ).push(rec@));
                assert(decode_slots(cb)[i as int] == decode_slot(
                    cb.subrange(32 * (i as int), 32 * (i as int) + 32),
                ));
                assert(items@.map_values(|d: DirRecord| d@) =~= decode_slots(cb).take(i + 1));
            }
            i = i + 1;
        }
        proof {
            assert(decode_slots(cb).take(n_slots as int) =~= decode_slots(cb));
        }
        Some(items)
    }

    /// Decodes the directory at `cluster` into a queryable tree, or nothing
    /// when the cluster is not a data cluster of this volume. The tree's
    /// entries are exactly what the stored records fold to.
    pub fn get_file_tree(&self, dev: &BlockDevice, cluster: usize) -> (r: Option<FileTree>)
        requires
            self.valid_for(dev.data@),
        ensures
            match r {
                Some(tree) => {
                    &&& self.cluster_in_range(cluster as int)
                    &&& tree.start_cluster == cluster
                    &&& tree.block_idx == self.block_idx
                    &&& items_view(tree.items@) == self.dir_entries(dev.data@, cluster as int)
                    &&& forall|j: int|
                        0 <= j < tree.items@.len() ==> (#[trigger] tree.items@[j]).block_idx
                            == self.block_idx
                    &&& tree.name@ == seq![0x2Fu16]
                },
                None => !self.cluster_in_range(cluster as int),
            },
    {
        match self.get_dir_items(dev, cluster) {
            Some(items) => {
                let entries = build_entries(&items, self.block_idx);
                let mut name: Vec<u16> = Vec::new();
                name.push(0x2F);
                proof {
                    assert(name@ =~= seq![0x2Fu16]);
                }
                Some(FileTree::new(name, entries, cluster, self.block_idx))
            },
            None => None,
        }
    }

    /// The root directory's tree: by convention the root lives in cluster 2.
    pub fn get_root_file_tree(&self, dev: &BlockDevice) -> (r: Option<FileTree>)
        requires
            self.valid_for(dev.data@),
        ensures
            match r {
                Some(tree) => {
                    &&& tree.start_cluster == 2
                    &&& tree.block_idx == self.block_idx
                    &&& items_view(tree.items@) == self.dir_entries(dev.data@, 2)
                },
                None => false,
            },
    {
        self.get_file_tree(dev, 2)
    }

    /// The first run of `count` consecutive unused directory slots in the
    /// directory at `cluster`, or nothing when no such run exists.
    pub fn find_free_dir_item_index(&self, dev: &BlockDevice, cluster: usize, count: usize) -> (r:
        Option<usize>)
        requires
            self.valid_for(dev.data@),
            self.cluster_in_range(cluster as int),
            1 <= count,
        ensures
            match r {
                Some(idx) => {
                    &&& idx + count <= self.slot_count()
                    &&& free_run(
                        decode_slots(self.cluster_bytes(dev.data@, cluster as int)),
                        idx as int,
                        count as int,
                    )
                    &&& forall|s: int|
                        0 <= s < idx ==> !free_run(
                            decode_slots(self.cluster_bytes(dev.data@, cluster as int)),
                            s,
                            count as int,
                        )
                },
                None => forall|s: int|
                    0 <= s && s + count <= self.slot_count() ==> !free_run(
                        decode_slots(self.cluster_bytes(dev.data@, cluster as int)),
                        s,
                        count as int,
                    ),
            },
    {
        let ghost slots = decode_slots(self.cluster_bytes(dev.data@, cluster as int));
        let items = match self.get_dir_items(dev, cluster) {
            Some(items) => items,
            None => {
                return None;
            },
        };
        let n_slots = items.len();
        proof {
            self.lemma_cluster_fits(dev.data@, cluster as int);
            assert(self.cluster_bytes(dev.data@, cluster as int).len() == self.cluster_size);
            assert(items@.map_values(|d: DirRecord| d@).len() == slots.len());
            assert(n_slots == self.slot_count());
        }
        if count > n_slots {
            return None;
        }
        let mut s: usize = 0;
        while s <= n_slots - count
            invariant
                self.valid_for(dev.data@),
                n_slots == self.slot_count(),
                n_slots == items@.len(),
                items@.map_values(|d: DirRecord| d@) == slots,
                slots == decode_slots(self.cluster_bytes(dev.data@, cluster as int)),
                1 <= count <= n_slots,
                s <= n_slots,
                forall|s2: int| 0 <= s2 < s ==> !free_run(slots, s2, count as int),
            decreases n_slots - s,
        {
            let mut all_free = true;
            let mut j: usize = 0;
            while j < count
                invariant
                    j <= count,
                    s + count <= n_slots == items@.len(),
                    items@.map_values(|d: DirRecord| d@) == slots,
                    all_free ==> forall|k: int| s <= k < s + j ==> slots[k] == RecordV::Free,
                    !all_free ==> !free_run(slots, s as int, count as int),
                decreases count - j,
            {
                match &items[s + j] {
                    DirRecord::Free => {},
                    _ => {
                        proof {
                            assert(slots[s + j] == items@[s + j]@);
                            assert(slots[s + j] != RecordV::Free);
                        }
                        all_free = false;
                    },
                }
                proof {
                    if all_free {
                        assert(slots[s + j] == items@[s + j]@);
                    }
                }
                j = j + 1;
            }
            if all_free {
                return Some(s);
            }
            s = s + 1;
        }
        None
    }
}

/// Patching bytes inside one data cluster leaves the table, every other
/// cluster, and every byte outside the patch unchanged.
pub proof fn lemma_cluster_patch(self_m: FatManager, d0: Seq<u8>, c: int, off: int, patch: Seq<u8>)
    requires
        self_m.valid_for(d0),
        self_m.cluster_in_range(c),
        0 <= off,
        off + patch.len() <= self_m.cluster_size,
    ensures
        splice(d0, self_m.cluster_addr(c) + off, patch).len() == d0.len(),
        self_m.cluster_bytes(splice(d0, self_m.cluster_addr(c) + off, patch), c) == splice(
            self_m.cluster_bytes(d0, c),
            off,
            patch,
        ),
        self_m.fat_table(splice(d0, self_m.cluster_addr(c) + off, patch)) == self_m.fat_table(d0),
        forall|c2: int|
            self_m.cluster_in_range(c2) && c2 != c ==> self_m.cluster_bytes(
                splice(d0, self_m.cluster_addr(c) + off, patch),
                c2,
            ) == self_m.cluster_bytes(d0, c2),
        forall|i: int|
            0 <= i < d0.len() && !(self_m.cluster_addr(c) + off <= i < self_m.cluster_addr(c) + off
                + patch.len()) ==> splice(d0, self_m.cluster_addr(c) + off, patch)[i] == d0[i],
{
    let base = self_m.cluster_addr(c) + off;
    self_m.lemma_cluster_fits(d0, c);
    crate::device::lemma_splice(d0, base, patch);
    let d1 = splice(d0, base, patch);
    assert(self_m.cluster_bytes(d1, c) =~= splice(self_m.cluster_bytes(d0, c), off, patch));
    assert(self_m.fat_table(d1) =~= self_m.fat_table(d0)) by {
        reveal(FatManager::fat_entry);
        assert forall|j: int| 0 <= j < self_m.fat_entry_count implies self_m.fat_entry(d1, j)
            == self_m.fat_entry(d0, j) by {
            assert(self_m.fat_addr + 4 * j + 4 <= self_m.fat_addr + 4 * self_m.fat_entry_count);
        }
    }
    assert forall|c2: int| self_m.cluster_in_range(c2) && c2 != c implies self_m.cluster_bytes(
        d1,
        c2,
    ) == self_m.cluster_bytes(d0, c2) by {
        self_m.lemma_cluster_fits(d0, c2);
        if c2 < c {
            assert((c2 - 2) * self_m.cluster_size + self_m.cluster_size <= (c - 2)
                * self_m.cluster_size) by (nonlinear_arith)
                requires
                    2 <= c2 < c,
                    self_m.cluster_size >= 0,
            ;
        } else {
            assert((c - 2) * self_m.cluster_size + self_m.cluster_size <= (c2 - 2)
                * self_m.cluster_size) by (nonlinear_arith)
                requires
                    2 <= c < c2,
                    self_m.cluster_size >= 0,
            ;
        }
        assert(self_m.cluster_bytes(d1, c2) =~= self_m.cluster_bytes(d0, c2));
    }
}

impl FatManager {
    /// Writes 32 already-encoded slot bytes into slot `idx` of the directory
    /// at `cluster`: one write transfer, touching nothing else.
    fn write_slot(&self, dev: &mut BlockDevice, cluster: usize, idx: usize, bytes: &Vec<u8>)
        requires
            self.valid_for(old(dev).data@),
            self.cluster_in_range(cluster as int),
            idx < self.slot_count(),
            bytes@.len() == 32,
        ensures
            final(dev).data@.len() == old(dev).data@.len(),
            self.cluster_bytes(final(dev).data@, cluster as int) == splice(
                self.cluster_bytes(old(dev).data@, cluster as int),
                32 * idx,
                bytes@,
            ),
            self.fat_table(final(dev).data@) == self.fat_table(old(dev).data@),
            forall|c2: int|
                self.cluster_in_range(c2) && c2 != cluster ==> self.cluster_bytes(
                    final(dev).data@,
                    c2,
                ) == self.cluster_bytes(old(dev).data@, c2),
            final(dev).log@ == old(dev).log@.push(
                IoRecord {
                    kind: IoKind::Write,
                    offset: (self.cluster_addr(cluster as int) + 32 * idx) as usize,
                    len: 32,
                },
            ),
    {
        proof {
            self.lemma_cluster_fits(old(dev).data@, cluster as int);
            assert(32 * (idx as int) + 32 <= self.cluster_size as int);
        }
        let addr = self.data_addr + (cluster - 2) * self.cluster_size + 32 * idx;
        dev.write_at(addr, bytes, 0, 32);
        proof {
            assert(bytes@.subrange(0, 32) =~= bytes@);
            lemma_cluster_patch(
                *self,
                old(dev).data@,
                cluster as int,
                32 * (idx as int),
                bytes@,
            );
        }
    }

    /// Encodes a long-name record into slot `idx` of the directory at
    /// `cluster`.
    pub fn set_long_dir_item(
        &self,
        dev: &mut BlockDevice,
        cluster: usize,
        idx: usize,
        item: FATLongDirItem,
    )
        requires
            self.valid_for(old(dev).data@),
            self.cluster_in_range(cluster as int),
            idx < self.slot_count(),
            item.fragment@.len() <= 13,
            item.seq_no < 0x40,
        ensures
            final(dev).data@.len() == old(dev).data@.len(),
            self.cluster_bytes(final(dev).data@, cluster as int) == splice(
                self.cluster_bytes(old(dev).data@, cluster as int),
                32 * idx,
                encode_long(item.fragment@, item.seq_no, item.checksum, item.last),
            ),
            self.fat_table(final(dev).data@) == self.fat_table(old(dev).data@),
            forall|c2: int|
                self.cluster_in_range(c2) && c2 != cluster ==> self.cluster_bytes(
                    final(dev).data@,
                    c2,
                ) == self.cluster_bytes(old(dev).data@, c2),
            old(dev).log@.is_prefix_of(final(dev).log@),
    {
        let bytes = crate::codec::encode_long_item(&item);
        self.write_slot(dev, cluster, idx, &bytes);
    }

    /// Encodes a short-name record into slot `idx` of the directory at
    /// `cluster`.
    pub fn set_short_dir_item(
        &self,
        dev: &mut BlockDevice,
        cluster: usize,
        idx: usize,
        item: FATShortDirItem,
    )
        requires
            self.valid_for(old(dev).data@),
            self.cluster_in_range(cluster as int),
            idx < self.slot_count(),
            item.name@.len() == 11,
        ensures
            final(dev).data@.len() == old(dev).data@.len(),
            self.cluster_bytes(final(dev).data@, cluster as int) == splice(
                self.cluster_bytes(old(dev).data@, cluster as int),
                32 * idx,
                encode_short(item.name@, item.attr, item.start_cluster, item.size),
            ),
            self.fat_table(final(dev).data@) == self.fat_table(old(dev).data@),
            forall|c2: int|
                self.cluster_in_range(c2) && c2 != cluster ==> self.cluster_bytes(
                    final(dev).data@,
                    c2,
                ) == self.cluster_bytes(old(dev).data@, c2),
            old(dev).log@.is_prefix_of(final(dev).log@),
    {
        let bytes = crate::codec::encode_short_item(&item);
        self.write_slot(dev, cluster, idx, &bytes);
    }

    /// Zero-fills one cluster's whole byte range: one zeroing transfer. Used
    /// to initialize a freshly allocated directory cluster so stale bytes
    /// never decode as ghost entries.
    pub fn clear_directory(&self, dev: &mut BlockDevice, cluster: usize)
        requires
            self.valid_for(old(dev).data@),
            self.cluster_in_range(cluster as int),
        ensures
            final(dev).data@.len() == old(dev).data@.len(),
            self.cluster_bytes(final(dev).data@, cluster as int) == zero_seq(
                self.cluster_size as nat,
            ),
            self.fat_table(final(dev).data@) == self.fat_table(old(dev).data@),
            forall|c2: int|
                self.cluster_in_range(c2) && c2 != cluster ==> self.cluster_bytes(
                    final(dev).data@,
                    c2,
                ) == self.cluster_bytes(old(dev).data@, c2),
            final(dev).log@ == old(dev).log@.push(
                IoRecord {
                    kind: IoKind::Zero,
                    offset: self.cluster_addr(cluster as int) as usize,
                    len: self.cluster_size,
                },
            ),
    {
        proof {
            self.lemma_cluster_fits(old(dev).data@, cluster as int);
        }
        let addr = self.data_addr + (cluster - 2) * self.cluster_size;
        dev.write_zero(addr, self.cluster_size);
        proof {
            lemma_cluster_patch(
                *self,
                old(dev).data@,
                cluster as int,
                0,
                zero_seq(self.cluster_size as nat),
            );
            assert(splice(
                self.cluster_bytes(old(dev).data@, cluster as int),
                0,
                zero_seq(self.cluster_size as nat),
            ) =~= zero_seq(self.cluster_size as nat));
        }
    }

    /// Erases `count` consecutive directory slots starting at `idx`: exactly
    /// the slots one logical entry occupies. One zeroing transfer; a zeroed
    /// slot decodes as unused.
    pub fn delete_sequence_dir_item(
        &self,
        dev: &mut BlockDevice,
        cluster: usize,
        idx: usize,
        count: usize,
    )
        requires
            self.valid_for(old(dev).data@),
            self.cluster_in_range(cluster as int),
            idx + count <= self.slot_count(),
        ensures
            final(dev).data@.len() == old(dev).data@.len(),
            self.cluster_bytes(final(dev).data@, cluster as int) == splice(
                self.cluster_bytes(old(dev).data@, cluster as int),
                32 * idx,
                zero_seq((32 * count) as nat),
            ),
            self.fat_table(final(dev).data@) == self.fat_table(old(dev).data@),
            forall|c2: int|
                self.cluster_in_range(c2) && c2 != cluster ==> self.cluster_bytes(
                    final(dev).data@,
                    c2,
                ) == self.cluster_bytes(old(dev).data@, c2),
            old(dev).log@.is_prefix_of(final(dev).log@),
    {
        proof {
            self.lemma_cluster_fits(old(dev).data@, cluster as int);
            assert(32 * ((idx + count) as int) <= self.cluster_size as int);
        }
        let addr = self.data_addr + (cluster - 2) * self.cluster_size + 32 * idx;
        dev.write_zero(addr, 32 * count);
        proof {
            lemma_cluster_patch(
                *self,
                old(dev).data@,
                cluster as int,
                32 * (idx as int),
                zero_seq((32 * count) as nat),
            );
        }
    }
}

impl FatManager {
    /// How much of a transfer the cluster at hand takes.
    pub open spec fn step_len(self, off: int, len: int) -> int {
        if len <= self.cluster_size - off {
            len
        } else {
            self.cluster_size - off
        }
    }

    /// The bytes a chain read returns: from each visited cluster the next
    /// piece of the requested range, the first offset by `off`, stopping at
    /// end-of-chain even when `len` asks for more (the chain's length is the
    /// authoritative size, so the read silently truncates).
    pub open spec fn chain_read(self, data: Seq<u8>, c: int, off: int, len: int) -> Seq<u8>
        decreases len,
    {
        if len <= 0 || off < 0 || off >= self.cluster_size || !self.cluster_in_range(c) {
            Seq::empty()
        } else {
            let take = self.step_len(off, len);
            let part = data.subrange(
                self.cluster_addr(c) + off,
                self.cluster_addr(c) + off + take,
            );
            if len - take > 0 && has_next(self.fat_table(data)[c]) {
                part + self.chain_read(data, self.fat_table(data)[c] as int, 0, len - take)
            } else {
                part
            }
        }
    }

    /// The transfers a chain read issues: one read per visited cluster, sized
    /// as `chain_read` takes its pieces.
    pub open spec fn chain_read_log(self, data: Seq<u8>, c: int, off: int, len: int) -> Seq<
        IoRecord,
    >
        decreases len,
    {
        if len <= 0 || off < 0 || off >= self.cluster_size || !self.cluster_in_range(c) {
            Seq::empty()
        } else {
            let take = self.step_len(off, len);
            let rec = IoRecord {
                kind: IoKind::Read,
                offset: (self.cluster_addr(c) + off) as usize,
                len: take as usize,
            };
            if len - take > 0 && has_next(self.fat_table(data)[c]) {
                seq![rec] + self.chain_read_log(data, self.fat_table(data)[c] as int, 0, len - take)
            } else {
                seq![rec]
            }
        }
    }

    /// Reads `len` bytes from the chain starting at `cluster`, the first
    /// cluster's transfer offset by `offset`. Returns nothing when `cluster`
    /// is not a data cluster. The result and the transfers issued are exactly
    /// what `chain_read` and `chain_read_log` describe; a chain shorter than
    /// `len` truncates the result.
    pub fn read(&self, dev: &mut BlockDevice, cluster: usize, offset: usize, len: usize) -> (r:
        Option<Vec<u8>>)
        requires
            self.valid_for(old(dev).data@),
            offset < self.cluster_size,
        ensures
            final(dev).data@ == old(dev).data@,
            match r {
                Some(buf) => {
                    &&& self.cluster_in_range(cluster as int)
                    &&& buf@ == self.chain_read(
                        old(dev).data@,
                        cluster as int,
                        offset as int,
                        len as int,
                    )
                    &&& final(dev).log@ == old(dev).log@ + self.chain_read_log(
                        old(dev).data@,
                        cluster as int,
                        offset as int,
                        len as int,
                    )
                },
                None => !self.cluster_in_range(cluster as int) && final(dev).log@ == old(dev).log@,
            },
    {
        if cluster < 2 || cluster >= self.fat_entry_count {
            return None;
        }
        let ghost d0 = old(dev).data@;
        if len == 0 {
            return Some(Vec::new());
        }
        let mut out: Vec<u8> = Vec::new();
        let mut cur = cluster;
        let mut cur_off = offset;
        let mut remaining = len;
        let mut done = false;
        while !done
            invariant
                self.valid_for(dev.data@),
                dev.data@ == d0,
                !done ==> {
                    &&& 1 <= remaining
                    &&& 0 <= cur_off < self.cluster_size
                    &&& self.cluster_in_range(cur as int)
                    &&& self.chain_read(d0, cluster as int, offset as int, len as int) == out@
                        + self.chain_read(d0, cur as int, cur_off as int, remaining as int)
                    &&& old(dev).log@ + self.chain_read_log(
                        d0,
                        cluster as int,
                        offset as int,
                        len as int,
                    ) == dev.log@ + self.chain_read_log(
                        d0,
                        cur as int,
                        cur_off as int,
                        remaining as int,
                    )
                },
                done ==> {
                    &&& out@ == self.chain_read(d0, cluster as int, offset as int, len as int)
                    &&& dev.log@ == old(dev).log@ + self.chain_read_log(
                        d0,
                        cluster as int,
                        offset as int,
                        len as int,
                    )
                },
            decreases remaining + (if done {
                0int
            } else {
                1int
            }),
        {
            proof {
                self.lemma_cluster_fits(d0, cur as int);
            }
            let take = if remaining <= self.cluster_size - cur_off {
                remaining
            } else {
                self.cluster_size - cur_off
            };
            let addr = self.data_addr + (cur - 2) * self.cluster_size + cur_off;
            let mut chunk = dev.read_at(addr, take);
            let ghost out0 = out@;
            out.append(&mut chunk);
            proof {
                assert(out@ == out0 + d0.subrange(addr as int, addr + take));
            }
            let ghost rem0 = remaining as int;
            let ghost cur0 = cur as int;
            let ghost off0 = cur_off as int;
            remaining = remaining - take;
            if remaining == 0 {
                done = true;
                proof {
                    assert(self.chain_read(d0, cur0, off0, rem0) == d0.subrange(
                        addr as int,
                        addr + take,
                    ));
                    assert(self.chain_read_log(d0, cur0, off0, rem0) == seq![
                        IoRecord { kind: IoKind::Read, offset: addr, len: take },
                    ]);
                }
            } else {
                let e = match self.get_fat_item(dev, cur) {
                    Some(e) => e,
                    None => 0,
                };
                proof {
                    assert(e == self.fat_table(d0)[cur0]);
                    assert(self.chain_read(d0, cur0, off0, rem0) == d0.subrange(
                        addr as int,
                        addr + take,
                    ) + (if has_next(e) {
                        self.chain_read(d0, e as int, 0, rem0 - take)
                    } else {
                        Seq::<u8>::empty()
                    }));
                    assert(self.chain_read_log(d0, cur0, off0, rem0) == seq![
                        IoRecord { kind: IoKind::Read, offset: addr, len: take },
                    ] + (if has_next(e) {
                        self.chain_read_log(d0, e as int, 0, rem0 - take)
                    } else {
                        Seq::<IoRecord>::empty()
                    }));
                }
                if e != 0 && e < FLAG_CHAIN_END_MIN {
                    if e >= 2 && (e as usize) < self.fat_entry_count {
                        cur = e as usize;
                        cur_off = 0;
                    } else {
                        proof {
                            assert(self.chain_read(d0, e as int, 0, rem0 - take)
                                == Seq::<u8>::empty());
                            assert(self.chain_read_log(d0, e as int, 0, rem0 - take)
                                == Seq::<IoRecord>::empty());
                        }
                        done = true;
                    }
                } else {
                    done = true;
                }
            }
        }
        Some(out)
    }
}

impl FatManager {
    /// The device bytes after a chain write: each visited cluster takes the
    /// next piece of the source, the first offset by `off`. The write never
    /// grows the chain: source bytes past the chain's end are dropped.
    pub open spec fn chain_write(self, data: Seq<u8>, c: int, off: int, src: Seq<u8>) -> Seq<u8>
        decreases src.len(),
    {
        if src.len() == 0 || off < 0 || off >= self.cluster_size || !self.cluster_in_range(c) {
            data
        } else {
            let take = self.step_len(off, src.len() as int);
            let d2 = splice(data, self.cluster_addr(c) + off, src.take(take));
            if src.len() - take > 0 && has_next(self.fat_table(data)[c]) {
                self.chain_write(d2, self.fat_table(data)[c] as int, 0, src.skip(take))
            } else {
                d2
            }
        }
    }

    /// The transfers a chain write issues: one write per visited cluster.
    pub open spec fn chain_write_log(self, data: Seq<u8>, c: int, off: int, src: Seq<u8>) -> Seq<
        IoRecord,
    >
        decreases src.len(),
    {
        if src.len() == 0 || off < 0 || off >= self.cluster_size || !self.cluster_in_range(c) {
            Seq::empty()
        } else {
            let take = self.step_len(off, src.len() as int);
            let rec = IoRecord {
                kind: IoKind::Write,
                offset: (self.cluster_addr(c) + off) as usize,
                len: take as usize,
            };
            if src.len() - take > 0 && has_next(self.fat_table(data)[c]) {
                seq![rec] + self.chain_write_log(
                    splice(data, self.cluster_addr(c) + off, src.take(take)),
                    self.fat_table(data)[c] as int,
                    0,
                    src.skip(take),
                )
            } else {
                seq![rec]
            }
        }
    }

    /// Writes `content` into the chain starting at `cluster`, the first
    /// cluster's transfer offset by `offset`. Returns false, changing
    /// nothing, when `cluster` is not a data cluster. The device afterwards
    /// and the transfers issued are exactly what `chain_write` and
    /// `chain_write_log` describe; the write does not grow the chain.
    pub fn write(
        &self,
        dev: &mut BlockDevice,
        cluster: usize,
        offset: usize,
        content: &Vec<u8>,
    ) -> (r: bool)
        requires
            self.valid_for(old(dev).data@),
            offset < self.cluster_size,
        ensures
            r == self.cluster_in_range(cluster as int),
            r ==> final(dev).data@ == self.chain_write(
                old(dev).data@,
                cluster as int,
                offset as int,
                content@,
            ),
            r ==> final(dev).log@ == old(dev).log@ + self.chain_write_log(
                old(dev).data@,
                cluster as int,
                offset as int,
                content@,
            ),
            !r ==> final(dev).data@ == old(dev).data@ && final(dev).log@ == old(dev).log@,
            final(dev).data@.len() == old(dev).data@.len(),
    {
        if cluster < 2 || cluster >= self.fat_entry_count {
            return false;
        }
        let n = content.len();
        if n == 0 {
            return true;
        }
        let mut cur = cluster;
        let mut cur_off = offset;
        let mut pos: usize = 0;
        let mut done = false;
        proof {
            assert(content@.skip(0) =~= content@);
        }
        while !done
            invariant
                n == content@.len(),
                self.valid_for(dev.data@),
                dev.data@.len() == old(dev).data@.len(),
                !done ==> {
                    &&& pos < n
                    &&& 0 <= cur_off < self.cluster_size
                    &&& self.cluster_in_range(cur as int)
                    &&& self.chain_write(
                        old(dev).data@,
                        cluster as int,
                        offset as int,
                        content@,
                    ) == self.chain_write(
                        dev.data@,
                        cur as int,
                        cur_off as int,
                        content@.skip(pos as int),
                    )
                    &&& old(dev).log@ + self.chain_write_log(
                        old(dev).data@,
                        cluster as int,
                        offset as int,
                        content@,
                    ) == dev.log@ + self.chain_write_log(
                        dev.data@,
                        cur as int,
                        cur_off as int,
                        content@.skip(pos as int),
                    )
                },
                done ==> {
                    &&& dev.data@ == self.chain_write(
                        old(dev).data@,
                        cluster as int,
                        offset as int,
                        content@,
                    )
                    &&& dev.log@ == old(dev).log@ + self.chain_write_log(
                        old(dev).data@,
                        cluster as int,
                        offset as int,
                        content@,
                    )
                },
            decreases n - pos + (if done {
                0int
            } else {
                1int
            }),
        {
            proof {
                self.lemma_cluster_fits(dev.data@, cur as int);
            }
            let remaining = n - pos;
            let take = if remaining <= self.cluster_size - cur_off {
                remaining
            } else {
                self.cluster_size - cur_off
            };
            let addr = self.data_addr + (cur - 2) * self.cluster_size + cur_off;
            let ghost d_pre = dev.data@;
            let ghost src_pre = content@.skip(pos as int);
            let ghost cur0 = cur as int;
            let ghost off0 = cur_off as int;
            let e = match self.get_fat_item(dev, cur) {
                Some(e) => e,
                None => 0,
            };
            dev.write_at(addr, content, pos, take);
            proof {
                assert(content@.subrange(pos as int, pos + take) =~= src_pre.take(take as int));
                assert(e == self.fat_table(d_pre)[cur0]);
                lemma_cluster_patch(*self, d_pre, cur0, off0, src_pre.take(take as int));
                assert(self.fat_table(dev.data@) == self.fat_table(d_pre));
                assert(self.chain_write(d_pre, cur0, off0, src_pre) == (if src_pre.len() - take > 0
                    && has_next(e) {
                    self.chain_write(dev.data@, e as int, 0, src_pre.skip(take as int))
                } else {
                    dev.data@
                }));
                assert(self.chain_write_log(d_pre, cur0, off0, src_pre) == seq![
                    IoRecord { kind: IoKind::Write, offset: addr, len: take },
                ] + (if src_pre.len() - take > 0 && has_next(e) {
                    self.chain_write_log(dev.data@, e as int, 0, src_pre.skip(take as int))
                } else {
                    Seq::<IoRecord>::empty()
                }));
                assert(content@.skip(pos + take) =~= src_pre.skip(take as int));
            }
            pos = pos + take;
            if pos == n {
                done = true;
            } else {
                if e != 0 && e < FLAG_CHAIN_END_MIN && e >= 2 && (e as usize)
                    < self.fat_entry_count {
                    cur = e as usize;
                    cur_off = 0;
                } else {
                    proof {
                        if has_next(e) {
                            assert(self.chain_write(dev.data@, e as int, 0, content@.skip(
                                pos as int,
                            )) == dev.data@);
                            assert(self.chain_write_log(dev.data@, e as int, 0, content@.skip(
                                pos as int,
                            )) == Seq::<IoRecord>::empty());
                        }
                    }
                    done = true;
                }
            }
        }
        true
    }
}

/// Law: a read of `len` bytes from the start of a properly terminated chain
/// that spans at least `k` clusters, where `len` needs exactly `k` of them,
/// issues exactly `k` read transfers: a full cluster each, except the last,
/// which carries the remainder.
pub proof fn lemma_read_transfer_sizes(m: FatManager, data: Seq<u8>, c: int, len: int, k: int)
    requires
        m.valid_for(data),
        m.cluster_in_range(c),
        len <= usize::MAX,
        chain_ok(m.fat_table(data), c),
        forall|i: int|
            0 <= i < chain(m.fat_table(data), c, m.fat_entry_count as nat).len() ==> #[trigger] chain(
                m.fat_table(data),
                c,
                m.fat_entry_count as nat,
            )[i] >= 2,
        1 <= k <= chain(m.fat_table(data), c, m.fat_entry_count as nat).len(),
        (k - 1) * m.cluster_size < len <= k * m.cluster_size,
    ensures
        m.chain_read_log(data, c, 0, len).len() == k,
        forall|i: int|
            0 <= i < k ==> (#[trigger] m.chain_read_log(data, c, 0, len)[i]).kind == IoKind::Read,
        forall|i: int|
            0 <= i < k - 1 ==> (#[trigger] m.chain_read_log(data, c, 0, len)[i]).len
                == m.cluster_size,
        m.chain_read_log(data, c, 0, len)[k - 1].len as int == len - (k - 1) * m.cluster_size,
    decreases k,
{
    let t = m.fat_table(data);
    let n = t.len();
    assert(n == m.fat_entry_count);
    let ch = chain(t, c, n);
    lemma_chain_steps(t, c, n);
    m.lemma_cluster_fits(data, c);
    assert(m.cluster_size >= 512) by (nonlinear_arith)
        requires
            m.cluster_size == m.bytes_per_sector * m.sector_per_cluster,
            m.bytes_per_sector >= 512,
            m.sector_per_cluster >= 1,
    ;
    let cs = m.cluster_size as int;
    let log = m.chain_read_log(data, c, 0, len);
    if k == 1 {
        assert(0 < len <= cs) by (nonlinear_arith)
            requires
                (k - 1) * cs < len <= k * cs,
                k == 1,
        ;
        assert((k - 1) * cs == 0) by (nonlinear_arith)
            requires
                k == 1,
        ;
        assert(m.step_len(0, len) == len);
        assert(log =~= seq![
            IoRecord {
                kind: IoKind::Read,
                offset: (m.cluster_addr(c) + 0) as usize,
                len: len as usize,
            },
        ]);
    } else {
        assert(cs <= (k - 1) * cs && 0 <= (k - 1) * cs) by (nonlinear_arith)
            requires
                k - 1 >= 1,
                cs >= 0,
        ;
        assert(len > cs);
        assert(m.step_len(0, len) == cs);
        assert(ch[0] == c);
        assert(ch.len() >= 2);
        assert(has_next(t[ch[0]]));
        let nxt = t[c] as int;
        assert(nxt == ch[1]);
        assert(2 <= nxt < n);
        lemma_chain_elem(t, c, n, 1);
        let sub = chain(t, nxt, (n - 1) as nat);
        assert(sub == ch.subrange(1, ch.len() as int));
        assert(sub.last() == ch.last());
        assert(is_eoc(t[sub.last()]));
        lemma_chain_fuel(t, nxt, (n - 1) as nat, n);
        assert(chain(t, nxt, n) == sub);
        assert(chain_ok(t, nxt));
        assert forall|i: int| 0 <= i < sub.len() implies #[trigger] sub[i] >= 2 by {
            assert(sub[i] == ch[i + 1]);
        }
        assert((k - 2) * cs < len - cs <= (k - 1) * cs) by (nonlinear_arith)
            requires
                (k - 1) * cs < len <= k * cs,
        ;
        lemma_read_transfer_sizes(m, data, nxt, len - cs, k - 1);
        let sublog = m.chain_read_log(data, nxt, 0, len - cs);
        assert(log == seq![
            IoRecord {
                kind: IoKind::Read,
                offset: (m.cluster_addr(c) + 0) as usize,
                len: cs as usize,
            },
        ] + sublog);
        assert forall|i: int| 0 <= i < k implies (#[trigger] log[i]).kind == IoKind::Read by {
            if i > 0 {
                assert(log[i] == sublog[i - 1]);
            }
        }
        assert forall|i: int| 0 <= i < k - 1 implies (#[trigger] log[i]).len == m.cluster_size by {
            if i > 0 {
                assert(log[i] == sublog[i - 1]);
            }
        }
        assert(log[k - 1] == sublog[k - 2]);
        assert((k - 1) * cs == (k - 2) * cs + cs) by (nonlinear_arith);
    }
}

/// Decoding records laid out back to back as slot bytes gives the records
/// themselves, as long as each fits its slot.
pub proof fn lemma_decode_encode_records(rs: Seq<RecordV>)
    requires
        forall|i: int| 0 <= i < rs.len() ==> match #[trigger] rs[i] {
            RecordV::Free => false,
            RecordV::Short { name, attr, cluster, size } => crate::codec::short_fields_wf(
                name,
                attr,
                cluster,
            ),
            RecordV::Long { frag, seq_no, ck, last } => crate::codec::long_fields_wf(frag, seq_no),
        },
    ensures
        decode_slots(encode_records(rs)) == rs,
{
    lemma_encode_records_len(rs);
    let bytes = encode_records(rs);
    assert forall|i: int| 0 <= i < rs.len() implies decode_slots(bytes)[i] == rs[i] by {
        assert(bytes.subrange(32 * i, 32 * i + 32) =~= encode_record(rs[i])) by {
            assert forall|b: int| 0 <= b < 32 implies bytes.subrange(32 * i, 32 * i + 32)[b]
                == encode_record(rs[i])[b] by {
                assert(bytes[32 * i + b] == encode_record(rs[(32 * i + b) / 32])[(32 * i + b)
                    % 32]);
                assert((32 * i + b) / 32 == i && (32 * i + b) % 32 == b);
            }
        }
        match rs[i] {
            RecordV::Free => {},
            RecordV::Short { name, attr, cluster, size } => {
                crate::codec::lemma_short_roundtrip(name, attr, cluster, size);
            },
            RecordV::Long { frag, seq_no, ck, last } => {
                crate::codec::lemma_long_roundtrip(frag, seq_no, ck, last);
            },
        }
    }
    assert(decode_slots(bytes) =~= rs);
}

/// Law (round trip, byte level): laying a name's long-name run and short
/// record out as slot bytes, decoding that run back, and folding the records
/// yields exactly one entry, and it carries the original name.
pub proof fn lemma_slot_run_roundtrip(name: Seq<u16>, cluster: u32)
    requires
        1 <= name.len() <= 819,
        forall|i: int| 0 <= i < name.len() ==> crate::name::valid_unit(#[trigger] name[i]),
        short_of(name)[0] != 0,
        short_of(name)[0] != 0xE5,
        cluster < 0x10000000,
    ensures
        fold_entries(
            decode_slots(encode_records(entry_records(name, cluster))),
            0,
            acc_empty(),
        ) == seq![
            EntryV {
                name,
                short: short_of(name),
                attr: ATTR_SUBDIR,
                cluster,
                size: 0,
                idx: 0,
                slots: split_name(name).len() as int + 1,
            },
        ],
{
    let ck = checksum_of(short_of(name));
    let recs = entry_records(name, cluster);
    let frs = split_name(name);
    crate::name::lemma_split_join(name);
    crate::name::lemma_split_count(name);
    crate::name::lemma_split_units(name);
    crate::name::lemma_short_of_len(name);
    assert(frs.len() <= 63) by {
        if frs.len() > 63 {
            assert((frs.len() - 1) * 13 >= 63 * 13) by (nonlinear_arith)
                requires
                    frs.len() - 1 >= 63,
            ;
        }
    }
    let run = crate::tree::long_run_records(name, ck);
    assert forall|i: int| 0 <= i < recs.len() implies match #[trigger] recs[i] {
        RecordV::Free => false,
        RecordV::Short { name: sn, attr, cluster: cl, size } => crate::codec::short_fields_wf(
            sn,
            attr,
            cl,
        ),
        RecordV::Long { frag, seq_no, ck: c2, last } => crate::codec::long_fields_wf(frag, seq_no),
    } by {
        if i < run.len() {
            assert(recs[i] == run[i]);
            assert(recs[i] == (RecordV::Long {
                frag: frs[i],
                seq_no: (frs.len() - i) as u8,
                ck,
                last: i == 0,
            }));
            assert forall|j: int| 0 <= j < frs[i].len() implies crate::name::valid_unit(
                #[trigger] frs[i][j],
            ) by {
                assert(name.contains(frs[i][j]));
                let k = choose|k: int| 0 <= k < name.len() && name[k] == frs[i][j];
            }
        } else {
            assert(recs[i] == (RecordV::Short {
                name: short_of(name),
                attr: ATTR_SUBDIR,
                cluster,
                size: 0u32,
            }));
        }
    }
    lemma_decode_encode_records(recs);
    crate::tree::lemma_name_roundtrip(name, short_of(name), ATTR_SUBDIR, cluster, 0, ck);
}

/// Unused slots from `i` on decode to no entries.
proof fn lemma_fold_frees(slots: Seq<RecordV>, i: int)
    requires
        forall|j: int| i <= j < slots.len() ==> slots[j] == RecordV::Free,
    ensures
        fold_entries(slots, i, acc_empty()) == Seq::<EntryV>::empty(),
    decreases slots.len() - i,
{
    if 0 <= i < slots.len() {
        lemma_fold_frees(slots, i + 1);
    }
}

impl FatManager {
    /// Law: in a directory whose slots were all unused, a freshly written
    /// entry — the name's long-name run and its short record from the first
    /// slot on, everything after still unused — lists as exactly that one
    /// entry: what directory creation writes into an empty parent is what a
    /// following listing returns.
    pub proof fn lemma_create_in_empty_dir_listed(self, data: Seq<u8>, parent: int, name: Seq<
        u16,
    >, nc: u32)
        requires
            self.wf(),
            self.cluster_in_range(parent),
            1 <= name.len() <= 819,
            forall|i: int| 0 <= i < name.len() ==> crate::name::valid_unit(#[trigger] name[i]),
            short_of(name)[0] != 0,
            short_of(name)[0] != 0xE5,
            nc < 0x10000000,
            self.cluster_bytes(data, parent) == splice(
                zero_seq(self.cluster_size as nat),
                0,
                encode_records(entry_records(name, nc)),
            ),
            32 * entry_records(name, nc).len() <= self.cluster_size,
        ensures
            self.dir_entries(data, parent) == seq![
                EntryV {
                    name,
                    short: short_of(name),
                    attr: ATTR_SUBDIR,
                    cluster: nc,
                    size: 0,
                    idx: 0,
                    slots: split_name(name).len() as int + 1,
                },
            ],
    {
        let recs = entry_records(name, nc);
        let k = recs.len() as int;
        let enc = encode_records(recs);
        lemma_encode_records_len(recs);
        let cb = self.cluster_bytes(data, parent);
        crate::device::lemma_splice(zero_seq(self.cluster_size as nat), 0, enc);
        let slots = decode_slots(cb);
        assert(slots.len() == self.slot_count());
        lemma_slot_run_roundtrip(name, nc);
        let inner = decode_slots(enc);
        assert forall|j: int| 0 <= j < k implies slots[j] == inner[j] by {
            assert(cb.subrange(32 * j, 32 * j + 32) =~= enc.subrange(32 * j, 32 * j + 32));
        }
        assert forall|j: int| k <= j < slots.len() implies slots[j] == RecordV::Free by {
            let sl = cb.subrange(32 * j, 32 * j + 32);
            assert(sl[0] == cb[32 * j]);
            assert(cb[32 * j] == 0);
        }
        lemma_fold_run_extended(slots, inner, name, nc, k);
    }
}

/// Folding the placed run inside the larger slot sequence gives the same one
/// entry as folding the run alone, with the unused tail adding nothing.
proof fn lemma_fold_run_extended(slots: Seq<RecordV>, inner: Seq<RecordV>, name: Seq<u16>, nc: u32, k: int)
    requires
        k == entry_records(name, nc).len(),
        inner == decode_slots(encode_records(entry_records(name, nc))),
        1 <= name.len() <= 819,
        forall|i: int| 0 <= i < name.len() ==> crate::name::valid_unit(#[trigger] name[i]),
        short_of(name)[0] != 0,
        short_of(name)[0] != 0xE5,
        nc < 0x10000000,
        k <= slots.len(),
        forall|j: int| 0 <= j < k ==> slots[j] == inner[j],
        forall|j: int| k <= j < slots.len() ==> slots[j] == RecordV::Free,
    ensures
        fold_entries(slots, 0, acc_empty()) == seq![
            EntryV {
                name,
                short: short_of(name),
                attr: ATTR_SUBDIR,
                cluster: nc,
                size: 0,
                idx: 0,
                slots: split_name(name).len() as int + 1,
            },
        ],
{
    let recs = entry_records(name, nc);
    let frs = split_name(name);
    let ck = checksum_of(short_of(name));
    crate::name::lemma_split_join(name);
    crate::name::lemma_split_count(name);
    lemma_slot_run_roundtrip(name, nc);
    lemma_decode_encode_records_for_entry(name, nc);
    assert(inner == recs);
    assert(frs.len() <= 63) by {
        if frs.len() > 63 {
            assert((frs.len() - 1) * 13 >= 63 * 13) by (nonlinear_arith)
                requires
                    frs.len() - 1 >= 63,
            ;
        }
    }
    let kk = frs.len() as int;
    assert(k == kk + 1);
    assert forall|i: int| 0 <= i < kk implies slots[i] == (RecordV::Long {
        frag: frs[i],
        seq_no: (kk - i) as u8,
        ck,
        last: i == 0,
    }) by {
        assert(slots[i] == recs[i]);
        assert(recs[i] == crate::tree::long_run_records(name, ck)[i]);
    }
    assert(slots[kk] == (RecordV::Short {
        name: short_of(name),
        attr: ATTR_SUBDIR,
        cluster: nc,
        size: 0u32,
    })) by {
        assert(slots[kk] == recs[kk]);
    }
    lemma_fold_frees(slots, k);
    crate::tree::lemma_fold_placed_run(slots, frs, short_of(name), ATTR_SUBDIR, nc, 0, ck);
    assert(crate::name::joined(frs, kk) == name);
}

/// The run's records decode back to themselves (specialized to an entry's
/// records).
proof fn lemma_decode_encode_records_for_entry(name: Seq<u16>, nc: u32)
    requires
        1 <= name.len() <= 819,
        forall|i: int| 0 <= i < name.len() ==> crate::name::valid_unit(#[trigger] name[i]),
        short_of(name)[0] != 0,
        short_of(name)[0] != 0xE5,
        nc < 0x10000000,
    ensures
        decode_slots(encode_records(entry_records(name, nc))) == entry_records(name, nc),
{
    let ck = checksum_of(short_of(name));
    let recs = entry_records(name, nc);
    let frs = split_name(name);
    let run = crate::tree::long_run_records(name, ck);
    crate::name::lemma_split_join(name);
    crate::name::lemma_split_count(name);
    crate::name::lemma_split_units(name);
    crate::name::lemma_short_of_len(name);
    assert(frs.len() <= 63) by {
        if frs.len() > 63 {
            assert((frs.len() - 1) * 13 >= 63 * 13) by (nonlinear_arith)
                requires
                    frs.len() - 1 >= 63,
            ;
        }
    }
    assert forall|i: int| 0 <= i < recs.len() implies match #[trigger] recs[i] {
        RecordV::Free => false,
        RecordV::Short { name: sn, attr, cluster: cl, size } => crate::codec::short_fields_wf(
            sn,
            attr,
            cl,
        ),
        RecordV::Long { frag, seq_no, ck: c2, last } => crate::codec::long_fields_wf(frag, seq_no),
    } by {
        if i < run.len() {
            assert(recs[i] == run[i]);
            assert(recs[i] == (RecordV::Long {
                frag: frs[i],
                seq_no: (frs.len() - i) as u8,
                ck,
                last: i == 0,
            }));
            assert forall|j: int| 0 <= j < frs[i].len() implies crate::name::valid_unit(
                #[trigger] frs[i][j],
            ) by {
                assert(name.contains(frs[i][j]));
                let w = choose|w: int| 0 <= w < name.len() && name[w] == frs[i][j];
            }
        } else {
            assert(recs[i] == (RecordV::Short {
                name: short_of(name),
                attr: ATTR_SUBDIR,
                cluster: nc,
                size: 0u32,
            }));
        }
    }
    lemma_decode_encode_records(recs);
}

/// The index of the first entry whose filename is `name`, or the item count
/// when none matches.
pub open spec fn first_match(items: Seq<TreeItem>, name: Seq<u16>) -> int {
    first_match_from(items, name, 0)
}

pub open spec fn first_match_from(items: Seq<TreeItem>, name: Seq<u16>, j: int) -> int
    decreases items.len() - j,
{
    if j < 0 || j >= items.len() {
        items.len() as int
    } else if items[j].filename@ == name {
        j
    } else {
        first_match_from(items, name, j + 1)
    }
}

impl FatManager {
    /// Builds a manager from the volume parameters, deriving the byte
    /// addresses the operations use. `reserved_sectors` is the sector count
    /// before the first table copy.
    pub fn new(
        block_idx: usize,
        bytes_per_sector: usize,
        sector_per_cluster: usize,
        total_sector: usize,
        fat_num: usize,
        fat_size_sectors: usize,
        reserved_sectors: usize,
    ) -> (r: FatManager)
        requires
            bytes_per_sector >= 512,
            sector_per_cluster >= 1,
            fat_num >= 1,
            fat_size_sectors >= 1,
            3 <= (fat_size_sectors * bytes_per_sector) / 4 < 0x0FFFFFF8,
            total_sector * bytes_per_sector <= usize::MAX,
            (reserved_sectors + fat_num * fat_size_sectors) * bytes_per_sector <= usize::MAX,
            ((fat_size_sectors * bytes_per_sector) / 4) * (bytes_per_sector * sector_per_cluster)
                <= usize::MAX,
        ensures
            r.wf(),
            r.block_idx == block_idx,
            r.bytes_per_sector == bytes_per_sector,
            r.sector_per_cluster == sector_per_cluster,
            r.total_sector == total_sector,
            r.fat_num == fat_num,
            r.fat_size_sectors == fat_size_sectors,
            r.fat_addr == reserved_sectors * bytes_per_sector,
            r.cluster_size == bytes_per_sector * sector_per_cluster,
            r.data_addr == (reserved_sectors + fat_num * fat_size_sectors) * bytes_per_sector,
            r.fat_entry_count == (fat_size_sectors * bytes_per_sector) / 4,
    {
        proof {
            assert(reserved_sectors * bytes_per_sector <= (reserved_sectors + fat_num
                * fat_size_sectors) * bytes_per_sector) by (nonlinear_arith)
                requires
                    bytes_per_sector >= 0,
                    fat_num >= 1,
                    fat_size_sectors >= 1,
                    reserved_sectors >= 0,
            ;
            assert(fat_num * fat_size_sectors * bytes_per_sector <= (reserved_sectors + fat_num
                * fat_size_sectors) * bytes_per_sector) by (nonlinear_arith)
                requires
                    bytes_per_sector >= 0,
                    reserved_sectors >= 0,
                    fat_num >= 1,
                    fat_size_sectors >= 1,
            ;
            assert(bytes_per_sector * sector_per_cluster <= ((fat_size_sectors * bytes_per_sector)
                / 4) * (bytes_per_sector * sector_per_cluster)) by (nonlinear_arith)
                requires
                    3 <= (fat_size_sectors * bytes_per_sector) / 4,
                    bytes_per_sector >= 0,
                    sector_per_cluster >= 0,
            ;
            assert(fat_num * fat_size_sectors <= fat_num * fat_size_sectors * bytes_per_sector)
                by (nonlinear_arith)
                requires
                    bytes_per_sector >= 1,
                    fat_num >= 0,
                    fat_size_sectors >= 0,
            ;
            assert((reserved_sectors + fat_num * fat_size_sectors) * bytes_per_sector
                == reserved_sectors * bytes_per_sector + fat_num * fat_size_sectors
                * bytes_per_sector) by (nonlinear_arith);
        }
        let fat_addr = reserved_sectors * bytes_per_sector;
        let fat_bytes = fat_num * fat_size_sectors * bytes_per_sector;
        let data_addr = fat_addr + fat_bytes;
        let cluster_size = bytes_per_sector * sector_per_cluster;
        let fat_entry_count = (fat_size_sectors * bytes_per_sector) / 4;
        proof {
            assert(4 * ((fat_size_sectors * bytes_per_sector) / 4) <= fat_size_sectors
                * bytes_per_sector);
            assert(fat_size_sectors * bytes_per_sector <= fat_num * (fat_size_sectors
                * bytes_per_sector)) by (nonlinear_arith)
                requires
                    fat_num >= 1,
                    fat_size_sectors >= 0,
                    bytes_per_sector >= 0,
            ;
            assert(fat_num * (fat_size_sectors * bytes_per_sector) == fat_num * fat_size_sectors
                * bytes_per_sector) by (nonlinear_arith);
        }
        FatManager {
            block_idx,
            bytes_per_sector,
            sector_per_cluster,
            total_sector,
            fat_num,
            fat_size_sectors,
            fat_addr,
            cluster_size,
            data_addr,
            fat_entry_count,
        }
    }

    /// The boot sector's parameters describe a volume this engine can work
    /// with: the standard fields are in sane ranges and no derived byte
    /// address can overflow the machine.
    pub open spec fn boot_params_valid(s: Seq<u8>) -> bool {
        &&& s.len() >= 40
        &&& le16_at(s, 11) >= 512
        &&& s[13] >= 1
        &&& s[16] >= 1
        &&& le32_at(s, 36) >= 1
        &&& 3 <= (le32_at(s, 36) * le16_at(s, 11)) / 4 < 0x0FFFFFF8
        &&& le32_at(s, 32) * le16_at(s, 11) <= usize::MAX
        &&& (le16_at(s, 14) + s[16] * le32_at(s, 36)) * le16_at(s, 11) <= usize::MAX
        &&& ((le32_at(s, 36) * le16_at(s, 11)) / 4) * (le16_at(s, 11) * s[13]) <= usize::MAX
    }

    /// Parses the volume parameters out of the boot sector, laid out as the
    /// standard BIOS Parameter Block stores them: bytes per sector at 11,
    /// sectors per cluster at 13, reserved sectors at 14, table copies at 16,
    /// total sectors at 32, sectors per table copy at 36, the multi-byte
    /// fields little-endian. Yields nothing exactly when the parameters are
    /// out of range for this engine or a derived address would overflow.
    pub fn from_boot_sector(block_idx: usize, sector: &Vec<u8>) -> (r: Option<FatManager>)
        ensures
            match r {
                Some(m) => {
                    &&& Self::boot_params_valid(sector@)
                    &&& m.wf()
                    &&& m.block_idx == block_idx
                    &&& m.bytes_per_sector == le16_at(sector@, 11)
                    &&& m.sector_per_cluster == sector@[13]
                    &&& m.total_sector == le32_at(sector@, 32)
                    &&& m.fat_num == sector@[16]
                    &&& m.fat_size_sectors == le32_at(sector@, 36)
                    &&& m.fat_addr == le16_at(sector@, 14) * le16_at(sector@, 11)
                },
                None => !Self::boot_params_valid(sector@),
            },
    {
        if sector.len() < 40 {
            return None;
        }
        let bps = crate::bytes::read_le16(sector, 11) as u64;
        let spc = sector[13] as u64;
        let reserved = crate::bytes::read_le16(sector, 14) as u64;
        let fat_num = sector[16] as u64;
        let total = crate::bytes::read_le32(sector, 32) as u64;
        let fsz = crate::bytes::read_le32(sector, 36) as u64;
        if bps < 512 || spc < 1 || fat_num < 1 || fsz < 1 {
            return None;
        }
        proof {
            assert(fsz * bps < 0x1_0000_0000_0000_0000) by (nonlinear_arith)
                requires
                    0 <= fsz < 0x1_0000_0000,
                    0 <= bps < 0x1_0000,
            ;
            assert(bps * spc < 0x1_0000_0000) by (nonlinear_arith)
                requires
                    0 <= bps < 0x1_0000,
                    0 <= spc < 0x100,
            ;
            assert(total * bps < 0x1_0000_0000_0000_0000) by (nonlinear_arith)
                requires
                    0 <= total < 0x1_0000_0000,
                    0 <= bps < 0x1_0000,
            ;
            assert(fat_num * fsz < 0x1_0000_0000_0000) by (nonlinear_arith)
                requires
                    0 <= fat_num < 0x100,
                    0 <= fsz < 0x1_0000_0000,
            ;
            assert((reserved + fat_num * fsz) * bps < 0x1_0000_0000_0000_0000)
                by (nonlinear_arith)
                requires
                    0 <= reserved < 0x1_0000,
                    0 <= fat_num * fsz < 0x1_0000_0000_0000,
                    0 <= bps < 0x1_0000,
            ;
        }
        let entries = fsz * bps / 4;
        if entries < 3 || entries >= 0x0FFFFFF8 {
            return None;
        }
        let cluster_size = bps * spc;
        proof {
            assert(entries * cluster_size < 0x1_0000_0000_0000_0000) by (nonlinear_arith)
                requires
                    0 <= entries < 0x0FFFFFF8,
                    0 <= cluster_size < 0x1_0000_0000,
            ;
        }
        let max = usize::MAX as u64;
        if total * bps > max {
            return None;
        }
        if (reserved + fat_num * fsz) * bps > max {
            return None;
        }
        if entries * cluster_size > max {
            return None;
        }
        Some(
            FatManager::new(
                block_idx,
                bps as usize,
                spc as usize,
                total as usize,
                fat_num as usize,
                fsz as usize,
                reserved as usize,
            ),
        )
    }

    /// Deletes the file named `name` from the directory `tree` describes:
    /// frees its whole cluster chain and erases exactly the directory slots
    /// its records occupy. Returns false, changing nothing, when no entry
    /// matches the name or when the matching entry is a subdirectory
    /// (recursive deletion is out of scope). The tree must describe entries of
    /// this volume: slot ranges inside the directory block, and every file's
    /// chain properly terminated.
    pub fn delete_file(&self, dev: &mut BlockDevice, tree: &FileTree, name: &Vec<u16>) -> (r: bool)
        requires
            self.valid_for(old(dev).data@),
            self.cluster_in_range(tree.start_cluster as int),
            forall|j: int|
                0 <= j < tree.items@.len() ==> (#[trigger] tree.items@[j]).idx + tree.items@[j].len
                    <= self.slot_count(),
            forall|j: int|
                0 <= j < tree.items@.len() && !attr_is_dir(tree.items@[j].attr) ==> chain_ok(
                    self.fat_table(old(dev).data@),
                    (#[trigger] tree.items@[j]).start_cluster as int,
                ),
        ensures
            final(dev).data@.len() == old(dev).data@.len(),
            r == (first_match(tree.items@, name@) < tree.items@.len() && !attr_is_dir(
                tree.items@[first_match(tree.items@, name@)].attr,
            )),
            !r ==> final(dev).data@ == old(dev).data@ && final(dev).log@ == old(dev).log@,
            r ==> {
                let item = tree.items@[first_match(tree.items@, name@)];
                let t0 = self.fat_table(old(dev).data@);
                let ch = chain(t0, item.start_cluster as int, self.fat_entry_count as nat);
                &&& forall|x: int|
                    0 <= x < self.fat_entry_count ==> self.fat_table(final(dev).data@)[x] == if ch.contains(
                        x,
                    ) {
                        0u32
                    } else {
                        t0[x]
                    }
                &&& self.cluster_bytes(final(dev).data@, tree.start_cluster as int) == splice(
                    self.cluster_bytes(old(dev).data@, tree.start_cluster as int),
                    32 * item.idx,
                    zero_seq((32 * item.len) as nat),
                )
                &&& forall|c2: int|
                    self.cluster_in_range(c2) && c2 != tree.start_cluster ==> self.cluster_bytes(
                        final(dev).data@,
                        c2,
                    ) == self.cluster_bytes(old(dev).data@, c2)
            },
            old(dev).log@.is_prefix_of(final(dev).log@),
    {
        proof {
            lemma_first_match(tree.items@, name@);
        }
        let item = match tree.get_item(name) {
            Some(item) => item,
            None => {
                return false;
            },
        };
        proof {
            assert(item == &tree.items@[first_match(tree.items@, name@)]);
        }
        if item.is_dir() {
            return false;
        }
        let start_cluster = item.start_cluster;
        let idx = item.idx;
        let count = item.len;
        let ghost t0 = self.fat_table(old(dev).data@);
        let ghost ch = chain(t0, start_cluster as int, self.fat_entry_count as nat);
        self.delete_sequence_fat_item(dev, start_cluster as usize);
        proof {
            assert(self.fat_table(dev.data@) == crate::fat::freed(t0, ch, ch.len() as int));
            assert(ch.take(ch.len() as int) =~= ch);
            assert forall|c2: int| self.cluster_in_range(c2) implies self.cluster_bytes(
                dev.data@,
                c2,
            ) == self.cluster_bytes(old(dev).data@, c2) by {
                self.lemma_cluster_fits(old(dev).data@, c2);
                assert(self.cluster_bytes(dev.data@, c2) =~= self.cluster_bytes(
                    old(dev).data@,
                    c2,
                ));
            }
        }
        self.delete_sequence_dir_item(dev, tree.start_cluster, idx, count);
        true
    }
}

/// `get_item`'s first-match index agrees with `first_match`.
pub proof fn lemma_first_match(items: Seq<TreeItem>, name: Seq<u16>)
    ensures
        0 <= first_match(items, name) <= items.len(),
        first_match(items, name) < items.len() ==> items[first_match(items, name)].filename@
            == name,
        forall|k: int| 0 <= k < first_match(items, name) ==> items[k].filename@ != name,
        (exists|j: int| 0 <= j < items.len() && #[trigger] items[j].filename@ == name)
            <==> first_match(items, name) < items.len(),
{
    lemma_first_match_from(items, name, 0);
}

proof fn lemma_first_match_from(items: Seq<TreeItem>, name: Seq<u16>, j: int)
    requires
        0 <= j <= items.len(),
    ensures
        j <= first_match_from(items, name, j) <= items.len(),
        first_match_from(items, name, j) < items.len() ==> items[first_match_from(
            items,
            name,
            j,
        )].filename@ == name,
        forall|k: int| j <= k < first_match_from(items, name, j) ==> items[k].filename@ != name,
        (exists|k: int| j <= k < items.len() && #[trigger] items[k].filename@ == name)
            <==> first_match_from(items, name, j) < items.len(),
    decreases items.len() - j,
{
    if j < items.len() && items[j].filename@ != name {
        lemma_first_match_from(items, name, j + 1);
    }
}

/// The 8.3 name of a directory's own "." entry.
pub open spec fn dot_name() -> Seq<u8> {
    Seq::new(11, |i: int| if i == 0 { 0x2Eu8 } else { 0x20u8 })
}

/// The 8.3 name of a directory's ".." entry.
pub open spec fn dotdot_name() -> Seq<u8> {
    Seq::new(11, |i: int| if i < 2 { 0x2Eu8 } else { 0x20u8 })
}

/// One record's 32 slot bytes.
pub open spec fn encode_record(r: RecordV) -> Seq<u8> {
    match r {
        RecordV::Free => zero_seq(32),
        RecordV::Short { name, attr, cluster, size } => encode_short(name, attr, cluster, size),
        RecordV::Long { frag, seq_no, ck, last } => encode_long(frag, seq_no, ck, last),
    }
}

/// A record sequence's slot bytes, laid out back to back.
pub open spec fn encode_records(rs: Seq<RecordV>) -> Seq<u8> {
    Seq::new((32 * rs.len()) as nat, |b: int| encode_record(rs[b / 32])[b % 32])
}

/// The records a new subdirectory entry occupies in its parent: the name's
/// long-name run, then the short record pointing at the new cluster.
pub open spec fn entry_records(name: Seq<u16>, cluster: u32) -> Seq<RecordV> {
    crate::tree::long_run_records(name, checksum_of(short_of(name))) + seq![
        RecordV::Short { name: short_of(name), attr: ATTR_SUBDIR, cluster, size: 0 },
    ]
}

impl FatManager {
    /// A freshly created directory's cluster: zeroed, with "." (itself) and
    /// ".." (its parent) in the first two slots.
    pub open spec fn new_dir_bytes(self, own: u32, parent: u32) -> Seq<u8> {
        splice(
            splice(
                zero_seq(self.cluster_size as nat),
                0,
                encode_short(dot_name(), ATTR_SUBDIR, own, 0),
            ),
            32,
            encode_short(dotdot_name(), ATTR_SUBDIR, parent, 0),
        )
    }

    /// Creates a subdirectory named `name` in the directory `tree` describes:
    /// allocates the first free cluster as a one-cluster chain, writes the
    /// name's long-name run and short record into the first large-enough run
    /// of free slots, zero-fills the new cluster and writes its "." and ".."
    /// entries. Returns false, changing nothing, when no free cluster is left
    /// (the volume is full), when the derived short name already exists in the
    /// parent (a collision is refused, not renamed), or when the parent has no
    /// large-enough slot run.
    #[verifier::rlimit(100)]
    pub fn create_directory(&self, dev: &mut BlockDevice, tree: &FileTree, name: &Vec<u16>) -> (r:
        bool)
        requires
            self.valid_for(old(dev).data@),
            self.cluster_in_range(tree.start_cluster as int),
            1 <= name@.len() <= 819,
            self.fat_table(old(dev).data@)[0] != 0,
            self.fat_table(old(dev).data@)[1] != 0,
            self.fat_table(old(dev).data@)[tree.start_cluster as int] != 0,
        ensures
            final(dev).data@.len() == old(dev).data@.len(),
            r == ({
                &&& exists|j: int|
                    0 <= j < self.fat_entry_count && self.fat_table(old(dev).data@)[j] == 0
                &&& !(exists|j: int|
                    0 <= j < tree.items@.len() && (#[trigger] tree.items@[j]).shortname@
                        == short_of(name@))
                &&& exists|s: int|
                    0 <= s && s + split_name(name@).len() + 1 <= self.slot_count() && #[trigger] free_run(
                        decode_slots(
                            self.cluster_bytes(old(dev).data@, tree.start_cluster as int),
                        ),
                        s,
                        split_name(name@).len() as int + 1,
                    )
            }),
            !r ==> final(dev).data@ == old(dev).data@ && final(dev).log@ == old(dev).log@,
            r ==> exists|nc: int, idx: int|
                #![trigger self.fat_table(old(dev).data@)[nc], free_run(
                    decode_slots(self.cluster_bytes(old(dev).data@, tree.start_cluster as int)),
                    idx,
                    split_name(name@).len() as int + 1,
                )]
                {
                    &&& 2 <= nc < self.fat_entry_count
                    &&& self.fat_table(old(dev).data@)[nc] == 0
                    &&& forall|j: int| 0 <= j < nc ==> self.fat_table(old(dev).data@)[j] != 0
                    &&& 0 <= idx
                    &&& idx + split_name(name@).len() + 1 <= self.slot_count()
                    &&& free_run(
                        decode_slots(
                            self.cluster_bytes(old(dev).data@, tree.start_cluster as int),
                        ),
                        idx,
                        split_name(name@).len() as int + 1,
                    )
                    &&& self.fat_table(final(dev).data@) == self.fat_table(
                        old(dev).data@,
                    ).update(nc, FLAG_END)
                    &&& self.cluster_bytes(final(dev).data@, tree.start_cluster as int) == splice(
                        self.cluster_bytes(old(dev).data@, tree.start_cluster as int),
                        32 * idx,
                        encode_records(entry_records(name@, nc as u32)),
                    )
                    &&& self.cluster_bytes(final(dev).data@, nc) == self.new_dir_bytes(
                        nc as u32,
                        tree.start_cluster as u32,
                    )
                    &&& forall|c2: int|
                        self.cluster_in_range(c2) && c2 != tree.start_cluster && c2 != nc
                            ==> self.cluster_bytes(final(dev).data@, c2) == self.cluster_bytes(
                            old(dev).data@,
                            c2,
                        )
                },
            old(dev).log@.is_prefix_of(final(dev).log@),
    {
        let ghost d0 = old(dev).data@;
        let ghost t0 = self.fat_table(d0);
        let parent = tree.start_cluster;
        let ghost cb0 = self.cluster_bytes(d0, parent as int);
        let ghost slots0 = decode_slots(cb0);
        let nc = match self.find_free_fat_item(dev) {
            Some(nc) => nc,
            None => {
                return false;
            },
        };
        proof {
            assert(t0[nc as int] == 0);
            assert(nc >= 2);
        }
        let shortname = crate::name::make_shortname(name);
        if tree.has_shortname(&shortname) {
            return false;
        }
        let check = crate::name::check_sum(&shortname);
        let names = crate::name::split_long_name(name);
        let cnt = names.len();
        proof {
            crate::name::lemma_split_join(name@);
            crate::name::lemma_split_count(name@);
            assert(names@.map_values(|v: Vec<u16>| v@).len() == cnt);
            assert((cnt - 1) * 13 < name@.len());
            assert(cnt <= 63) by {
                if cnt > 63 {
                    assert((cnt - 1) * 13 >= 63 * 13) by (nonlinear_arith)
                        requires
                            cnt - 1 >= 63,
                    ;
                }
            }
        }
        let idx = match self.find_free_dir_item_index(dev, parent, cnt + 1) {
            Some(idx) => idx,
            None => {
                return false;
            },
        };
        let ghost recs = entry_records(name@, nc as u32);
        let ghost frs = split_name(name@);
        proof {
            lemma_encode_records_len(recs);
            assert(recs.len() == cnt + 1);
            assert(self.cluster_bytes(d0, parent as int).len() == self.cluster_size) by {
                self.lemma_cluster_fits(d0, parent as int);
            }
        }
        self.set_fat_item(dev, nc, FLAG_END);
        proof {
            assert(FLAG_END % crate::fat::FAT_ENTRY_MOD == FLAG_END);
            assert(self.fat_table(dev.data@) == t0.update(nc as int, FLAG_END));
            self.lemma_cluster_fits(d0, parent as int);
            assert forall|c2: int| self.cluster_in_range(c2) implies self.cluster_bytes(
                dev.data@,
                c2,
            ) == self.cluster_bytes(d0, c2) by {
                self.lemma_cluster_fits(d0, c2);
                assert(self.cluster_bytes(dev.data@, c2) =~= self.cluster_bytes(d0, c2));
            }
        }
        let ghost t1 = self.fat_table(dev.data@);
        let mut i: usize = 0;
        while i < cnt
            invariant
                self.valid_for(dev.data@),
                dev.data@.len() == d0.len(),
                i <= cnt,
                cnt == names@.len() == frs.len(),
                1 <= cnt <= 63,
                frs == split_name(name@),
                names@.map_values(|v: Vec<u16>| v@) == frs,
                forall|k: int| 0 <= k < frs.len() ==> 1 <= (#[trigger] frs[k]).len() <= 13,
                check == checksum_of(short_of(name@)),
                shortname@ == short_of(name@),
                recs == entry_records(name@, nc as u32),
                recs.len() == cnt + 1,
                self.cluster_in_range(parent as int),
                self.cluster_in_range(nc as int),
                idx + cnt + 1 <= self.slot_count(),
                cb0.len() == self.cluster_size,
                self.fat_table(dev.data@) == t1,
                self.cluster_bytes(dev.data@, parent as int) == splice(
                    cb0,
                    32 * (idx as int),
                    encode_records(recs.take(i as int)),
                ),
                forall|c2: int|
                    self.cluster_in_range(c2) && c2 != parent ==> self.cluster_bytes(
                        dev.data@,
                        c2,
                    ) == self.cluster_bytes(d0, c2),
                old(dev).log@.is_prefix_of(dev.log@),
            decreases cnt - i,
        {
            proof {
                assert(frs[i as int] == names@[i as int]@);
                assert(recs[i as int] == (RecordV::Long {
                    frag: frs[i as int],
                    seq_no: (cnt - i) as u8,
                    ck: check,
                    last: i == 0,
                }));
            }
            let frag = crate::tree::vec_u16_copy(&names[i]);
            let item = FATLongDirItem::new(frag, (cnt - i) as u8, check, i == 0);
            self.set_long_dir_item(dev, parent, idx + i, item);
            proof {
                lemma_encode_records_len(recs);
                lemma_encode_records_take(recs, i as int);
                crate::device::lemma_splice_adjacent(
                    cb0,
                    32 * (idx as int),
                    encode_records(recs.take(i as int)),
                    encode_record(recs[i as int]),
                );
                assert(self.cluster_bytes(dev.data@, parent as int) == splice(
                    cb0,
                    32 * (idx as int),
                    encode_records(recs.take(i as int)) + encode_record(recs[i as int]),
                ));
            }
            i = i + 1;
        }
        let short_item = FATShortDirItem::new(shortname, ATTR_SUBDIR, nc as u32, 0);
        let ghost lg1 = dev.log@;
        self.set_short_dir_item(dev, parent, idx + cnt, short_item);
        proof {
            crate::device::lemma_prefix_trans(old(dev).log@, lg1, dev.log@);
            lemma_encode_records_len(recs);
            lemma_encode_records_take(recs, cnt as int);
            crate::device::lemma_splice_adjacent(
                cb0,
                32 * (idx as int),
                encode_records(recs.take(cnt as int)),
                encode_record(recs[cnt as int]),
            );
            assert(recs[cnt as int] == (RecordV::Short {
                name: short_of(name@),
                attr: ATTR_SUBDIR,
                cluster: nc as u32,
                size: 0,
            }));
            assert(recs.take(cnt + 1) =~= recs);
            assert(self.cluster_bytes(dev.data@, parent as int) == splice(
                cb0,
                32 * (idx as int),
                encode_records(recs),
            ));
        }
        let ghost cb_parent_done = self.cluster_bytes(dev.data@, parent as int);
        let ghost lg2 = dev.log@;
        self.clear_directory(dev, nc);
        proof {
            assert(lg2.is_prefix_of(dev.log@)) by {
                assert(lg2 =~= dev.log@.subrange(0, lg2.len() as int));
            }
            crate::device::lemma_prefix_trans(old(dev).log@, lg2, dev.log@);
        }
        let mut dname: Vec<u8> = Vec::new();
        let mut k: usize = 0;
        while k < 11
            invariant
                k <= 11,
                dname@ == dot_name().take(k as int),
            decreases 11 - k,
        {
            if k == 0 {
                dname.push(0x2E);
            } else {
                dname.push(0x20);
            }
            proof {
                assert(dname@ =~= dot_name().take(k + 1));
            }
            k = k + 1;
        }
        proof {
            assert(dname@ =~= dot_name());
        }
        let mut ddname: Vec<u8> = Vec::new();
        let mut k: usize = 0;
        while k < 11
            invariant
                k <= 11,
                ddname@ == dotdot_name().take(k as int),
            decreases 11 - k,
        {
            if k < 2 {
                ddname.push(0x2E);
            } else {
                ddname.push(0x20);
            }
            proof {
                assert(ddname@ =~= dotdot_name().take(k + 1));
            }
            k = k + 1;
        }
        proof {
            assert(ddname@ =~= dotdot_name());
            assert(self.cluster_size >= 512) by (nonlinear_arith)
                requires
                    self.cluster_size == self.bytes_per_sector * self.sector_per_cluster,
                    self.bytes_per_sector >= 512,
                    self.sector_per_cluster >= 1,
            ;
            assert(self.slot_count() >= 16);
        }
        let dot_item = FATShortDirItem::new(dname, ATTR_SUBDIR, nc as u32, 0);
        let ghost lg3 = dev.log@;
        self.set_short_dir_item(dev, nc, 0, dot_item);
        proof {
            crate::device::lemma_prefix_trans(old(dev).log@, lg3, dev.log@);
        }
        let dotdot_item = FATShortDirItem::new(ddname, ATTR_SUBDIR, parent as u32, 0);
        let ghost lg4 = dev.log@;
        self.set_short_dir_item(dev, nc, 1, dotdot_item);
        proof {
            crate::device::lemma_prefix_trans(old(dev).log@, lg4, dev.log@);
        }
        proof {
            assert(splice(zero_seq(self.cluster_size as nat), 0int, encode_short(
                dot_name(),
                ATTR_SUBDIR,
                nc as u32,
                0,
            )) =~= splice(zero_seq(self.cluster_size as nat), 32int * 0, encode_short(
                dot_name(),
                ATTR_SUBDIR,
                nc as u32,
                0,
            )));
            assert(self.cluster_bytes(dev.data@, nc as int) == self.new_dir_bytes(
                nc as u32,
                parent as u32,
            ));
            assert(self.cluster_bytes(dev.data@, parent as int) == cb_parent_done);
        }
        true
    }
}

/// A record sequence's bytes are 32 per record.
pub proof fn lemma_encode_records_len(rs: Seq<RecordV>)
    ensures
        encode_records(rs).len() == 32 * rs.len(),
        forall|i: int| 0 <= i < rs.len() ==> (#[trigger] encode_record(rs[i])).len() == 32,
{
    assert forall|i: int| 0 <= i < rs.len() implies (#[trigger] encode_record(rs[i])).len()
        == 32 by {
        match rs[i] {
            RecordV::Free => {},
            RecordV::Short { name, attr, cluster, size } => {},
            RecordV::Long { frag, seq_no, ck, last } => {},
        }
    }
}

/// One more record appends its 32 bytes.
pub proof fn lemma_encode_records_take(rs: Seq<RecordV>, i: int)
    requires
        0 <= i < rs.len(),
    ensures
        encode_records(rs.take(i + 1)) == encode_records(rs.take(i)) + encode_record(rs[i]),
{
    lemma_encode_records_len(rs);
    lemma_encode_records_len(rs.take(i));
    lemma_encode_records_len(rs.take(i + 1));
    assert forall|b: int| 0 <= b < 32 * (i + 1) implies encode_records(rs.take(i + 1))[b]
        == (encode_records(rs.take(i)) + encode_record(rs[i]))[b] by {
        assert(rs.take(i + 1)[b / 32] == rs[b / 32]);
        if b < 32 * i {
            assert(0 <= b / 32 < i);
            assert(rs.take(i)[b / 32] == rs[b / 32]);
        } else {
            assert(b / 32 == i && b % 32 == b - 32 * i);
        }
    }
    assert(encode_records(rs.take(i + 1)) =~= encode_records(rs.take(i)) + encode_record(rs[i]));
}

} // verus!
