//! The FAT chain manager: volume parameters and the 32-bit allocation table.
//!
//! One table slot per cluster. A slot is free (zero), end-of-chain (a value at
//! or above `FLAG_CHAIN_END_MIN` after masking to 28 bits), or the number of
//! the next cluster in its file's chain. Every operation re-reads the table
//! from the device; the manager itself holds only the immutable volume
//! parameters.

use vstd::prelude::*;

use crate::bytes::{le32_at, le32_bytes, lemma_le32_roundtrip, make_le32, read_le32};
use crate::device::{splice, BlockDevice};

verus! {

/// The end-of-chain marker this engine writes.
pub const FLAG_END: u32 = 0x0FFFFFFF;

/// The least masked table value that terminates a chain.
pub const FLAG_CHAIN_END_MIN: u32 = 0x0FFFFFF8;

/// A table slot's value after masking: only 28 bits are significant.
pub const FAT_ENTRY_MOD: u32 = 0x10000000;

/// The table slot is free.
pub open spec fn is_free(v: u32) -> bool {
    v == 0
}

/// The table slot ends a chain.
pub open spec fn is_eoc(v: u32) -> bool {
    FLAG_CHAIN_END_MIN <= v
}

/// The table slot points at the next cluster of its chain.
pub open spec fn has_next(v: u32) -> bool {
    !is_free(v) && !is_eoc(v)
}

/// The clusters visited by following successor pointers from `c`, in order,
/// stopping at a free, end-of-chain or out-of-range slot, or when `fuel` runs
/// out.
pub open spec fn chain(t: Seq<u32>, c: int, fuel: nat) -> Seq<int>
    decreases fuel,
{
    if !(0 <= c < t.len()) {
        Seq::empty()
    } else if has_next(t[c]) && fuel > 0 {
        seq![c] + chain(t, t[c] as int, (fuel - 1) as nat)
    } else {
        seq![c]
    }
}

/// Following from `c` with as much fuel as the table has slots reaches a slot
/// marked end-of-chain: the chain is properly terminated.
pub open spec fn chain_ok(t: Seq<u32>, c: int) -> bool {
    &&& 0 <= c < t.len()
    &&& is_eoc(t[chain(t, c, t.len()).last()])
}

/// How many of the first `n` table slots are not free.
pub open spec fn used_in(t: Seq<u32>, n: int) -> int
    decreases n,
{
    if n <= 0 {
        0
    } else {
        used_in(t, n - 1) + if t[n - 1] != 0 {
            1int
        } else {
            0int
        }
    }
}

pub proof fn lemma_used_in_bounds(t: Seq<u32>, n: int)
    requires
        0 <= n,
    ensures
        0 <= used_in(t, n) <= n,
    decreases n,
{
    if n > 0 {
        lemma_used_in_bounds(t, n - 1);
    }
}

/// The table `t0` after the first `pos` clusters of `ch` have been freed.
pub open spec fn freed(t0: Seq<u32>, ch: Seq<int>, pos: int) -> Seq<u32> {
    Seq::new(t0.len(), |x: int| if ch.take(pos).contains(x) { 0u32 } else { t0[x] })
}

/// Following from element `i` of a chain, with the fuel that is left there,
/// walks exactly the rest of that chain.
pub proof fn lemma_chain_elem(t: Seq<u32>, c: int, fuel: nat, i: int)
    requires
        0 <= i < chain(t, c, fuel).len(),
    ensures
        i <= fuel,
        chain(t, chain(t, c, fuel)[i], (fuel - i) as nat) == chain(t, c, fuel).subrange(
            i,
            chain(t, c, fuel).len() as int,
        ),
    decreases i,
{
    let ch = chain(t, c, fuel);
    if i == 0 {
        assert(ch == ch.subrange(0, ch.len() as int));
    } else {
        let tail = chain(t, t[c] as int, (fuel - 1) as nat);
        lemma_chain_elem(t, t[c] as int, (fuel - 1) as nat, i - 1);
        assert(chain(t, tail[i - 1], ((fuel - 1) - (i - 1)) as nat) == tail.subrange(
            i - 1,
            tail.len() as int,
        ));
        assert(ch[i] == tail[i - 1]);
        assert(ch.subrange(i, ch.len() as int) =~= tail.subrange(i - 1, tail.len() as int));
    }
}

/// Inside a chain every element is a valid slot index, every element but the
/// last points at the one after it, and under `chain_ok` the last one is
/// marked end-of-chain.
pub proof fn lemma_chain_steps(t: Seq<u32>, c: int, fuel: nat)
    ensures
        forall|i: int| 0 <= i < chain(t, c, fuel).len() ==> 0 <= #[trigger] chain(t, c, fuel)[i]
            < t.len(),
        forall|i: int|
            0 <= i < chain(t, c, fuel).len() - 1 ==> has_next(t[#[trigger] chain(t, c, fuel)[i]])
                && chain(t, c, fuel)[i + 1] == t[chain(t, c, fuel)[i]],
{
    let ch = chain(t, c, fuel);
    assert forall|i: int| 0 <= i < ch.len() implies 0 <= #[trigger] ch[i] < t.len() by {
        lemma_chain_elem(t, c, fuel, i);
        let sub = chain(t, ch[i], (fuel - i) as nat);
        assert(sub.len() > 0);
    }
    assert forall|i: int| 0 <= i < ch.len() - 1 implies has_next(t[#[trigger] ch[i]]) && ch[i + 1]
        == t[ch[i]] by {
        lemma_chain_elem(t, c, fuel, i);
        let sub = chain(t, ch[i], (fuel - i) as nat);
        assert(sub.len() == ch.len() - i >= 2);
        assert(has_next(t[ch[i]]));
        let tail = chain(t, t[ch[i]] as int, (fuel - i - 1) as nat);
        assert(sub == seq![ch[i]] + tail);
        assert(sub[1] == tail[0]);
        assert(tail[0] == t[ch[i]] as int);
        assert(sub[1] == ch.subrange(i, ch.len() as int)[1]);
    }
}

/// A chain that has already stopped does not grow when given more fuel.
pub proof fn lemma_chain_fuel(t: Seq<u32>, c: int, f1: nat, f2: nat)
    requires
        f1 <= f2,
        chain(t, c, f1).len() > 0,
        !has_next(t[chain(t, c, f1).last()]),
    ensures
        chain(t, c, f2) == chain(t, c, f1),
    decreases f1,
{
    let ch1 = chain(t, c, f1);
    if 0 <= c < t.len() && has_next(t[c]) {
        if f1 == 0 {
            assert(ch1 == seq![c]);
            assert(false);
        } else {
            let tail1 = chain(t, t[c] as int, (f1 - 1) as nat);
            assert(ch1.last() == tail1.last());
            lemma_chain_fuel(t, t[c] as int, (f1 - 1) as nat, (f2 - 1) as nat);
        }
    }
}

/// A properly terminated chain never revisits a cluster, so it is no longer
/// than the table itself: following it always halts at end-of-chain within
/// the chain's own length.
pub proof fn lemma_chain_no_duplicates(t: Seq<u32>, c: int)
    requires
        chain_ok(t, c),
    ensures
        chain(t, c, t.len()).no_duplicates(),
        chain(t, c, t.len()).len() <= t.len(),
{
    let n = t.len();
    let ch = chain(t, c, n);
    assert forall|i: int, j: int| 0 <= i < j < ch.len() implies ch[i] != ch[j] by {
        if ch[i] == ch[j] {
            lemma_chain_elem(t, c, n, i);
            lemma_chain_elem(t, c, n, j);
            let si = ch.subrange(i, ch.len() as int);
            let sj = ch.subrange(j, ch.len() as int);
            assert(si.last() == ch.last());
            assert(sj.last() == ch.last());
            lemma_chain_fuel(t, ch[i], (n - i) as nat, n);
            lemma_chain_fuel(t, ch[j], (n - j) as nat, n);
            assert(si == sj);
            assert(si.len() == sj.len());
            assert(false);
        }
    }
    lemma_chain_steps(t, c, n);
    ch.unique_seq_to_set();
    assert(ch.to_set().subset_of(vstd::set_lib::set_int_range(0, n as int)));
    vstd::set_lib::lemma_int_range(0, n as int);
    vstd::set_lib::lemma_len_subset(ch.to_set(), vstd::set_lib::set_int_range(0, n as int));
}

/// Changing a slot that a chain never visits does not change the chain.
pub proof fn lemma_chain_frame(t: Seq<u32>, c: int, fuel: nat, x: int, v: u32)
    requires
        0 <= x < t.len(),
        !chain(t, c, fuel).contains(x),
    ensures
        chain(t.update(x, v), c, fuel) == chain(t, c, fuel),
    decreases fuel,
{
    let t2 = t.update(x, v);
    if 0 <= c < t.len() {
        assert(chain(t, c, fuel)[0] == c);
        assert(c != x);
        assert(t2[c] == t[c]);
        if has_next(t[c]) && fuel > 0 {
            let tail = chain(t, t[c] as int, (fuel - 1) as nat);
            assert forall|y: int| tail.contains(y) implies chain(t, c, fuel).contains(y) by {
                let k = choose|k: int| 0 <= k < tail.len() && tail[k] == y;
                assert(chain(t, c, fuel)[k + 1] == y);
            }
            lemma_chain_frame(t, t[c] as int, (fuel - 1) as nat, x, v);
        }
    }
}

/// A free slot is never part of a properly terminated chain.
pub proof fn lemma_free_not_in_chain(t: Seq<u32>, c: int, x: int)
    requires
        chain_ok(t, c),
        0 <= x < t.len(),
        t[x] == 0,
    ensures
        !chain(t, c, t.len()).contains(x),
{
    let ch = chain(t, c, t.len());
    lemma_chain_steps(t, c, t.len());
    assert forall|i: int| 0 <= i < ch.len() implies ch[i] != x by {
        if i < ch.len() - 1 {
            assert(has_next(t[ch[i]]));
        } else {
            assert(is_eoc(t[ch.last()]));
        }
    }
}

/// Law: taking a free slot and marking it end-of-chain — exactly what
/// directory creation does to allocate its one cluster — leaves every
/// properly terminated chain as it was, and the fresh cluster forms a proper
/// one-cluster chain of its own: no cycle can arise this way.
pub proof fn lemma_alloc_no_cycle(t: Seq<u32>, c: int, nc: int)
    requires
        chain_ok(t, c),
        0 <= nc < t.len(),
        t[nc] == 0,
    ensures
        chain(t.update(nc, FLAG_END), c, t.len()) == chain(t, c, t.len()),
        chain_ok(t.update(nc, FLAG_END), c),
        chain_ok(t.update(nc, FLAG_END), nc),
        chain(t.update(nc, FLAG_END), nc, t.len()) == seq![nc],
{
    let t2 = t.update(nc, FLAG_END);
    lemma_free_not_in_chain(t, c, nc);
    lemma_chain_frame(t, c, t.len(), nc, FLAG_END);
    let ch = chain(t, c, t.len());
    lemma_chain_steps(t, c, t.len());
    assert(ch.last() != nc);
    assert(t2[ch.last()] == t[ch.last()]);
    assert(is_eoc(t2[nc]));
    assert(chain(t2, nc, t.len()) == seq![nc]);
}

/// `used_in` reads only the first `n` slots.
proof fn lemma_used_in_congruent(a: Seq<u32>, b: Seq<u32>, n: int)
    requires
        forall|i: int| 0 <= i < n ==> a[i] == b[i],
    ensures
        used_in(a, n) == used_in(b, n),
    decreases n,
{
    if n > 0 {
        lemma_used_in_congruent(a, b, n - 1);
    }
}

/// Changing one slot moves the used count by whether it was and is free.
proof fn lemma_used_update(t: Seq<u32>, x: int, v: u32, n: int)
    requires
        0 <= x < n <= t.len(),
    ensures
        used_in(t.update(x, v), n) == used_in(t, n) - (if t[x] != 0 {
            1int
        } else {
            0int
        }) + (if v != 0 {
            1int
        } else {
            0int
        }),
    decreases n,
{
    let t2 = t.update(x, v);
    if x == n - 1 {
        lemma_used_in_congruent(t2, t, n - 1);
    } else {
        lemma_used_update(t, x, v, n - 1);
    }
}

/// Law: allocating one free cluster as end-of-chain raises the used count by
/// exactly one, so the used size grows by exactly one cluster's bytes.
pub proof fn lemma_alloc_accounting(t: Seq<u32>, nc: int)
    requires
        0 <= nc < t.len(),
        t[nc] == 0,
    ensures
        used_in(t.update(nc, FLAG_END), t.len() as int) == used_in(t, t.len() as int) + 1,
{
    lemma_used_update(t, nc, FLAG_END, t.len() as int);
}

/// Law: freeing a properly terminated chain lowers the used count by exactly
/// the chain's length, so after deleting a file the used size drops by
/// exactly one cluster's bytes per cluster of its chain.
pub proof fn lemma_delete_accounting(t: Seq<u32>, c: int)
    requires
        chain_ok(t, c),
    ensures
        used_in(
            freed(t, chain(t, c, t.len()), chain(t, c, t.len()).len() as int),
            t.len() as int,
        ) == used_in(t, t.len() as int) - chain(t, c, t.len()).len(),
{
    lemma_delete_accounting_aux(t, c, chain(t, c, t.len()).len() as int);
}

proof fn lemma_delete_accounting_aux(t: Seq<u32>, c: int, pos: int)
    requires
        chain_ok(t, c),
        0 <= pos <= chain(t, c, t.len()).len(),
    ensures
        used_in(freed(t, chain(t, c, t.len()), pos), t.len() as int) == used_in(
            t,
            t.len() as int,
        ) - pos,
    decreases pos,
{
    let ch = chain(t, c, t.len());
    lemma_chain_no_duplicates(t, c);
    lemma_chain_steps(t, c, t.len());
    if pos == 0 {
        lemma_used_in_congruent(freed(t, ch, 0), t, t.len() as int);
    } else {
        lemma_delete_accounting_aux(t, c, pos - 1);
        let prev = freed(t, ch, pos - 1);
        let x = ch[pos - 1];
        assert(!ch.take(pos - 1).contains(x)) by {
            if ch.take(pos - 1).contains(x) {
                let k = choose|k: int| 0 <= k < pos - 1 && #[trigger] ch.take(pos - 1)[k] == x;
                assert(ch[k] == ch[pos - 1]);
            }
        }
        assert(prev[x] == t[x]);
        assert(t[x] != 0) by {
            if pos - 1 < ch.len() - 1 {
                assert(has_next(t[ch[pos - 1]]));
            } else {
                assert(is_eoc(t[ch.last()]));
            }
        }
        assert(freed(t, ch, pos) =~= prev.update(x, 0u32)) by {
            assert(ch.take(pos) =~= ch.take(pos - 1).push(x));
            assert forall|y: int| 0 <= y < t.len() implies freed(t, ch, pos)[y] == prev.update(
                x,
                0u32,
            )[y] by {
                if y != x {
                    if ch.take(pos).contains(y) {
                        let k = choose|k: int| 0 <= k < pos && #[trigger] ch.take(pos)[k] == y;
                        assert(ch.take(pos - 1)[k] == y);
                    }
                    if ch.take(pos - 1).contains(y) {
                        let k2 = choose|k2: int|
                            0 <= k2 < pos - 1 && #[trigger] ch.take(pos - 1)[k2] == y;
                        assert(ch.take(pos)[k2] == y);
                    }
                } else {
                    assert(ch.take(pos)[pos - 1] == x);
                }
            }
        }
        lemma_used_update(prev, x, 0u32, t.len() as int);
    }
}

/// The volume parameters and the derived byte addresses the engine works
/// from. All fields are fixed once the manager is built.
pub struct FatManager {
    /// Which block device the volume lives on.
    pub block_idx: usize,
    pub bytes_per_sector: usize,
    pub sector_per_cluster: usize,
    /// Total sectors of the volume.
    pub total_sector: usize,
    /// Number of table copies on disk (this engine writes the first).
    pub fat_num: usize,
    /// Sectors of one table copy.
    pub fat_size_sectors: usize,
    /// Byte address of the first table copy.
    pub fat_addr: usize,
    /// Bytes of one cluster.
    pub cluster_size: usize,
    /// Byte address cluster 2 (the data region's first cluster) would have;
    /// cluster `c` lives at `data_addr + (c - 2) * cluster_size`.
    pub data_addr: usize,
    /// Slots in one table copy.
    pub fat_entry_count: usize,
}

impl FatManager {
    /// The derived fields agree with the raw parameters and no address
    /// computation on them can overflow.
    pub open spec fn wf(self) -> bool {
        &&& self.bytes_per_sector >= 512
        &&& self.sector_per_cluster >= 1
        &&& self.fat_num >= 1
        &&& self.fat_size_sectors >= 1
        &&& self.cluster_size == self.bytes_per_sector * self.sector_per_cluster
        &&& self.fat_entry_count == (self.fat_size_sectors * self.bytes_per_sector) / 4
        &&& 3 <= self.fat_entry_count < 0x0FFFFFF8
        &&& self.data_addr == self.fat_addr + self.fat_num * self.fat_size_sectors
            * self.bytes_per_sector
        &&& self.fat_addr + 4 * self.fat_entry_count <= self.data_addr
        &&& self.total_sector * self.bytes_per_sector <= usize::MAX
        &&& self.fat_entry_count * self.cluster_size <= usize::MAX
    }

    /// The device is large enough for the table and for every data cluster
    /// the table describes.
    pub open spec fn valid_for(self, dev_data: Seq<u8>) -> bool {
        &&& self.wf()
        &&& self.data_addr + (self.fat_entry_count - 2) * self.cluster_size <= dev_data.len()
        &&& dev_data.len() <= usize::MAX
    }

    /// Byte address of data cluster `c`.
    pub open spec fn cluster_addr(self, c: int) -> int {
        self.data_addr + (c - 2) * self.cluster_size
    }

    /// Data cluster `c` exists on this volume.
    pub open spec fn cluster_in_range(self, c: int) -> bool {
        2 <= c < self.fat_entry_count
    }

    /// The masked value of table slot `c` as the device holds it.
    #[verifier::opaque]
    pub open spec fn fat_entry(self, dev_data: Seq<u8>, c: int) -> u32 {
        (le32_at(dev_data, self.fat_addr + 4 * c) % (FAT_ENTRY_MOD as int)) as u32
    }

    /// The whole allocation table as the device holds it.
    pub open spec fn fat_table(self, dev_data: Seq<u8>) -> Seq<u32> {
        Seq::new(self.fat_entry_count as nat, |i: int| self.fat_entry(dev_data, i))
    }

    /// The bytes of data cluster `c` as the device holds them.
    pub open spec fn cluster_bytes(self, dev_data: Seq<u8>, c: int) -> Seq<u8> {
        dev_data.subrange(self.cluster_addr(c), self.cluster_addr(c) + self.cluster_size)
    }

    pub proof fn lemma_cluster_fits(self, dev_data: Seq<u8>, c: int)
        requires
            self.valid_for(dev_data),
            self.cluster_in_range(c),
        ensures
            self.data_addr <= self.cluster_addr(c),
            self.cluster_addr(c) + self.cluster_size <= dev_data.len(),
    {
        assert((c - 2) * self.cluster_size + self.cluster_size <= (self.fat_entry_count - 2)
            * self.cluster_size) by (nonlinear_arith)
            requires
                2 <= c < self.fat_entry_count,
                self.cluster_size >= 0,
        ;
        assert((c - 2) * self.cluster_size >= 0) by (nonlinear_arith)
            requires
                c >= 2,
                self.cluster_size >= 0,
        ;
    }

    /// The raw masked value of table slot `cluster`, or nothing when the slot
    /// index is beyond the table.
    pub fn get_fat_item(&self, dev: &BlockDevice, cluster: usize) -> (r: Option<u32>)
        requires
            self.valid_for(dev.data@),
        ensures
            match r {
                Some(v) => cluster < self.fat_entry_count && v == self.fat_table(
                    dev.data@,
                )[cluster as int],
                None => cluster >= self.fat_entry_count,
            },
    {
        if cluster >= self.fat_entry_count {
            return None;
        }
        let b = dev.peek(self.fat_addr + 4 * cluster, 4);
        let raw = read_le32(&b, 0);
        proof {
            reveal(FatManager::fat_entry);
            assert(le32_at(b@, 0) == le32_at(dev.data@, self.fat_addr + 4 * cluster));
        }
        Some(raw % FAT_ENTRY_MOD)
    }

    /// Stores `value` (masked to 28 bits) in table slot `cluster`. Returns
    /// false, and changes nothing, when the slot index is beyond the table.
    /// On success only the four bytes of that slot change, so every other
    /// table slot and the whole data region keep their contents.
    pub fn set_fat_item(&self, dev: &mut BlockDevice, cluster: usize, value: u32) -> (r: bool)
        requires
            self.valid_for(old(dev).data@),
        ensures
            r == (cluster < self.fat_entry_count),
            final(dev).data@.len() == old(dev).data@.len(),
            r ==> self.fat_table(final(dev).data@) == self.fat_table(old(dev).data@).update(
                cluster as int,
                value % FAT_ENTRY_MOD,
            ),
            r ==> forall|i: int|
                0 <= i < old(dev).data@.len() && !(self.fat_addr + 4 * cluster <= i < self.fat_addr
                    + 4 * cluster + 4) ==> final(dev).data@[i] == old(dev).data@[i],
            !r ==> final(dev).data@ == old(dev).data@,
            old(dev).log@.is_prefix_of(final(dev).log@),
    {
        if cluster >= self.fat_entry_count {
            return false;
        }
        let bytes = make_le32(value % FAT_ENTRY_MOD);
        let addr = self.fat_addr + 4 * cluster;
        proof {
            assert(4 * cluster + 4 <= 4 * self.fat_entry_count);
        }
        dev.write_at(addr, &bytes, 0, 4);
        proof {
            reveal(FatManager::fat_entry);
            assert(bytes@.subrange(0, 4) =~= bytes@);
            crate::device::lemma_splice(old(dev).data@, addr as int, bytes@);
            let masked = (value % FAT_ENTRY_MOD) as int;
            lemma_le32_roundtrip(masked);
            assert(le32_at(le32_bytes(masked), 0) == masked);
            assert forall|j: int| 0 <= j < 4 implies dev.data@[addr + j] == le32_bytes(masked)[j] by {}
            assert(le32_at(dev.data@, addr as int) == le32_at(le32_bytes(masked), 0));
            assert(self.fat_entry(dev.data@, cluster as int) == value % FAT_ENTRY_MOD);
            assert forall|c2: int|
                0 <= c2 < self.fat_entry_count && c2 != cluster implies self.fat_entry(
                dev.data@,
                c2,
            ) == self.fat_entry(old(dev).data@, c2) by {
                assert(le32_at(dev.data@, self.fat_addr + 4 * c2) == le32_at(
                    old(dev).data@,
                    self.fat_addr + 4 * c2,
                ));
            }
            assert(self.fat_table(dev.data@) =~= self.fat_table(old(dev).data@).update(
                cluster as int,
                value % FAT_ENTRY_MOD,
            ));
        }
        true
    }

    /// The first free table slot, scanning from the start of the table, or
    /// nothing when the table has no free slot left.
    pub fn find_free_fat_item(&self, dev: &BlockDevice) -> (r: Option<usize>)
        requires
            self.valid_for(dev.data@),
        ensures
            match r {
                Some(c) => {
                    &&& c < self.fat_entry_count
                    &&& self.fat_table(dev.data@)[c as int] == 0
                    &&& forall|j: int| 0 <= j < c ==> self.fat_table(dev.data@)[j] != 0
                },
                None => forall|j: int|
                    0 <= j < self.fat_entry_count ==> self.fat_table(dev.data@)[j] != 0,
            },
    {
        let mut i: usize = 0;
        while i < self.fat_entry_count
            invariant
                self.valid_for(dev.data@),
                i <= self.fat_entry_count,
                forall|j: int| 0 <= j < i ==> self.fat_table(dev.data@)[j] != 0,
            decreases self.fat_entry_count - i,
        {
            let v = self.get_fat_item(dev, i);
            match v {
                Some(e) => {
                    if e == 0 {
                        return Some(i);
                    }
                },
                None => {},
            }
            i = i + 1;
        }
        None
    }

    /// Walks the chain from `start` to its end-of-chain marker and frees every
    /// visited slot. Exactly the chain's slots become free; every other slot,
    /// and every byte outside the table, keeps its value.
    #[verifier::rlimit(100)]
    pub fn delete_sequence_fat_item(&self, dev: &mut BlockDevice, start: usize)
        requires
            self.valid_for(old(dev).data@),
            chain_ok(self.fat_table(old(dev).data@), start as int),
        ensures
            final(dev).data@.len() == old(dev).data@.len(),
            self.fat_table(final(dev).data@) == freed(
                self.fat_table(old(dev).data@),
                chain(
                    self.fat_table(old(dev).data@),
                    start as int,
                    self.fat_entry_count as nat,
                ),
                chain(
                    self.fat_table(old(dev).data@),
                    start as int,
                    self.fat_entry_count as nat,
                ).len() as int,
            ),
            forall|i: int|
                0 <= i < old(dev).data@.len() && !(self.fat_addr <= i < self.fat_addr + 4
                    * self.fat_entry_count) ==> final(dev).data@[i] == old(dev).data@[i],
            old(dev).log@.is_prefix_of(final(dev).log@),
    {
        let ghost d0 = old(dev).data@;
        let ghost t0 = self.fat_table(d0);
        let ghost ch = chain(t0, start as int, t0.len());
        proof {
            lemma_chain_no_duplicates(t0, start as int);
            assert(self.fat_table(dev.data@) =~= freed(t0, ch, 0));
        }
        let mut cur = start;
        let ghost mut pos: int = 0;
        let mut done = false;
        while !done
            invariant
                self.valid_for(dev.data@),
                dev.data@.len() == d0.len(),
                t0 == self.fat_table(d0),
                ch == chain(t0, start as int, t0.len()),
                t0.len() == self.fat_entry_count,
                chain_ok(t0, start as int),
                ch.no_duplicates(),
                0 <= pos <= ch.len(),
                !done ==> pos < ch.len() && cur == ch[pos],
                done ==> pos == ch.len(),
                self.fat_table(dev.data@) == freed(t0, ch, pos),
                forall|i: int|
                    0 <= i < d0.len() && !(self.fat_addr <= i < self.fat_addr + 4
                        * self.fat_entry_count) ==> dev.data@[i] == d0[i],
                old(dev).log@.is_prefix_of(dev.log@),
            decreases ch.len() - pos,
        {
            proof {
                lemma_chain_steps(t0, start as int, t0.len());
                assert(!ch.take(pos).contains(ch[pos])) by {
                    if ch.take(pos).contains(ch[pos]) {
                        let k = choose|k: int| 0 <= k < pos && #[trigger] ch.take(pos)[k] == ch[pos];
                        assert(ch[k] == ch[pos]);
                    }
                }
            }
            let e = match self.get_fat_item(dev, cur) {
                Some(e) => e,
                None => 0,
            };
            proof {
                assert(e == freed(t0, ch, pos)[cur as int]);
                assert(e == t0[cur as int]);
            }
            let ghost pre = self.fat_table(dev.data@);
            self.set_fat_item(dev, cur, 0);
            proof {
                assert(0u32 % FAT_ENTRY_MOD == 0u32);
                assert(self.fat_table(dev.data@) == pre.update(cur as int, 0u32));
                assert(ch.take(pos + 1) =~= ch.take(pos).push(ch[pos]));
                assert forall|x: int| 0 <= x < t0.len() implies pre.update(cur as int, 0u32)[x]
                    == freed(t0, ch, pos + 1)[x] by {
                    if x == cur as int {
                        assert(ch.take(pos + 1)[pos] == ch[pos]);
                        assert(ch.take(pos + 1).contains(x));
                    } else {
                        if ch.take(pos + 1).contains(x) {
                            let k = choose|k: int|
                                0 <= k < pos + 1 && #[trigger] ch.take(pos + 1)[k] == x;
                            assert(ch.take(pos)[k] == x);
                            assert(ch.take(pos).contains(x));
                        }
                        if ch.take(pos).contains(x) {
                            let k2 = choose|k2: int|
                                0 <= k2 < pos && #[trigger] ch.take(pos)[k2] == x;
                            assert(ch.take(pos + 1)[k2] == x);
                            assert(ch.take(pos + 1).contains(x));
                        }
                    }
                }
                assert(pre.update(cur as int, 0u32) =~= freed(t0, ch, pos + 1));
                pos = pos + 1;
            }
            if e != 0 && e < FLAG_CHAIN_END_MIN {
                proof {
                    assert(has_next(t0[ch[pos - 1]]));
                    assert(pos < ch.len()) by {
                        if pos == ch.len() {
                            assert(is_eoc(t0[ch.last()]));
                        }
                    }
                    assert(ch[pos] == t0[ch[pos - 1]]);
                    assert(0 <= ch[pos] < t0.len());
                }
                cur = e as usize;
            } else {
                proof {
                    assert(pos == ch.len()) by {
                        if pos < ch.len() {
                            assert(has_next(t0[ch[pos - 1]]));
                        }
                    }
                }
                done = true;
            }
        }
    }

    /// Total bytes of the volume.
    pub fn get_total_size(&self) -> (r: usize)
        requires
            self.wf(),
        ensures
            r == self.total_sector * self.bytes_per_sector,
    {
        self.total_sector * self.bytes_per_sector
    }

    /// Bytes accounted to non-free table slots: the number of slots whose
    /// entry is not free, times the cluster size. The table is re-scanned on
    /// every call.
    pub fn get_used_size(&self, dev: &BlockDevice) -> (r: usize)
        requires
            self.valid_for(dev.data@),
        ensures
            r == used_in(self.fat_table(dev.data@), self.fat_entry_count as int)
                * self.cluster_size,
    {
        let ghost t = self.fat_table(dev.data@);
        let mut count: usize = 0;
        let mut i: usize = 0;
        while i < self.fat_entry_count
            invariant
                self.valid_for(dev.data@),
                t == self.fat_table(dev.data@),
                i <= self.fat_entry_count,
                count == used_in(t, i as int),
                count <= i,
            decreases self.fat_entry_count - i,
        {
            let v = self.get_fat_item(dev, i);
            match v {
                Some(e) => {
                    if e != 0 {
                        count = count + 1;
                    }
                },
                None => {},
            }
            i = i + 1;
        }
        proof {
            lemma_used_in_bounds(t, self.fat_entry_count as int);
            assert(count * self.cluster_size <= self.fat_entry_count * self.cluster_size)
                by (nonlinear_arith)
                requires
                    0 <= count <= self.fat_entry_count,
                    self.cluster_size >= 0,
            ;
        }
        count * self.cluster_size
    }
}

} // verus!
