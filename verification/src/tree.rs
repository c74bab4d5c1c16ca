//! The file tree builder: folding a directory's decoded records into a
//! queryable listing.
//!
//! A run of long-name records, stored highest sequence number first, is
//! accumulated by prepending each fragment to the name gathered so far; the
//! short-name record that follows finalizes one entry. A run that is
//! interrupted, out of sequence, or whose checksum does not match the short
//! name is discarded; on a checksum mismatch the whole entry is treated as
//! absent, so a damaged directory degrades instead of surfacing a wrong name.

use vstd::prelude::*;

use crate::codec::RecordV;
use crate::name::{checksum_of, split_name, joined, widen, lemma_split_join, lemma_split_count};

verus! {

/// One listing entry, spec view: the reconstructed name, the 8.3 short name,
/// the record fields, and which directory slots the entry occupies (so that
/// deletion can erase exactly those).
pub struct EntryV {
    pub name: Seq<u16>,
    pub short: Seq<u8>,
    pub attr: u8,
    pub cluster: u32,
    pub size: u32,
    pub idx: int,
    pub slots: int,
}

/// The fold's accumulator: the long-name run gathered so far.
pub struct AccV {
    pub active: bool,
    pub name: Seq<u16>,
    pub expected: int,
    pub ck: u8,
    pub start: int,
    pub count: int,
}

pub open spec fn acc_empty() -> AccV {
    AccV { active: false, name: Seq::empty(), expected: 0, ck: 0, start: 0, count: 0 }
}

/// The entries decoded from `slots[i..]`, starting with the partial long-name
/// run `st`.
pub open spec fn fold_entries(slots: Seq<RecordV>, i: int, st: AccV) -> Seq<EntryV>
    decreases slots.len() - i,
{
    if i < 0 || i >= slots.len() {
        Seq::empty()
    } else {
        match slots[i] {
            RecordV::Free => fold_entries(slots, i + 1, acc_empty()),
            RecordV::Long { frag, seq_no, ck, last } => {
                if last && 1 <= seq_no {
                    fold_entries(
                        slots,
                        i + 1,
                        AccV {
                            active: true,
                            name: frag,
                            expected: seq_no - 1,
                            ck,
                            start: i,
                            count: 1,
                        },
                    )
                } else if st.active && !last && st.expected >= 1 && seq_no as int == st.expected
                    && ck == st.ck {
                    fold_entries(
                        slots,
                        i + 1,
                        AccV {
                            active: true,
                            name: frag + st.name,
                            expected: st.expected - 1,
                            ck: st.ck,
                            start: st.start,
                            count: st.count + 1,
                        },
                    )
                } else {
                    fold_entries(slots, i + 1, acc_empty())
                }
            },
            RecordV::Short { name, attr, cluster, size } => {
                if st.active && st.expected == 0 {
                    if st.ck == checksum_of(name) {
                        seq![
                            EntryV {
                                name: st.name,
                                short: name,
                                attr,
                                cluster,
                                size,
                                idx: st.start,
                                slots: st.count + 1,
                            },
                        ] + fold_entries(slots, i + 1, acc_empty())
                    } else {
                        fold_entries(slots, i + 1, acc_empty())
                    }
                } else {
                    seq![
                        EntryV {
                            name: widen(name),
                            short: name,
                            attr,
                            cluster,
                            size,
                            idx: i,
                            slots: 1,
                        },
                    ] + fold_entries(slots, i + 1, acc_empty())
                }
            },
        }
    }
}

/// The records a name's long-name run is stored as: one record per fragment,
/// highest sequence number first and flagged as the run's last fragment, all
/// carrying the short name's checksum.
pub open spec fn long_run_records(name: Seq<u16>, ck: u8) -> Seq<RecordV> {
    let frs = split_name(name);
    Seq::new(
        frs.len(),
        |i: int| RecordV::Long {
            frag: frs[i],
            seq_no: (frs.len() - i) as u8,
            ck,
            last: i == 0,
        },
    )
}

proof fn lemma_fold_run(
    slots: Seq<RecordV>,
    frs: Seq<Seq<u16>>,
    sname: Seq<u8>,
    attr: u8,
    cluster: u32,
    size: u32,
    ck: u8,
    j: int,
)
    requires
        slots.len() >= frs.len() + 1,
        1 <= frs.len() <= 63,
        forall|i: int| 0 <= i < frs.len() ==> slots[i] == (RecordV::Long {
            frag: frs[i],
            seq_no: (frs.len() - i) as u8,
            ck,
            last: i == 0,
        }),
        slots[frs.len() as int] == (RecordV::Short { name: sname, attr, cluster, size }),
        1 <= j <= frs.len(),
    ensures
        fold_entries(
            slots,
            j,
            AccV {
                active: true,
                name: joined(frs, j),
                expected: frs.len() - j,
                ck,
                start: 0,
                count: j,
            },
        ) == (if ck == checksum_of(sname) {
            seq![
                EntryV {
                    name: joined(frs, frs.len() as int),
                    short: sname,
                    attr,
                    cluster,
                    size,
                    idx: 0,
                    slots: frs.len() as int + 1,
                },
            ]
        } else {
            Seq::<EntryV>::empty()
        }) + fold_entries(slots, frs.len() as int + 1, acc_empty()),
    decreases frs.len() - j,
{
    let k = frs.len() as int;
    let st = AccV { active: true, name: joined(frs, j), expected: k - j, ck, start: 0, count: j };
    if j == k {
        assert(slots[j] == (RecordV::Short { name: sname, attr, cluster, size }));
        if ck != checksum_of(sname) {
            assert(Seq::<EntryV>::empty() + fold_entries(slots, k + 1, acc_empty())
                =~= fold_entries(slots, k + 1, acc_empty()));
        }
    } else {
        assert(slots[j] == (RecordV::Long {
            frag: frs[j],
            seq_no: (k - j) as u8,
            ck,
            last: j == 0,
        }));
        assert(joined(frs, j + 1) == frs[j] + joined(frs, j));
        lemma_fold_run(slots, frs, sname, attr, cluster, size, ck, j + 1);
    }
}

/// Law (round trip): encoding a name into its long-name run followed by its
/// short-name record, then folding those records back, yields exactly one
/// entry, and it carries the original name. With a stored checksum that does
/// not match the short name, the fold yields no entry at all: a corrupted run
/// never surfaces.
pub proof fn lemma_name_roundtrip(
    name: Seq<u16>,
    sname: Seq<u8>,
    attr: u8,
    cluster: u32,
    size: u32,
    ck: u8,
)
    requires
        1 <= name.len() <= 819,
    ensures
        fold_entries(
            long_run_records(name, ck) + seq![RecordV::Short { name: sname, attr, cluster, size }],
            0,
            acc_empty(),
        ) == if ck == checksum_of(sname) {
            seq![
                EntryV {
                    name,
                    short: sname,
                    attr,
                    cluster,
                    size,
                    idx: 0,
                    slots: split_name(name).len() as int + 1,
                },
            ]
        } else {
            Seq::<EntryV>::empty()
        },
{
    let frs = split_name(name);
    lemma_split_join(name);
    lemma_split_count(name);
    assert((frs.len() - 1) * 13 < name.len());
    assert(frs.len() <= 63) by {
        if frs.len() > 63 {
            assert((frs.len() - 1) * 13 >= 63 * 13) by (nonlinear_arith)
                requires
                    frs.len() - 1 >= 63,
            ;
        }
    }
    let k = frs.len() as int;
    let run = long_run_records(name, ck);
    let slots = run + seq![RecordV::Short { name: sname, attr, cluster, size }];
    assert(slots.len() == k + 1);
    assert forall|i: int| 0 <= i < k implies slots[i] == (RecordV::Long {
        frag: frs[i],
        seq_no: (k - i) as u8,
        ck,
        last: i == 0,
    }) by {
        assert(slots[i] == run[i]);
    }
    assert(slots[0] == (RecordV::Long { frag: frs[0], seq_no: k as u8, ck, last: true }));
    assert(joined(frs, 0) == Seq::<u16>::empty());
    assert(joined(frs, 1) =~= frs[0]);
    lemma_fold_run(slots, frs, sname, attr, cluster, size, ck, 1);
    assert(fold_entries(slots, k + 1, acc_empty()) == Seq::<EntryV>::empty());
    assert(joined(frs, k) == name);
    if ck == checksum_of(sname) {
        assert(seq![
            EntryV {
                name: joined(frs, k),
                short: sname,
                attr,
                cluster,
                size,
                idx: 0,
                slots: k + 1,
            },
        ] + Seq::<EntryV>::empty() =~= seq![
            EntryV {
                name: joined(frs, k),
                short: sname,
                attr,
                cluster,
                size,
                idx: 0,
                slots: k + 1,
            },
        ]);
    } else {
        assert(Seq::<EntryV>::empty() + Seq::<EntryV>::empty() =~= Seq::<EntryV>::empty());
    }
}

/// A name's long-name run and short record placed at the start of a longer
/// slot sequence fold to the one entry (or to nothing on a checksum
/// mismatch), followed by whatever the remaining slots fold to on their own.
pub proof fn lemma_fold_placed_run(
    slots: Seq<RecordV>,
    frs: Seq<Seq<u16>>,
    sname: Seq<u8>,
    attr: u8,
    cluster: u32,
    size: u32,
    ck: u8,
)
    requires
        slots.len() >= frs.len() + 1,
        1 <= frs.len() <= 63,
        forall|i: int| 0 <= i < frs.len() ==> slots[i] == (RecordV::Long {
            frag: frs[i],
            seq_no: (frs.len() - i) as u8,
            ck,
            last: i == 0,
        }),
        slots[frs.len() as int] == (RecordV::Short { name: sname, attr, cluster, size }),
    ensures
        fold_entries(slots, 0, acc_empty()) == (if ck == checksum_of(sname) {
            seq![
                EntryV {
                    name: joined(frs, frs.len() as int),
                    short: sname,
                    attr,
                    cluster,
                    size,
                    idx: 0,
                    slots: frs.len() as int + 1,
                },
            ]
        } else {
            Seq::<EntryV>::empty()
        }) + fold_entries(slots, frs.len() as int + 1, acc_empty()),
{
    let k = frs.len() as int;
    assert(slots[0] == (RecordV::Long { frag: frs[0], seq_no: k as u8, ck, last: true }));
    assert(joined(frs, 0) == Seq::<u16>::empty());
    assert(joined(frs, 1) =~= frs[0]);
    lemma_fold_run(slots, frs, sname, attr, cluster, size, ck, 1);
}

/// One listing entry of a directory.
pub struct TreeItem {
    /// The reconstructed (possibly long) filename.
    pub filename: Vec<u16>,
    /// The 11-byte 8.3 name of the entry's short record.
    pub shortname: Vec<u8>,
    pub start_cluster: u32,
    pub attr: u8,
    /// Which block device the entry lives on.
    pub block_idx: usize,
    pub size: u32,
    /// First directory slot of the entry.
    pub idx: usize,
    /// How many consecutive slots (long + short records) the entry occupies.
    pub len: usize,
}

impl View for TreeItem {
    type V = EntryV;

    open spec fn view(&self) -> EntryV {
        EntryV {
            name: self.filename@,
            short: self.shortname@,
            attr: self.attr,
            cluster: self.start_cluster,
            size: self.size,
            idx: self.idx as int,
            slots: self.len as int,
        }
    }
}

/// The attribute byte marks a subdirectory.
pub open spec fn attr_is_dir(attr: u8) -> bool {
    attr / 0x10 % 2 == 1
}

impl TreeItem {
    pub fn new(
        filename: Vec<u16>,
        shortname: Vec<u8>,
        start_cluster: u32,
        attr: u8,
        block_idx: usize,
        size: u32,
        idx: usize,
        len: usize,
    ) -> (r: TreeItem)
        ensures
            r.filename == filename,
            r.shortname == shortname,
            r.start_cluster == start_cluster,
            r.attr == attr,
            r.block_idx == block_idx,
            r.size == size,
            r.idx == idx,
            r.len == len,
    {
        TreeItem { filename, shortname, start_cluster, attr, block_idx, size, idx, len }
    }

    /// Whether the entry is a subdirectory.
    pub fn is_dir(&self) -> (r: bool)
        ensures
            r == attr_is_dir(self.attr),
    {
        self.attr / 0x10 % 2 == 1
    }
}

/// The items a sequence of tree items stands for.
pub open spec fn items_view(items: Seq<TreeItem>) -> Seq<EntryV> {
    items.map_values(|t: TreeItem| t@)
}

/// A decoded directory: its own start cluster, the device it lives on, and
/// its entries in slot order.
pub struct FileTree {
    /// The directory's display name.
    pub name: Vec<u16>,
    pub items: Vec<TreeItem>,
    pub start_cluster: usize,
    pub block_idx: usize,
}

impl FileTree {
    pub fn new(name: Vec<u16>, items: Vec<TreeItem>, start_cluster: usize, block_idx: usize) -> (r:
        FileTree)
        ensures
            r.name == name,
            r.items == items,
            r.start_cluster == start_cluster,
            r.block_idx == block_idx,
    {
        FileTree { name, items, start_cluster, block_idx }
    }

    /// The first entry whose filename equals `name`, or nothing when no entry
    /// matches.
    pub fn get_item(&self, name: &Vec<u16>) -> (r: Option<&TreeItem>)
        ensures
            match r {
                Some(it) => exists|j: int|
                    0 <= j < self.items@.len() && it == &self.items@[j] && it.filename@ == name@
                        && forall|k: int| 0 <= k < j ==> self.items@[k].filename@ != name@,
                None => forall|j: int|
                    0 <= j < self.items@.len() ==> #[trigger] self.items@[j].filename@ != name@,
            },
    {
        let n = self.items.len();
        let mut j: usize = 0;
        while j < n
            invariant
                j <= n,
                n == self.items@.len(),
                forall|k: int| 0 <= k < j ==> #[trigger] self.items@[k].filename@ != name@,
            decreases n - j,
        {
            if vec_u16_eq(&self.items[j].filename, name) {
                return Some(&self.items[j]);
            }
            j = j + 1;
        }
        None
    }

    /// Whether some entry's 8.3 short name equals `shortname`: the check that
    /// rejects a creation whose derived short name collides.
    pub fn has_shortname(&self, shortname: &Vec<u8>) -> (r: bool)
        ensures
            r == exists|j: int|
                0 <= j < self.items@.len() && #[trigger] self.items@[j].shortname@ == shortname@,
    {
        let n = self.items.len();
        let mut j: usize = 0;
        while j < n
            invariant
                j <= n,
                n == self.items@.len(),
                forall|k: int| 0 <= k < j ==> #[trigger] self.items@[k].shortname@ != shortname@,
            decreases n - j,
        {
            if vec_u8_eq(&self.items[j].shortname, shortname) {
                return true;
            }
            j = j + 1;
        }
        false
    }
}

/// Whether two code-unit vectors hold the same sequence.
pub fn vec_u16_eq(a: &Vec<u16>, b: &Vec<u16>) -> (r: bool)
    ensures
        r == (a@ == b@),
{
    let n = a.len();
    if n != b.len() {
        proof {
            assert(a@ != b@);
        }
        return false;
    }
    let mut i: usize = 0;
    while i < n
        invariant
            i <= n,
            n == a@.len() == b@.len(),
            forall|k: int| 0 <= k < i ==> a@[k] == b@[k],
        decreases n - i,
    {
        if a[i] != b[i] {
            return false;
        }
        i = i + 1;
    }
    proof {
        assert(a@ =~= b@);
    }
    true
}

/// Whether two byte vectors hold the same sequence.
pub fn vec_u8_eq(a: &Vec<u8>, b: &Vec<u8>) -> (r: bool)
    ensures
        r == (a@ == b@),
{
    let n = a.len();
    if n != b.len() {
        proof {
            assert(a@ != b@);
        }
        return false;
    }
    let mut i: usize = 0;
    while i < n
        invariant
            i <= n,
            n == a@.len() == b@.len(),
            forall|k: int| 0 <= k < i ==> a@[k] == b@[k],
        decreases n - i,
    {
        if a[i] != b[i] {
            return false;
        }
        i = i + 1;
    }
    proof {
        assert(a@ =~= b@);
    }
    true
}

/// `a` followed by `b`.
pub fn vec_u16_concat(a: &Vec<u16>, b: &Vec<u16>) -> (r: Vec<u16>)
    ensures
        r@ == a@ + b@,
{
    let mut r: Vec<u16> = Vec::new();
    let na = a.len();
    let mut i: usize = 0;
    while i < na
        invariant
            i <= na,
            na == a@.len(),
            r@ == a@.take(i as int),
        decreases na - i,
    {
        r.push(a[i]);
        proof {
            assert(r@ =~= a@.take(i + 1));
        }
        i = i + 1;
    }
    let nb = b.len();
    let mut j: usize = 0;
    while j < nb
        invariant
            j <= nb,
            nb == b@.len(),
            r@ == a@.take(a@.len() as int) + b@.take(j as int),
        decreases nb - j,
    {
        r.push(b[j]);
        proof {
            assert(r@ =~= a@.take(a@.len() as int) + b@.take(j + 1));
        }
        j = j + 1;
    }
    proof {
        assert(r@ =~= a@ + b@);
    }
    r
}

/// Folds a directory's decoded records into its listing entries, as
/// `fold_entries` describes.
pub fn build_entries(records: &Vec<crate::codec::DirRecord>, block_idx: usize) -> (r: Vec<TreeItem>)
    ensures
        items_view(r@) == fold_entries(
            records@.map_values(|d: crate::codec::DirRecord| d@),
            0,
            acc_empty(),
        ),
        forall|j: int| 0 <= j < r@.len() ==> (#[trigger] r@[j]).block_idx == block_idx,
{
    let ghost rv = records@.map_values(|d: crate::codec::DirRecord| d@);
    let mut out: Vec<TreeItem> = Vec::new();
    let mut active = false;
    let mut acc_name: Vec<u16> = Vec::new();
    let mut expected: u8 = 0;
    let mut ck: u8 = 0;
    let mut start: usize = 0;
    let mut count: usize = 0;
    let n = records.len();
    let mut i: usize = 0;
    while i < n
        invariant
            i <= n,
            n == records@.len(),
            rv == records@.map_values(|d: crate::codec::DirRecord| d@),
            rv.len() == n,
            count <= i,
            start < n || !active,
            fold_entries(rv, 0, acc_empty()) == items_view(out@) + fold_entries(
                rv,
                i as int,
                AccV {
                    active,
                    name: acc_name@,
                    expected: expected as int,
                    ck,
                    start: start as int,
                    count: count as int,
                },
            ),
            forall|j: int| 0 <= j < out@.len() ==> (#[trigger] out@[j]).block_idx == block_idx,
        decreases n - i,
    {
        proof {
            assert(rv[i as int] == records@[i as int]@);
        }
        match &records[i] {
            crate::codec::DirRecord::Free => {
                active = false;
                acc_name = Vec::new();
                expected = 0;
                ck = 0;
                start = 0;
                count = 0;
            },
            crate::codec::DirRecord::Long(l) => {
                if l.last && 1 <= l.seq_no {
                    active = true;
                    acc_name = vec_u16_copy(&l.fragment);
                    expected = l.seq_no - 1;
                    ck = l.checksum;
                    start = i;
                    count = 1;
                } else if active && !l.last && expected >= 1 && l.seq_no == expected && l.checksum
                    == ck {
                    acc_name = vec_u16_concat(&l.fragment, &acc_name);
                    expected = expected - 1;
                    count = count + 1;
                } else {
                    active = false;
                    acc_name = Vec::new();
                    expected = 0;
                    ck = 0;
                    start = 0;
                    count = 0;
                }
            },
            crate::codec::DirRecord::Short(s) => {
                let ghost out0 = out@;
                if active && expected == 0 {
                    let computed = crate::name::check_sum(&s.name);
                    if ck == computed {
                        let fname = acc_name;
                        acc_name = Vec::new();
                        out.push(
                            TreeItem {
                                filename: fname,
                                shortname: vec_u8_copy(&s.name),
                                start_cluster: s.start_cluster,
                                attr: s.attr,
                                block_idx,
                                size: s.size,
                                idx: start,
                                len: count + 1,
                            },
                        );
                        proof {
                            assert(items_view(out@) =~= items_view(out0) + seq![
                                out@[out@.len() - 1]@,
                            ]);
                        }
                    }
                } else {
                    out.push(
                        TreeItem {
                            filename: crate::name::widen_name(&s.name),
                            shortname: vec_u8_copy(&s.name),
                            start_cluster: s.start_cluster,
                            attr: s.attr,
                            block_idx,
                            size: s.size,
                            idx: i,
                            len: 1,
                        },
                    );
                    proof {
                        assert(items_view(out@) =~= items_view(out0) + seq![out@[out@.len() - 1]@]);
                    }
                }
                active = false;
                acc_name = Vec::new();
                expected = 0;
                ck = 0;
                start = 0;
                count = 0;
            },
        }
        i = i + 1;
    }
    proof {
        assert(fold_entries(rv, n as int, acc_empty()) == Seq::<EntryV>::empty());
        assert(items_view(out@) =~= items_view(out@) + Seq::<EntryV>::empty());
    }
    out
}

/// A copy of a code-unit vector.
pub fn vec_u16_copy(a: &Vec<u16>) -> (r: Vec<u16>)
    ensures
        r@ == a@,
{
    let n = a.len();
    let mut r: Vec<u16> = Vec::new();
    let mut i: usize = 0;
    while i < n
        invariant
            i <= n,
            n == a@.len(),
            r@ == a@.take(i as int),
        decreases n - i,
    {
        r.push(a[i]);
        proof {
            assert(r@ =~= a@.take(i + 1));
        }
        i = i + 1;
    }
    proof {
        assert(r@ =~= a@);
    }
    r
}

/// A copy of a byte vector.
pub fn vec_u8_copy(a: &Vec<u8>) -> (r: Vec<u8>)
    ensures
        r@ == a@,
{
    let n = a.len();
    let mut r: Vec<u8> = Vec::new();
    let mut i: usize = 0;
    while i < n
        invariant
            i <= n,
            n == a@.len(),
            r@ == a@.take(i as int),
        decreases n - i,
    {
        r.push(a[i]);
        proof {
            assert(r@ =~= a@.take(i + 1));
        }
        i = i + 1;
    }
    proof {
        assert(r@ =~= a@);
    }
    r
}

} // verus!
