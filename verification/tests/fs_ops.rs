use tisuos::codec::{parse_record, DirRecord};
use tisuos::device::{BlockDevice, IoKind};
use tisuos::fat::{FatManager, FLAG_END};
use tisuos::name::{check_sum, make_shortname};

fn name_of(s: &str) -> Vec<u16> {
    s.encode_utf16().collect()
}

/// A fresh volume: `spc` sectors of 512 bytes per cluster, one reserved
/// sector, one table copy of one sector (128 entries), entries 0 and 1 marked
/// reserved as on a real volume.
fn fresh_volume(spc: usize) -> (FatManager, BlockDevice) {
    let bps = 512usize;
    let fat_size_sectors = 1usize;
    let entries = fat_size_sectors * bps / 4; // 128
    let cluster_size = bps * spc;
    let data_addr = (1 + 1) * bps;
    let size = data_addr + (entries - 2) * cluster_size;
    let total_sector = size / bps;
    let mgr = FatManager::new(0, bps, spc, total_sector, 1, fat_size_sectors, 1);
    let mut dev = BlockDevice::new(size);
    mgr.set_fat_item(&mut dev, 0, 0x0FFFFFF8);
    mgr.set_fat_item(&mut dev, 1, FLAG_END);
    // the root directory occupies cluster 2 as a one-cluster chain
    mgr.set_fat_item(&mut dev, 2, FLAG_END);
    (mgr, dev)
}

fn slot_of(dev: &BlockDevice, mgr: &FatManager, cluster: usize, idx: usize) -> DirRecord {
    let base = mgr.data_addr + (cluster - 2) * mgr.cluster_size + 32 * idx;
    let slot = dev.data[base..base + 32].to_vec();
    parse_record(&slot)
}

#[test]
fn fat_entry_read_write_and_out_of_range() {
    let (mgr, mut dev) = fresh_volume(1);
    assert!(mgr.set_fat_item(&mut dev, 5, 7));
    assert_eq!(mgr.get_fat_item(&dev, 5), Some(7));
    // values are masked to 28 bits
    assert!(mgr.set_fat_item(&mut dev, 6, 0xF0000001));
    assert_eq!(mgr.get_fat_item(&dev, 6), Some(1));
    assert_eq!(mgr.get_fat_item(&dev, 128), None);
    assert!(!mgr.set_fat_item(&mut dev, 128, 1));
}

#[test]
fn find_free_scans_from_the_start() {
    let (mgr, mut dev) = fresh_volume(1);
    assert_eq!(mgr.find_free_fat_item(&dev), Some(3));
    mgr.set_fat_item(&mut dev, 3, FLAG_END);
    mgr.set_fat_item(&mut dev, 4, FLAG_END);
    assert_eq!(mgr.find_free_fat_item(&dev), Some(5));
}

#[test]
fn no_space_when_table_is_exhausted() {
    let (mgr, mut dev) = fresh_volume(1);
    for c in 2..128usize {
        mgr.set_fat_item(&mut dev, c, FLAG_END);
    }
    assert_eq!(mgr.find_free_fat_item(&dev), None);
    let root = mgr.get_file_tree(&dev, 2).unwrap();
    assert!(!mgr.create_directory(&mut dev, &root, &name_of("full")));
}

#[test]
fn total_and_used_size() {
    let (mgr, mut dev) = fresh_volume(1);
    assert_eq!(mgr.get_total_size(), mgr.total_sector * 512);
    // entries 0 and 1 are reserved and cluster 2 holds the root
    assert_eq!(mgr.get_used_size(&dev), 3 * 512);
    mgr.set_fat_item(&mut dev, 9, FLAG_END);
    assert_eq!(mgr.get_used_size(&dev), 4 * 512);
}

#[test]
fn create_then_list_includes_the_entry() {
    let (mgr, mut dev) = fresh_volume(1);
    let root = mgr.get_root_file_tree(&dev).unwrap();
    assert!(root.items.is_empty());
    assert!(mgr.create_directory(&mut dev, &root, &name_of("hello")));
    let root2 = mgr.get_root_file_tree(&dev).unwrap();
    assert_eq!(root2.items.len(), 1);
    assert_eq!(root2.items[0].filename, name_of("hello"));
    assert_eq!(root2.items[0].shortname, b"HELLO      ".to_vec());
    assert!(root2.items[0].is_dir());
    assert_eq!(root2.items[0].start_cluster, 2 + 1); // first free cluster after root
    assert_eq!(root2.items[0].idx, 0);
    assert_eq!(root2.items[0].len, 2); // one long record, one short record
}

#[test]
fn delete_removes_entry_and_frees_chain_by_one_cluster() {
    let (mgr, mut dev) = fresh_volume(1);
    let root = mgr.get_root_file_tree(&dev).unwrap();
    assert!(mgr.create_directory(&mut dev, &root, &name_of("node")));
    // turn the created entry into a plain file so deletion is allowed
    let tree = mgr.get_root_file_tree(&dev).unwrap();
    let item = &tree.items[0];
    let cluster = item.start_cluster;
    let short = tisuos::codec::FATShortDirItem::new(
        item.shortname.clone(),
        0x20,
        cluster,
        0,
    );
    mgr.set_short_dir_item(&mut dev, 2, item.idx + item.len - 1, short);
    let used_before = mgr.get_used_size(&dev);
    let tree = mgr.get_root_file_tree(&dev).unwrap();
    assert!(tree.get_item(&name_of("node")).is_some());
    assert!(mgr.delete_file(&mut dev, &tree, &name_of("node")));
    let after = mgr.get_root_file_tree(&dev).unwrap();
    assert!(after.get_item(&name_of("node")).is_none());
    assert!(after.items.is_empty());
    // the entry's one-cluster chain is free again
    assert_eq!(mgr.get_fat_item(&dev, cluster as usize), Some(0));
    assert_eq!(mgr.get_used_size(&dev), used_before - mgr.cluster_size);
}

#[test]
fn delete_refuses_directories_and_missing_names() {
    let (mgr, mut dev) = fresh_volume(1);
    let root = mgr.get_root_file_tree(&dev).unwrap();
    assert!(mgr.create_directory(&mut dev, &root, &name_of("sub")));
    let tree = mgr.get_root_file_tree(&dev).unwrap();
    assert!(!mgr.delete_file(&mut dev, &tree, &name_of("missing")));
    // the entry is a subdirectory: deletion is refused
    assert!(!mgr.delete_file(&mut dev, &tree, &name_of("sub")));
    let still = mgr.get_root_file_tree(&dev).unwrap();
    assert_eq!(still.items.len(), 1);
}

#[test]
fn create_rejects_short_name_collision() {
    let (mgr, mut dev) = fresh_volume(1);
    let root = mgr.get_root_file_tree(&dev).unwrap();
    assert!(mgr.create_directory(&mut dev, &root, &name_of("samename")));
    let tree = mgr.get_root_file_tree(&dev).unwrap();
    // same derived 8.3 name, different case: refused, not renamed
    assert!(!mgr.create_directory(&mut dev, &tree, &name_of("SAMENAME")));
    let after = mgr.get_root_file_tree(&dev).unwrap();
    assert_eq!(after.items.len(), 1);
}

#[test]
fn create_fails_when_directory_is_full() {
    let (mgr, mut dev) = fresh_volume(1);
    // a 512-byte cluster holds 16 slots; each two-slot entry fills it after 8
    for i in 0..8 {
        let root = mgr.get_root_file_tree(&dev).unwrap();
        let name = name_of(&format!("entry{}", i));
        assert!(mgr.create_directory(&mut dev, &root, &name));
    }
    let root = mgr.get_root_file_tree(&dev).unwrap();
    assert_eq!(root.items.len(), 8);
    assert!(!mgr.create_directory(&mut dev, &root, &name_of("onemore")));
}

#[test]
fn roundtrip_names_of_boundary_lengths() {
    let (mgr, mut dev) = fresh_volume(8);
    for (i, len) in [1usize, 12, 13, 14, 26].iter().enumerate() {
        let mut s = String::new();
        for k in 0..*len {
            s.push((b'a' + ((i + k) % 26) as u8) as char);
        }
        let name = name_of(&s);
        let root = mgr.get_root_file_tree(&dev).unwrap();
        assert!(mgr.create_directory(&mut dev, &root, &name), "create failed for len {}", len);
        let tree = mgr.get_root_file_tree(&dev).unwrap();
        let item = tree.get_item(&name).expect("created entry must be listed");
        assert_eq!(item.filename, name);
    }
}

#[test]
fn corrupt_checksum_run_never_surfaces() {
    let (mgr, mut dev) = fresh_volume(1);
    let root = mgr.get_root_file_tree(&dev).unwrap();
    assert!(mgr.create_directory(&mut dev, &root, &name_of("victim")));
    // damage the stored checksum of the long-name record in slot 0
    let tree = mgr.get_root_file_tree(&dev).unwrap();
    assert_eq!(tree.items.len(), 1);
    let base = mgr.data_addr + 13; // byte 13 of slot 0: the stored checksum
    dev.data[base] = dev.data[base].wrapping_add(1);
    let damaged = mgr.get_root_file_tree(&dev).unwrap();
    // the corrupted run is treated as absent, not surfaced under a wrong name
    assert!(damaged.get_item(&name_of("victim")).is_none());
    assert!(damaged.items.is_empty());
}

#[test]
fn scenario_longfilenametest_under_root() {
    // 512-byte sectors, 8 sectors per cluster: 4096-byte clusters
    let (mgr, mut dev) = fresh_volume(8);
    assert_eq!(mgr.cluster_size, 4096);
    let root = mgr.get_root_file_tree(&dev).unwrap();
    let name = name_of("longfilenametest");
    assert!(mgr.create_directory(&mut dev, &root, &name));
    let expect_ck = check_sum(&make_shortname(&name));
    // two long-name fragment records, then the short record
    match slot_of(&dev, &mgr, 2, 0) {
        DirRecord::Long(l) => {
            assert_eq!(l.fragment, name_of("est"));
            assert_eq!(l.seq_no, 2);
            assert!(l.last);
            assert_eq!(l.checksum, expect_ck);
        },
        _ => panic!("slot 0 must hold the run's first stored fragment"),
    }
    match slot_of(&dev, &mgr, 2, 1) {
        DirRecord::Long(l) => {
            assert_eq!(l.fragment, name_of("longfilenamet"));
            assert_eq!(l.seq_no, 1);
            assert!(!l.last);
            assert_eq!(l.checksum, expect_ck);
        },
        _ => panic!("slot 1 must hold the run's second fragment"),
    }
    let new_cluster = match slot_of(&dev, &mgr, 2, 2) {
        DirRecord::Short(s) => {
            assert_eq!(s.name, make_shortname(&name));
            assert_eq!(s.attr, 0x10);
            s.start_cluster as usize
        },
        _ => panic!("slot 2 must hold the short record"),
    };
    // the new cluster is marked end-of-chain
    let e = mgr.get_fat_item(&dev, new_cluster).unwrap();
    assert!(e >= 0x0FFFFFF8);
    // its cluster is zero-filled but for "." and ".." in slots 0 and 1
    match slot_of(&dev, &mgr, new_cluster, 0) {
        DirRecord::Short(s) => {
            assert_eq!(s.name, b".          ".to_vec());
            assert_eq!(s.start_cluster as usize, new_cluster);
            assert_eq!(s.attr, 0x10);
        },
        _ => panic!("slot 0 of the new cluster must be the dot entry"),
    }
    match slot_of(&dev, &mgr, new_cluster, 1) {
        DirRecord::Short(s) => {
            assert_eq!(s.name, b"..         ".to_vec());
            assert_eq!(s.start_cluster, 2);
        },
        _ => panic!("slot 1 of the new cluster must be the dot-dot entry"),
    }
    let base = mgr.data_addr + (new_cluster - 2) * mgr.cluster_size;
    for i in 64..mgr.cluster_size {
        assert_eq!(dev.data[base + i], 0);
    }
}

#[test]
fn scenario_delete_two_slot_entry_with_three_cluster_chain() {
    let (mgr, mut dev) = fresh_volume(1);
    // a three-cluster chain: 10 -> 11 -> 12 -> end
    mgr.set_fat_item(&mut dev, 10, 11);
    mgr.set_fat_item(&mut dev, 11, 12);
    mgr.set_fat_item(&mut dev, 12, FLAG_END);
    // one long-name record plus one short record at slots 5 and 6 of the root
    let name = name_of("abc");
    let short = make_shortname(&name);
    let ck = check_sum(&short);
    let long_item = tisuos::codec::FATLongDirItem::new(name.clone(), 1, ck, true);
    mgr.set_long_dir_item(&mut dev, 2, 5, long_item);
    let short_item = tisuos::codec::FATShortDirItem::new(short, 0x20, 10, 99);
    mgr.set_short_dir_item(&mut dev, 2, 6, short_item);
    let tree = mgr.get_root_file_tree(&dev).unwrap();
    let item = tree.get_item(&name).expect("entry must be listed");
    assert_eq!(item.idx, 5);
    assert_eq!(item.len, 2);
    assert_eq!(item.size, 99);
    let used_before = mgr.get_used_size(&dev);
    assert!(mgr.delete_file(&mut dev, &tree, &name));
    // slots 5 and 6 decode as unused afterwards
    assert!(matches!(slot_of(&dev, &mgr, 2, 5), DirRecord::Free));
    assert!(matches!(slot_of(&dev, &mgr, 2, 6), DirRecord::Free));
    // the whole former chain reports free
    assert_eq!(mgr.get_fat_item(&dev, 10), Some(0));
    assert_eq!(mgr.get_fat_item(&dev, 11), Some(0));
    assert_eq!(mgr.get_fat_item(&dev, 12), Some(0));
    assert_eq!(mgr.get_used_size(&dev), used_before - 3 * mgr.cluster_size);
}

#[test]
fn read_spanning_clusters_issues_one_transfer_per_cluster() {
    let (mgr, mut dev) = fresh_volume(1);
    // chain 20 -> 21 -> 22 -> end
    mgr.set_fat_item(&mut dev, 20, 21);
    mgr.set_fat_item(&mut dev, 21, 22);
    mgr.set_fat_item(&mut dev, 22, FLAG_END);
    let mut content: Vec<u8> = Vec::new();
    for i in 0..1124usize {
        content.push((i % 251) as u8);
    }
    assert!(mgr.write(&mut dev, 20, 0, &content));
    let log_before = dev.log.len();
    let buf = mgr.read(&mut dev, 20, 0, 1124).unwrap();
    assert_eq!(buf, content);
    // exactly three transfers: 512, 512, then the 100-byte remainder
    let new: Vec<_> = dev.log[log_before..].to_vec();
    assert_eq!(new.len(), 3);
    assert!(new.iter().all(|r| matches!(r.kind, IoKind::Read)));
    assert_eq!(new[0].len, 512);
    assert_eq!(new[1].len, 512);
    assert_eq!(new[2].len, 100);
    // a read past the chain's end truncates to what the chain holds
    let log_before = dev.log.len();
    let buf = mgr.read(&mut dev, 20, 0, 5000).unwrap();
    assert_eq!(buf.len(), 3 * 512);
    assert_eq!(dev.log.len() - log_before, 3);
    assert_eq!(&buf[..1124], &content[..]);
}

#[test]
fn read_honors_first_cluster_offset() {
    let (mgr, mut dev) = fresh_volume(1);
    mgr.set_fat_item(&mut dev, 30, 31);
    mgr.set_fat_item(&mut dev, 31, FLAG_END);
    let mut content: Vec<u8> = Vec::new();
    for i in 0..700usize {
        content.push((i % 256) as u8);
    }
    assert!(mgr.write(&mut dev, 30, 0, &content));
    let buf = mgr.read(&mut dev, 30, 100, 600).unwrap();
    assert_eq!(buf, content[100..700].to_vec());
    assert_eq!(mgr.read(&mut dev, 1, 0, 10), None);
    assert_eq!(mgr.read(&mut dev, 4096, 0, 10), None);
}

#[test]
fn clear_directory_zero_fills_one_cluster() {
    let (mgr, mut dev) = fresh_volume(1);
    let content = vec![0xABu8; 512];
    mgr.set_fat_item(&mut dev, 40, FLAG_END);
    assert!(mgr.write(&mut dev, 40, 0, &content));
    mgr.clear_directory(&mut dev, 40);
    let base = mgr.data_addr + (40 - 2) * 512;
    for i in 0..512 {
        assert_eq!(dev.data[base + i], 0);
    }
}

#[test]
fn boot_sector_parsing() {
    let mut sector = vec![0u8; 512];
    // bytes per sector 512, 8 sectors per cluster, 1 reserved sector,
    // 1 table copy, 4096 total sectors, 1 sector per table copy
    sector[11] = 0x00;
    sector[12] = 0x02;
    sector[13] = 8;
    sector[14] = 1;
    sector[16] = 1;
    sector[32] = 0x00;
    sector[33] = 0x10;
    sector[36] = 1;
    let mgr = FatManager::from_boot_sector(3, &sector).expect("parameters must parse");
    assert_eq!(mgr.block_idx, 3);
    assert_eq!(mgr.bytes_per_sector, 512);
    assert_eq!(mgr.sector_per_cluster, 8);
    assert_eq!(mgr.cluster_size, 4096);
    assert_eq!(mgr.total_sector, 0x1000);
    assert_eq!(mgr.fat_num, 1);
    assert_eq!(mgr.fat_size_sectors, 1);
    assert_eq!(mgr.fat_addr, 512);
    assert_eq!(mgr.data_addr, 1024);
    assert_eq!(mgr.fat_entry_count, 128);

    // a sector size below 512 is rejected
    let mut bad = sector.clone();
    bad[11] = 0x00;
    bad[12] = 0x01;
    assert!(FatManager::from_boot_sector(0, &bad).is_none());
    // a truncated boot sector is rejected
    assert!(FatManager::from_boot_sector(0, &vec![0u8; 20]).is_none());
}
