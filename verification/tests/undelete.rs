use unearth::hash::digest;
use unearth::recover::{RecoverOptions, RecoverStats, VolumeError};
use unearth::source::{Fault, ReadError, Source};
use unearth::{exfat, ext4, hfsplus};

fn all() -> RecoverOptions {
    RecoverOptions {
        min_size: 0,
        max_size: None,
        newer: None,
        older: None,
        name: None,
        dry_run: false,
    }
}

fn put(v: &mut [u8], at: usize, bytes: &[u8]) {
    v[at..at + bytes.len()].copy_from_slice(bytes);
}

fn le16(v: &mut [u8], at: usize, n: u16) {
    put(v, at, &n.to_le_bytes());
}

fn le32(v: &mut [u8], at: usize, n: u32) {
    put(v, at, &n.to_le_bytes());
}

fn le64(v: &mut [u8], at: usize, n: u64) {
    put(v, at, &n.to_le_bytes());
}

fn be16(v: &mut [u8], at: usize, n: u16) {
    put(v, at, &n.to_be_bytes());
}

fn be32(v: &mut [u8], at: usize, n: u32) {
    put(v, at, &n.to_be_bytes());
}

fn be64(v: &mut [u8], at: usize, n: u64) {
    put(v, at, &n.to_be_bytes());
}

fn paths(s: &RecoverStats) -> Vec<(&str, u64)> {
    s.files.iter().map(|f| (f.path.as_str(), f.size)).collect()
}

/// Recovered files carry the digests of their bytes.
fn check_digests(s: &RecoverStats) {
    for f in &s.files {
        assert_eq!(f.sha256, f.content.as_ref().map(digest));
    }
}

// exFAT: sectors and clusters of 512 bytes, the FAT at 512, the cluster heap at 1024, 20 clusters.

const CLUSTERS: u32 = 20;

fn cluster(c: u32) -> usize {
    1024 + (c as usize - 2) * 512
}

fn exfat_set(v: &mut [u8], at: usize, name: &str, kind: (bool, bool, bool), first: u32, len: u64) -> usize {
    let (in_use, is_dir, contiguous) = kind;
    let units: Vec<u16> = name.encode_utf16().collect();
    let names = units.len().div_ceil(15);
    let flag = if in_use { 0x80 } else { 0 };
    v[at] = 0x05 | flag;
    v[at + 1] = 1 + names as u8;
    le16(v, at + 4, if is_dir { 0x10 } else { 0x20 });
    // 2000-01-01 00:00:00.
    le32(v, at + 12, (20 << 25) | (1 << 21) | (1 << 16));
    v[at + 32] = 0x40 | flag;
    v[at + 33] = if contiguous { 3 } else { 1 };
    v[at + 35] = units.len() as u8;
    le32(v, at + 52, first);
    le64(v, at + 56, len);
    for (k, chunk) in units.chunks(15).enumerate() {
        let base = at + 64 + 32 * k;
        v[base] = 0x41 | flag;
        for (j, u) in chunk.iter().enumerate() {
            le16(v, base + 2 + 2 * j, *u);
        }
    }
    at + 64 + 32 * names
}

fn exfat_image() -> Vec<u8> {
    let mut v = vec![0u8; 1024 + 512 * CLUSTERS as usize];
    put(&mut v, 3, b"EXFAT   ");
    le64(&mut v, 72, 2 + CLUSTERS as u64);
    le32(&mut v, 80, 1);
    le32(&mut v, 88, 2);
    le32(&mut v, 92, CLUSTERS);
    le32(&mut v, 96, 2);
    le32(&mut v, 100, 0x1234_ABCD);
    v[108] = 9;
    // The root directory is one cluster.
    le32(&mut v, 512 + 4 * 2, 0xFFFF_FFFF);
    let root = cluster(2);
    v[root] = 0x83;
    v[root + 1] = 4;
    for (i, u) in "Card".encode_utf16().enumerate() {
        le16(&mut v, root + 2 + 2 * i, u);
    }
    v[root + 32] = 0x81;
    le32(&mut v, root + 52, 3);
    le64(&mut v, root + 56, 3);
    // Clusters 2, 3 and 9 are allocated.
    v[cluster(3)] = 0x83;
    for c in 4..2 + CLUSTERS {
        let at = cluster(c);
        v[at..at + 512].fill(c as u8);
    }
    v
}

fn any(_out: &Vec<u8>, _piece: &Vec<u8>) -> bool {
    true
}

#[test]
fn exfat_volume_says_what_it_is() {
    let src = Source::new(exfat_image());
    let v = exfat::Volume::parse(&src, 0).unwrap();
    assert_eq!(v.label(), "Card");
    assert_eq!(v.uuid().unwrap(), "1234-ABCD");
    assert!(v.is_clean());
    assert_eq!(v.cluster_size(), 512);
    assert_eq!(v.size(), 22 * 512);
    // Clusters 4 to 8 and 10 to 21 are free.
    assert_eq!(
        v.free_extents(&src).unwrap(),
        vec![(2048, 5 * 512), (5120, 12 * 512)]
    );
}

#[test]
fn exfat_recovers_contiguous_chained_and_scattered_files() {
    let mut v = exfat_image();
    let mut at = cluster(2) + 64;
    at = exfat_set(&mut v, at, "a.txt", (false, false, true), 5, 700);
    // The chain of this one is gone, and its second cluster lies behind one of a live file.
    at = exfat_set(&mut v, at, "frag.bin", (false, false, false), 8, 1024);
    at = exfat_set(&mut v, at, "dir", (false, true, true), 12, 512);
    // The chain of this one is still there.
    exfat_set(&mut v, at, "chain.bin", (false, false, false), 14, 600);
    le32(&mut v, 512 + 4 * 14, 16);
    le32(&mut v, 512 + 4 * 16, 0xFFFF_FFFF);
    let dir = cluster(12);
    v[dir..dir + 512].fill(0);
    exfat_set(&mut v, dir, "in/ner", (true, false, true), 13, 10);
    let src = Source::new(v);
    let vol = exfat::Volume::parse(&src, 0).unwrap();
    let s = vol.recover_deleted(&src, &all(), &any).unwrap();
    check_digests(&s);
    assert_eq!(
        paths(&s),
        vec![("a.txt", 700), ("frag.bin", 1024), ("chain.bin", 600), ("dir/in_ner", 10)]
    );
    let content = |i: usize| s.files[i].content.clone().unwrap();
    assert_eq!(content(0), [vec![5u8; 512], vec![6u8; 188]].concat());
    assert_eq!(content(1), [vec![8u8; 512], vec![10u8; 512]].concat());
    assert_eq!(content(2), [vec![14u8; 512], vec![16u8; 88]].concat());
    assert_eq!(content(3), vec![13u8; 10]);
    assert_eq!(s.files[0].modified, Some(946_684_800));
    assert_eq!(s.files[0].accessed, None);
    assert!(s.skipped.is_empty());

    // A run that only says what can be recovered says the same of every file.
    let mut dry = all();
    dry.dry_run = true;
    let d = vol.recover_deleted(&src, &dry, &any).unwrap();
    assert_eq!(paths(&d), paths(&s));
    assert!(d.files.iter().all(|f| f.content.is_none() && f.sha256.is_none()));

    let mut some = all();
    some.name = Some("a".to_string());
    some.max_size = Some(700);
    let s = vol.recover_deleted(&src, &some, &any).unwrap();
    assert_eq!(paths(&s), vec![("a.txt", 700), ("chain.bin", 600)]);
}

#[test]
fn exfat_passes_over_clusters_that_cannot_come_next() {
    let mut v = exfat_image();
    let at = exfat_set(&mut v, cluster(2) + 64, "live.jpg", (true, false, true), 6, 10);
    exfat_set(&mut v, at, "p.JPG", (false, false, false), 10, 1024);
    let src = Source::new(v);
    let vol = exfat::Volume::parse(&src, 0).unwrap();
    // After the first cluster only one of fourteens can come.
    let fourteens = |out: &Vec<u8>, piece: &Vec<u8>| out.is_empty() || piece[0] == 14;
    let s = vol.recover_deleted(&src, &all(), &fourteens).unwrap();
    let content = s.files[0].content.clone().unwrap();
    assert_eq!(content, [vec![10u8; 512], vec![14u8; 512]].concat());
    // Anything can follow where nothing is known of the content.
    let s = vol.recover_deleted(&src, &all(), &any).unwrap();
    let content = s.files[0].content.clone().unwrap();
    assert_eq!(content, [vec![10u8; 512], vec![11u8; 512]].concat());
}

#[test]
fn exfat_skips_what_cannot_be_placed() {
    let mut v = exfat_image();
    let mut at = cluster(2) + 64;
    at = exfat_set(&mut v, at, "empty", (false, false, true), 5, 0);
    at = exfat_set(&mut v, at, "nowhere", (false, false, true), 1, 9);
    at = exfat_set(&mut v, at, "beyond", (false, false, true), 22, 9);
    exfat_set(&mut v, at, "long", (false, false, true), 21, 513);
    let src = Source::new(v);
    let vol = exfat::Volume::parse(&src, 0).unwrap();
    let s = vol.recover_deleted(&src, &all(), &any).unwrap();
    assert!(s.files.is_empty());
    let skipped: Vec<(&str, u64)> = s.skipped.iter().map(|f| (f.path.as_str(), f.size)).collect();
    assert_eq!(
        skipped,
        vec![("empty", 0), ("nowhere", 9), ("beyond", 9), ("long", 513)]
    );
}

#[test]
fn exfat_errors() {
    let parse = |v: Vec<u8>| exfat::Volume::parse(&Source::new(v), 0).err();
    assert_eq!(parse(vec![0; 511]), Some(VolumeError::Truncated));
    assert_eq!(parse(vec![0; 512]), Some(VolumeError::NotFound));
    let mut v = exfat_image();
    v[108] = 8;
    assert_eq!(parse(v), Some(VolumeError::SectorSize));
    let mut v = exfat_image();
    v[109] = 250;
    assert_eq!(parse(v), Some(VolumeError::ClusterSize));
    let src = Source::with_faults(exfat_image(), vec![Fault { start: 9, end: 10 }]);
    assert_eq!(
        exfat::Volume::parse(&src, 0).err(),
        Some(VolumeError::Read(ReadError { offset: 9 }))
    );
    assert!(exfat::is_exfat_vbr(&exfat_image()));
    assert!(!exfat::is_exfat_vbr(b"EXFAT   "));
    // A root directory that cannot be read leaves the label empty.
    let src = Source::with_faults(exfat_image(), vec![Fault { start: 1030, end: 1031 }]);
    let vol = exfat::Volume::parse(&src, 0).unwrap();
    assert_eq!(vol.label(), "");
    assert_eq!(vol.free_extents(&src), Err(ReadError { offset: 1030 }));
}

// ext: blocks of 1 KiB, one group of 32 inodes of 128 bytes, the inode table at block 5, 64 blocks.

fn inode_at(ino: usize) -> usize {
    5 * 1024 + (ino - 1) * 128
}

fn ext_inode(v: &mut [u8], at: usize, mode: u16, links: u16, dtime: u32, size: u32, blocks: &[u32]) {
    le16(v, at, mode);
    le32(v, at + 4, size);
    le32(v, at + 0x10, 100);
    le32(v, at + 0x14, dtime);
    le16(v, at + 0x1A, links);
    for (i, b) in blocks.iter().enumerate() {
        le32(v, at + 0x28 + 4 * i, *b);
    }
}

fn dirent(v: &mut [u8], at: usize, ino: u32, rec_len: u16, name: &str) {
    le32(v, at, ino);
    le16(v, at + 4, rec_len);
    v[at + 6] = name.len() as u8;
    put(v, at + 8, name.as_bytes());
}

fn ext_image() -> Vec<u8> {
    let mut v = vec![0u8; 64 * 1024];
    let sb = 1024;
    le32(&mut v, sb, 32);
    le32(&mut v, sb + 4, 64);
    le32(&mut v, sb + 0x10, 20);
    le32(&mut v, sb + 0x14, 1);
    le32(&mut v, sb + 0x20, 8192);
    le32(&mut v, sb + 0x28, 32);
    le32(&mut v, sb + 0x30, 77);
    le16(&mut v, sb + 0x38, 0xEF53);
    le16(&mut v, sb + 0x3A, 1);
    le32(&mut v, sb + 0x5C, 4);
    le32(&mut v, sb + 0x60, 2);
    put(&mut v, sb + 0x68, &[0xAB; 16]);
    put(&mut v, sb + 0x78, b"disk");
    put(&mut v, sb + 0x88, b"/mnt/x");
    // Group descriptor: block bitmap at 3, inode table at 5.
    le32(&mut v, 2048, 3);
    le32(&mut v, 2048 + 8, 5);
    // Blocks 1 to 30 are allocated.
    put(&mut v, 3 * 1024, &[0xFF, 0xFF, 0xFF, 0x3F]);
    ext_inode(&mut v, inode_at(2), 0x4000, 2, 0, 1024, &[10]);
    let dir = 10 * 1024;
    dirent(&mut v, dir, 2, 12, ".");
    dirent(&mut v, dir + 12, 2, 12, "..");
    dirent(&mut v, dir + 24, 12, 1000, "keep.txt");
    ext_inode(&mut v, inode_at(12), 0x8000, 1, 0, 5, &[19]);
    // Stale entries in the slack of the live one.
    dirent(&mut v, dir + 40, 14, 16, "lost.bin");
    dirent(&mut v, dir + 56, 13, 16, "gone.txt");
    ext_inode(&mut v, inode_at(13), 0x8000, 0, 5, 1500, &[20, 21]);
    v[20 * 1024..21 * 1024].fill(20);
    v[21 * 1024..22 * 1024].fill(21);
    v[25 * 1024..26 * 1024].fill(25);
    v
}

#[test]
fn ext_mount_point_is_set_or_not() {
    let at = 1024 + 0x88;
    let mut v = ext_image();
    v[at] = 0xFF;
    v[at + 1] = 0;
    let volume = ext4::Volume::parse(&Source::new(v.clone()), 0).unwrap();
    assert_eq!(volume.last_mounted(), Some("\u{fffd}"));
    // What follows a zero is not looked at.
    v[at] = 0;
    v[at + 1] = b'x';
    let volume = ext4::Volume::parse(&Source::new(v), 0).unwrap();
    assert_eq!(volume.last_mounted(), None);
}

#[test]
fn ext_volume_says_what_it_is() {
    let src = Source::new(ext_image());
    assert!(ext4::is_ext_volume(&src, 0));
    assert!(!ext4::is_ext_volume(&src, 1024));
    assert!(!ext4::is_ext_volume(&src, u64::MAX));
    let v = ext4::Volume::parse(&src, 0).unwrap();
    assert_eq!(v.version(), "ext3");
    assert_eq!(v.label(), "disk");
    assert_eq!(v.last_mounted(), Some("/mnt/x"));
    assert_eq!(v.uuid().unwrap(), "abababab-abab-abab-abab-abababababab");
    assert!(v.is_clean());
    assert_eq!((v.size(), v.block_size()), (64 * 1024, 1024));
    assert_eq!((v.created_time(), v.written_time()), (None, Some(77)));
    assert_eq!(v.inode_usage(), (12, 32));
    // The blocks from 31 on are free.
    assert_eq!(v.free_extents(&src).unwrap(), vec![(31 * 1024, 33 * 1024)]);
}

#[test]
fn ext_recovers_from_stale_entries() {
    let src = Source::new(ext_image());
    let vol = ext4::Volume::parse(&src, 0).unwrap();
    let s = vol.recover_deleted(&src, &all()).unwrap();
    check_digests(&s);
    assert_eq!(paths(&s), vec![("gone.txt", 1500)]);
    assert_eq!(
        s.files[0].content.clone().unwrap(),
        [vec![20u8; 1024], vec![21u8; 476]].concat()
    );
    assert_eq!(s.files[0].modified, Some(100));
    let mut late = all();
    late.newer = Some(101);
    assert!(vol.recover_deleted(&src, &late).unwrap().files.is_empty());
}

#[test]
fn ext_entries_count_once_in_the_order_of_their_first() {
    let mut v = ext_image();
    let dir = 10 * 1024;
    dirent(&mut v, dir + 72, 15, 16, "more.txt");
    dirent(&mut v, dir + 88, 13, 16, "gone.txt");
    ext_inode(&mut v, inode_at(15), 0x8000, 0, 5, 100, &[25]);
    let src = Source::new(v);
    let vol = ext4::Volume::parse(&src, 0).unwrap();
    let s = vol.recover_deleted(&src, &all()).unwrap();
    assert_eq!(paths(&s), vec![("gone.txt", 1500), ("more.txt", 100)]);
}

#[test]
fn ext_recovers_from_the_journal() {
    let mut v = ext_image();
    // The extents of this one were zeroed when it was deleted.
    ext_inode(&mut v, inode_at(14), 0x8000, 0, 9, 0, &[]);
    le32(&mut v, inode_at(14) + 0x20, 0x0008_0000);
    le16(&mut v, inode_at(14) + 0x28, 0xF30A);
    let mut dry = all();
    dry.dry_run = true;
    let src = Source::new(v.clone());
    let vol = ext4::Volume::parse(&src, 0).unwrap();
    let s = vol.recover_deleted(&src, &dry).unwrap();
    assert_eq!(paths(&s), vec![("gone.txt", 1500)]);
    assert_eq!(s.skipped.len(), 1);
    assert_eq!((s.skipped[0].path.as_str(), s.skipped[0].size), ("lost.bin", 0));

    // The journal still has two copies of its block, the later one with the later change time.
    ext_inode(&mut v, inode_at(8), 0x8000, 1, 0, 5 * 1024, &[30, 31, 32, 33, 34]);
    let block = inode_at(14) / 1024;
    let within = inode_at(14) % 1024;
    be32(&mut v, 30 * 1024, 0xC03B_3998);
    be32(&mut v, 30 * 1024 + 0x10, 5);
    be32(&mut v, 30 * 1024 + 0x14, 1);
    let desc = 31 * 1024;
    be32(&mut v, desc, 0xC03B_3998);
    be32(&mut v, desc + 4, 1);
    be32(&mut v, desc + 12, block as u32);
    be16(&mut v, desc + 18, 0x0002);
    be32(&mut v, desc + 20, block as u32);
    be16(&mut v, desc + 26, 0x0008);
    for (copy, start, size, ctime) in [(32, 26, 50, 1), (33, 25, 100, 2)] {
        let at = copy * 1024 + within;
        ext_inode(&mut v, at, 0x8000, 1, 0, size, &[]);
        le32(&mut v, at + 0x0C, ctime);
        le32(&mut v, at + 0x20, 0x0008_0000);
        le16(&mut v, at + 0x28, 0xF30A);
        le16(&mut v, at + 0x2A, 1);
        le16(&mut v, at + 0x28 + 16, 1);
        le32(&mut v, at + 0x28 + 20, start);
    }
    let src = Source::new(v);
    let vol = ext4::Volume::parse(&src, 0).unwrap();
    let s = vol.recover_deleted(&src, &all()).unwrap();
    check_digests(&s);
    assert_eq!(paths(&s), vec![("gone.txt", 1500), ("lost.bin", 100)]);
    assert_eq!(s.files[1].content.clone().unwrap(), vec![25u8; 100]);
    assert!(s.skipped.is_empty());
}

#[test]
fn ext_follows_indirect_blocks() {
    let mut v = ext_image();
    // Twelve direct blocks that are holes, and one block of pointers.
    let mut blocks = [0u32; 13];
    blocks[12] = 40;
    ext_inode(&mut v, inode_at(13), 0x8000, 0, 5, 13 * 1024 + 3, &blocks);
    le32(&mut v, 40 * 1024, 20);
    le32(&mut v, 40 * 1024 + 4, 21);
    let src = Source::new(v);
    let vol = ext4::Volume::parse(&src, 0).unwrap();
    let s = vol.recover_deleted(&src, &all()).unwrap();
    let content = s.files[0].content.clone().unwrap();
    assert_eq!(content.len(), 13 * 1024 + 3);
    assert!(content[..12 * 1024].iter().all(|&b| b == 0));
    assert_eq!(content[12 * 1024..13 * 1024], [20u8; 1024]);
    assert_eq!(content[13 * 1024..], [21u8; 3]);
}

#[test]
fn ext_errors() {
    let parse = |v: Vec<u8>| ext4::Volume::parse(&Source::new(v), 0).err();
    let with = |at: usize, n: u32| {
        let mut v = ext_image();
        le32(&mut v, 1024 + at, n);
        parse(v)
    };
    assert_eq!(parse(vec![0; 2047]), Some(VolumeError::Truncated));
    assert_eq!(parse(vec![0; 2048]), Some(VolumeError::NotFound));
    assert_eq!(with(0x18, 7), Some(VolumeError::BlockSize));
    assert_eq!(with(0x58, 127), Some(VolumeError::InodeSize));
    assert_eq!(with(0x58, 2048), Some(VolumeError::InodeSize));
    assert_eq!(with(0x28, 0), Some(VolumeError::Geometry));
    assert_eq!(with(0x20, 0), Some(VolumeError::Geometry));
    assert_eq!(with(0, 0), Some(VolumeError::NoGroups));
    let src = Source::with_faults(ext_image(), vec![Fault { start: 2050, end: 2060 }]);
    assert_eq!(
        ext4::Volume::parse(&src, 0).err(),
        Some(VolumeError::Read(ReadError { offset: 2050 }))
    );
    let src = Source::with_faults(ext_image(), vec![Fault { start: 3072, end: 3073 }]);
    let vol = ext4::Volume::parse(&src, 0).unwrap();
    assert_eq!(vol.free_extents(&src), Err(ReadError { offset: 3072 }));
}

// HFS+: blocks of 512 bytes, 64 of them, the bitmap at block 3, the catalog of two nodes at block 8.

fn hfs_key(v: &mut [u8], at: usize, parent: u32, name: &str) -> usize {
    let units: Vec<u16> = name.encode_utf16().collect();
    be16(v, at, 6 + 2 * units.len() as u16);
    be32(v, at + 2, parent);
    be16(v, at + 6, units.len() as u16);
    for (i, u) in units.iter().enumerate() {
        be16(v, at + 8 + 2 * i, *u);
    }
    at + 8 + 2 * units.len()
}

fn hfs_file(v: &mut [u8], at: usize, parent: u32, name: &str, id: u32, size: u64, extent: (u32, u32)) {
    let rec = hfs_key(v, at, parent, name);
    be16(v, rec, 2);
    be32(v, rec + 8, id);
    be32(v, rec + 16, 2_082_844_800 + 60);
    be64(v, rec + 88, size);
    be32(v, rec + 104, extent.0);
    be32(v, rec + 108, extent.1);
}

/// A leaf node with one record, of which the first free byte is at `free`.
fn hfs_leaf(v: &mut [u8], at: usize, free: u16) {
    v[at + 8] = 0xFF;
    v[at + 9] = 1;
    be16(v, at + 10, 1);
    be16(v, at + 510, 14);
    be16(v, at + 508, free);
}

fn hfs_image() -> Vec<u8> {
    let mut v = vec![0u8; 64 * 512];
    let h = 1024;
    be16(&mut v, h, 0x482B);
    be32(&mut v, h + 0x10, 2_082_844_800 + 5);
    be32(&mut v, h + 40, 512);
    be32(&mut v, h + 44, 64);
    be32(&mut v, h + 128, 4);
    be32(&mut v, h + 132, 1);
    be64(&mut v, h + 272, 1024);
    be32(&mut v, h + 288, 8);
    be32(&mut v, h + 292, 2);
    // The first twelve blocks and the last one are allocated.
    put(&mut v, 4 * 512, &[0xFF, 0xF0, 0, 0, 0, 0, 0, 0x01]);
    // The header node gives the node size.
    be16(&mut v, 8 * 512 + 32, 512);
    let leaf = 9 * 512;
    hfs_leaf(&mut v, leaf, 118);
    let rec = hfs_key(&mut v, leaf + 14, 2, "Docs");
    be16(&mut v, rec, 1);
    be32(&mut v, rec + 8, 100);
    for b in 20..40 {
        v[b * 512..(b + 1) * 512].fill(b as u8);
    }
    v
}

#[test]
fn hfsplus_volume_says_what_it_is() {
    let src = Source::new(hfs_image());
    assert!(hfsplus::is_hfsplus(&src, 0));
    let v = hfsplus::Volume::parse(&src, 0).unwrap();
    assert_eq!(v.fs_label(), "HFS+");
    assert_eq!((v.size(), v.block_size()), (64 * 512, 512));
    assert_eq!((v.created_time(), v.written_time()), (Some(5), None));
    // Blocks 12 to 62 are free.
    assert_eq!(v.free_extents(&src).unwrap(), vec![(12 * 512, 51 * 512)]);
    // Nothing is known to be free where the bitmap cannot be read.
    let src = Source::with_faults(hfs_image(), vec![Fault { start: 2048, end: 2049 }]);
    let v = hfsplus::Volume::parse(&src, 0).unwrap();
    assert_eq!(v.free_extents(&src), Ok(vec![]));
}

#[test]
fn hfsplus_recovers_from_free_space() {
    let mut v = hfs_image();
    hfs_file(&mut v, 9 * 512 + 118, 100, "a:b.txt", 55, 600, (20, 2));
    let src = Source::new(v.clone());
    let vol = hfsplus::Volume::parse(&src, 0).unwrap();
    let s = vol.recover_deleted(&src, &all()).unwrap();
    check_digests(&s);
    assert_eq!(paths(&s), vec![("Docs/a_b.txt", 600)]);
    assert_eq!(
        s.files[0].content.clone().unwrap(),
        [vec![20u8; 512], vec![21u8; 88]].concat()
    );
    assert_eq!((s.files[0].modified, s.files[0].accessed), (Some(60), None));

    // A file whose extents do not cover it is skipped rather than cut short.
    hfs_file(&mut v, 9 * 512 + 118, 100, "a:b.txt", 55, 1025, (20, 2));
    let src = Source::new(v.clone());
    let s = vol.recover_deleted(&src, &all()).unwrap();
    assert!(s.files.is_empty());
    assert_eq!((s.skipped[0].path.as_str(), s.skipped[0].size), ("Docs/a_b.txt", 1025));

    // Unless the rest of its extents is in the overflow tree.
    be64(&mut v, 1024 + 192, 1024);
    be32(&mut v, 1024 + 208, 12);
    be32(&mut v, 1024 + 212, 2);
    be16(&mut v, 12 * 512 + 32, 512);
    let leaf = 13 * 512;
    hfs_leaf(&mut v, leaf, 90);
    be16(&mut v, leaf + 14, 10);
    be32(&mut v, leaf + 18, 55);
    be32(&mut v, leaf + 22, 2);
    be32(&mut v, leaf + 26, 30);
    be32(&mut v, leaf + 30, 1);
    let src = Source::new(v);
    let vol = hfsplus::Volume::parse(&src, 0).unwrap();
    let s = vol.recover_deleted(&src, &all()).unwrap();
    assert_eq!(
        s.files[0].content.clone().unwrap(),
        [vec![20u8; 512], vec![21u8; 512], vec![30u8; 1]].concat()
    );
}

#[test]
fn hfsplus_recovers_from_the_journal() {
    let mut v = hfs_image();
    be32(&mut v, 1024 + 4, 0x2000);
    be32(&mut v, 1024 + 12, 5);
    be32(&mut v, 5 * 512, 1);
    be64(&mut v, 5 * 512 + 36, 40 * 512);
    be64(&mut v, 5 * 512 + 44, 4 * 512);
    // Three stale nodes: two with the same file, of which the later has the older record.
    for (node, name, id, date) in [(41, "old", 77, 3), (42, "older", 77, 2), (43, "other", 70, 1)] {
        let at = node * 512;
        hfs_leaf(&mut v, at, 300);
        hfs_file(&mut v, at + 14, 2, name, id, 10, (node as u32 - 11, 1));
        let rec = at + 14 + 8 + 2 * name.len();
        be32(&mut v, rec + 16, date);
    }
    let src = Source::new(v.clone());
    let vol = hfsplus::Volume::parse(&src, 0).unwrap();
    let s = vol.recover_deleted(&src, &all()).unwrap();
    check_digests(&s);
    assert_eq!(paths(&s), vec![("other", 10), ("old", 10)]);
    assert_eq!(s.files[1].content.clone().unwrap(), vec![30u8; 10]);

    // A file that is still live is not taken for deleted.
    let leaf = 9 * 512;
    v[leaf..leaf + 512].fill(0);
    hfs_leaf(&mut v, leaf, 300);
    hfs_file(&mut v, leaf + 14, 2, "live", 77, 10, (20, 1));
    let src = Source::new(v);
    let s = vol.recover_deleted(&src, &all()).unwrap();
    assert_eq!(paths(&s), vec![("other", 10)]);
}

#[test]
fn hfsplus_errors() {
    let parse = |v: Vec<u8>| hfsplus::Volume::parse(&Source::new(v), 0).err();
    let with = |at: usize, n: u32| {
        let mut v = hfs_image();
        be32(&mut v, 1024 + at, n);
        parse(v)
    };
    assert_eq!(parse(vec![0; 1535]), Some(VolumeError::Truncated));
    assert_eq!(parse(vec![0; 1536]), Some(VolumeError::NotFound));
    assert_eq!(with(40, 768), Some(VolumeError::BlockSize));
    assert_eq!(with(44, 0), Some(VolumeError::NoBlocks));
    assert_eq!(with(288, 64), Some(VolumeError::CatalogRange));
    assert_eq!(with(292, 0), Some(VolumeError::NoCatalog));
    let recover = |v: Vec<u8>| {
        let src = Source::new(v);
        let vol = hfsplus::Volume::parse(&src, 0).unwrap();
        vol.recover_deleted(&src, &all()).err()
    };
    let mut v = hfs_image();
    be64(&mut v, 1024 + 272, 511);
    assert_eq!(recover(v), Some(VolumeError::CatalogTruncated));
    let mut v = hfs_image();
    be16(&mut v, 8 * 512 + 32, 513);
    assert_eq!(recover(v), Some(VolumeError::NodeSize));
    let src = Source::with_faults(hfs_image(), vec![Fault { start: 4100, end: 4101 }]);
    let vol = hfsplus::Volume::parse(&src, 0).unwrap();
    assert_eq!(
        vol.recover_deleted(&src, &all()).err(),
        Some(VolumeError::Read(ReadError { offset: 4100 }))
    );
}

#[test]
fn detection_only_volumes_recover_nothing() {
    let mut v = vec![0u8; 4096];
    le32(&mut v, 0, 0x28CD_3D45);
    put(&mut v, 16, b"Compressed ROMFS");
    // A label that is not UTF-8 is shown with a replacement character.
    put(&mut v, 0x30, &[b'r', 0xFF, b'o']);
    let src = Source::new(v);
    let vol = unearth::cramfs::Volume::parse(&src, 0).unwrap();
    assert_eq!(vol.label(), "r\u{FFFD}o");
    assert_eq!(vol.size(), 4096);
    let s = vol.recover_deleted(&src, &all()).unwrap();
    assert!(s.files.is_empty() && s.skipped.is_empty());
    let short = Source::new(vec![0u8; 10]);
    assert_eq!(
        unearth::cramfs::Volume::parse(&short, 0).err(),
        Some(VolumeError::Truncated)
    );
    assert_eq!(
        unearth::befs::Volume::parse(&short, u64::MAX).err(),
        Some(VolumeError::OffsetOverflow)
    );
    assert_eq!(
        unearth::befs::Volume::parse(&short, 0).err(),
        Some(VolumeError::Truncated)
    );
}
