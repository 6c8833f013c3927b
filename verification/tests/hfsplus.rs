use unearth::hfsplus::records::{
    node_size, parse_extent_record, parse_file_record, parse_folder_record, Folders, RECORD_FILE,
    RECORD_FOLDER, ROOT_FOLDER_ID,
};
use unearth::hfsplus::{hfsplus_offset, is_hfsplus, Volume, SIG_HFS, SIG_HFSPLUS};
use unearth::source::Source;

fn source_of(bytes: &[u8]) -> Source {
    Source::new(bytes.to_vec())
}

#[test]
fn follows_an_hfs_wrapper_to_the_embedded_hfsplus() {
    let mut v = vec![0u8; 8192];
    // Old HFS master directory block at offset 1024: "BD", drAlBlkSiz=512
    // (0x14), drAlBlSt=4 sectors (0x1C), embed "H+" (0x7C), start block 2.
    let mdb = 1024;
    v[mdb..mdb + 2].copy_from_slice(&SIG_HFS.to_be_bytes());
    v[mdb + 0x14..mdb + 0x18].copy_from_slice(&512u32.to_be_bytes());
    v[mdb + 0x1C..mdb + 0x1E].copy_from_slice(&4u16.to_be_bytes());
    v[mdb + 0x7C..mdb + 0x7E].copy_from_slice(&SIG_HFSPLUS.to_be_bytes());
    v[mdb + 0x7E..mdb + 0x80].copy_from_slice(&2u16.to_be_bytes());
    // Embedded offset = 4*512 + 2*512 = 3072; its header sits at +1024.
    let embedded = 4 * 512 + 2 * 512;
    v[embedded + 1024..embedded + 1026].copy_from_slice(&SIG_HFSPLUS.to_be_bytes());

    let src = source_of(&v);
    assert!(is_hfsplus(&src, 0));
    assert_eq!(hfsplus_offset(&src, 0), Some(embedded as u64));
}

#[test]
fn direct_and_non_hfsplus_offsets() {
    // Direct HFS+ at the volume start.
    let mut v = vec![0u8; 2048];
    v[1024..1026].copy_from_slice(&SIG_HFSPLUS.to_be_bytes());
    let src = source_of(&v);
    assert_eq!(hfsplus_offset(&src, 0), Some(0));
    // Neither HFS+ nor a wrapper.
    let src = source_of(&vec![0u8; 2048]);
    assert!(!is_hfsplus(&src, 0));
}

fn test_vol() -> Volume {
    Volume {
        offset: 0,
        block_size: 512,
        total_blocks: 64,
        catalog_extents: vec![(8, 2)],
        catalog_size: 1024,
        allocation_extents: vec![],
        extents_overflow_extents: vec![],
        extents_overflow_size: 0,
        hfsx: false,
        journal: None,
        created: None,
        written: None,
    }
}

/// Build a minimal valid catalog file record (key + HFSPlusCatalogFile) at
/// the start of a buffer.
fn build_record(name: &str, size: u64, start: u32, count: u32) -> Vec<u8> {
    let name16: Vec<u16> = name.encode_utf16().collect();
    let key_len = 6 + 2 * name16.len();
    let mut buf = vec![0u8; key_len + 2 + 248 + 16];
    buf[0..2].copy_from_slice(&(key_len as u16).to_be_bytes());
    buf[2..6].copy_from_slice(&2u32.to_be_bytes()); // parentID
    buf[6..8].copy_from_slice(&(name16.len() as u16).to_be_bytes());
    for (i, &u) in name16.iter().enumerate() {
        buf[8 + i * 2..10 + i * 2].copy_from_slice(&u.to_be_bytes());
    }
    let rec = 2 + key_len;
    buf[rec..rec + 2].copy_from_slice(&RECORD_FILE.to_be_bytes());
    buf[rec + 8..rec + 12].copy_from_slice(&16u32.to_be_bytes()); // fileID
    buf[rec + 88..rec + 96].copy_from_slice(&size.to_be_bytes());
    buf[rec + 104..rec + 108].copy_from_slice(&start.to_be_bytes());
    buf[rec + 108..rec + 112].copy_from_slice(&count.to_be_bytes());
    buf
}

#[test]
fn parses_a_valid_file_record() {
    let buf = build_record("hello.txt", 1234, 12, 3);
    let rec = parse_file_record(&buf, 0, &test_vol()).expect("should parse");
    assert_eq!(rec.name, "hello.txt");
    assert_eq!(rec.file_id, 16);
    assert_eq!(rec.logical_size, 1234);
    assert_eq!(rec.extents, vec![(12, 3)]);
}

#[test]
fn rejects_zeroed_and_patterned_bytes() {
    let vol = test_vol();
    assert!(parse_file_record(&[0u8; 512], 14, &vol).is_none());
    let patterned: Vec<u8> = (0..512u32).map(|i| (i.wrapping_mul(7)) as u8).collect();
    // No offset in a deterministic non-record buffer should validate.
    assert!((0..400).all(|off| parse_file_record(&patterned, off, &vol).is_none()));
}

#[test]
fn rejects_a_record_with_an_out_of_range_extent() {
    // start block beyond total_blocks (64) must be rejected.
    let buf = build_record("x", 100, 9999, 1);
    assert!(parse_file_record(&buf, 0, &test_vol()).is_none());
}

#[test]
fn rejects_a_record_larger_than_the_volume() {
    let buf = build_record("x", 1 << 40, 12, 1);
    assert!(parse_file_record(&buf, 0, &test_vol()).is_none());
}

#[test]
fn node_size_must_be_a_sane_power_of_two() {
    let mut cat = vec![0u8; 4096];
    cat[32..34].copy_from_slice(&777u16.to_be_bytes()); // not a power of two
    assert!(node_size(&cat).is_err());
    cat[32..34].copy_from_slice(&4096u16.to_be_bytes());
    assert_eq!(node_size(&cat).unwrap(), 4096);
}

#[test]
fn parses_an_extents_overflow_record() {
    // key (len 10): forkType=0, pad, fileID=16, startBlock=8; the record
    // data (extent descriptors) follows at off + 2 + 10 = 12.
    let mut buf = vec![0u8; 12 + 64];
    buf[0..2].copy_from_slice(&10u16.to_be_bytes()); // key length
    buf[2] = 0; // data fork
    buf[4..8].copy_from_slice(&16u32.to_be_bytes()); // fileID
    buf[8..12].copy_from_slice(&8u32.to_be_bytes()); // startBlock
    buf[12..16].copy_from_slice(&20u32.to_be_bytes()); // extent 0 start
    buf[16..20].copy_from_slice(&2u32.to_be_bytes()); // extent 0 count
    buf[20..24].copy_from_slice(&30u32.to_be_bytes()); // extent 1 start
    buf[24..28].copy_from_slice(&1u32.to_be_bytes()); // extent 1 count

    let rec = parse_extent_record(&buf, 0, &test_vol()).expect("should parse");
    assert_eq!(rec.fork, 0);
    assert_eq!(rec.file_id, 16);
    assert_eq!(rec.start_block, 8);
    assert_eq!(rec.extents, vec![(20, 2), (30, 1)]);
}

#[test]
fn rejects_an_extents_overflow_record_with_a_bad_key_or_extent() {
    let vol = test_vol();
    // Wrong key length.
    let mut bad_key = vec![0u8; 14 + 64];
    bad_key[0..2].copy_from_slice(&8u16.to_be_bytes());
    assert!(parse_extent_record(&bad_key, 0, &vol).is_none());
    // Extent beyond the volume (total_blocks = 64).
    let mut bad_ext = vec![0u8; 12 + 64];
    bad_ext[0..2].copy_from_slice(&10u16.to_be_bytes());
    bad_ext[4..8].copy_from_slice(&16u32.to_be_bytes());
    bad_ext[12..16].copy_from_slice(&9999u32.to_be_bytes());
    bad_ext[16..20].copy_from_slice(&1u32.to_be_bytes());
    assert!(parse_extent_record(&bad_ext, 0, &vol).is_none());
}

#[test]
fn resolves_nested_and_partial_folder_paths() {
    let mut folders = Folders::new();
    folders.add(20, "Users".to_string(), ROOT_FOLDER_ID);
    folders.add(21, "alice".to_string(), 20);
    folders.add(22, "Photos".to_string(), 21);

    // Full chain up to the root folder.
    assert_eq!(
        folders.resolve_path(22),
        "Users/alice/Photos"
    );
    // A file directly in the root has no path components.
    assert_eq!(folders.resolve_path(ROOT_FOLDER_ID), "");
    // An unknown parent (deleted ancestor) yields an empty/partial path
    // rather than looping or panicking.
    assert_eq!(folders.resolve_path(999), "");
}

#[test]
fn parses_a_folder_record() {
    // key: parentID=2, name="Docs"; record: recordType=folder, folderID=100.
    let name: Vec<u16> = "Docs".encode_utf16().collect();
    let key_len = 6 + 2 * name.len();
    let mut buf = vec![0u8; key_len + 2 + 88];
    buf[0..2].copy_from_slice(&(key_len as u16).to_be_bytes());
    buf[2..6].copy_from_slice(&2u32.to_be_bytes()); // parentID
    buf[6..8].copy_from_slice(&(name.len() as u16).to_be_bytes());
    for (i, &u) in name.iter().enumerate() {
        buf[8 + i * 2..10 + i * 2].copy_from_slice(&u.to_be_bytes());
    }
    let rec = 2 + key_len;
    buf[rec..rec + 2].copy_from_slice(&RECORD_FOLDER.to_be_bytes());
    buf[rec + 8..rec + 12].copy_from_slice(&100u32.to_be_bytes());

    let folder = parse_folder_record(&buf, 0).expect("should parse");
    assert_eq!(folder.cnid, 100);
    assert_eq!(folder.name, "Docs");
    assert_eq!(folder.parent, 2);
    // A file record (wrong recordType) must not parse as a folder.
    let file = build_record("x.txt", 10, 12, 1);
    assert!(parse_folder_record(&file, 0).is_none());
}

#[test]
fn an_extent_ends_in_the_volume() {
    let record = |start: u32, count: u32| {
        let buf = build_record("x", 512, start, count);
        parse_file_record(&buf, 0, &test_vol()).map(|r| r.extents)
    };
    assert_eq!(record(62, 2), Some(vec![(62, 2)]));
    assert_eq!(record(63, 1), Some(vec![(63, 1)]));
    assert_eq!(record(63, 2), None);
    assert_eq!(record(64, 0), None);
    assert_eq!(record(64, 1), None);
}
