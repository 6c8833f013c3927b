use unearth::exfat::entries::{
    parse_entry_sets, ENTRY_SIZE, INUSE_BIT, TYPE_FILE, TYPE_NAME, TYPE_STREAM,
};
use unearth::exfat::Volume;
use unearth::recover::sanitize_component;

#[test]
fn bitmap_bits_are_cluster_minus_two_lsb_first() {
    // Bit 0 of byte 0 is cluster 2; bit 3 of byte 1 is cluster 13.
    let bitmap = [0b0000_0001u8, 0b0000_1000];
    assert!(Volume::cluster_allocated(&bitmap, 2));
    assert!(!Volume::cluster_allocated(&bitmap, 3));
    assert!(Volume::cluster_allocated(&bitmap, 13));
    assert!(!Volume::cluster_allocated(&bitmap, 12));
    // Past the bitmap counts as allocated: never a blind read.
    assert!(Volume::cluster_allocated(&bitmap, 18));
    assert!(Volume::cluster_allocated(&bitmap, 1_000_000));
    // Cluster numbers below 2 do not underflow.
    let _ = Volume::cluster_allocated(&bitmap, 0);
}

/// An entry set: file entry, stream extension, and enough name entries.
fn entry_set(
    name: &str,
    in_use: bool,
    is_dir: bool,
    first: u32,
    len: u64,
    no_chain: bool,
) -> Vec<u8> {
    let units: Vec<u16> = name.encode_utf16().collect();
    let name_entries = units.len().div_ceil(15);
    let mut set = vec![0u8; (2 + name_entries) * ENTRY_SIZE];
    let flag = if in_use { INUSE_BIT } else { 0 };
    set[0] = TYPE_FILE | flag;
    set[1] = (1 + name_entries) as u8;
    set[4..6].copy_from_slice(&(if is_dir { 0x10u16 } else { 0x20 }).to_le_bytes());
    set[32] = TYPE_STREAM | flag;
    set[33] = 0x01 | if no_chain { 0x02 } else { 0 };
    set[35] = units.len() as u8;
    set[40..48].copy_from_slice(&len.to_le_bytes());
    set[52..56].copy_from_slice(&first.to_le_bytes());
    set[56..64].copy_from_slice(&len.to_le_bytes());
    for (k, chunk) in units.chunks(15).enumerate() {
        let base = (2 + k) * ENTRY_SIZE;
        set[base] = TYPE_NAME | flag;
        for (j, u) in chunk.iter().enumerate() {
            set[base + 2 + j * 2..base + 4 + j * 2].copy_from_slice(&u.to_le_bytes());
        }
    }
    set
}

#[test]
fn parses_deleted_and_live_entry_sets_with_long_names() {
    let mut dir = Vec::new();
    dir.extend_from_slice(&entry_set(
        "a rather long file name.jpeg",
        false,
        false,
        40,
        123_456,
        false,
    ));
    dir.extend_from_slice(&entry_set("Bilder", true, true, 50, 4096, true));
    dir.extend_from_slice(&[0u8; ENTRY_SIZE]);
    let items = parse_entry_sets(&dir);
    assert_eq!(items.len(), 2);
    assert_eq!(items[0].name, "a rather long file name.jpeg");
    assert!(items[0].deleted);
    assert!(!items[0].is_dir);
    assert_eq!(items[0].first_cluster, 40);
    assert_eq!(items[0].data_length, 123_456);
    assert!(!items[0].no_fat_chain);
    assert_eq!(items[1].name, "Bilder");
    assert!(!items[1].deleted);
    assert!(items[1].is_dir);
    assert!(items[1].no_fat_chain);
}

#[test]
fn a_truncated_entry_set_is_dropped_not_panicked() {
    let set = entry_set("x.bin", false, false, 40, 10, true);
    // Cut after the file entry: no stream, no name.
    let items = parse_entry_sets(&set[..ENTRY_SIZE]);
    assert!(items.is_empty());
    // Garbage of the right length.
    let items = parse_entry_sets(&[0xC1u8; 96]);
    assert!(items.is_empty());
}

#[test]
fn sanitize_goes_through_the_shared_rules() {
    assert_eq!(sanitize_component("a/b"), "a_b");
    assert_eq!(sanitize_component(""), "_recovered");
}
