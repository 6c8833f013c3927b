use unearth::cramfs::{
    is_cramfs, Volume, FLAGS_OFFSET, FUTURE_OFFSET, MAGIC, NAME_OFFSET, SIGNATURE_OFFSET, SIZE_OFFSET,
};
use unearth::source::Source;

/// Build a cramfs volume of `total` bytes.
fn cramfs_image(size: u32, name: &str, big: bool, total: usize) -> Vec<u8> {
    let mut v = vec![0u8; total];
    let m = if big {
        MAGIC.to_be_bytes()
    } else {
        MAGIC.to_le_bytes()
    };
    v[0..4].copy_from_slice(&m);
    let s = if big {
        size.to_be_bytes()
    } else {
        size.to_le_bytes()
    };
    v[SIZE_OFFSET..SIZE_OFFSET + 4].copy_from_slice(&s);
    v[SIGNATURE_OFFSET..SIGNATURE_OFFSET + 16].copy_from_slice(b"Compressed ROMFS");
    let nb = name.as_bytes();
    v[NAME_OFFSET..NAME_OFFSET + nb.len()].copy_from_slice(nb);
    v
}

fn source_of(bytes: &[u8]) -> Source {
    Source::new(bytes.to_vec())
}

#[test]
fn detects_little_endian_size_and_name() {
    let src = source_of(&cramfs_image(120 * 1024, "rootfs", false, 256 * 1024));
    assert!(is_cramfs(&src, 0));
    let v = Volume::parse(&src, 0).unwrap();
    assert_eq!(v.fs_label(), "cramfs");
    assert_eq!(v.size(), 120 * 1024);
    assert_eq!(v.block_size(), 4096);
    assert_eq!(v.label(), "rootfs");
}

#[test]
fn cramfs_detects_big_endian() {
    let src = source_of(&cramfs_image(64 * 1024, "fw", true, 256 * 1024));
    assert!(is_cramfs(&src, 0));
    let v = Volume::parse(&src, 0).unwrap();
    assert_eq!(v.size(), 64 * 1024);
    assert_eq!(v.label(), "fw");
}

#[test]
fn rejects_a_superblock_with_unknown_flags_or_reserved_bits() {
    let good = cramfs_image(120 * 1024, "rootfs", false, 256 * 1024);
    let src = source_of(&good);
    assert!(is_cramfs(&src, 0));
    let mut flags = good.clone();
    flags[FLAGS_OFFSET + 2] = 0x10; // bit 20: no kernel defines it
    let src = source_of(&flags);
    assert!(!is_cramfs(&src, 0));
    assert!(Volume::parse(&src, 0).is_err());
    let mut future = good;
    future[FUTURE_OFFSET] = 1;
    let src = source_of(&future);
    assert!(!is_cramfs(&src, 0));
    assert!(Volume::parse(&src, 0).is_err());
}

#[test]
fn rejects_magic_without_signature() {
    // The magic alone, without the ASCII signature, is not enough.
    let mut v = vec![0u8; 64 * 1024];
    v[0..4].copy_from_slice(&MAGIC.to_le_bytes());
    let src = source_of(&v);
    assert!(!is_cramfs(&src, 0));
    assert!(Volume::parse(&src, 0).is_err());
}
