use unearth::befs::{
    is_befs, Volume, BLOCK_SIZE_OFFSET, MAGIC1, MAGIC1_OFFSET, MAGIC2, MAGIC2_OFFSET, NAME_OFFSET,
    NUM_BLOCKS_OFFSET, SB_OFFSET, USED_BLOCKS_OFFSET,
};
use unearth::source::Source;

/// Build a BeFS volume of `total` bytes with a superblock at 512 B.
fn befs_image(
    name: &str,
    block_size: u32,
    num_blocks: u64,
    big: bool,
    total: usize,
) -> Vec<u8> {
    let mut v = vec![0u8; total];
    let sb = SB_OFFSET as usize;
    let nb = name.as_bytes();
    v[sb + NAME_OFFSET..sb + NAME_OFFSET + nb.len()].copy_from_slice(nb);
    let (m1, m2, bs, n) = if big {
        (
            MAGIC1.to_be_bytes(),
            MAGIC2.to_be_bytes(),
            block_size.to_be_bytes(),
            num_blocks.to_be_bytes(),
        )
    } else {
        (
            MAGIC1.to_le_bytes(),
            MAGIC2.to_le_bytes(),
            block_size.to_le_bytes(),
            num_blocks.to_le_bytes(),
        )
    };
    v[sb + MAGIC1_OFFSET..sb + MAGIC1_OFFSET + 4].copy_from_slice(&m1);
    v[sb + MAGIC2_OFFSET..sb + MAGIC2_OFFSET + 4].copy_from_slice(&m2);
    v[sb + BLOCK_SIZE_OFFSET..sb + BLOCK_SIZE_OFFSET + 4].copy_from_slice(&bs);
    v[sb + NUM_BLOCKS_OFFSET..sb + NUM_BLOCKS_OFFSET + 8].copy_from_slice(&n);
    // Mark a quarter of the blocks used, for the free-space report.
    let used = num_blocks / 4;
    let u = if big {
        used.to_be_bytes()
    } else {
        used.to_le_bytes()
    };
    v[sb + USED_BLOCKS_OFFSET..sb + USED_BLOCKS_OFFSET + 8].copy_from_slice(&u);
    v
}

fn source_of(bytes: &[u8]) -> Source {
    Source::new(bytes.to_vec())
}

#[test]
fn detects_little_endian_with_name_and_size() {
    // 256 blocks of 1 KiB = 256 KiB.
    let src = source_of(&befs_image("Haiku", 1024, 256, false, 512 * 1024));
    assert!(is_befs(&src, 0));
    let v = Volume::parse(&src, 0).unwrap();
    assert_eq!(v.fs_label(), "BeFS");
    assert_eq!(v.label(), "Haiku");
    assert_eq!(v.size(), 256 * 1024);
    // 256 blocks, a quarter (64) used → 192 free blocks of 1 KiB.
    assert_eq!(v.free_bytes(), 192 * 1024);
}

#[test]
fn befs_detects_big_endian() {
    // The PowerPC byte order must be recognised too.
    let src = source_of(&befs_image("BeOS", 2048, 64, true, 512 * 1024));
    assert!(is_befs(&src, 0));
    let v = Volume::parse(&src, 0).unwrap();
    assert_eq!(v.label(), "BeOS");
    assert_eq!(v.size(), 64 * 2048);
}

#[test]
fn rejects_non_befs_and_bad_second_magic() {
    let src = source_of(&vec![0u8; 64 * 1024]);
    assert!(!is_befs(&src, 0));
    assert!(Volume::parse(&src, 0).is_err());

    // The first magic without the matching second magic is rejected.
    let mut v = befs_image("x", 1024, 16, false, 64 * 1024);
    let sb = SB_OFFSET as usize;
    v[sb + MAGIC2_OFFSET..sb + MAGIC2_OFFSET + 4].copy_from_slice(&0u32.to_le_bytes());
    let src = source_of(&v);
    assert!(!is_befs(&src, 0));
}

/// Both magics over a block size BeFS never uses is not a volume.
#[test]
fn rejects_magics_with_an_impossible_block_size() {
    for bs in [0u32, 1000, 512, 16384] {
        let src = source_of(&befs_image("x", bs, 16, false, 64 * 1024));
        assert!(!is_befs(&src, 0), "block size {bs}");
        assert!(Volume::parse(&src, 0).is_err(), "block size {bs}");
    }
}
