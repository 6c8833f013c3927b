use unearth::carver::archives::{applesingle_length, rpm_length, zim_length};
use unearth::carver::audio::{amr_length, ape_length, au_length, dsdiff_length, dsf_length, qoa_length, rf64_length, voc_length, wavpack_length};
use unearth::carver::data::{avro_length, e57_length, gguf_length, glb_length, grib2_length, hdf5_length, journal_length, las_length, mcap_length, nifti_length, npy_length, usdc_length};
use unearth::carver::extents::{file_length};
use unearth::carver::firmware::{android_sparse_length, bootimg_length, uimage_length, vendorboot_length};
use unearth::carver::fonts::{pcf_length};
use unearth::carver::games::{bsp_length, gameboy_length, genesis_length, godot_pck_length, md2_length, pak_length, psxexe_length, unityfs_length, vpk_length, wad_length};
use unearth::carver::generic::{find_subsequence};
use unearth::carver::images::{raf_length, sun_raster_length};
use unearth::carver::textures::{astc_length, blp_length, dds_length, exr_length, farbfeld_length, ktx1_length, ktx2_length, pvr_length, qoi_length};
use unearth::carver::video::{flic_length, ivf_length, y4m_length};
use unearth::carver::volumes::{apfs_length, befs_length, btrfs_length, cramfs_length, erofs_length, exfat_length, f2fs_length, hfsplus_length, iso9660_length, jfs_length, ntfs_length, refs_length, reiserfs_length, romfs_length, swap_length, ufs_length, xfs_length};
use unearth::signatures::{gameboy_logo, Extent, Signature};
use unearth::source::{Fault, Length, ReadError, Source};

/// A signature of files of a type, which start with `magic`.
fn signature(ext: &'static str, magic: &'static [u8], extent: Extent<'static>) -> Signature<'static> {
    Signature {
        name: ext,
        ext,
        magic,
        magic_offset: 0,
        secondary: None,
        extent,
        max_size: 1 << 32,
        volume: false,
    }
}

#[test]
fn finds_subsequence() {
    assert_eq!(find_subsequence(b"hello world", b"wor"), Some(6));
    assert_eq!(find_subsequence(b"hello", b"xyz"), None);
    assert_eq!(find_subsequence(b"abc", b""), None);
}

/// Build a Game Boy ROM image of `total` bytes with the size `code` at 0x148
/// and a correct header checksum.
fn gameboy_rom(code: u8, total: usize) -> Vec<u8> {
    let mut v = vec![0u8; total];
    v[0x104..0x134].copy_from_slice(&gameboy_logo());
    v[0x148] = code;
    // Header checksum over bytes 0x134..=0x14C.
    let mut checksum = 0u8;
    for &b in &v[0x134..=0x14C] {
        checksum = checksum.wrapping_sub(b).wrapping_sub(1);
    }
    v[0x14D] = checksum;
    v
}

fn source_of(bytes: &[u8]) -> Source {
    Source::new(bytes.to_vec())
}

#[test]
fn gameboy_length_reads_the_size_code() {
    // Code 0 → 32 KiB.
    let src = source_of(&gameboy_rom(0, 32 * 1024));
    assert_eq!(gameboy_length(&src, 0, src.size()).unwrap(), Some(32 * 1024));
    // Code 2 → 128 KiB.
    let src = source_of(&gameboy_rom(2, 128 * 1024));
    assert_eq!(gameboy_length(&src, 0, src.size()).unwrap(), Some(128 * 1024));
}

#[test]
fn gameboy_length_rejects_bad_checksum_logo_and_size() {
    // A corrupt header checksum is rejected even with a valid logo.
    let mut rom = gameboy_rom(0, 32 * 1024);
    rom[0x14D] ^= 0xFF;
    let src = source_of(&rom);
    assert_eq!(gameboy_length(&src, 0, src.size()).unwrap(), None);

    // A wrong logo is rejected.
    let mut rom = gameboy_rom(0, 32 * 1024);
    rom[0x104] ^= 0xFF;
    let src = source_of(&rom);
    assert_eq!(gameboy_length(&src, 0, src.size()).unwrap(), None);

    // An unofficial size code is rejected.
    let src = source_of(&gameboy_rom(0x52, 32 * 1024));
    assert_eq!(gameboy_length(&src, 0, src.size()).unwrap(), None);
}

/// Build a WAD image: header + lump data + directory at the end.
fn wad(magic: &[u8; 4], num_lumps: u32, lump_bytes: usize) -> Vec<u8> {
    let dir_offset = 12 + lump_bytes;
    let total = dir_offset + num_lumps as usize * 16;
    let mut v = vec![0u8; total];
    v[0..4].copy_from_slice(magic);
    v[4..8].copy_from_slice(&num_lumps.to_le_bytes());
    v[8..12].copy_from_slice(&(dir_offset as u32).to_le_bytes());
    v
}

#[test]
fn wad_length_uses_the_directory_offset_and_lump_count() {
    // PWAD with 3 lumps and 64 bytes of lump data: end = (12+64) + 3*16.
    let src = source_of(&wad(b"PWAD", 3, 64));
    assert_eq!(
        wad_length(&src, 0, src.size()).unwrap(),
        Some(12 + 64 + 3 * 16)
    );
    // IWAD with no lumps: end = 12 (directory at offset 12, empty).
    let src = source_of(&wad(b"IWAD", 0, 0));
    assert_eq!(wad_length(&src, 0, src.size()).unwrap(), Some(12));
}

#[test]
fn wad_length_rejects_bad_header() {
    // A non-WAD magic is rejected.
    let src = source_of(b"XWAD\0\0\0\0\x0c\0\0\0");
    assert_eq!(wad_length(&src, 0, src.size()).unwrap(), None);

    // A directory offset inside the header is rejected.
    let mut bytes = wad(b"IWAD", 1, 0);
    bytes[8..12].copy_from_slice(&4u32.to_le_bytes());
    let src = source_of(&bytes);
    assert_eq!(wad_length(&src, 0, src.size()).unwrap(), None);
}

/// Build a `.au` audio file: 24-byte header + `data_size` bytes of data.
fn au(data_offset: u32, data_size: u32, encoding: u32, total: usize) -> Vec<u8> {
    let mut v = vec![0u8; total];
    v[0..4].copy_from_slice(b".snd");
    v[4..8].copy_from_slice(&data_offset.to_be_bytes());
    v[8..12].copy_from_slice(&data_size.to_be_bytes());
    v[12..16].copy_from_slice(&encoding.to_be_bytes());
    v
}

#[test]
fn au_length_adds_data_offset_and_size() {
    // 24-byte header + 1000 bytes of 16-bit PCM (encoding 3).
    let src = source_of(&au(24, 1000, 3, 2048));
    assert_eq!(au_length(&src, 0, src.size()).unwrap(), Some(24 + 1000));
}

#[test]
fn au_length_rejects_unknown_size_and_bad_fields() {
    // An unknown (streamed) size cannot be carved.
    let src = source_of(&au(24, u32::MAX, 1, 2048));
    assert_eq!(au_length(&src, 0, src.size()).unwrap(), None);

    // A data offset inside the fixed header is rejected.
    let src = source_of(&au(8, 100, 1, 2048));
    assert_eq!(au_length(&src, 0, src.size()).unwrap(), None);

    // An unknown encoding code is rejected.
    let src = source_of(&au(24, 100, 99, 2048));
    assert_eq!(au_length(&src, 0, src.size()).unwrap(), None);
}

/// Build a Mega Drive ROM image with the `SEGA` header and an end address.
fn genesis(rom_start: u32, rom_end: u32, total: usize) -> Vec<u8> {
    let mut v = vec![0u8; total];
    v[0x100..0x104].copy_from_slice(b"SEGA");
    v[0x1A0..0x1A4].copy_from_slice(&rom_start.to_be_bytes());
    v[0x1A4..0x1A8].copy_from_slice(&rom_end.to_be_bytes());
    v
}

#[test]
fn genesis_length_uses_the_end_address() {
    // A 512 KiB ROM: end address 0x7FFFF → length 0x80000.
    let src = source_of(&genesis(0, 0x7FFFF, 512 * 1024));
    assert_eq!(genesis_length(&src, 0, src.size()).unwrap(), Some(0x80000));
}

#[test]
fn genesis_length_rejects_nonzero_start_and_bad_end() {
    // A non-zero start address is rejected (ROMs map from 0).
    let src = source_of(&genesis(0x100, 0x7FFFF, 512 * 1024));
    assert_eq!(genesis_length(&src, 0, src.size()).unwrap(), None);

    // An end address inside the header is rejected.
    let src = source_of(&genesis(0, 0x80, 512 * 1024));
    assert_eq!(genesis_length(&src, 0, src.size()).unwrap(), None);

    // A non-SEGA header is rejected.
    let src = source_of(&vec![0u8; 512 * 1024]);
    assert_eq!(genesis_length(&src, 0, src.size()).unwrap(), None);
}

/// Build a `.voc` file: 26-byte header, one data block, then a terminator.
fn voc(block_len: u32) -> Vec<u8> {
    let mut v = Vec::new();
    v.extend_from_slice(b"Creative Voice File\x1a");
    v.extend_from_slice(&0x1Au16.to_le_bytes()); // header size (offset 0x14)
    v.extend_from_slice(&0x010Au16.to_le_bytes()); // version 1.10
    v.extend_from_slice(&0x1129u16.to_le_bytes()); // version check
                                                   // Data block: type 1, 3-byte length, payload.
    v.push(1);
    let l = block_len.to_le_bytes();
    v.extend_from_slice(&l[0..3]);
    v.extend(std::iter::repeat(0u8).take(block_len as usize));
    // Terminator block.
    v.push(0);
    v
}

#[test]
fn voc_length_walks_the_block_chain() {
    let bytes = voc(10);
    let expected = bytes.len() as u64; // header + (4 + 10) + 1 terminator
    let src = source_of(&bytes);
    assert_eq!(voc_length(&src, 0, src.size()).unwrap(), Some(expected));
}

#[test]
fn voc_length_rejects_non_voc_and_missing_terminator() {
    let src = source_of(&vec![0u8; 4096]);
    assert_eq!(voc_length(&src, 0, src.size()).unwrap(), None);

    // A block whose length runs past the end with no terminator is rejected.
    let mut bytes = voc(10);
    bytes.pop(); // drop the terminator
    let src = source_of(&bytes);
    assert_eq!(voc_length(&src, 0, src.size()).unwrap(), None);
}

/// Build an AMR file: the magic followed by `count` frames of frame-type
/// `ft`, then `trailing` bytes of non-AMR data.
fn amr(ft: u8, frame_size: usize, count: usize, trailing: usize) -> Vec<u8> {
    let mut v = Vec::new();
    v.extend_from_slice(b"#!AMR\n");
    for _ in 0..count {
        v.push((ft << 3) & 0x7F); // ToC octet: frame-type bits, top bit clear
        v.extend(std::iter::repeat(0u8).take(frame_size - 1));
    }
    // Trailing bytes with the high bit set stop the frame walk.
    v.extend(std::iter::repeat(0xFFu8).take(trailing));
    v
}

#[test]
fn amr_length_walks_speech_frames() {
    // Frame type 7 (12.2 kbit/s) is 32 bytes; 5 frames then junk.
    let src = source_of(&amr(7, 32, 5, 16));
    assert_eq!(amr_length(&src, 0, src.size()).unwrap(), Some(6 + 5 * 32));
}

#[test]
fn amr_length_rejects_no_frames() {
    // The magic immediately followed by an invalid ToC octet (high bit set).
    let src = source_of(b"#!AMR\n\xff\xff");
    assert_eq!(amr_length(&src, 0, src.size()).unwrap(), None);
}

/// Build a PS-X EXE image: 2 KiB header (with text size at 0x1C) + text.
fn psxexe(text_size: u32) -> Vec<u8> {
    let total = 0x800 + text_size as usize;
    let mut v = vec![0u8; total];
    v[0..8].copy_from_slice(b"PS-X EXE");
    v[0x1C..0x20].copy_from_slice(&text_size.to_le_bytes());
    v
}

#[test]
fn psxexe_length_is_header_plus_text() {
    let src = source_of(&psxexe(0x4000));
    assert_eq!(
        psxexe_length(&src, 0, src.size()).unwrap(),
        Some(0x800 + 0x4000)
    );
}

#[test]
fn psxexe_length_rejects_unaligned_and_non_psx() {
    // A text size that is not a multiple of 0x800 is rejected.
    let src = source_of(&psxexe(0x1234));
    assert_eq!(psxexe_length(&src, 0, src.size()).unwrap(), None);

    // A non-PS-X header is rejected.
    let src = source_of(&vec![0u8; 0x1000]);
    assert_eq!(psxexe_length(&src, 0, src.size()).unwrap(), None);
}

/// Build an Android sparse image: a 28-byte file header plus `chunks`
/// chunks, each a 12-byte header recording the given on-disk `total_sz`.
fn android_sparse(chunks: &[u32]) -> Vec<u8> {
    let mut v = Vec::new();
    v.extend_from_slice(&[0x3a, 0xff, 0x26, 0xed]); // magic
    v.extend_from_slice(&1u16.to_le_bytes()); // major
    v.extend_from_slice(&0u16.to_le_bytes()); // minor
    v.extend_from_slice(&28u16.to_le_bytes()); // file_hdr_sz
    v.extend_from_slice(&12u16.to_le_bytes()); // chunk_hdr_sz
    v.extend_from_slice(&4096u32.to_le_bytes()); // blk_sz
    v.extend_from_slice(&0u32.to_le_bytes()); // total_blks
    v.extend_from_slice(&(chunks.len() as u32).to_le_bytes()); // total_chunks
    v.extend_from_slice(&0u32.to_le_bytes()); // checksum
    for &total_sz in chunks {
        v.extend_from_slice(&0xCAC1u16.to_le_bytes()); // raw chunk
        v.extend_from_slice(&0u16.to_le_bytes());
        v.extend_from_slice(&1u32.to_le_bytes()); // chunk_sz (blocks)
        v.extend_from_slice(&total_sz.to_le_bytes());
        // Pad out to total_sz (header included); saturating for the
        // intentionally-too-small case the rejection test uses.
        v.resize(v.len() + (total_sz as usize).saturating_sub(12), 0);
    }
    v
}

#[test]
fn android_sparse_length_sums_chunk_sizes() {
    // Two chunks of 100 and 200 on-disk bytes: 28 + 100 + 200.
    let bytes = android_sparse(&[100, 200]);
    let total = bytes.len() as u64;
    let src = source_of(&bytes);
    assert_eq!(
        android_sparse_length(&src, 0, src.size()).unwrap(),
        Some(total)
    );
    assert_eq!(total, 28 + 100 + 200);
}

#[test]
fn android_sparse_length_rejects_bad_header_and_overrun() {
    // Not a sparse image.
    let src = source_of(&vec![0u8; 4096]);
    assert_eq!(android_sparse_length(&src, 0, src.size()).unwrap(), None);

    // A chunk total_sz smaller than the chunk header is rejected.
    let bytes = android_sparse(&[8]);
    let src = source_of(&bytes);
    assert_eq!(android_sparse_length(&src, 0, src.size()).unwrap(), None);
}

/// Build a minimal ISO 9660 image of `blocks` × `block_size` bytes with a
/// primary volume descriptor at offset 0x8000.
fn iso9660_image(blocks: u32, block_size: u16) -> Vec<u8> {
    let total = blocks as usize * block_size as usize;
    let mut img = vec![0u8; total.max(0x8000 + 132)];
    let pvd = 0x8000;
    img[pvd] = 1; // descriptor type: primary
    img[pvd + 1..pvd + 6].copy_from_slice(b"CD001");
    img[pvd + 6] = 1; // version
    img[pvd + 80..pvd + 84].copy_from_slice(&blocks.to_le_bytes());
    img[pvd + 84..pvd + 88].copy_from_slice(&blocks.to_be_bytes());
    img[pvd + 128..pvd + 130].copy_from_slice(&block_size.to_le_bytes());
    img[pvd + 130..pvd + 132].copy_from_slice(&block_size.to_be_bytes());
    img
}

#[test]
fn iso9660_length_multiplies_blocks_by_block_size() {
    // 24 blocks × 2048 bytes = 48 KiB.
    let img = iso9660_image(24, 2048);
    let src = source_of(&img);
    assert_eq!(iso9660_length(&src, 0, src.size()).unwrap(), Some(24 * 2048));
}

#[test]
fn iso9660_length_rejects_bad_descriptor_and_mismatch() {
    // No PVD at all.
    let src = source_of(&vec![0u8; 0x8000 + 200]);
    assert_eq!(iso9660_length(&src, 0, src.size()).unwrap(), None);

    // Disagreeing both-endian volume-space halves are rejected.
    let mut img = iso9660_image(24, 2048);
    img[0x8000 + 84..0x8000 + 88].copy_from_slice(&99u32.to_be_bytes());
    let src = source_of(&img);
    assert_eq!(iso9660_length(&src, 0, src.size()).unwrap(), None);

    // A non-power-of-two block size is rejected.
    let img = iso9660_image(24, 2000);
    let src = source_of(&img);
    assert_eq!(iso9660_length(&src, 0, src.size()).unwrap(), None);
}

/// Build a FLIC animation of `size` bytes with the given format magic.
fn flic_anim(magic: u16, size: u32, depth: u16) -> Vec<u8> {
    let mut v = vec![0u8; (size as usize).max(128)];
    v[0..4].copy_from_slice(&size.to_le_bytes());
    v[4..6].copy_from_slice(&magic.to_le_bytes());
    v[6..8].copy_from_slice(&3u16.to_le_bytes()); // frames
    v[8..10].copy_from_slice(&320u16.to_le_bytes()); // width
    v[10..12].copy_from_slice(&200u16.to_le_bytes()); // height
    v[12..14].copy_from_slice(&depth.to_le_bytes());
    v
}

#[test]
fn flic_length_reads_the_header_size() {
    // FLI (0xAF11), depth 8.
    let src = source_of(&flic_anim(0xAF11, 4096, 8));
    assert_eq!(flic_length(&src, 0, src.size()).unwrap(), Some(4096));
    // FLC (0xAF12), depth 0 (legacy "means 8").
    let src = source_of(&flic_anim(0xAF12, 8192, 0));
    assert_eq!(flic_length(&src, 0, src.size()).unwrap(), Some(8192));
}

#[test]
fn flic_length_rejects_bad_magic_depth_and_overrun() {
    // Wrong magic.
    let src = source_of(&flic_anim(0x1234, 4096, 8));
    assert_eq!(flic_length(&src, 0, src.size()).unwrap(), None);
    // Implausible colour depth.
    let src = source_of(&flic_anim(0xAF11, 4096, 24));
    assert_eq!(flic_length(&src, 0, src.size()).unwrap(), None);
    // Size runs past the region.
    let anim = flic_anim(0xAF11, 4096, 8);
    let src = source_of(&anim[..2048]);
    assert_eq!(flic_length(&src, 0, src.size()).unwrap(), None);
}

#[test]
fn dpx_length_reads_total_file_size() {
    // Big-endian DPX ("SDPX"): total file size is a big-endian u32 at 0x10.
    let mut img = vec![0u8; 4096];
    img[0..4].copy_from_slice(b"SDPX");
    img[0x10..0x14].copy_from_slice(&4096u32.to_be_bytes());
    let src = source_of(&img);
    let sig = signature("dpx", b"SDPX", Extent::HeaderSizeBe32 { offset: 0x10 });
    assert_eq!(
        file_length(&src, &sig, 0, src.size()).unwrap(),
        Some(4096)
    );

    // Little-endian DPX ("XPDS"): total file size is a little-endian u32.
    let mut img = vec![0u8; 2048];
    img[0..4].copy_from_slice(b"XPDS");
    img[0x10..0x14].copy_from_slice(&2048u32.to_le_bytes());
    let src = source_of(&img);
    let sig = signature("dpx", b"XPDS", Extent::HeaderSizeLe32 { offset: 0x10 });
    assert_eq!(
        file_length(&src, &sig, 0, src.size()).unwrap(),
        Some(2048)
    );
}

#[test]
fn cineon_length_reads_total_file_size() {
    // Cineon: total file size is a big-endian u32 at offset 0x14.
    let mut img = vec![0u8; 4096];
    img[0..4].copy_from_slice(&[0x80, 0x2A, 0x5F, 0xD7]);
    img[0x14..0x18].copy_from_slice(&4096u32.to_be_bytes());
    let src = source_of(&img);
    let sig = signature(
        "cin",
        &[0x80, 0x2A, 0x5F, 0xD7],
        Extent::HeaderSizeBe32 { offset: 0x14 },
    );
    assert_eq!(
        file_length(&src, &sig, 0, src.size()).unwrap(),
        Some(4096)
    );
}

/// Build `count` WavPack blocks of `block_size` bytes each (>= 32),
/// followed by `trailing` bytes of non-WavPack data.
fn wavpack(count: usize, block_size: u32, trailing: usize) -> Vec<u8> {
    let mut v = Vec::new();
    for _ in 0..count {
        let mut blk = vec![0u8; block_size as usize];
        blk[0..4].copy_from_slice(b"wvpk");
        blk[4..8].copy_from_slice(&(block_size - 8).to_le_bytes());
        blk[8..10].copy_from_slice(&0x0410u16.to_le_bytes());
        v.extend_from_slice(&blk);
    }
    v.extend(std::iter::repeat(0xABu8).take(trailing));
    v
}

#[test]
fn mng_length_ends_at_mend_chunk() {
    let mut v = Vec::new();
    v.extend_from_slice(&[0x8A, 0x4D, 0x4E, 0x47, 0x0D, 0x0A, 0x1A, 0x0A]); // signature
                                                                            // An MHDR chunk: length(28) + "MHDR" + 28 zero bytes + a dummy CRC.
    v.extend_from_slice(&28u32.to_be_bytes());
    v.extend_from_slice(b"MHDR");
    v.extend(std::iter::repeat(0u8).take(28));
    v.extend_from_slice(&[0, 0, 0, 0]);
    // The terminating MEND chunk: length(0) + "MEND" + its constant CRC.
    v.extend_from_slice(&[0, 0, 0, 0]);
    v.extend_from_slice(b"MEND");
    v.extend_from_slice(&0x2120F7D5u32.to_be_bytes());
    let end = v.len() as u64;
    v.extend_from_slice(b"trailing bytes after the animation");
    let src = source_of(&v);
    let sig = signature(
        "mng",
        &[0x8A, 0x4D, 0x4E, 0x47],
        Extent::Footer {
            marker: b"\0\0\0\0MEND\x21\x20\xF7\xD5",
            trailing: 0,
        },
    );
    assert_eq!(
        file_length(&src, &sig, 0, src.size()).unwrap(),
        Some(end)
    );
}

#[test]
fn jng_length_ends_at_iend_chunk() {
    let mut v = Vec::new();
    v.extend_from_slice(&[0x8B, 0x4A, 0x4E, 0x47, 0x0D, 0x0A, 0x1A, 0x0A]); // signature
                                                                            // A JHDR chunk: length(16) + "JHDR" + 16 zero bytes + a dummy CRC.
    v.extend_from_slice(&16u32.to_be_bytes());
    v.extend_from_slice(b"JHDR");
    v.extend(std::iter::repeat(0u8).take(16));
    v.extend_from_slice(&[0, 0, 0, 0]);
    // The terminating IEND chunk: length(0) + "IEND" + its constant CRC.
    v.extend_from_slice(&[0, 0, 0, 0]);
    v.extend_from_slice(b"IEND");
    v.extend_from_slice(&0xAE426082u32.to_be_bytes());
    let end = v.len() as u64;
    v.extend_from_slice(b"trailing bytes after the image");
    let src = source_of(&v);
    let sig = signature(
        "jng",
        &[0x8B, 0x4A, 0x4E, 0x47],
        Extent::Footer {
            marker: b"\0\0\0\0IEND\xAE\x42\x60\x82",
            trailing: 0,
        },
    );
    assert_eq!(
        file_length(&src, &sig, 0, src.size()).unwrap(),
        Some(end)
    );
}

/// Build a block-compressed DDS texture with the given FourCC, dimensions,
/// and mip count; the total is the 128-byte header plus the mip chain.
fn dds(fourcc: &[u8], width: u32, height: u32, mips: u32) -> Vec<u8> {
    let block_bytes: u64 = match fourcc {
        b"DXT1" | b"ATI1" | b"BC4U" => 8,
        _ => 16,
    };
    let mut data = 0u64;
    for i in 0..mips.max(1) {
        let w = (width >> i).max(1) as u64;
        let hh = (height >> i).max(1) as u64;
        data += w.div_ceil(4) * hh.div_ceil(4) * block_bytes;
    }
    let total = 128 + data;
    let mut v = vec![0u8; total as usize];
    v[0..4].copy_from_slice(b"DDS ");
    v[4..8].copy_from_slice(&124u32.to_le_bytes());
    v[12..16].copy_from_slice(&height.to_le_bytes());
    v[16..20].copy_from_slice(&width.to_le_bytes());
    v[28..32].copy_from_slice(&mips.to_le_bytes());
    v[76..80].copy_from_slice(&32u32.to_le_bytes()); // ddspf.dwSize
    v[80..84].copy_from_slice(&0x4u32.to_le_bytes()); // DDPF_FOURCC
    v[84..88].copy_from_slice(fourcc);
    v
}

#[test]
fn dds_length_computes_compressed_mip_chain() {
    // DXT1 256x256 with a full mip chain (9 levels).
    let v = dds(b"DXT1", 256, 256, 9);
    let total = v.len() as u64;
    let src = source_of(&v);
    assert_eq!(dds_length(&src, 0, src.size()).unwrap(), Some(total));
    // DXT5 128x128, single level.
    let v = dds(b"DXT5", 128, 128, 1);
    let total = v.len() as u64;
    let src = source_of(&v);
    assert_eq!(dds_length(&src, 0, src.size()).unwrap(), Some(total));
}

#[test]
fn dds_length_rejects_bad_magic_and_dx10() {
    // Not a DDS texture.
    let src = source_of(&[0u8; 128]);
    assert_eq!(dds_length(&src, 0, src.size()).unwrap(), None);
    // A DX10-extended format needs the extra header; it is skipped here.
    let v = dds(b"DX10", 256, 256, 1);
    let src = source_of(&v);
    assert_eq!(dds_length(&src, 0, src.size()).unwrap(), None);
}

/// Build an ASTC file with the given block footprint and 2D dimensions.
fn astc(bx: u8, by: u8, x: u32, y: u32) -> Vec<u8> {
    let bxu = bx as u32;
    let byu = by as u32;
    let blocks = x.div_ceil(bxu) * y.div_ceil(byu);
    let mut v = vec![0u8; 16 + blocks as usize * 16];
    v[0..4].copy_from_slice(&0x5CA1_AB13u32.to_le_bytes());
    v[4] = bx;
    v[5] = by;
    v[6] = 1; // block_z
    v[7..10].copy_from_slice(&x.to_le_bytes()[0..3]);
    v[10..13].copy_from_slice(&y.to_le_bytes()[0..3]);
    v[13..16].copy_from_slice(&1u32.to_le_bytes()[0..3]); // z = 1
    v
}

#[test]
fn astc_length_computes_block_count() {
    // 256x256 with 4x4 blocks -> 64*64 = 4096 blocks.
    let v = astc(4, 4, 256, 256);
    assert_eq!(v.len() as u64, 16 + 4096 * 16);
    let src = source_of(&v);
    assert_eq!(
        astc_length(&src, 0, src.size()).unwrap(),
        Some(v.len() as u64)
    );
    // 100x100 with 6x6 blocks -> 17*17 = 289 blocks (ceil rounding).
    let v = astc(6, 6, 100, 100);
    assert_eq!(v.len() as u64, 16 + 289 * 16);
    let src = source_of(&v);
    assert_eq!(
        astc_length(&src, 0, src.size()).unwrap(),
        Some(v.len() as u64)
    );
}

#[test]
fn astc_length_rejects_bad_magic() {
    let src = source_of(&[0u8; 16]);
    assert_eq!(astc_length(&src, 0, src.size()).unwrap(), None);
    // Valid magic but a zero block footprint is invalid.
    let mut v = astc(4, 4, 64, 64);
    v[4] = 0;
    let src = source_of(&v);
    assert_eq!(astc_length(&src, 0, src.size()).unwrap(), None);
}

/// Build a GLB with a JSON chunk and an optional BIN chunk of the given
/// (already 4-byte-aligned) data lengths.
fn glb(json_len: u32, bin_len: Option<u32>) -> Vec<u8> {
    let mut chunks = Vec::new();
    chunks.extend_from_slice(&json_len.to_le_bytes());
    chunks.extend_from_slice(b"JSON");
    chunks.extend_from_slice(&vec![0x20u8; json_len as usize]); // spaces
    if let Some(bl) = bin_len {
        chunks.extend_from_slice(&bl.to_le_bytes());
        chunks.extend_from_slice(b"BIN\0");
        chunks.extend_from_slice(&vec![0u8; bl as usize]);
    }
    let total = 12 + chunks.len() as u32;
    let mut v = Vec::with_capacity(total as usize);
    v.extend_from_slice(b"glTF");
    v.extend_from_slice(&2u32.to_le_bytes());
    v.extend_from_slice(&total.to_le_bytes());
    v.extend_from_slice(&chunks);
    v
}

#[test]
fn glb_length_walks_chunks() {
    // JSON only.
    let v = glb(16, None);
    let src = source_of(&v);
    assert_eq!(glb_length(&src, 0, src.size()).unwrap(), Some(v.len() as u64));
    // JSON + BIN.
    let v = glb(24, Some(64));
    let src = source_of(&v);
    assert_eq!(glb_length(&src, 0, src.size()).unwrap(), Some(v.len() as u64));
}

#[test]
fn glb_length_rejects_bad_version_and_chunk_mismatch() {
    // Wrong version.
    let mut v = glb(16, None);
    v[4] = 1;
    let src = source_of(&v);
    assert_eq!(glb_length(&src, 0, src.size()).unwrap(), None);
    // Declared total larger than the chunks actually present.
    let mut v = glb(16, None);
    let bad = (v.len() as u32 + 4).to_le_bytes();
    v[8..12].copy_from_slice(&bad);
    let src = source_of(&v);
    assert_eq!(glb_length(&src, 0, src.size()).unwrap(), None);
    // First chunk is not JSON.
    let mut v = glb(16, None);
    v[16..20].copy_from_slice(b"BIN\0");
    let src = source_of(&v);
    assert_eq!(glb_length(&src, 0, src.size()).unwrap(), None);
}

/// Build an EROFS image of `blocks` blocks with the given `blkszbits`
/// (0 selects the default 4 KiB block size). The superblock magic, block
/// shift, and block count are written at their fixed superblock offsets.
fn erofs(blkszbits: u8, blocks: u32) -> Vec<u8> {
    let bits = if blkszbits == 0 { 12 } else { blkszbits as u32 };
    let total = (blocks as u64) << bits;
    let mut v = vec![0u8; total.max(1088) as usize];
    v[1024..1028].copy_from_slice(&0xE0F5_E1E2u32.to_le_bytes());
    v[1036] = blkszbits;
    v[1060..1064].copy_from_slice(&blocks.to_le_bytes());
    v
}

#[test]
fn erofs_length_uses_block_count() {
    // 2 blocks of 4 KiB (blkszbits = 12).
    let v = erofs(12, 2);
    let src = source_of(&v);
    assert_eq!(erofs_length(&src, 0, src.size()).unwrap(), Some(8192));
    // blkszbits == 0 selects the default 4 KiB block size.
    let v = erofs(0, 3);
    let src = source_of(&v);
    assert_eq!(erofs_length(&src, 0, src.size()).unwrap(), Some(12288));
}

#[test]
fn erofs_length_rejects_bad_magic_and_zero_blocks() {
    // No superblock magic.
    let z = vec![0u8; 1088];
    let src = source_of(&z);
    assert_eq!(erofs_length(&src, 0, src.size()).unwrap(), None);
    // Valid magic but zero blocks.
    let mut v = erofs(12, 4);
    v[1060..1064].copy_from_slice(&0u32.to_le_bytes());
    let src = source_of(&v);
    assert_eq!(erofs_length(&src, 0, src.size()).unwrap(), None);
}

/// Build a little-endian KTX v1 texture: a 64-byte header (non-array,
/// single-face, no key/value data) followed by `mip_levels` levels, each an
/// `imageSize` field plus its 4-byte-padded data from `level_sizes`.
fn ktx1(mip_levels: u32, level_sizes: &[u32]) -> Vec<u8> {
    let mut v = vec![0u8; 64];
    v[0..12].copy_from_slice(&[
        0xAB, 0x4B, 0x54, 0x58, 0x20, 0x31, 0x31, 0xBB, 0x0D, 0x0A, 0x1A, 0x0A,
    ]);
    v[12..16].copy_from_slice(&0x0403_0201u32.to_le_bytes()); // little-endian
    v[36..40].copy_from_slice(&1u32.to_le_bytes()); // pixelWidth
    v[52..56].copy_from_slice(&1u32.to_le_bytes()); // numberOfFaces
    v[56..60].copy_from_slice(&mip_levels.to_le_bytes());
    for &sz in level_sizes {
        v.extend_from_slice(&sz.to_le_bytes());
        v.extend_from_slice(&vec![0u8; (sz.div_ceil(4) * 4) as usize]);
    }
    v
}

#[test]
fn ktx1_length_walks_mip_levels() {
    // Three mip levels, sizes already 4-aligned.
    let v = ktx1(3, &[64, 16, 4]);
    let src = source_of(&v);
    assert_eq!(
        ktx1_length(&src, 0, src.size()).unwrap(),
        Some(v.len() as u64)
    );
    // A single level whose imageSize needs padding to a 4-byte boundary.
    let v = ktx1(1, &[10]);
    assert_eq!(v.len() as u64, 64 + 4 + 12);
    let src = source_of(&v);
    assert_eq!(
        ktx1_length(&src, 0, src.size()).unwrap(),
        Some(v.len() as u64)
    );
}

#[test]
fn ktx1_length_rejects_bad_magic_and_cubemap() {
    let z = vec![0u8; 64];
    let src = source_of(&z);
    assert_eq!(ktx1_length(&src, 0, src.size()).unwrap(), None);
    // Cubemap (numberOfFaces == 6) is skipped rather than mis-sized.
    let mut v = ktx1(1, &[16]);
    v[52..56].copy_from_slice(&6u32.to_le_bytes());
    let src = source_of(&v);
    assert_eq!(ktx1_length(&src, 0, src.size()).unwrap(), None);
}

/// Build a single-part scanline OpenEXR file with one chunk per entry in
/// `chunk_data_sizes`. The header carries one attribute; the chunk offset
/// table and the chunks (each a `y` coordinate, a `dataSize`, then data)
/// follow.
fn exr(chunk_data_sizes: &[u32]) -> Vec<u8> {
    let mut v = vec![0x76, 0x2F, 0x31, 0x01, 0x02, 0, 0, 0];
    // One attribute: name "compression", type "compression", 1-byte value.
    v.extend_from_slice(b"compression\0");
    v.extend_from_slice(b"compression\0");
    v.extend_from_slice(&1u32.to_le_bytes());
    v.push(0);
    v.push(0); // empty name terminates the header
    let header_end = v.len() as u64;
    let count = chunk_data_sizes.len() as u64;
    // Chunk i begins after the header and the whole offset table.
    let mut off = header_end + count * 8;
    let mut offsets = Vec::new();
    for &ds in chunk_data_sizes {
        offsets.push(off);
        off += 8 + ds as u64; // y(4) + dataSize(4) + data
    }
    for &o in &offsets {
        v.extend_from_slice(&o.to_le_bytes());
    }
    for &ds in chunk_data_sizes {
        v.extend_from_slice(&0u32.to_le_bytes()); // y coordinate
        v.extend_from_slice(&ds.to_le_bytes()); // dataSize
        v.extend_from_slice(&vec![0u8; ds as usize]);
    }
    v
}

#[test]
fn exr_length_walks_offset_table() {
    // Three scanline chunks.
    let v = exr(&[32, 16, 8]);
    let src = source_of(&v);
    assert_eq!(
        exr_length(&src, 0, src.size()).unwrap(),
        Some(v.len() as u64)
    );
    // A single chunk.
    let v = exr(&[100]);
    let src = source_of(&v);
    assert_eq!(
        exr_length(&src, 0, src.size()).unwrap(),
        Some(v.len() as u64)
    );
}

#[test]
fn exr_length_rejects_bad_magic_and_multipart() {
    let z = vec![0u8; 32];
    let src = source_of(&z);
    assert_eq!(
        exr_length(&src, 0, src.size()).unwrap(),
        None
    );
    // The multi-part flag (0x1000) selects a different chunk layout: skip.
    let mut v = exr(&[16]);
    v[5] |= 0x10;
    let src = source_of(&v);
    assert_eq!(
        exr_length(&src, 0, src.size()).unwrap(),
        None
    );
}

const MCAP_MAGIC: [u8; 8] = [0x89, 0x4D, 0x43, 0x41, 0x50, 0x30, 0x0D, 0x0A];

/// Build an MCAP file: the 8-byte magic, one record per `(opcode, payload
/// length)` spec, then the 8-byte trailing magic.
fn mcap(records: &[(u8, usize)]) -> Vec<u8> {
    let mut v = Vec::new();
    v.extend_from_slice(&MCAP_MAGIC);
    for &(op, len) in records {
        v.push(op);
        v.extend_from_slice(&(len as u64).to_le_bytes());
        v.extend_from_slice(&vec![0u8; len]);
    }
    v.extend_from_slice(&MCAP_MAGIC);
    v
}

#[test]
fn mcap_length_walks_records_to_footer() {
    // Header (0x01), a message (0x05), then the footer (0x02, 20-byte payload).
    let v = mcap(&[(0x01, 5), (0x05, 30), (0x02, 20)]);
    let src = source_of(&v);
    assert_eq!(
        mcap_length(&src, 0, src.size()).unwrap(),
        Some(v.len() as u64)
    );
}

#[test]
fn mcap_length_rejects_zero_opcode_and_missing_footer() {
    // A zero opcode at the first record is invalid.
    let z = vec![0u8; 40];
    let src = source_of(&z);
    assert_eq!(mcap_length(&src, 0, src.size()).unwrap(), None);
    // No footer record: the walk runs into the trailing magic and stops.
    let v = mcap(&[(0x01, 10)]);
    let src = source_of(&v);
    assert_eq!(mcap_length(&src, 0, src.size()).unwrap(), None);
}

/// Build a Source BSP map with the given version and `(offset, length)`
/// lumps written into the 64-entry directory. The buffer is sized to the
/// furthest lump end.
fn bsp(version: i32, lumps: &[(u32, u32)]) -> Vec<u8> {
    let mut total = 1036u32;
    for &(ofs, len) in lumps {
        total = total.max(ofs + len);
    }
    let mut v = vec![0u8; total as usize];
    v[0..4].copy_from_slice(b"VBSP");
    v[4..8].copy_from_slice(&version.to_le_bytes());
    for (i, &(ofs, len)) in lumps.iter().enumerate() {
        let base = 8 + i * 16;
        v[base..base + 4].copy_from_slice(&ofs.to_le_bytes());
        v[base + 4..base + 8].copy_from_slice(&len.to_le_bytes());
    }
    v
}

#[test]
fn bsp_length_uses_furthest_lump_end() {
    let v = bsp(21, &[(1036, 100), (1136, 50)]);
    assert_eq!(v.len() as u64, 1186);
    let src = source_of(&v);
    assert_eq!(bsp_length(&src, 0, src.size()).unwrap(), Some(1186));
}

#[test]
fn bsp_length_rejects_bad_magic_and_version() {
    let z = vec![0u8; 1036];
    let src = source_of(&z);
    assert_eq!(bsp_length(&src, 0, src.size()).unwrap(), None);
    // A version outside the Source range is rejected.
    let mut v = bsp(21, &[(1036, 100)]);
    v[4..8].copy_from_slice(&5i32.to_le_bytes());
    let src = source_of(&v);
    assert_eq!(bsp_length(&src, 0, src.size()).unwrap(), None);
}

/// Build a QOI image (4-channel) whose pixel data is `ops` (each a complete
/// chunk), followed by the 8-byte end marker.
fn qoi(width: u32, height: u32, ops: &[u8]) -> Vec<u8> {
    let mut v = Vec::new();
    v.extend_from_slice(b"qoif");
    v.extend_from_slice(&width.to_be_bytes());
    v.extend_from_slice(&height.to_be_bytes());
    v.push(4); // channels
    v.push(0); // colourspace
    v.extend_from_slice(ops);
    v.extend_from_slice(&[0, 0, 0, 0, 0, 0, 0, 1]); // end marker
    v
}

#[test]
fn qoi_length_decodes_chunk_stream() {
    // 2x2 image as four QOI_OP_RGB chunks (4 bytes each).
    let mut ops = Vec::new();
    for _ in 0..4 {
        ops.extend_from_slice(&[0xFE, 1, 2, 3]);
    }
    let v = qoi(2, 2, &ops);
    assert_eq!(v.len() as u64, 14 + 16 + 8);
    let src = source_of(&v);
    assert_eq!(
        qoi_length(&src, 0, src.size()).unwrap(),
        Some(v.len() as u64)
    );
    // 10x1 image as one RGB chunk plus a QOI_OP_RUN of 9 pixels.
    let ops = [0xFE, 4, 5, 6, 0xC0 | 8];
    let v = qoi(10, 1, &ops);
    let src = source_of(&v);
    assert_eq!(
        qoi_length(&src, 0, src.size()).unwrap(),
        Some(v.len() as u64)
    );
}

#[test]
fn qoi_length_spans_the_sliding_window() {
    // 20000 single RGB pixels (~80 KB of data) forces a window refill.
    let mut ops = Vec::new();
    for _ in 0..20_000 {
        ops.extend_from_slice(&[0xFE, 0, 0, 0]);
    }
    let v = qoi(20_000, 1, &ops);
    assert!(v.len() > 64 * 1024);
    let src = source_of(&v);
    assert_eq!(
        qoi_length(&src, 0, src.size()).unwrap(),
        Some(v.len() as u64)
    );
}

#[test]
fn qoi_length_rejects_bad_magic_and_marker() {
    let src = source_of(&[0u8; 14]);
    assert_eq!(
        qoi_length(&src, 0, src.size()).unwrap(),
        None
    );
    // Correct pixel count but a corrupted end marker.
    let mut ops = Vec::new();
    for _ in 0..4 {
        ops.extend_from_slice(&[0xFE, 1, 2, 3]);
    }
    let mut v = qoi(2, 2, &ops);
    *v.last_mut().unwrap() = 0;
    let src = source_of(&v);
    assert_eq!(
        qoi_length(&src, 0, src.size()).unwrap(),
        None
    );
}

/// Build an RPM package: a 96-byte lead, a signature header carrying a
/// single `RPMSIGTAG_SIZE` (tag 1000) entry whose value is `size_val`, then
/// `size_val` bytes standing in for the main header and payload. The
/// signature header is padded to an 8-byte boundary.
fn rpm(tag: u32, size_val: u32) -> Vec<u8> {
    let mut v = vec![0u8; 96];
    v[0..4].copy_from_slice(&[0xED, 0xAB, 0xEE, 0xDB]);
    let mut sig = Vec::new();
    sig.extend_from_slice(&[0x8E, 0xAD, 0xE8, 0x01, 0, 0, 0, 0]);
    sig.extend_from_slice(&1u32.to_be_bytes()); // nindex
    sig.extend_from_slice(&4u32.to_be_bytes()); // hsize (one INT32 value)
    sig.extend_from_slice(&tag.to_be_bytes()); // tag
    sig.extend_from_slice(&4u32.to_be_bytes()); // type INT32
    sig.extend_from_slice(&0u32.to_be_bytes()); // offset
    sig.extend_from_slice(&1u32.to_be_bytes()); // count
    sig.extend_from_slice(&size_val.to_be_bytes()); // data store
    while sig.len() % 8 != 0 {
        sig.push(0);
    }
    v.extend_from_slice(&sig);
    v.extend_from_slice(&vec![0u8; size_val as usize]);
    v
}

#[test]
fn rpm_length_uses_signature_size() {
    // sig header = 16 intro + 16 index + 4 data = 36, padded to 40.
    let v = rpm(1000, 100);
    assert_eq!(v.len() as u64, 96 + 40 + 100);
    let src = source_of(&v);
    assert_eq!(
        rpm_length(&src, 0, src.size()).unwrap(),
        Some(96 + 40 + 100)
    );
}

#[test]
fn rpm_length_rejects_bad_magic_and_missing_size_tag() {
    let src = source_of(&[0u8; 128]);
    assert_eq!(
        rpm_length(&src, 0, src.size()).unwrap(),
        None
    );
    // A signature header without the size tag cannot be sized.
    let v = rpm(1234, 100);
    let src = source_of(&v);
    assert_eq!(
        rpm_length(&src, 0, src.size()).unwrap(),
        None
    );
}

/// Build a farbfeld image of the given dimensions (header plus 8 bytes per
/// pixel).
fn farbfeld(width: u32, height: u32) -> Vec<u8> {
    let mut v = Vec::new();
    v.extend_from_slice(b"farbfeld");
    v.extend_from_slice(&width.to_be_bytes());
    v.extend_from_slice(&height.to_be_bytes());
    v.extend_from_slice(&vec![0u8; (width as usize) * (height as usize) * 8]);
    v
}

#[test]
fn farbfeld_length_computes_pixel_data() {
    let v = farbfeld(4, 3);
    assert_eq!(v.len() as u64, 16 + 4 * 3 * 8);
    let src = source_of(&v);
    assert_eq!(
        farbfeld_length(&src, 0, src.size()).unwrap(),
        Some(v.len() as u64)
    );
}

#[test]
fn farbfeld_length_rejects_bad_magic_and_zero_dims() {
    let src = source_of(&[0u8; 16]);
    assert_eq!(farbfeld_length(&src, 0, src.size()).unwrap(), None);
    // Valid magic but a zero dimension is invalid.
    let mut v = farbfeld(2, 2);
    v[12..16].copy_from_slice(&0u32.to_be_bytes());
    let src = source_of(&v);
    assert_eq!(farbfeld_length(&src, 0, src.size()).unwrap(), None);
}

/// Build a YUV4MPEG2 stream: `header_params` follows the magic, then
/// `frames` frames of a plain `FRAME\n` line plus `frame_size` data bytes.
fn y4m(header_params: &str, frames: usize, frame_size: usize) -> Vec<u8> {
    let mut v = Vec::new();
    v.extend_from_slice(b"YUV4MPEG2");
    v.extend_from_slice(header_params.as_bytes());
    v.push(b'\n');
    for _ in 0..frames {
        v.extend_from_slice(b"FRAME\n");
        v.extend_from_slice(&vec![0u8; frame_size]);
    }
    v
}

#[test]
fn y4m_length_walks_frames() {
    // 4x4 4:2:0 → 16 (Y) + 2*(2*2) (U,V) = 24 bytes per frame, two frames.
    let v = y4m(" W4 H4 F25:1 C420", 2, 24);
    let src = source_of(&v);
    assert_eq!(y4m_length(&src, 0, src.size()).unwrap(), Some(v.len() as u64));
    // A FRAME line carrying parameters must still be measured correctly.
    let mut w = Vec::new();
    w.extend_from_slice(b"YUV4MPEG2 W2 H2 C420\n");
    w.extend_from_slice(b"FRAME Xhello\n");
    w.extend_from_slice(&[0u8; 6]); // 2x2 4:2:0 = 4 + 2*(1*1)
    let src = source_of(&w);
    assert_eq!(y4m_length(&src, 0, src.size()).unwrap(), Some(w.len() as u64));
}

#[test]
fn y4m_length_rejects_bad_magic_and_high_bit_depth() {
    let src = source_of(&[0u8; 32]);
    assert_eq!(y4m_length(&src, 0, src.size()).unwrap(), None);
    // A 10-bit colourspace is not handled and must be skipped.
    let v = y4m(" W4 H4 C420p10", 1, 48);
    let src = source_of(&v);
    assert_eq!(y4m_length(&src, 0, src.size()).unwrap(), None);
}

/// Build a PVR v3 2D texture with the given pixel-format enum, dimensions,
/// mip count, and metadata length; the block-compressed mip chain is sized
/// to match `pvr_length`.
fn pvr(pf_lo: u32, width: u32, height: u32, mipmaps: u32, meta_len: usize) -> Vec<u8> {
    let block: u64 = match pf_lo {
        6 | 7 | 12 | 22 | 24 | 25 => 8,
        _ => 16,
    };
    let mut data = 0u64;
    for i in 0..mipmaps {
        let mw = ((width >> i) as u64).max(1);
        let mh = ((height >> i) as u64).max(1);
        data += mw.div_ceil(4) * mh.div_ceil(4) * block;
    }
    let mut v = vec![0u8; 52];
    v[0..4].copy_from_slice(&0x0352_5650u32.to_le_bytes());
    v[8..12].copy_from_slice(&pf_lo.to_le_bytes());
    v[24..28].copy_from_slice(&height.to_le_bytes());
    v[28..32].copy_from_slice(&width.to_le_bytes());
    v[32..36].copy_from_slice(&1u32.to_le_bytes()); // depth
    v[36..40].copy_from_slice(&1u32.to_le_bytes()); // numSurfaces
    v[40..44].copy_from_slice(&1u32.to_le_bytes()); // numFaces
    v[44..48].copy_from_slice(&mipmaps.to_le_bytes());
    v[48..52].copy_from_slice(&(meta_len as u32).to_le_bytes());
    v.extend_from_slice(&vec![0u8; meta_len]);
    v.extend_from_slice(&vec![0u8; data as usize]);
    v
}

#[test]
fn pvr_length_computes_block_mip_chain() {
    // BC1 (8-byte blocks), 8x8, single level: 2*2*8 = 32 bytes of data.
    let v = pvr(7, 8, 8, 1, 0);
    assert_eq!(v.len() as u64, 52 + 32);
    let src = source_of(&v);
    assert_eq!(pvr_length(&src, 0, src.size()).unwrap(), Some(v.len() as u64));
    // BC3 (16-byte blocks), full mip chain, plus a metadata block.
    let v = pvr(11, 8, 8, 4, 12);
    let src = source_of(&v);
    assert_eq!(pvr_length(&src, 0, src.size()).unwrap(), Some(v.len() as u64));
}

#[test]
fn pvr_length_rejects_bad_magic_and_unsupported() {
    let src = source_of(&[0u8; 52]);
    assert_eq!(pvr_length(&src, 0, src.size()).unwrap(), None);
    // A cubemap (numFaces == 6) is skipped rather than mis-sized.
    let mut v = pvr(7, 8, 8, 1, 0);
    v[40..44].copy_from_slice(&6u32.to_le_bytes());
    let src = source_of(&v);
    assert_eq!(pvr_length(&src, 0, src.size()).unwrap(), None);
    // An uncompressed (channel-encoded) format has a non-zero high word.
    let mut v = pvr(7, 8, 8, 1, 0);
    v[12..16].copy_from_slice(&1u32.to_le_bytes());
    let src = source_of(&v);
    assert_eq!(pvr_length(&src, 0, src.size()).unwrap(), None);
}

/// Build a BLP2 texture with the given dimensions and `(offset, length)`
/// mipmap directory entries; the buffer is sized to the furthest mip end.
fn blp(width: u32, height: u32, mips: &[(u32, u32)]) -> Vec<u8> {
    let mut total = 0x94u32;
    for &(o, l) in mips {
        if l > 0 {
            total = total.max(o + l);
        }
    }
    let mut v = vec![0u8; total as usize];
    v[0..4].copy_from_slice(b"BLP2");
    v[12..16].copy_from_slice(&width.to_le_bytes());
    v[16..20].copy_from_slice(&height.to_le_bytes());
    for (i, &(o, l)) in mips.iter().enumerate() {
        v[0x14 + i * 4..0x18 + i * 4].copy_from_slice(&o.to_le_bytes());
        v[0x54 + i * 4..0x58 + i * 4].copy_from_slice(&l.to_le_bytes());
    }
    v
}

#[test]
fn blp_length_uses_furthest_mip_end() {
    let v = blp(64, 64, &[(148, 4096), (4244, 1024)]);
    assert_eq!(v.len() as u64, 5268);
    let src = source_of(&v);
    assert_eq!(blp_length(&src, 0, src.size()).unwrap(), Some(5268));
}

#[test]
fn blp_length_rejects_bad_magic_and_empty_directory() {
    let src = source_of(&[0u8; 0x94]);
    assert_eq!(blp_length(&src, 0, src.size()).unwrap(), None);
    // Valid magic and dimensions but no mipmaps at all.
    let v = blp(64, 64, &[]);
    let src = source_of(&v);
    assert_eq!(blp_length(&src, 0, src.size()).unwrap(), None);
}

/// Build a single GRIB2 message of the given total length: the `GRIB` magic,
/// edition byte 2, a big-endian `u64` length, and a trailing `7777` marker.
fn grib2_msg(len: u64) -> Vec<u8> {
    let mut m = vec![0u8; len as usize];
    m[0..4].copy_from_slice(b"GRIB");
    m[7] = 2; // edition
    m[8..16].copy_from_slice(&len.to_be_bytes());
    let n = len as usize;
    m[n - 4..n].copy_from_slice(b"7777");
    m
}

#[test]
fn grib2_length_walks_messages() {
    // Two concatenated messages of 32 and 48 bytes.
    let mut v = grib2_msg(32);
    v.extend(grib2_msg(48));
    let src = source_of(&v);
    assert_eq!(grib2_length(&src, 0, src.size()).unwrap(), Some(80));
}

#[test]
fn grib2_length_rejects_bad_magic_and_missing_end_marker() {
    let src = source_of(&[0u8; 16]);
    assert_eq!(grib2_length(&src, 0, src.size()).unwrap(), None);
    // A message whose trailing "7777" is corrupt is not counted.
    let mut v = grib2_msg(32);
    v[28..32].copy_from_slice(b"XXXX");
    let src = source_of(&v);
    assert_eq!(grib2_length(&src, 0, src.size()).unwrap(), None);
}

/// Build an F2FS image: superblock at offset 1024 with the given block-size
/// shift and block count.
fn f2fs(log_blocksize: u32, block_count: u64) -> Vec<u8> {
    let total = block_count << log_blocksize;
    let mut v = vec![0u8; total.max(1072) as usize];
    v[1024..1028].copy_from_slice(&0xF2F5_2010u32.to_le_bytes());
    v[1024 + 0x10..1024 + 0x14].copy_from_slice(&log_blocksize.to_le_bytes());
    v[1024 + 0x24..1024 + 0x2C].copy_from_slice(&block_count.to_le_bytes());
    v
}

#[test]
fn f2fs_length_uses_block_count() {
    // 4 KiB blocks (log 12), 512 blocks => 2 MiB.
    let v = f2fs(12, 512);
    let src = source_of(&v);
    assert_eq!(f2fs_length(&src, 0, src.size()).unwrap(), Some(512 * 4096));
}

#[test]
fn f2fs_length_rejects_bad_magic_and_geometry() {
    let z = vec![0u8; 1072];
    let src = source_of(&z);
    assert_eq!(f2fs_length(&src, 0, src.size()).unwrap(), None);
    // Magic present but zero blocks.
    let mut v = f2fs(12, 4);
    v[1024 + 0x24..1024 + 0x2C].copy_from_slice(&0u64.to_le_bytes());
    let src = source_of(&v);
    assert_eq!(f2fs_length(&src, 0, src.size()).unwrap(), None);
}

/// Build a single-device btrfs image whose superblock (64 KiB in) reports
/// the given `total_bytes`.
fn btrfs(total_bytes: u64) -> Vec<u8> {
    let mut v = vec![0u8; total_bytes.max(0x1_0100) as usize];
    let sb = 0x1_0000usize;
    v[sb + 64..sb + 72].copy_from_slice(b"_BHRfS_M");
    v[sb + 112..sb + 120].copy_from_slice(&total_bytes.to_le_bytes());
    v[sb + 136..sb + 144].copy_from_slice(&1u64.to_le_bytes()); // num_devices
    v[sb + 144..sb + 148].copy_from_slice(&4096u32.to_le_bytes()); // sectorsize
    v[sb + 148..sb + 152].copy_from_slice(&16384u32.to_le_bytes()); // nodesize
    v
}

#[test]
fn btrfs_length_uses_total_bytes() {
    let v = btrfs(0x40000); // 256 KiB
    let src = source_of(&v);
    assert_eq!(btrfs_length(&src, 0, src.size()).unwrap(), Some(0x40000));
}

#[test]
fn btrfs_length_rejects_bad_magic_and_multi_device() {
    let z = vec![0u8; 0x1_0100];
    let src = source_of(&z);
    assert_eq!(btrfs_length(&src, 0, src.size()).unwrap(), None);
    // Multi-device filesystems are skipped rather than over-sized.
    let mut v = btrfs(0x40000);
    v[0x1_0000 + 136..0x1_0000 + 144].copy_from_slice(&2u64.to_le_bytes());
    let src = source_of(&v);
    assert_eq!(btrfs_length(&src, 0, src.size()).unwrap(), None);
}

/// Build an XFS image whose superblock reports the given block size and
/// total data-block count (both big-endian).
fn xfs(blocksize: u32, dblocks: u64) -> Vec<u8> {
    let total = (dblocks * blocksize as u64).max(16);
    let mut v = vec![0u8; total as usize];
    v[0..4].copy_from_slice(b"XFSB");
    v[4..8].copy_from_slice(&blocksize.to_be_bytes());
    v[8..16].copy_from_slice(&dblocks.to_be_bytes());
    v
}

#[test]
fn xfs_length_uses_block_count() {
    let v = xfs(4096, 64); // 256 KiB
    let src = source_of(&v);
    assert_eq!(xfs_length(&src, 0, src.size()).unwrap(), Some(0x40000));
}

#[test]
fn xfs_length_rejects_bad_magic_and_block_size() {
    let src = source_of(&[0u8; 16]);
    assert_eq!(xfs_length(&src, 0, src.size()).unwrap(), None);
    // A non-power-of-two block size is rejected.
    let mut v = xfs(4096, 64);
    v[4..8].copy_from_slice(&4095u32.to_be_bytes());
    let src = source_of(&v);
    assert_eq!(xfs_length(&src, 0, src.size()).unwrap(), None);
}

/// Build an exFAT image whose boot sector reports the given volume length
/// (in sectors) and sector/cluster shifts.
fn exfat(volume_length: u64, bps_shift: u8, spc_shift: u8) -> Vec<u8> {
    let total = (volume_length << bps_shift).max(128);
    let mut v = vec![0u8; total as usize];
    v[3..11].copy_from_slice(b"EXFAT   ");
    v[72..80].copy_from_slice(&volume_length.to_le_bytes());
    v[108] = bps_shift;
    v[109] = spc_shift;
    v
}

#[test]
fn exfat_length_uses_volume_length() {
    // 512-byte sectors (shift 9), 512 sectors => 256 KiB.
    let v = exfat(512, 9, 3);
    let src = source_of(&v);
    assert_eq!(exfat_length(&src, 0, src.size()).unwrap(), Some(512 << 9));
}

#[test]
fn exfat_length_rejects_bad_magic_and_shift() {
    let src = source_of(&[0u8; 128]);
    assert_eq!(exfat_length(&src, 0, src.size()).unwrap(), None);
    // An out-of-range bytes-per-sector shift is rejected.
    let mut v = exfat(512, 9, 3);
    v[108] = 20;
    let src = source_of(&v);
    assert_eq!(exfat_length(&src, 0, src.size()).unwrap(), None);
}

/// Build an APFS container image whose superblock reports the given block
/// size and block count.
fn apfs(block_size: u32, block_count: u64) -> Vec<u8> {
    let total = (block_count * block_size as u64).max(48);
    let mut v = vec![0u8; total as usize];
    v[32..36].copy_from_slice(b"NXSB");
    v[36..40].copy_from_slice(&block_size.to_le_bytes());
    v[40..48].copy_from_slice(&block_count.to_le_bytes());
    v
}

#[test]
fn apfs_length_uses_block_count() {
    let v = apfs(4096, 64); // 256 KiB
    let src = source_of(&v);
    assert_eq!(apfs_length(&src, 0, src.size()).unwrap(), Some(0x40000));
}

#[test]
fn apfs_length_rejects_bad_magic_and_block_size() {
    let src = source_of(&[0u8; 48]);
    assert_eq!(apfs_length(&src, 0, src.size()).unwrap(), None);
    // A non-power-of-two block size is rejected.
    let mut v = apfs(4096, 64);
    v[36..40].copy_from_slice(&4095u32.to_le_bytes());
    let src = source_of(&v);
    assert_eq!(apfs_length(&src, 0, src.size()).unwrap(), None);
}

/// Build a ReFS image whose boot record reports the given sector count and
/// bytes-per-sector.
fn refs(num_sectors: u64, bytes_per_sector: u32) -> Vec<u8> {
    let total = (num_sectors * bytes_per_sector as u64).max(0x28);
    let mut v = vec![0u8; total as usize];
    v[3..7].copy_from_slice(b"ReFS");
    v[0x10..0x14].copy_from_slice(b"FSRS");
    v[0x18..0x20].copy_from_slice(&num_sectors.to_le_bytes());
    v[0x20..0x24].copy_from_slice(&bytes_per_sector.to_le_bytes());
    v
}

#[test]
fn refs_length_uses_sector_count() {
    // 512-byte sectors, 512 sectors => 256 KiB.
    let v = refs(512, 512);
    let src = source_of(&v);
    assert_eq!(refs_length(&src, 0, src.size()).unwrap(), Some(512 * 512));
}

#[test]
fn refs_length_rejects_missing_second_signature() {
    let src = source_of(&[0u8; 0x28]);
    assert_eq!(refs_length(&src, 0, src.size()).unwrap(), None);
    // "ReFS" present but the "FSRS" structure identifier is absent.
    let mut v = refs(512, 512);
    v[0x10..0x14].copy_from_slice(b"XXXX");
    let src = source_of(&v);
    assert_eq!(refs_length(&src, 0, src.size()).unwrap(), None);
}

/// Build an NTFS image whose boot sector reports the given bytes-per-sector
/// and total-sectors count.
fn ntfs(bytes_per_sector: u16, total_sectors: u64) -> Vec<u8> {
    let total = (total_sectors * bytes_per_sector as u64).max(48);
    let mut v = vec![0u8; total as usize];
    v[3..11].copy_from_slice(b"NTFS    ");
    v[11..13].copy_from_slice(&bytes_per_sector.to_le_bytes());
    v[40..48].copy_from_slice(&total_sectors.to_le_bytes());
    v
}

#[test]
fn ntfs_length_uses_total_sectors() {
    // 512-byte sectors, 512 sectors => 256 KiB.
    let v = ntfs(512, 512);
    let src = source_of(&v);
    assert_eq!(ntfs_length(&src, 0, src.size()).unwrap(), Some(512 * 512));
}

#[test]
fn ntfs_length_rejects_bad_magic_and_sector_size() {
    let src = source_of(&[0u8; 48]);
    assert_eq!(ntfs_length(&src, 0, src.size()).unwrap(), None);
    // A non-power-of-two sector size is rejected.
    let mut v = ntfs(512, 512);
    v[11..13].copy_from_slice(&513u16.to_le_bytes());
    let src = source_of(&v);
    assert_eq!(ntfs_length(&src, 0, src.size()).unwrap(), None);
}

/// Build a 4 KiB-page Linux swap area with the given `last_page` index.
fn swap(last_page: u32) -> Vec<u8> {
    let total = ((last_page as u64 + 1) * 4096).max(4096);
    let mut v = vec![0u8; total as usize];
    v[1024..1028].copy_from_slice(&1u32.to_le_bytes()); // version
    v[1028..1032].copy_from_slice(&last_page.to_le_bytes());
    v[4086..4096].copy_from_slice(b"SWAPSPACE2");
    v
}

#[test]
fn swap_length_uses_last_page() {
    // last_page 63 => 64 pages => 256 KiB.
    let v = swap(63);
    let src = source_of(&v);
    assert_eq!(swap_length(&src, 0, src.size()).unwrap(), Some(64 * 4096));
}

#[test]
fn swap_length_rejects_missing_magic_and_bad_version() {
    let src = source_of(&[0u8; 4096]);
    assert_eq!(swap_length(&src, 0, src.size()).unwrap(), None);
    // Magic present but a version other than 1 (e.g. a truncated/older area).
    let mut v = swap(63);
    v[1024..1028].copy_from_slice(&2u32.to_le_bytes());
    let src = source_of(&v);
    assert_eq!(swap_length(&src, 0, src.size()).unwrap(), None);
}

/// Build a romfs image whose header reports the given full size (big-endian).
fn romfs(size: u32) -> Vec<u8> {
    let mut v = vec![0u8; (size as usize).max(16)];
    v[0..8].copy_from_slice(b"-rom1fs-");
    v[8..12].copy_from_slice(&size.to_be_bytes());
    v
}

#[test]
fn romfs_length_uses_full_size() {
    let v = romfs(4096);
    let src = source_of(&v);
    assert_eq!(romfs_length(&src, 0, src.size()).unwrap(), Some(4096));
}

#[test]
fn romfs_length_rejects_bad_magic_and_tiny_size() {
    let src = source_of(&[0u8; 12]);
    assert_eq!(romfs_length(&src, 0, src.size()).unwrap(), None);
    // Valid magic but a size smaller than the header is invalid.
    let mut v = romfs(4096);
    v[8..12].copy_from_slice(&8u32.to_be_bytes());
    let src = source_of(&v);
    assert_eq!(romfs_length(&src, 0, src.size()).unwrap(), None);
}

/// Build a cramfs image of the given size and byte order.
fn cramfs(size: u32, big: bool) -> Vec<u8> {
    let mut v = vec![0u8; (size as usize).max(0x40)];
    let m = if big {
        0x28CD_3D45u32.to_be_bytes()
    } else {
        0x28CD_3D45u32.to_le_bytes()
    };
    v[0..4].copy_from_slice(&m);
    let s = if big {
        size.to_be_bytes()
    } else {
        size.to_le_bytes()
    };
    v[4..8].copy_from_slice(&s);
    v[0x10..0x20].copy_from_slice(b"Compressed ROMFS");
    v
}

#[test]
fn cramfs_length_reads_size_either_endian() {
    // Little-endian.
    let v = cramfs(8192, false);
    let src = source_of(&v);
    assert_eq!(cramfs_length(&src, 0, src.size()).unwrap(), Some(8192));
    // Big-endian.
    let v = cramfs(8192, true);
    let src = source_of(&v);
    assert_eq!(cramfs_length(&src, 0, src.size()).unwrap(), Some(8192));
}

#[test]
fn cramfs_length_rejects_bad_magic() {
    let src = source_of(&[0u8; 0x20]);
    assert_eq!(cramfs_length(&src, 0, src.size()).unwrap(), None);
    // Signature present but the 0x28CD3D45 magic is absent.
    let mut v = cramfs(8192, false);
    v[0..4].copy_from_slice(&0u32.to_le_bytes());
    let src = source_of(&v);
    assert_eq!(cramfs_length(&src, 0, src.size()).unwrap(), None);
}

/// Build a JFS image whose aggregate superblock (32 KiB in) reports the given
/// aggregate block count and physical block size.
fn jfs(blocks: u64, pbsize: u32) -> Vec<u8> {
    let total = (blocks * pbsize as u64).max(0x8020);
    let mut v = vec![0u8; total as usize];
    let sb = 0x8000usize;
    v[sb..sb + 4].copy_from_slice(b"JFS1");
    v[sb + 0x08..sb + 0x10].copy_from_slice(&blocks.to_le_bytes());
    v[sb + 0x18..sb + 0x1C].copy_from_slice(&pbsize.to_le_bytes());
    v
}

#[test]
fn jfs_length_uses_block_count() {
    // 1024 blocks of 512 bytes => 512 KiB.
    let v = jfs(1024, 512);
    let src = source_of(&v);
    assert_eq!(jfs_length(&src, 0, src.size()).unwrap(), Some(1024 * 512));
}

#[test]
fn jfs_length_rejects_bad_magic_and_block_size() {
    let z = vec![0u8; 0x8020];
    let src = source_of(&z);
    assert_eq!(jfs_length(&src, 0, src.size()).unwrap(), None);
    // A non-power-of-two physical block size is rejected.
    let mut v = jfs(1024, 512);
    v[0x8000 + 0x18..0x8000 + 0x1C].copy_from_slice(&500u32.to_le_bytes());
    let src = source_of(&v);
    assert_eq!(jfs_length(&src, 0, src.size()).unwrap(), None);
}

/// Build a UFS1 image whose superblock (8 KiB in) reports the given fragment
/// count, fragment size, and block size, in the given byte order.
fn ufs(frags: u32, fsize: u32, bsize: u32, big: bool) -> Vec<u8> {
    let total = frags as usize * fsize as usize;
    let mut v = vec![0u8; total];
    let sb = 8192usize;
    let e = |x: u32| {
        if big {
            x.to_be_bytes()
        } else {
            x.to_le_bytes()
        }
    };
    v[sb + 0x24..sb + 0x28].copy_from_slice(&e(frags)); // fs_old_size
    v[sb + 0x30..sb + 0x34].copy_from_slice(&e(bsize)); // fs_bsize
    v[sb + 0x34..sb + 0x38].copy_from_slice(&e(fsize)); // fs_fsize
    v[sb + 0x55C..sb + 0x560].copy_from_slice(&e(0x0001_1954)); // fs_magic
    v
}

#[test]
fn ufs_length_uses_fragment_count() {
    // 16 fragments of 1024 bytes => 16 KiB, both byte orders.
    let v = ufs(16, 1024, 8192, false);
    let src = source_of(&v);
    assert_eq!(ufs_length(&src, 0, src.size()).unwrap(), Some(16 * 1024));
    let v = ufs(16, 1024, 8192, true);
    let src = source_of(&v);
    assert_eq!(ufs_length(&src, 0, src.size()).unwrap(), Some(16 * 1024));
}

#[test]
fn ufs_length_rejects_bad_magic_and_geometry() {
    let z = vec![0u8; 16 * 1024];
    let src = source_of(&z);
    assert_eq!(ufs_length(&src, 0, src.size()).unwrap(), None);
    // Valid magic but a non-power-of-two fragment size.
    let mut v = ufs(16, 1024, 8192, false);
    v[8192 + 0x34..8192 + 0x38].copy_from_slice(&1000u32.to_le_bytes());
    let src = source_of(&v);
    assert_eq!(ufs_length(&src, 0, src.size()).unwrap(), None);
}

/// Build a BeFS image whose superblock (512 bytes in) reports the given block
/// count and block size, in the given byte order.
fn befs(num_blocks: u64, block_size: u32, big: bool) -> Vec<u8> {
    let total = (num_blocks * block_size as u64) as usize;
    let mut v = vec![0u8; total.max(512 + 0x48)];
    let sb = 512usize;
    let e32 = |x: u32| {
        if big {
            x.to_be_bytes()
        } else {
            x.to_le_bytes()
        }
    };
    let e64 = |x: u64| {
        if big {
            x.to_be_bytes()
        } else {
            x.to_le_bytes()
        }
    };
    v[sb + 0x20..sb + 0x24].copy_from_slice(&e32(0x4246_5331)); // magic1 "BFS1"
    v[sb + 0x28..sb + 0x2C].copy_from_slice(&e32(block_size));
    v[sb + 0x30..sb + 0x38].copy_from_slice(&e64(num_blocks));
    v[sb + 0x44..sb + 0x48].copy_from_slice(&e32(0xDD12_1031)); // magic2
    v
}

#[test]
fn befs_length_uses_block_count() {
    // 16 blocks of 1024 bytes => 16 KiB, both byte orders.
    let v = befs(16, 1024, false);
    let src = source_of(&v);
    assert_eq!(befs_length(&src, 0, src.size()).unwrap(), Some(16 * 1024));
    let v = befs(16, 1024, true);
    let src = source_of(&v);
    assert_eq!(befs_length(&src, 0, src.size()).unwrap(), Some(16 * 1024));
}

#[test]
fn befs_length_rejects_missing_second_magic() {
    let z = vec![0u8; 512 + 0x48];
    let src = source_of(&z);
    assert_eq!(befs_length(&src, 0, src.size()).unwrap(), None);
    // magic1 present but magic2 absent.
    let mut v = befs(16, 1024, false);
    v[512 + 0x44..512 + 0x48].copy_from_slice(&0u32.to_le_bytes());
    let src = source_of(&v);
    assert_eq!(befs_length(&src, 0, src.size()).unwrap(), None);
}

/// Build an HFS+/HFSX image whose volume header (1024 bytes in) reports the
/// given signature, allocation block size, and total block count (big-endian).
fn hfsplus(sig: u16, total_blocks: u32, block_size: u32) -> Vec<u8> {
    let total = (total_blocks as u64 * block_size as u64) as usize;
    let mut v = vec![0u8; total.max(1024 + 0x30)];
    let vh = 1024usize;
    v[vh..vh + 2].copy_from_slice(&sig.to_be_bytes());
    let version: u16 = if sig == 0x4858 { 5 } else { 4 };
    v[vh + 2..vh + 4].copy_from_slice(&version.to_be_bytes());
    v[vh + 0x28..vh + 0x2C].copy_from_slice(&block_size.to_be_bytes());
    v[vh + 0x2C..vh + 0x30].copy_from_slice(&total_blocks.to_be_bytes());
    v
}

#[test]
fn hfsplus_length_uses_block_count() {
    // HFS+ (H+): 16 blocks of 4096 bytes => 64 KiB.
    let v = hfsplus(0x482B, 16, 4096);
    let src = source_of(&v);
    assert_eq!(hfsplus_length(&src, 0, src.size()).unwrap(), Some(16 * 4096));
    // HFSX (HX).
    let v = hfsplus(0x4858, 16, 4096);
    let src = source_of(&v);
    assert_eq!(hfsplus_length(&src, 0, src.size()).unwrap(), Some(16 * 4096));
}

#[test]
fn hfsplus_length_rejects_bad_signature_and_block_size() {
    let z = vec![0u8; 1024 + 0x30];
    let src = source_of(&z);
    assert_eq!(hfsplus_length(&src, 0, src.size()).unwrap(), None);
    // Valid signature but a non-power-of-two block size.
    let mut v = hfsplus(0x482B, 16, 4096);
    v[1024 + 0x28..1024 + 0x2C].copy_from_slice(&5000u32.to_be_bytes());
    let src = source_of(&v);
    assert_eq!(hfsplus_length(&src, 0, src.size()).unwrap(), None);
}

/// Build a ReiserFS image with a superblock at byte `sb` carrying `magic`,
/// the given block count and block size, padded to `total` bytes.
fn reiserfs(
    sb: usize,
    magic: &[u8],
    block_count: u32,
    block_size: u16,
    total: usize,
) -> Vec<u8> {
    let mut v = vec![0u8; total];
    v[sb..sb + 4].copy_from_slice(&block_count.to_le_bytes());
    v[sb + 0x2C..sb + 0x2E].copy_from_slice(&block_size.to_le_bytes());
    v[sb + 0x34..sb + 0x34 + magic.len()].copy_from_slice(magic);
    v
}

#[test]
fn reiserfs_length_uses_block_count() {
    // 3.6 superblock 64 KiB in: 32 blocks of 4096 bytes => 128 KiB.
    let v = reiserfs(0x10000, b"ReIsEr2Fs", 32, 4096, 256 * 1024);
    let src = source_of(&v);
    assert_eq!(reiserfs_length(&src, 0, src.size()).unwrap(), Some(32 * 4096));
    // Relocated-journal magic is accepted too.
    let v = reiserfs(0x10000, b"ReIsEr3Fs", 32, 4096, 256 * 1024);
    let src = source_of(&v);
    assert_eq!(reiserfs_length(&src, 0, src.size()).unwrap(), Some(32 * 4096));
    // Older 3.5 superblock 8 KiB in.
    let v = reiserfs(0x2000, b"ReIsErFs", 16, 4096, 128 * 1024);
    let src = source_of(&v);
    assert_eq!(reiserfs_length(&src, 0, src.size()).unwrap(), Some(16 * 4096));
}

#[test]
fn reiserfs_length_rejects_bad_magic_and_block_size() {
    // No magic anywhere.
    let src = source_of(&vec![0u8; 256 * 1024]);
    assert_eq!(reiserfs_length(&src, 0, src.size()).unwrap(), None);
    // Valid magic but a non-power-of-two block size.
    let v = reiserfs(0x10000, b"ReIsEr2Fs", 32, 5000, 256 * 1024);
    let src = source_of(&v);
    assert_eq!(reiserfs_length(&src, 0, src.size()).unwrap(), None);
    // A block count that overruns the source is skipped, not mis-sized.
    let v = reiserfs(0x10000, b"ReIsEr2Fs", 1_000_000, 4096, 256 * 1024);
    let src = source_of(&v);
    assert_eq!(reiserfs_length(&src, 0, src.size()).unwrap(), None);
}

/// Build a bare `Signature` carrying `extent` and `max_size`, for exercising
/// the runtime custom-carver length arms (magic is unused by `file_length`).
fn custom_sig(extent: Extent, max_size: u64) -> Signature {
    Signature {
        name: "custom",
        ext: "cst",
        magic: b"CUST",
        magic_offset: 0,
        secondary: None,
        extent,
        max_size,
        volume: false,
    }
}

#[test]
fn fixed_extent_returns_exact_size_and_bounds_checks() {
    let src = source_of(&vec![0u8; 4096]);
    // Exact fixed length within the source.
    let sig = custom_sig(Extent::Fixed { size: 512 }, 1 << 20);
    assert_eq!(
        file_length(&src, &sig, 0, src.size()).unwrap(),
        Some(512)
    );
    // A fixed size that overruns the source is skipped, not mis-sized.
    let sig = custom_sig(Extent::Fixed { size: 8192 }, 1 << 20);
    assert_eq!(file_length(&src, &sig, 0, src.size()).unwrap(), None);
}

#[test]
fn sizefield_extent_reads_scales_and_bounds_checks() {
    // A little-endian u32 = 100 at offset 4, mul 1 add 8 => 108 bytes.
    let mut data = vec![0u8; 4096];
    data[4..8].copy_from_slice(&100u32.to_le_bytes());
    let src = source_of(&data);
    let sig = custom_sig(
        Extent::SizeField {
            offset: 4,
            width: 32,
            big_endian: false,
            mul: 1,
            add: 8,
        },
        1 << 20,
    );
    assert_eq!(
        file_length(&src, &sig, 0, src.size()).unwrap(),
        Some(108)
    );

    // Big-endian u16 = 2 at offset 0, scaled by 512 => 1024 bytes.
    let mut data = vec![0u8; 4096];
    data[0..2].copy_from_slice(&2u16.to_be_bytes());
    let src = source_of(&data);
    let sig = custom_sig(
        Extent::SizeField {
            offset: 0,
            width: 16,
            big_endian: true,
            mul: 512,
            add: 0,
        },
        1 << 20,
    );
    assert_eq!(
        file_length(&src, &sig, 0, src.size()).unwrap(),
        Some(1024)
    );

    // A field whose scaled value overruns the source is skipped.
    let mut data = vec![0u8; 1024];
    data[0..4].copy_from_slice(&1_000_000u32.to_le_bytes());
    let src = source_of(&data);
    let sig = custom_sig(
        Extent::SizeField {
            offset: 0,
            width: 32,
            big_endian: false,
            mul: 1,
            add: 0,
        },
        1 << 20,
    );
    assert_eq!(file_length(&src, &sig, 0, src.size()).unwrap(), None);
}

/// Build an HDF5 file of the given superblock version whose end-of-file
/// address is `total`.
fn hdf5(version: u8, total: u64) -> Vec<u8> {
    let mut v = vec![0u8; total as usize];
    v[0..8].copy_from_slice(&[0x89, 0x48, 0x44, 0x46, 0x0D, 0x0A, 0x1A, 0x0A]);
    v[8] = version;
    match version {
        0 => {
            v[0x0D] = 8; // size of offsets
            v[0x28..0x30].copy_from_slice(&total.to_le_bytes());
        }
        1 => {
            v[0x0D] = 8;
            v[0x2C..0x34].copy_from_slice(&total.to_le_bytes());
        }
        2 | 3 => {
            v[0x09] = 8;
            v[0x1C..0x24].copy_from_slice(&total.to_le_bytes());
        }
        _ => {}
    }
    v
}

#[test]
fn hdf5_length_reads_eof_address() {
    for &ver in &[0u8, 1, 2, 3] {
        let v = hdf5(ver, 8192);
        let total = v.len() as u64;
        let src = source_of(&v);
        assert_eq!(hdf5_length(&src, 0, src.size()).unwrap(), Some(total));
    }
}

#[test]
fn hdf5_length_rejects_bad_magic_and_offset_size() {
    // Not an HDF5 file.
    let src = source_of(&[0u8; 64]);
    assert_eq!(hdf5_length(&src, 0, src.size()).unwrap(), None);
    // A non-8-byte offset size is not handled.
    let mut v = hdf5(0, 8192);
    v[0x0D] = 4;
    let src = source_of(&v);
    assert_eq!(hdf5_length(&src, 0, src.size()).unwrap(), None);
}

/// Encode an Avro `long` (zig-zag varint) into `v`.
fn avro_encode_long(v: &mut Vec<u8>, n: i64) {
    let mut zz = ((n << 1) ^ (n >> 63)) as u64;
    loop {
        let mut byte = (zz & 0x7F) as u8;
        zz >>= 7;
        if zz != 0 {
            byte |= 0x80;
        }
        v.push(byte);
        if zz == 0 {
            break;
        }
    }
}

/// Build an Avro object container with the given sync marker and data blocks
/// of the given byte sizes; every block carries a valid trailing sync marker.
fn avro(sync: [u8; 16], blocks: &[u64]) -> Vec<u8> {
    let mut v = Vec::new();
    v.extend_from_slice(b"Obj\x01");
    // Metadata map: one block with one entry, then the zero terminator.
    avro_encode_long(&mut v, 1);
    avro_encode_long(&mut v, 1);
    v.push(b'x'); // key "x"
    avro_encode_long(&mut v, 1);
    v.push(b'y'); // value "y"
    avro_encode_long(&mut v, 0);
    v.extend_from_slice(&sync);
    for &size in blocks {
        avro_encode_long(&mut v, 5); // object count
        avro_encode_long(&mut v, size as i64); // block byte size
        v.extend(std::iter::repeat(0u8).take(size as usize));
        v.extend_from_slice(&sync);
    }
    v
}

#[test]
fn avro_length_walks_data_blocks() {
    let sync = [0xAB; 16];
    let v = avro(sync, &[100, 200]);
    let total = v.len() as u64;
    let src = source_of(&v);
    assert_eq!(avro_length(&src, 0, src.size()).unwrap(), Some(total));
}

#[test]
fn avro_length_rejects_bad_magic_and_stops_at_bad_sync() {
    // Not an Avro container.
    let src = source_of(&[0u8; 64]);
    assert_eq!(avro_length(&src, 0, src.size()).unwrap(), None);
    // Trailing junk after a valid block doesn't carry the sync marker, so
    // the file ends after the last verified block.
    let sync = [0xCD; 16];
    let mut v = avro(sync, &[100]);
    let good_end = v.len() as u64;
    v.extend_from_slice(&[0xEE; 64]);
    let src = source_of(&v);
    assert_eq!(avro_length(&src, 0, src.size()).unwrap(), Some(good_end));
}

/// Build a USD crate scene with a table of contents at `toc_offset`
/// describing the given `(start, size)` sections; the total is the largest
/// section end or the end of the table.
fn usdc(toc_offset: u64, sections: &[(u64, u64)]) -> Vec<u8> {
    let toc_end = toc_offset + 8 + sections.len() as u64 * 32;
    let max_sec = sections.iter().map(|&(s, z)| s + z).max().unwrap_or(0);
    let total = toc_end.max(max_sec);
    let mut v = vec![0u8; total as usize];
    v[0..8].copy_from_slice(b"PXR-USDC");
    v[0x10..0x18].copy_from_slice(&toc_offset.to_le_bytes());
    let tp = toc_offset as usize;
    v[tp..tp + 8].copy_from_slice(&(sections.len() as u64).to_le_bytes());
    for (i, &(start, size)) in sections.iter().enumerate() {
        let e = tp + 8 + i * 32;
        v[e + 16..e + 24].copy_from_slice(&start.to_le_bytes());
        v[e + 24..e + 32].copy_from_slice(&size.to_le_bytes());
    }
    v
}

#[test]
fn usdc_length_uses_toc_and_sections() {
    // TOC at 0x2000; the table end (0x2048) is past the last section.
    let v = usdc(0x2000, &[(0x100, 0xF00), (0x1000, 0x800)]);
    let total = v.len() as u64;
    let src = source_of(&v);
    assert_eq!(usdc_length(&src, 0, src.size()).unwrap(), Some(total));
}

#[test]
fn usdc_length_rejects_bad_magic() {
    let src = source_of(&[0u8; 64]);
    assert_eq!(usdc_length(&src, 0, src.size()).unwrap(), None);
}

/// Build a NIfTI-1 volume with the given dimensions, bits-per-voxel, and
/// data offset; the total is the offset plus `product(dims) × bitpix/8`.
fn nifti(dims: &[i16], bitpix: i16, vox_offset: u32) -> Vec<u8> {
    let nvoxels: u64 = dims.iter().map(|&d| d as u64).product();
    let total = vox_offset as u64 + nvoxels * (bitpix as u64 / 8);
    let mut v = vec![0u8; total as usize];
    v[0..4].copy_from_slice(&348i32.to_le_bytes()); // sizeof_hdr
    v[40..42].copy_from_slice(&(dims.len() as i16).to_le_bytes()); // dim[0] = ndim
    for (i, &d) in dims.iter().enumerate() {
        v[42 + i * 2..44 + i * 2].copy_from_slice(&d.to_le_bytes()); // dim[1..]
    }
    v[72..74].copy_from_slice(&bitpix.to_le_bytes());
    v[108..112].copy_from_slice(&(vox_offset as f32).to_le_bytes());
    v[344..348].copy_from_slice(b"n+1\0");
    v
}

#[test]
fn nifti_length_computes_volume() {
    // A 64 x 64 x 40 int16 volume; data starts at 352.
    let v = nifti(&[64, 64, 40], 16, 352);
    let total = v.len() as u64;
    let src = source_of(&v);
    assert_eq!(nifti_length(&src, 0, src.size()).unwrap(), Some(total));
    assert_eq!(total, 352 + 64 * 64 * 40 * 2);
}

#[test]
fn nifti_length_rejects_bad_magic_and_header() {
    // Not a NIfTI volume.
    let src = source_of(&[0u8; 400]);
    assert_eq!(nifti_length(&src, 0, src.size()).unwrap(), None);
    // A wrong sizeof_hdr (e.g. a big-endian volume) is rejected.
    let mut v = nifti(&[64, 64, 40], 16, 352);
    v[0..4].copy_from_slice(&100i32.to_le_bytes());
    let src = source_of(&v);
    assert_eq!(nifti_length(&src, 0, src.size()).unwrap(), None);
}

/// Build an RF64 file whose ds64 chunk records `riff_size`; the total is
/// `riff_size + 8`.
fn rf64(riff_size: u64) -> Vec<u8> {
    let total = riff_size + 8;
    let mut v = vec![0u8; total as usize];
    v[0..4].copy_from_slice(b"RF64");
    v[4..8].copy_from_slice(&0xFFFF_FFFFu32.to_le_bytes()); // size placeholder
    v[8..12].copy_from_slice(b"WAVE");
    v[12..16].copy_from_slice(b"ds64");
    v[16..20].copy_from_slice(&28u32.to_le_bytes()); // ds64 chunk size
    v[0x14..0x1C].copy_from_slice(&riff_size.to_le_bytes());
    v
}

#[test]
fn rf64_length_reads_ds64_riff_size() {
    let v = rf64(4096);
    let total = v.len() as u64;
    let src = source_of(&v);
    assert_eq!(rf64_length(&src, 0, src.size()).unwrap(), Some(total));
    assert_eq!(total, 8 + 4096);
}

#[test]
fn rf64_length_rejects_bad_magic_and_missing_ds64() {
    // Not an RF64 file.
    let src = source_of(&[0u8; 64]);
    assert_eq!(rf64_length(&src, 0, src.size()).unwrap(), None);
    // The ds64 chunk must come first; a different chunk is rejected.
    let mut v = rf64(4096);
    v[12..16].copy_from_slice(b"fmt ");
    let src = source_of(&v);
    assert_eq!(rf64_length(&src, 0, src.size()).unwrap(), None);
}

/// Build an E57 point cloud whose header records `total` as its physical
/// file length.
fn e57(total: u64) -> Vec<u8> {
    let mut v = vec![0u8; total as usize];
    v[0..8].copy_from_slice(b"ASTM-E57");
    v[0x10..0x18].copy_from_slice(&total.to_le_bytes());
    v
}

#[test]
fn e57_length_reads_physical_length() {
    let v = e57(8192);
    let total = v.len() as u64;
    let src = source_of(&v);
    assert_eq!(e57_length(&src, 0, src.size()).unwrap(), Some(total));
}

#[test]
fn e57_length_rejects_bad_magic() {
    let src = source_of(&[0u8; 128]);
    assert_eq!(e57_length(&src, 0, src.size()).unwrap(), None);
}

/// Build a Godot asset pack of the given version with the given
/// `(offset, size)` file entries and v2 `file_base`; the total is the largest
/// `file_base + offset + size` (or the directory end).
fn godot_pck(version: u32, file_base: u64, entries: &[(u64, u64)]) -> Vec<u8> {
    let mut v = Vec::new();
    v.extend_from_slice(b"GDPC");
    v.extend_from_slice(&version.to_le_bytes());
    v.extend_from_slice(&[0u8; 12]); // major, minor, patch
    if version == 2 {
        v.extend_from_slice(&0u32.to_le_bytes()); // pack_flags
        v.extend_from_slice(&file_base.to_le_bytes()); // file_base (u64)
    }
    v.extend_from_slice(&[0u8; 64]); // reserved
    v.extend_from_slice(&(entries.len() as u32).to_le_bytes()); // file_count
    for &(ofs, size) in entries {
        v.extend_from_slice(&12u32.to_le_bytes()); // padded path length
        v.extend_from_slice(b"res://a.txt"); // 11 bytes
        v.push(0); // pad to 12
        v.extend_from_slice(&ofs.to_le_bytes());
        v.extend_from_slice(&size.to_le_bytes());
        v.extend_from_slice(&[0u8; 16]); // md5
        if version == 2 {
            v.extend_from_slice(&0u32.to_le_bytes()); // flags
        }
    }
    let dir_end = v.len() as u64;
    let max_data = entries
        .iter()
        .map(|&(o, s)| file_base + o + s)
        .max()
        .unwrap_or(0);
    v.resize(dir_end.max(max_data) as usize, 0);
    v
}

#[test]
fn godot_pck_length_v1_and_v2_use_last_file_end() {
    // v1: two files, the farthest ending at 0x2000 + 0x800.
    let v = godot_pck(1, 0, &[(0x1000, 0x500), (0x2000, 0x800)]);
    let total = v.len() as u64;
    let src = source_of(&v);
    assert_eq!(godot_pck_length(&src, 0, src.size()).unwrap(), Some(total));
    assert_eq!(total, 0x2000 + 0x800);
    // v2: offsets are relative to file_base.
    let v = godot_pck(2, 0x100, &[(0x1000, 0x500)]);
    let total = v.len() as u64;
    let src = source_of(&v);
    assert_eq!(godot_pck_length(&src, 0, src.size()).unwrap(), Some(total));
    assert_eq!(total, 0x100 + 0x1000 + 0x500);
}

#[test]
fn godot_pck_length_rejects_bad_magic_and_version() {
    // Not a Godot pack.
    let src = source_of(&[0u8; 128]);
    assert_eq!(godot_pck_length(&src, 0, src.size()).unwrap(), None);
    // An unsupported pack version is rejected.
    let mut v = godot_pck(1, 0, &[(0x1000, 0x500)]);
    v[4..8].copy_from_slice(&9u32.to_le_bytes());
    let src = source_of(&v);
    assert_eq!(godot_pck_length(&src, 0, src.size()).unwrap(), None);
}

/// Build a LAS point cloud with the given version-minor, point format,
/// record length, and point count; the total is the header plus the point
/// data. The header occupies the point-data offset (no VLRs).
fn las(vmin: u8, fmt: u8, record_len: u16, point_count: u64) -> Vec<u8> {
    let header_size: u32 = if vmin >= 4 { 375 } else { 227 };
    let total = header_size as u64 + point_count * record_len as u64;
    let mut v = vec![0u8; total as usize];
    v[0..4].copy_from_slice(b"LASF");
    v[0x18] = 1; // version major
    v[0x19] = vmin;
    v[0x5E..0x60].copy_from_slice(&(header_size as u16).to_le_bytes());
    v[0x60..0x64].copy_from_slice(&header_size.to_le_bytes()); // offset to point data
    v[0x68] = fmt;
    v[0x69..0x6B].copy_from_slice(&record_len.to_le_bytes());
    if vmin >= 4 {
        v[0xFF..0x107].copy_from_slice(&point_count.to_le_bytes());
    } else {
        v[0x6B..0x6F].copy_from_slice(&(point_count as u32).to_le_bytes());
    }
    v
}

#[test]
fn las_length_computes_point_data() {
    // LAS 1.2, format 1 (28-byte records), 1000 points.
    let v = las(2, 1, 28, 1000);
    let total = v.len() as u64;
    let src = source_of(&v);
    assert_eq!(las_length(&src, 0, src.size()).unwrap(), Some(total));
    assert_eq!(total, 227 + 1000 * 28);
    // LAS 1.4, format 6 (30-byte records), 2000 points (u64 count).
    let v = las(4, 6, 30, 2000);
    let total = v.len() as u64;
    let src = source_of(&v);
    assert_eq!(las_length(&src, 0, src.size()).unwrap(), Some(total));
}

#[test]
fn las_length_rejects_bad_magic_and_compressed() {
    // Not a LAS file.
    let src = source_of(&[0u8; 128]);
    assert_eq!(las_length(&src, 0, src.size()).unwrap(), None);
    // A LAZ-compressed file sets the high bit of the point format.
    let v = las(2, 1 | 0x80, 28, 1000);
    let src = source_of(&v);
    assert_eq!(las_length(&src, 0, src.size()).unwrap(), None);
}

/// Build a Valve VPK (v2) archive with the given section sizes; the total is
/// the 28-byte header plus their sum.
fn vpk(tree: u32, data: u32, amd5: u32, omd5: u32, sig: u32) -> Vec<u8> {
    let total =
        28 + tree as usize + data as usize + amd5 as usize + omd5 as usize + sig as usize;
    let mut v = vec![0u8; total];
    v[0..4].copy_from_slice(&0x55AA_1234u32.to_le_bytes());
    v[4..8].copy_from_slice(&2u32.to_le_bytes());
    v[8..12].copy_from_slice(&tree.to_le_bytes());
    v[12..16].copy_from_slice(&data.to_le_bytes());
    v[16..20].copy_from_slice(&amd5.to_le_bytes());
    v[20..24].copy_from_slice(&omd5.to_le_bytes());
    v[24..28].copy_from_slice(&sig.to_le_bytes());
    v
}

#[test]
fn vpk_length_sums_section_sizes() {
    let v = vpk(1000, 4000, 16, 32, 0);
    let total = v.len() as u64;
    let src = source_of(&v);
    assert_eq!(vpk_length(&src, 0, src.size()).unwrap(), Some(total));
    assert_eq!(total, 28 + 1000 + 4000 + 16 + 32);
}

#[test]
fn vpk_length_rejects_bad_magic_and_v1() {
    // Not a VPK archive.
    let src = source_of(&[0u8; 64]);
    assert_eq!(vpk_length(&src, 0, src.size()).unwrap(), None);
    // A version-1 header lacks the section-size fields, so it is skipped.
    let mut v = vpk(1000, 4000, 16, 32, 0);
    v[4..8].copy_from_slice(&1u32.to_le_bytes());
    let src = source_of(&v);
    assert_eq!(vpk_length(&src, 0, src.size()).unwrap(), None);
}

/// Build a Fuji RAF image with the given JPEG and CFA-data section
/// offset/length pairs; the total is the largest section end.
fn raf(jpeg_off: u32, jpeg_len: u32, cfa_off: u32, cfa_len: u32) -> Vec<u8> {
    let total = (jpeg_off as u64 + jpeg_len as u64)
        .max(cfa_off as u64 + cfa_len as u64)
        .max(0x6C) as usize;
    let mut v = vec![0u8; total];
    v[0..16].copy_from_slice(b"FUJIFILMCCD-RAW ");
    v[0x54..0x58].copy_from_slice(&jpeg_off.to_be_bytes());
    v[0x58..0x5C].copy_from_slice(&jpeg_len.to_be_bytes());
    v[0x64..0x68].copy_from_slice(&cfa_off.to_be_bytes());
    v[0x68..0x6C].copy_from_slice(&cfa_len.to_be_bytes());
    v
}

#[test]
fn raf_length_uses_max_section_end() {
    // The CFA raw data at 0x1000..0x5000 is the farthest section.
    let v = raf(0x800, 0x400, 0x1000, 0x4000);
    let total = v.len() as u64;
    let src = source_of(&v);
    assert_eq!(raf_length(&src, 0, src.size()).unwrap(), Some(total));
    assert_eq!(total, 0x1000 + 0x4000);
}

#[test]
fn raf_length_rejects_bad_magic() {
    let src = source_of(&[0u8; 128]);
    assert_eq!(raf_length(&src, 0, src.size()).unwrap(), None);
}

/// Build a Unity asset bundle whose header records `size` as its total file
/// size, with the given format version and version strings.
fn unityfs(version: u32, unity_version: &str, revision: &str, size: u64) -> Vec<u8> {
    let mut v = Vec::new();
    v.extend_from_slice(b"UnityFS\0");
    v.extend_from_slice(&version.to_be_bytes());
    v.extend_from_slice(unity_version.as_bytes());
    v.push(0);
    v.extend_from_slice(revision.as_bytes());
    v.push(0);
    v.extend_from_slice(&size.to_be_bytes());
    v.resize(size as usize, 0);
    v
}

#[test]
fn unityfs_length_reads_size_field() {
    let v = unityfs(6, "5.x.x", "2019.4.31f1", 4096);
    let total = v.len() as u64;
    let src = source_of(&v);
    assert_eq!(unityfs_length(&src, 0, src.size()).unwrap(), Some(total));
    assert_eq!(total, 4096);
}

#[test]
fn unityfs_length_rejects_bad_magic_and_tiny_size() {
    // Not a Unity bundle.
    let src = source_of(&[0u8; 128]);
    assert_eq!(unityfs_length(&src, 0, src.size()).unwrap(), None);
    // A size smaller than the parsed header is rejected. The size field sits
    // at offset 8 + 4 + len("5.x.x\0") + len("2019.4.31f1\0") = 30.
    let mut v = unityfs(6, "5.x.x", "2019.4.31f1", 4096);
    v[30..38].copy_from_slice(&10u64.to_be_bytes());
    let src = source_of(&v);
    assert_eq!(unityfs_length(&src, 0, src.size()).unwrap(), None);
}

/// Build a systemd journal file with the given header and arena sizes; the
/// total is `header_size + arena_size`.
fn journal(header_size: u64, arena_size: u64) -> Vec<u8> {
    let total = header_size + arena_size;
    let mut v = vec![0u8; total as usize];
    v[0..8].copy_from_slice(b"LPKSHHRH");
    v[0x58..0x60].copy_from_slice(&header_size.to_le_bytes());
    v[0x60..0x68].copy_from_slice(&arena_size.to_le_bytes());
    v
}

#[test]
fn journal_length_sums_header_and_arena() {
    let v = journal(240, 4096);
    let total = v.len() as u64;
    let src = source_of(&v);
    assert_eq!(journal_length(&src, 0, src.size()).unwrap(), Some(total));
    assert_eq!(total, 240 + 4096);
}

#[test]
fn journal_length_rejects_bad_magic_and_empty_arena() {
    // Not a journal file.
    let src = source_of(&[0u8; 128]);
    assert_eq!(journal_length(&src, 0, src.size()).unwrap(), None);
    // A zero-size arena is rejected.
    let v = journal(240, 0);
    let src = source_of(&v);
    assert_eq!(journal_length(&src, 0, src.size()).unwrap(), None);
}

/// Build a NumPy `.npy` file (v1.0) with the given dtype descr, shape tuple
/// text, and raw data length; the header is padded to a 64-byte boundary.
fn npy(descr: &str, shape: &str, data_len: usize) -> Vec<u8> {
    let dict = format!("{{'descr': '{descr}', 'fortran_order': False, 'shape': ({shape}), }}");
    // (magic 6 + version 2 + len field 2 + header) must be a 64-byte multiple.
    let base = 10 + dict.len() + 1; // +1 for the trailing newline
    let pad = (64 - (base % 64)) % 64;
    let mut header = dict.into_bytes();
    header.extend(std::iter::repeat(b' ').take(pad));
    header.push(b'\n');
    let mut v = Vec::new();
    v.extend_from_slice(b"\x93NUMPY");
    v.extend_from_slice(&[1, 0]); // version 1.0
    v.extend_from_slice(&(header.len() as u16).to_le_bytes());
    v.extend_from_slice(&header);
    v.extend(std::iter::repeat(0u8).take(data_len));
    v
}

#[test]
fn npy_length_computes_header_plus_data() {
    // 1-D float64 of 100 elements: 800 bytes of data.
    let v = npy("<f8", "100,", 100 * 8);
    let total = v.len() as u64;
    let src = source_of(&v);
    assert_eq!(npy_length(&src, 0, src.size()).unwrap(), Some(total));
    // 2-D int32 (10 x 20): 800 elements x 4 bytes.
    let v = npy("<i4", "10, 20", 10 * 20 * 4);
    let total = v.len() as u64;
    let src = source_of(&v);
    assert_eq!(npy_length(&src, 0, src.size()).unwrap(), Some(total));
    // A scalar (empty shape) is one element.
    let v = npy("<f8", "", 8);
    let total = v.len() as u64;
    let src = source_of(&v);
    assert_eq!(npy_length(&src, 0, src.size()).unwrap(), Some(total));
}

#[test]
fn npy_length_rejects_bad_magic_and_object_dtype() {
    // Not a NumPy array.
    let src = source_of(&[0u8; 128]);
    assert_eq!(npy_length(&src, 0, src.size()).unwrap(), None);
    // An object dtype has no fixed item size, so the file is skipped.
    let v = npy("|O", "5,", 64);
    let src = source_of(&v);
    assert_eq!(npy_length(&src, 0, src.size()).unwrap(), None);
}

/// Build an Android vendor_boot image with the given section sizes; the total
/// is the sum of the page-rounded header, vendor ramdisk, DTB, and (v4) the
/// vendor-ramdisk-table and bootconfig sections.
fn vendorboot(
    version: u32,
    page: u64,
    header_size: u64,
    vendor_ramdisk: u64,
    dtb: u64,
    vrt: u64,
    bootconfig: u64,
) -> Vec<u8> {
    let round = |s: u64| s.div_ceil(page) * page;
    let mut total = round(header_size) + round(vendor_ramdisk) + round(dtb);
    if version == 4 {
        total += round(vrt) + round(bootconfig);
    }
    let mut v = vec![0u8; total as usize];
    v[0..8].copy_from_slice(b"VNDRBOOT");
    v[0x08..0x0C].copy_from_slice(&version.to_le_bytes());
    v[0x0C..0x10].copy_from_slice(&(page as u32).to_le_bytes());
    v[0x18..0x1C].copy_from_slice(&(vendor_ramdisk as u32).to_le_bytes());
    v[0x830..0x834].copy_from_slice(&(header_size as u32).to_le_bytes());
    v[0x834..0x838].copy_from_slice(&(dtb as u32).to_le_bytes());
    if version == 4 {
        v[0x840..0x844].copy_from_slice(&(vrt as u32).to_le_bytes());
        v[0x84C..0x850].copy_from_slice(&(bootconfig as u32).to_le_bytes());
    }
    v
}

#[test]
fn vendorboot_length_v3_and_v4_page_sections() {
    // v3: header page + vendor ramdisk (2 pages) + dtb (1 page), page 4096.
    let v = vendorboot(3, 4096, 0x840, 8000, 3000, 0, 0);
    let total = v.len() as u64;
    let src = source_of(&v);
    assert_eq!(vendorboot_length(&src, 0, src.size()).unwrap(), Some(total));
    assert_eq!(total, 4096 + 8192 + 4096);
    // v4: adds page-rounded vendor-ramdisk-table and bootconfig sections.
    let v = vendorboot(4, 4096, 0x850, 8000, 3000, 200, 500);
    let total = v.len() as u64;
    let src = source_of(&v);
    assert_eq!(vendorboot_length(&src, 0, src.size()).unwrap(), Some(total));
}

#[test]
fn vendorboot_length_rejects_bad_magic_and_version() {
    // Not a vendor_boot image.
    let src = source_of(&[0u8; 128]);
    assert_eq!(vendorboot_length(&src, 0, src.size()).unwrap(), None);
    // An unmodelled header version is skipped rather than mis-sized.
    let mut v = vendorboot(3, 4096, 0x840, 8000, 3000, 0, 0);
    v[0x08..0x0C].copy_from_slice(&2u32.to_le_bytes());
    let src = source_of(&v);
    assert_eq!(vendorboot_length(&src, 0, src.size()).unwrap(), None);
}

/// Build a QOA audio file with the given total sample count and per-frame
/// sizes (each ≥ 8, including the 8-byte frame header); the total is 8 plus
/// the sum of the frame sizes.
fn qoa(samples: u32, frame_sizes: &[u16]) -> Vec<u8> {
    let mut v = Vec::new();
    v.extend_from_slice(b"qoaf");
    v.extend_from_slice(&samples.to_be_bytes());
    for &fsize in frame_sizes {
        let mut frame = vec![0u8; fsize as usize];
        frame[0] = 1; // num_channels
        frame[1..4].copy_from_slice(&[0x00, 0xAC, 0x44]); // samplerate 44100 (u24)
        frame[6..8].copy_from_slice(&fsize.to_be_bytes());
        v.extend_from_slice(&frame);
    }
    v
}

#[test]
fn qoa_length_walks_frames_for_sample_count() {
    // 6000 samples -> ceil(6000/5120) = 2 frames.
    let v = qoa(6000, &[2064, 848]);
    let total = v.len() as u64;
    let src = source_of(&v);
    assert_eq!(qoa_length(&src, 0, src.size()).unwrap(), Some(total));
    assert_eq!(total, 8 + 2064 + 848);
}

#[test]
fn qoa_length_rejects_bad_magic_and_tiny_frame() {
    // Not a QOA file.
    let src = source_of(&[0u8; 32]);
    assert_eq!(qoa_length(&src, 0, src.size()).unwrap(), None);
    // A frame whose recorded size is smaller than its header is rejected.
    let mut v = qoa(6000, &[2064, 848]);
    v[14..16].copy_from_slice(&4u16.to_be_bytes()); // first frame's fsize field
    let src = source_of(&v);
    assert_eq!(qoa_length(&src, 0, src.size()).unwrap(), None);
}

/// Build a KTX2 texture with `level_count` levels; level 0 lives at
/// `level_off` with `level_len` bytes, and the key/value data at `kvd_off`
/// with `kvd_len` bytes. The total is the largest section end.
fn ktx2(
    level_count: u32,
    level_off: u64,
    level_len: u64,
    kvd_off: u32,
    kvd_len: u32,
) -> Vec<u8> {
    let levels = level_count.max(1) as usize;
    let index_end = (0x50 + levels * 24) as u64;
    let total = index_end
        .max(kvd_off as u64 + kvd_len as u64)
        .max(level_off + level_len) as usize;
    let mut v = vec![0u8; total];
    v[0..12].copy_from_slice(&[
        0xAB, 0x4B, 0x54, 0x58, 0x20, 0x32, 0x30, 0xBB, 0x0D, 0x0A, 0x1A, 0x0A,
    ]);
    v[0x28..0x2C].copy_from_slice(&level_count.to_le_bytes());
    v[0x38..0x3C].copy_from_slice(&kvd_off.to_le_bytes());
    v[0x3C..0x40].copy_from_slice(&kvd_len.to_le_bytes());
    // Level 0 index entry at offset 0x50.
    v[0x50..0x58].copy_from_slice(&level_off.to_le_bytes());
    v[0x58..0x60].copy_from_slice(&level_len.to_le_bytes());
    v
}

#[test]
fn ktx2_length_uses_max_section_end() {
    // Level data at 0x100..0x300 is the farthest section.
    let v = ktx2(1, 0x100, 512, 0x80, 64);
    let total = v.len() as u64;
    let src = source_of(&v);
    assert_eq!(ktx2_length(&src, 0, src.size()).unwrap(), Some(total));
    assert_eq!(total, 0x100 + 512);
}

#[test]
fn ktx2_length_rejects_bad_magic_and_level_count() {
    // Not a KTX2 texture.
    let src = source_of(&[0u8; 128]);
    assert_eq!(ktx2_length(&src, 0, src.size()).unwrap(), None);
    // An absurd level count is rejected.
    let mut v = ktx2(1, 0x100, 512, 0x80, 64);
    v[0x28..0x2C].copy_from_slice(&100u32.to_le_bytes());
    let src = source_of(&v);
    assert_eq!(ktx2_length(&src, 0, src.size()).unwrap(), None);
}

/// Build an Android boot image (header versions 0–2, page-size based) with
/// the given section sizes; the total is the header page plus each
/// page-rounded section.
fn bootimg_v012(
    version: u32,
    page: u64,
    kernel: u64,
    ramdisk: u64,
    second: u64,
    dtbo: u64,
    dtb: u64,
) -> Vec<u8> {
    let round = |s: u64| s.div_ceil(page) * page;
    let mut total = page + round(kernel) + round(ramdisk) + round(second);
    if version >= 1 {
        total += round(dtbo);
    }
    if version == 2 {
        total += round(dtb);
    }
    let mut v = vec![0u8; total as usize];
    v[0..8].copy_from_slice(b"ANDROID!");
    v[0x08..0x0C].copy_from_slice(&(kernel as u32).to_le_bytes());
    v[0x10..0x14].copy_from_slice(&(ramdisk as u32).to_le_bytes());
    v[0x18..0x1C].copy_from_slice(&(second as u32).to_le_bytes());
    v[0x24..0x28].copy_from_slice(&(page as u32).to_le_bytes());
    v[0x28..0x2C].copy_from_slice(&version.to_le_bytes());
    if version >= 1 {
        v[0x660..0x664].copy_from_slice(&(dtbo as u32).to_le_bytes());
    }
    if version == 2 {
        v[0x670..0x674].copy_from_slice(&(dtb as u32).to_le_bytes());
    }
    v
}

/// Build an Android boot image (header versions 3–4, fixed 4096-byte page).
fn bootimg_v34(version: u32, kernel: u64, ramdisk: u64, sig: u64) -> Vec<u8> {
    let round = |s: u64| s.div_ceil(4096) * 4096;
    let mut total = 4096 + round(kernel) + round(ramdisk);
    if version == 4 {
        total += round(sig);
    }
    let mut v = vec![0u8; total as usize];
    v[0..8].copy_from_slice(b"ANDROID!");
    v[0x08..0x0C].copy_from_slice(&(kernel as u32).to_le_bytes());
    v[0x0C..0x10].copy_from_slice(&(ramdisk as u32).to_le_bytes());
    v[0x28..0x2C].copy_from_slice(&version.to_le_bytes());
    if version == 4 {
        v[0x62C..0x630].copy_from_slice(&(sig as u32).to_le_bytes());
    }
    v
}

#[test]
fn bootimg_length_v0_and_v2_page_sections() {
    // v0: header page + kernel(3 pages) + ramdisk(2 pages), page 2048.
    let v = bootimg_v012(0, 2048, 5000, 3000, 0, 0, 0);
    let total = v.len() as u64;
    let src = source_of(&v);
    assert_eq!(bootimg_length(&src, 0, src.size()).unwrap(), Some(total));
    assert_eq!(total, 2048 + 6144 + 4096);
    // v2: adds second, recovery-DTBO, and DTB sections.
    let v = bootimg_v012(2, 2048, 5000, 3000, 1000, 500, 800);
    let total = v.len() as u64;
    let src = source_of(&v);
    assert_eq!(bootimg_length(&src, 0, src.size()).unwrap(), Some(total));
}

#[test]
fn bootimg_length_v3_and_v4_fixed_page() {
    // v3: header page + kernel(3 pages) + ramdisk(2 pages), page 4096.
    let v = bootimg_v34(3, 10000, 6000, 0);
    let total = v.len() as u64;
    let src = source_of(&v);
    assert_eq!(bootimg_length(&src, 0, src.size()).unwrap(), Some(total));
    assert_eq!(total, 4096 + 12288 + 8192);
    // v4: adds a page-rounded boot signature.
    let v = bootimg_v34(4, 10000, 6000, 2000);
    let total = v.len() as u64;
    let src = source_of(&v);
    assert_eq!(bootimg_length(&src, 0, src.size()).unwrap(), Some(total));
}

#[test]
fn bootimg_length_rejects_bad_magic_and_unknown_version() {
    // Not a boot image.
    let src = source_of(&[0u8; 128]);
    assert_eq!(bootimg_length(&src, 0, src.size()).unwrap(), None);
    // An unmodelled header version is skipped rather than mis-sized.
    let mut v = bootimg_v34(3, 10000, 6000, 0);
    v[0x28..0x2C].copy_from_slice(&9u32.to_le_bytes());
    let src = source_of(&v);
    assert_eq!(bootimg_length(&src, 0, src.size()).unwrap(), None);
}

/// Append a GGUF string (u64 length + bytes) to `v`.
fn gguf_push_str(v: &mut Vec<u8>, s: &[u8]) {
    v.extend_from_slice(&(s.len() as u64).to_le_bytes());
    v.extend_from_slice(s);
}

/// Build a GGUF file with the given metadata alignment (via a
/// `general.alignment` KV when not 32) and a single tensor of `n_elems`
/// elements of ggml type `ttype`. Returns the bytes and the expected length.
fn gguf_one_tensor(alignment: u32, ttype: u32, n_elems: u64) -> Vec<u8> {
    let mut v = Vec::new();
    v.extend_from_slice(b"GGUF");
    v.extend_from_slice(&3u32.to_le_bytes()); // version
    v.extend_from_slice(&1u64.to_le_bytes()); // tensor_count
    let kv_count: u64 = if alignment == 32 { 0 } else { 1 };
    v.extend_from_slice(&kv_count.to_le_bytes());
    if alignment != 32 {
        gguf_push_str(&mut v, b"general.alignment");
        v.extend_from_slice(&4u32.to_le_bytes()); // value type uint32
        v.extend_from_slice(&alignment.to_le_bytes());
    }
    // One tensor: name, n_dims=1, dim0=n_elems, type, offset=0.
    gguf_push_str(&mut v, b"w");
    v.extend_from_slice(&1u32.to_le_bytes());
    v.extend_from_slice(&n_elems.to_le_bytes());
    v.extend_from_slice(&ttype.to_le_bytes());
    v.extend_from_slice(&0u64.to_le_bytes());
    // Pad to the alignment boundary, then append the tensor data.
    let align = alignment as usize;
    let data_start = v.len().div_ceil(align) * align;
    v.resize(data_start, 0);
    v
}

#[test]
fn gguf_length_f32_tensor_default_alignment() {
    // 64 F32 elements = 256 bytes; data starts at the 32-byte boundary.
    let mut v = gguf_one_tensor(32, 0, 64);
    v.resize(v.len() + 256, 0);
    let total = v.len() as u64;
    let src = source_of(&v);
    assert_eq!(gguf_length(&src, 0, src.size()).unwrap(), Some(total));
}

#[test]
fn gguf_length_quantized_tensor_custom_alignment() {
    // 64 Q4_0 elements = 64/32*18 = 36 bytes, alignment 16.
    let mut v = gguf_one_tensor(16, 2, 64);
    v.resize(v.len() + 36, 0);
    let total = v.len() as u64;
    let src = source_of(&v);
    assert_eq!(gguf_length(&src, 0, src.size()).unwrap(), Some(total));
}

#[test]
fn gguf_length_rejects_unknown_type_and_bad_magic() {
    // Not a GGUF file.
    let src = source_of(&[0u8; 64]);
    assert_eq!(gguf_length(&src, 0, src.size()).unwrap(), None);
    // An IQ2_XXS tensor (type 16) has no known block size here, so the file
    // is skipped rather than mis-sized.
    let mut v = gguf_one_tensor(32, 16, 256);
    v.resize(v.len() + 1024, 0);
    let src = source_of(&v);
    assert_eq!(gguf_length(&src, 0, src.size()).unwrap(), None);
}

/// Build a ZIM archive whose header checksum position is `checksum_pos`; the
/// total length is `checksum_pos + 16` (the trailing MD5).
fn zim(checksum_pos: u64) -> Vec<u8> {
    let total = checksum_pos as usize + 16;
    let mut v = vec![0u8; total];
    v[0..4].copy_from_slice(b"ZIM\x04");
    v[4..6].copy_from_slice(&6u16.to_le_bytes()); // major version
    v[0x48..0x50].copy_from_slice(&checksum_pos.to_le_bytes());
    v
}

#[test]
fn zim_length_reads_checksum_position() {
    // checksumPos 2000 -> the file ends at 2000 + 16 (the MD5).
    let bytes = zim(2000);
    let total = bytes.len() as u64;
    let src = source_of(&bytes);
    assert_eq!(zim_length(&src, 0, src.size()).unwrap(), Some(total));
    assert_eq!(total, 2000 + 16);
}

#[test]
fn zim_length_rejects_non_zim_and_short_checksum() {
    // Not a ZIM archive.
    let src = source_of(&[0u8; 128]);
    assert_eq!(zim_length(&src, 0, src.size()).unwrap(), None);
    // A checksum position inside the header is rejected.
    let mut bytes = zim(2000);
    bytes[0x48..0x50].copy_from_slice(&40u64.to_le_bytes());
    let src = source_of(&bytes);
    assert_eq!(zim_length(&src, 0, src.size()).unwrap(), None);
}

/// Build an IVF file with the given per-frame data sizes; the total is the
/// 32-byte header plus each frame's 12-byte header and data.
fn ivf(frame_sizes: &[u32]) -> Vec<u8> {
    let mut v = Vec::new();
    v.extend_from_slice(b"DKIF");
    v.extend_from_slice(&0u16.to_le_bytes()); // version
    v.extend_from_slice(&32u16.to_le_bytes()); // header length
    v.extend_from_slice(b"AV01"); // codec fourcc
    v.extend_from_slice(&[0u8; 8]); // width/height/frame rate (unused here)
    v.extend_from_slice(&[0u8; 4]); // rate den
    v.extend_from_slice(&(frame_sizes.len() as u32).to_le_bytes()); // num_frames
    v.extend_from_slice(&[0u8; 4]); // reserved
    for &sz in frame_sizes {
        v.extend_from_slice(&sz.to_le_bytes()); // frame size
        v.extend_from_slice(&[0u8; 8]); // timestamp
        v.extend(std::iter::repeat(0u8).take(sz as usize)); // frame data
    }
    v
}

#[test]
fn ivf_length_walks_the_frame_count() {
    // Two frames of 100 and 200 bytes: 32 + (12+100) + (12+200).
    let bytes = ivf(&[100, 200]);
    let total = bytes.len() as u64;
    let src = source_of(&bytes);
    assert_eq!(ivf_length(&src, 0, src.size()).unwrap(), Some(total));
    assert_eq!(total, 32 + 12 + 100 + 12 + 200);
}

#[test]
fn ivf_length_rejects_bad_header_and_overrun() {
    // Not an IVF file.
    let src = source_of(&[0u8; 64]);
    assert_eq!(ivf_length(&src, 0, src.size()).unwrap(), None);
    // A frame that runs past the region is rejected.
    let bytes = ivf(&[100, 200]);
    let src = source_of(&bytes[..100]);
    assert_eq!(ivf_length(&src, 0, src.size()).unwrap(), None);
}

/// Build a Quake II model whose header `ofs_end` field is `ofs_end`; that is
/// the exact file length.
fn md2_model(ofs_end: u32) -> Vec<u8> {
    let total = ofs_end.max(0x44) as usize;
    let mut v = vec![0u8; total];
    v[0..4].copy_from_slice(b"IDP2");
    v[4..8].copy_from_slice(&8u32.to_le_bytes()); // version
    v[0x40..0x44].copy_from_slice(&ofs_end.to_le_bytes());
    v
}

#[test]
fn md2_length_reads_end_offset() {
    let bytes = md2_model(2000);
    let total = bytes.len() as u64;
    let src = source_of(&bytes);
    assert_eq!(md2_length(&src, 0, src.size()).unwrap(), Some(total));
    assert_eq!(total, 2000);
}

#[test]
fn md2_length_rejects_bad_version() {
    // Not an MD2 model.
    let src = source_of(&[0u8; 64]);
    assert_eq!(md2_length(&src, 0, src.size()).unwrap(), None);
    // Right magic, wrong version.
    let mut bytes = md2_model(2000);
    bytes[4..8].copy_from_slice(&7u32.to_le_bytes());
    let src = source_of(&bytes);
    assert_eq!(md2_length(&src, 0, src.size()).unwrap(), None);
}

/// Build a Quake PAK archive with `entries` 64-byte directory entries whose
/// directory begins at `dir_offset`; the total is `dir_offset + entries*64`.
fn quake_pak(entries: u32, dir_offset: u32) -> Vec<u8> {
    let dir_length = entries * 64;
    let total = dir_offset + dir_length;
    let mut v = vec![0u8; total as usize];
    v[0..4].copy_from_slice(b"PACK");
    v[4..8].copy_from_slice(&dir_offset.to_le_bytes());
    v[8..12].copy_from_slice(&dir_length.to_le_bytes());
    v
}

#[test]
fn pak_length_uses_directory_end() {
    // Three 64-byte entries (192-byte directory) at offset 512.
    let bytes = quake_pak(3, 512);
    let total = bytes.len() as u64;
    let src = source_of(&bytes);
    assert_eq!(pak_length(&src, 0, src.size()).unwrap(), Some(total));
    assert_eq!(total, 512 + 192);
}

#[test]
fn pak_length_rejects_bad_directory() {
    // Not a PAK archive.
    let src = source_of(&[0u8; 64]);
    assert_eq!(pak_length(&src, 0, src.size()).unwrap(), None);
    // A directory length that isn't a multiple of 64 is rejected.
    let mut bytes = quake_pak(3, 512);
    bytes[8..12].copy_from_slice(&100u32.to_le_bytes());
    let src = source_of(&bytes);
    assert_eq!(pak_length(&src, 0, src.size()).unwrap(), None);
}

/// Build a U-Boot uImage with `data_size` bytes of image data; the total
/// length is `64 + data_size`.
fn uimage(data_size: u32) -> Vec<u8> {
    let total = 64 + data_size as usize;
    let mut v = vec![0u8; total];
    v[0..4].copy_from_slice(&0x2705_1956u32.to_be_bytes());
    v[0x0C..0x10].copy_from_slice(&data_size.to_be_bytes());
    v
}

#[test]
fn sf2_length_reads_riff_size() {
    // SoundFont 2 is a RIFF/sfbk container: size at offset 4, plus 8.
    let mut img = vec![0u8; 4096];
    img[0..4].copy_from_slice(b"RIFF");
    img[4..8].copy_from_slice(&(4096u32 - 8).to_le_bytes());
    img[8..12].copy_from_slice(b"sfbk");
    let src = source_of(&img);
    let sig = signature(
        "sf2",
        b"RIFF",
        Extent::RiffSize,
    );
    assert_eq!(
        file_length(&src, &sig, 0, src.size()).unwrap(),
        Some(4096)
    );
}

#[test]
fn trx_length_reads_total_length_field() {
    // TRX: the total file length is a little-endian u32 at offset 4.
    let mut img = vec![0u8; 4096];
    img[0..4].copy_from_slice(b"HDR0");
    img[4..8].copy_from_slice(&4096u32.to_le_bytes());
    let src = source_of(&img);
    let sig = signature(
        "trx",
        b"HDR0",
        Extent::HeaderSizeLe32 { offset: 4 },
    );
    assert_eq!(
        file_length(&src, &sig, 0, src.size()).unwrap(),
        Some(4096)
    );
}

#[test]
fn dtbo_length_reads_total_size_field() {
    // Android DTBO image: total_size is a big-endian u32 at offset 4.
    let mut img = vec![0u8; 4096];
    img[0..4].copy_from_slice(&[0xD7, 0xB7, 0xAB, 0x1E]);
    img[4..8].copy_from_slice(&4096u32.to_be_bytes());
    let src = source_of(&img);
    let sig = signature(
        "dtbo",
        &[0xD7, 0xB7, 0xAB, 0x1E],
        Extent::HeaderSizeBe32 { offset: 4 },
    );
    assert_eq!(
        file_length(&src, &sig, 0, src.size()).unwrap(),
        Some(4096)
    );
}

#[test]
fn dtb_length_reads_total_size_field() {
    // Device tree blob: totalsize is a big-endian u32 at offset 4.
    let mut img = vec![0u8; 2048];
    img[0..4].copy_from_slice(&[0xD0, 0x0D, 0xFE, 0xED]);
    img[4..8].copy_from_slice(&2048u32.to_be_bytes());
    let src = source_of(&img);
    let sig = signature(
        "dtb",
        &[0xD0, 0x0D, 0xFE, 0xED],
        Extent::HeaderSizeBe32 { offset: 4 },
    );
    assert_eq!(
        file_length(&src, &sig, 0, src.size()).unwrap(),
        Some(2048)
    );
}

#[test]
fn uimage_length_adds_header_to_data_size() {
    let bytes = uimage(1000);
    let total = bytes.len() as u64;
    let src = source_of(&bytes);
    assert_eq!(uimage_length(&src, 0, src.size()).unwrap(), Some(total));
    assert_eq!(total, 64 + 1000);
}

#[test]
fn uimage_length_rejects_non_uimage_and_zero_size() {
    // Not a uImage.
    let src = source_of(&[0u8; 64]);
    assert_eq!(uimage_length(&src, 0, src.size()).unwrap(), None);
    // Right magic but zero image-data size.
    let bytes = uimage(0);
    let src = source_of(&bytes);
    assert_eq!(uimage_length(&src, 0, src.size()).unwrap(), None);
}

/// Build a PCF font with the given `(size, offset)` table entries; the total
/// length is the largest offset-plus-size.
fn pcf(tables: &[(u32, u32)]) -> Vec<u8> {
    let count = tables.len();
    let toc_end = 8 + count * 16;
    let total = tables
        .iter()
        .map(|&(s, o)| o as usize + s as usize)
        .max()
        .unwrap_or(toc_end)
        .max(toc_end);
    let mut v = vec![0u8; total];
    v[0..4].copy_from_slice(b"\x01fcp");
    v[4..8].copy_from_slice(&(count as u32).to_le_bytes());
    for (i, &(size, offset)) in tables.iter().enumerate() {
        let e = 8 + i * 16;
        v[e + 8..e + 12].copy_from_slice(&size.to_le_bytes());
        v[e + 12..e + 16].copy_from_slice(&offset.to_le_bytes());
    }
    v
}

#[test]
fn pcf_length_uses_max_table_extent() {
    // Two tables (toc_end = 40): one at offset 40, one at offset 100.
    let bytes = pcf(&[(50, 40), (64, 100)]);
    let total = bytes.len() as u64; // max(40+50, 100+64) = 164
    let src = source_of(&bytes);
    assert_eq!(pcf_length(&src, 0, src.size()).unwrap(), Some(total));
    assert_eq!(total, 164);
}

#[test]
fn pcf_length_rejects_non_pcf_and_bad_offset() {
    // Not a PCF font.
    let src = source_of(&[0u8; 64]);
    assert_eq!(pcf_length(&src, 0, src.size()).unwrap(), None);
    // A table offset inside the table of contents is rejected.
    let bytes = pcf(&[(50, 8)]); // offset 8 < toc_end (24)
    let src = source_of(&bytes);
    assert_eq!(pcf_length(&src, 0, src.size()).unwrap(), None);
}

/// Build a DSDIFF (DFF) file whose FRM8 form data is `data_size` bytes; the
/// total length is `12 + data_size`.
fn dsdiff(data_size: u64) -> Vec<u8> {
    let total = 12 + data_size;
    let mut v = vec![0u8; total as usize];
    v[0..4].copy_from_slice(b"FRM8");
    v[4..12].copy_from_slice(&data_size.to_be_bytes());
    v[12..16].copy_from_slice(b"DSD "); // form type
    v
}

#[test]
fn dsdiff_length_adds_header_to_form_size() {
    let bytes = dsdiff(1000);
    let total = bytes.len() as u64;
    let src = source_of(&bytes);
    assert_eq!(dsdiff_length(&src, 0, src.size()).unwrap(), Some(total));
    assert_eq!(total, 12 + 1000);
}

#[test]
fn dsdiff_length_rejects_wrong_form_type() {
    // Not DSDIFF.
    let src = source_of(&[0u8; 64]);
    assert_eq!(dsdiff_length(&src, 0, src.size()).unwrap(), None);
    // FRM8 with a non-DSD form type is rejected.
    let mut bytes = dsdiff(1000);
    bytes[12..16].copy_from_slice(b"AIFF");
    let src = source_of(&bytes);
    assert_eq!(dsdiff_length(&src, 0, src.size()).unwrap(), None);
}

/// Build a DSF (DSD) file with `data_len` bytes of sample data; the total
/// length is DSD(28) + fmt(52) + data-header(12) + data.
fn dsf(data_len: u64) -> Vec<u8> {
    let total = 28 + 52 + 12 + data_len;
    let mut v = vec![0u8; total as usize];
    v[0..4].copy_from_slice(b"DSD ");
    v[4..12].copy_from_slice(&28u64.to_le_bytes());
    v[12..20].copy_from_slice(&total.to_le_bytes());
    v[28..32].copy_from_slice(b"fmt "); // fmt chunk follows the DSD chunk
    v
}

#[test]
fn dsf_length_reads_total_file_size() {
    let bytes = dsf(1000);
    let total = bytes.len() as u64;
    let src = source_of(&bytes);
    assert_eq!(dsf_length(&src, 0, src.size()).unwrap(), Some(total));
}

#[test]
fn dsf_length_rejects_bad_chunk_and_missing_fmt() {
    // Not DSF.
    let src = source_of(&[0u8; 64]);
    assert_eq!(dsf_length(&src, 0, src.size()).unwrap(), None);
    // Right magic but the DSD chunk size isn't 28.
    let mut bytes = dsf(1000);
    bytes[4..12].copy_from_slice(&20u64.to_le_bytes());
    let src = source_of(&bytes);
    assert_eq!(dsf_length(&src, 0, src.size()).unwrap(), None);
}

/// Build a Sun raster image with `length` bytes of image data and a
/// `maplength`-byte colormap; the total is `32 + maplength + length`.
fn sun_raster(length: u32, maplength: u32) -> Vec<u8> {
    let total = 32 + maplength as usize + length as usize;
    let mut v = vec![0u8; total];
    v[0..4].copy_from_slice(&0x59A6_6A95u32.to_be_bytes());
    v[4..8].copy_from_slice(&16u32.to_be_bytes()); // width
    v[8..12].copy_from_slice(&16u32.to_be_bytes()); // height
    v[12..16].copy_from_slice(&8u32.to_be_bytes()); // depth
    v[16..20].copy_from_slice(&length.to_be_bytes());
    v[20..24].copy_from_slice(&1u32.to_be_bytes()); // type = standard
    v[24..28].copy_from_slice(&1u32.to_be_bytes()); // maptype = equal RGB
    v[28..32].copy_from_slice(&maplength.to_be_bytes());
    v
}

#[test]
fn sun_raster_length_sums_header_map_and_data() {
    let bytes = sun_raster(256, 48);
    let total = bytes.len() as u64;
    let src = source_of(&bytes);
    assert_eq!(sun_raster_length(&src, 0, src.size()).unwrap(), Some(total));
    assert_eq!(total, 32 + 48 + 256);
}

#[test]
fn sun_raster_length_rejects_bad_fields() {
    // Not a Sun raster.
    let src = source_of(&[0u8; 64]);
    assert_eq!(sun_raster_length(&src, 0, src.size()).unwrap(), None);
    // Valid magic but an implausible colour depth.
    let mut bytes = sun_raster(256, 0);
    bytes[12..16].copy_from_slice(&7u32.to_be_bytes());
    let src = source_of(&bytes);
    assert_eq!(sun_raster_length(&src, 0, src.size()).unwrap(), None);
}

/// Build an AppleSingle/AppleDouble container with the given magic and a
/// single entry of `data_len` bytes placed right after the entry table.
fn apple_forked(magic: u32, data_len: u32) -> Vec<u8> {
    let table_end = 0x1A + 12; // header + one 12-byte entry
    let total = table_end + data_len as usize;
    let mut v = vec![0u8; total];
    v[0..4].copy_from_slice(&magic.to_be_bytes());
    v[4..8].copy_from_slice(&0x0002_0000u32.to_be_bytes()); // version 2
    v[0x18..0x1A].copy_from_slice(&1u16.to_be_bytes()); // one entry
                                                        // Entry: id=1 (data fork), offset just past the table, length=data_len.
    v[0x1A..0x1E].copy_from_slice(&1u32.to_be_bytes());
    v[0x1E..0x22].copy_from_slice(&(table_end as u32).to_be_bytes());
    v[0x22..0x26].copy_from_slice(&data_len.to_be_bytes());
    v
}

#[test]
fn applesingle_length_uses_max_entry_extent() {
    // AppleSingle magic, 100-byte data fork.
    let bytes = apple_forked(0x0005_1600, 100);
    let total = bytes.len() as u64;
    let src = source_of(&bytes);
    assert_eq!(applesingle_length(&src, 0, src.size()).unwrap(), Some(total));
    // AppleDouble magic is recognised too.
    let bytes = apple_forked(0x0005_1607, 50);
    let total = bytes.len() as u64;
    let src = source_of(&bytes);
    assert_eq!(applesingle_length(&src, 0, src.size()).unwrap(), Some(total));
}

#[test]
fn applesingle_length_rejects_bad_magic_and_version() {
    // Wrong magic.
    let src = source_of(&[0u8; 64]);
    assert_eq!(applesingle_length(&src, 0, src.size()).unwrap(), None);
    // Right magic, unsupported version.
    let mut bytes = apple_forked(0x0005_1600, 100);
    bytes[4..8].copy_from_slice(&0x0009_0000u32.to_be_bytes());
    let src = source_of(&bytes);
    assert_eq!(applesingle_length(&src, 0, src.size()).unwrap(), None);
}

/// Build a Monkey's Audio file (3.98+ descriptor) with `frame_bytes` of APE
/// frame data; the total length is the sum of all segment sizes.
fn ape_descriptor(frame_bytes: u32) -> Vec<u8> {
    let (descriptor, header, seek, wav, term) = (52u32, 24u32, 16u32, 44u32, 8u32);
    let total = descriptor + header + seek + wav + frame_bytes + term;
    let mut v = vec![0u8; total as usize];
    v[0..4].copy_from_slice(b"MAC ");
    v[4..6].copy_from_slice(&3990u16.to_le_bytes()); // version 3.99
    v[8..12].copy_from_slice(&descriptor.to_le_bytes());
    v[12..16].copy_from_slice(&header.to_le_bytes());
    v[16..20].copy_from_slice(&seek.to_le_bytes());
    v[20..24].copy_from_slice(&wav.to_le_bytes());
    v[24..28].copy_from_slice(&frame_bytes.to_le_bytes()); // frame data (low)
    v[32..36].copy_from_slice(&term.to_le_bytes()); // terminating data
    v
}

#[test]
fn ape_length_sums_descriptor_segments() {
    let bytes = ape_descriptor(1000);
    let total = bytes.len() as u64;
    let src = source_of(&bytes);
    assert_eq!(ape_length(&src, 0, src.size()).unwrap(), Some(total));
    assert_eq!(total, 52 + 24 + 16 + 44 + 1000 + 8);
}

#[test]
fn ape_length_rejects_old_version_and_non_ape() {
    // Not Monkey's Audio.
    let src = source_of(&[0u8; 64]);
    assert_eq!(ape_length(&src, 0, src.size()).unwrap(), None);
    // A pre-3.98 file has no descriptor to sum.
    let mut bytes = ape_descriptor(1000);
    bytes[4..6].copy_from_slice(&3970u16.to_le_bytes());
    let src = source_of(&bytes);
    assert_eq!(ape_length(&src, 0, src.size()).unwrap(), None);
}

#[test]
fn wavpack_length_walks_the_block_chain() {
    // Three 64-byte blocks then junk: the file ends after the last block.
    let src = source_of(&wavpack(3, 64, 20));
    assert_eq!(wavpack_length(&src, 0, src.size()).unwrap(), Some(3 * 64));
}

#[test]
fn wavpack_length_rejects_bad_version_and_non_wavpack() {
    // Not WavPack at all.
    let src = source_of(&vec![0u8; 256]);
    assert_eq!(wavpack_length(&src, 0, src.size()).unwrap(), None);

    // A wvpk magic with an out-of-range format version is rejected.
    let mut bytes = wavpack(1, 64, 0);
    bytes[8..10].copy_from_slice(&0x0299u16.to_le_bytes());
    let src = source_of(&bytes);
    assert_eq!(wavpack_length(&src, 0, src.size()).unwrap(), None);
}

/// What sizing the file at `start` gives, where it has room up to `limit` and the byte at `bad` cannot be read.
fn with_fault_at(
    f: fn(&Source, u64, u64) -> Length,
    bytes: &[u8],
    start: u64,
    limit: u64,
    bad: u64,
) -> Length {
    let fault = Fault {
        start: bad,
        end: bad + 1,
    };
    f(&Source::with_faults(bytes.to_vec(), vec![fault]), start, limit)
}

#[test]
fn every_gguf_key_as_long_as_that_of_the_alignment_is_read() {
    let mut v = b"GGUF".to_vec();
    v.extend(3u32.to_le_bytes());
    v.extend(0u64.to_le_bytes());
    v.extend(2u64.to_le_bytes());
    for key in [&b"seventeen letters"[..], b"some other key"] {
        gguf_push_str(&mut v, key);
        v.extend(8u32.to_le_bytes());
        gguf_push_str(&mut v, b"value");
    }
    v.resize(160, 0);
    let n = v.len() as u64;
    assert_eq!(with_fault_at(gguf_length, &v, 0, n, 32), Err(ReadError { offset: 32 }));
    assert_eq!(with_fault_at(gguf_length, &v, 0, n, 48), Err(ReadError { offset: 48 }));
    // The value, and a key of another length.
    assert_eq!(with_fault_at(gguf_length, &v, 0, n, 61), Ok(Some(128)));
    assert_eq!(with_fault_at(gguf_length, &v, 0, n, 74), Ok(Some(128)));
}

#[test]
fn headers_behind_the_room_are_read_as_far_as_the_room_is_long() {
    // The second record begins behind the room, at 50 of 60 bytes.
    let mut v = vec![0u8; 10];
    v.extend(mcap(&[(1, 33), (1, 1000), (2, 20)]));
    let limit = 60;
    assert_eq!(with_fault_at(mcap_length, &v, 10, limit, 61), Err(ReadError { offset: 61 }));
    assert_eq!(with_fault_at(mcap_length, &v, 10, limit, 80), Ok(None));
    assert_eq!(with_fault_at(mcap_length, &v, 10, 58, 61), Ok(None));

    // A message fills the room, and what could be another begins behind it.
    let mut v = vec![0u8; 20];
    v.extend(grib2_msg(32));
    v.extend([0u8; 50]);
    assert_eq!(with_fault_at(grib2_length, &v, 20, 52, 60), Err(ReadError { offset: 60 }));
    assert_eq!(with_fault_at(grib2_length, &v, 20, 52, 68), Ok(Some(32)));
    assert_eq!(with_fault_at(grib2_length, &v[20..], 0, 32, 40), Ok(Some(32)));
}

#[test]
fn qoi_chunks_are_read_by_the_window() {
    let mut ops = Vec::new();
    for _ in 0..20_000 {
        ops.extend([0xFE, 0, 0, 0]);
    }
    let mut v = qoi(20_000, 1, &ops);
    let n = v.len() as u64;
    v.resize(200_000, 0);
    // The first window is 64 KiB behind the header, and the next begins at the first chunk of which fewer than
    // five bytes are in it.
    let next = 14 + 65_536 - 4;
    let err = |offset: u64| Err(ReadError { offset });
    assert_eq!(with_fault_at(qoi_length, &v, 0, n, 15), err(15));
    assert_eq!(with_fault_at(qoi_length, &v, 0, n, n), err(n));
    assert_eq!(with_fault_at(qoi_length, &v, 0, n, next + 65_535), err(next + 65_535));
    assert_eq!(with_fault_at(qoi_length, &v, 0, n, next + 65_536), Ok(Some(n)));
    // The end marker is read though it lies behind the room.
    let v = qoi(1, 1, &[0]);
    assert_eq!(with_fault_at(qoi_length, &v, 0, 16, 22), err(22));
}
