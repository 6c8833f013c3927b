use unearth::carver::archives::{
    ar_length, cpio_length, lz4_length, parse_tar_numeric, rar_length, round_up4, tar_length,
    wim_length, zip_length, zstd_length,
};
use unearth::carver::audio::{aac_length, frame_length, midi_length, mp3_length, mp3_raw_length};
use unearth::carver::data::{blend_length, pcap_length, pcapng_length, shp_length};
use unearth::carver::documents::{
    cfbf_length, eps_length, evtx_length, pdb_length, pst_length, regf_length, rtf_length,
};
use unearth::carver::executables::{dex_length, elf_length, macho_length, pe_length, wasm_length};
use unearth::carver::extents::file_length;
use unearth::carver::fonts::{sfnt_length, ttc_length};
use unearth::carver::games::nes_length;
use unearth::carver::images::{
    djvu_length, gif_length, icc_length, icocur_length, jpeg_length, psd_length, wmf_length,
};
use unearth::carver::tiff::tiff_length;
use unearth::carver::video::{
    asf_length, ebml_length, flv_length, mp4_length, mpegps_length, mpegts_length, ogg_length,
    swf_length,
};
use unearth::carver::volumes::squashfs_length;
use unearth::signatures::{Extent, Signature};
use unearth::source::{Fault, Length, ReadError, Source};

type Sizer = fn(&Source, u64, u64) -> Length;

/// The length of the file that `bytes` start with, found where they stand on their own, and where other bytes
/// come before and after.
fn len(f: Sizer, bytes: &[u8]) -> Option<u64> {
    let src = Source::new(bytes.to_vec());
    let alone = f(&src, 0, src.size()).unwrap();
    let shifted = Source::new([&[7u8; 13][..], bytes].concat());
    assert_eq!(f(&shifted, 13, shifted.size()).unwrap(), alone);
    alone
}

/// A file is found whole, with something behind it, and not when its last byte is missing.
fn whole(f: Sizer, bytes: &[u8]) {
    let n = bytes.len() as u64;
    assert_eq!(len(f, bytes), Some(n));
    assert_eq!(len(f, &[bytes, &[0u8; 3]].concat()), Some(n));
    assert_eq!(len(f, &bytes[..bytes.len() - 1]), None);
}

fn le16(n: u16) -> [u8; 2] {
    n.to_le_bytes()
}

fn le32(n: u32) -> [u8; 4] {
    n.to_le_bytes()
}

fn be32(n: u32) -> [u8; 4] {
    n.to_be_bytes()
}

fn put(v: &mut [u8], at: usize, bytes: &[u8]) {
    v[at..at + bytes.len()].copy_from_slice(bytes);
}

#[test]
fn swf_and_wim() {
    let mut v = vec![0u8; 40];
    put(&mut v, 0, b"FWS\x06");
    put(&mut v, 4, &le32(40));
    whole(swf_length, &v);
    v[3] = 0;
    assert_eq!(len(swf_length, &v), None);

    let mut v = vec![0u8; 400];
    put(&mut v, 0, b"MSWIM\0\0\0");
    put(&mut v, 8, &le32(0xD0));
    // An XML resource of 100 bytes at 300, with flags in the top byte of its size.
    put(&mut v, 0x48, &[100, 0, 0, 0, 0, 0, 0, 2]);
    put(&mut v, 0x50, &300u64.to_le_bytes());
    whole(wim_length, &v);
    put(&mut v, 0x50, &0u64.to_le_bytes());
    assert_eq!(len(wim_length, &v), None);
}

#[test]
fn gif_walks_its_blocks() {
    let mut v = b"GIF89a\x01\x00\x01\x00\x80\x00\x00".to_vec();
    v.extend([0u8; 6]); // two colours
    v.extend([0x21, 0xF9, 4, 0, 0x3B, 0, 0x3B, 0]); // an extension with trailers in it
    v.extend([0x2C, 0, 0, 0, 0, 1, 0, 1, 0, 0, 2, 2, 0x44, 1, 0]); // an image
    v.push(0x3B);
    whole(gif_length, &v);
    v[19] = 0x22;
    assert_eq!(len(gif_length, &v), None);
}

#[test]
fn jpeg_counts_nested_images() {
    let v = [
        &[0xFF, 0xD8, 0xFF, 0xE1, 0xFF, 0xD8, 0xFF, 0xD9][..],
        &[0xFF, 0x00, 0xFF, 0xFF, 0xD9],
    ]
    .concat();
    whole(jpeg_length, &v);
    assert_eq!(len(jpeg_length, &v[1..]), None);
}

#[test]
fn zip_finds_its_own_directory_end() {
    let end = |cd_size: u32, cd_off: u32, comment: u16| {
        let mut e = b"PK\x05\x06\0\0\0\0\0\0\0\0".to_vec();
        e.extend(le32(cd_size));
        e.extend(le32(cd_off));
        e.extend(le16(comment));
        e
    };
    // A nested archive's end comes first, and is not this one's.
    let mut v = vec![1u8; 30];
    v.extend(end(4, 8, 0));
    v.extend([2u8; 20]);
    let at = v.len() as u32;
    v.extend(end(20, at - 20, 2));
    v.extend(b"hi");
    whole(zip_length, &v);
    // With fields of 64 bits, the last end is taken.
    let mut v = vec![1u8; 10];
    v.extend(end(0xFFFF_FFFF, 0, 0));
    v.extend(end(0, 0xFFFF_FFFF, 1));
    v.push(9);
    assert_eq!(len(zip_length, &v), Some(v.len() as u64));
    assert_eq!(len(zip_length, &[1u8; 50]), None);
}

#[test]
fn flv_walks_its_tags() {
    let mut v = b"FLV\x01\x05\0\0\0\x09\0\0\0\0".to_vec();
    v.extend([9, 0, 0, 3, 0, 0, 0, 0, 0, 0, 0, 1, 2, 3]);
    v.extend(be32(14));
    assert_eq!(len(flv_length, &v), Some(v.len() as u64));
    assert_eq!(len(flv_length, &[&v[..], b"x"].concat()), Some(v.len() as u64));
    v[8] = 8;
    assert_eq!(len(flv_length, &v), None);
}

#[test]
fn rar_of_both_versions() {
    let mut v = b"Rar!\x1a\x07\x00".to_vec();
    v.extend([0, 0, 0x74, 0, 0x80, 11, 0, 5, 0, 0, 0]); // a file block with 5 bytes
    v.extend([1u8; 5]);
    v.extend([0, 0, 0x7B, 0, 0, 7, 0]);
    whole(rar_length, &v);

    let mut v = b"Rar!\x1a\x07\x01\x00".to_vec();
    // A file header with an extra area and data, both by size.
    v.extend([0, 0, 0, 0, 5, 2, 3, 1, 4, 9]);
    v.extend([1u8; 4]);
    v.extend([0, 0, 0, 0, 3, 5, 0, 0]);
    whole(rar_length, &v);
    v[6] = 2;
    assert_eq!(len(rar_length, &v), None);
}

#[test]
fn zstd_and_lz4_frames() {
    // Single segment, checksum; a run of one byte, then a last raw block of 4 bytes.
    let mut v = vec![0x28, 0xB5, 0x2F, 0xFD, 0x24, 9];
    v.extend([0x42, 0, 0, 7]);
    v.extend([0x21, 0, 0, 1, 2, 3, 4]);
    v.extend([0u8; 4]);
    whole(zstd_length, &v);
    v[6] = 0x46;
    assert_eq!(len(zstd_length, &v), None);

    // Block checksums, content size and content checksum.
    let mut v = vec![0x04, 0x22, 0x4D, 0x18, 0x5C, 0x40];
    v.extend([0u8; 9]);
    v.extend(le32(0x8000_0003));
    v.extend([1, 2, 3, 0, 0, 0, 0]);
    v.extend([0u8; 8]);
    whole(lz4_length, &v);
    v[4] = 0x9C;
    assert_eq!(len(lz4_length, &v), None);
}

#[test]
fn rtf_closes_its_group() {
    whole(rtf_length, b"{\\rtf1 a\\}b{c}\\\\}");
    assert_eq!(len(rtf_length, b"}{"), None);
}

#[test]
fn mpeg_audio_frames() {
    assert_eq!(frame_length(&[0xFF, 0xFB, 0x90, 0x00]), Some(417));
    assert_eq!(frame_length(&[0xFF, 0xFB, 0x92, 0x00]), Some(418));
    assert_eq!(frame_length(&[0xFF, 0xFF, 0x10, 0x00]), Some(32)); // Layer I
    assert_eq!(frame_length(&[0xFF, 0xFD, 0x10, 0x00]), Some(104)); // Layer II
    assert_eq!(frame_length(&[0xFF, 0xF3, 0x10, 0x00]), Some(26)); // MPEG 2
    assert_eq!(frame_length(&[0xFF, 0xE3, 0x10, 0x00]), Some(52)); // MPEG 2.5
    for bad in [
        [0xFE, 0xFB, 0x90, 0],
        [0xFF, 0xEB, 0x90, 0],
        [0xFF, 0xF9, 0x90, 0],
        [0xFF, 0xFB, 0xF0, 0],
        [0xFF, 0xFB, 0x00, 0],
        [0xFF, 0xFB, 0x9C, 0],
    ] {
        assert_eq!(frame_length(&bad), None);
    }
    let mut frame = vec![0u8; 417];
    put(&mut frame, 0, &[0xFF, 0xFB, 0x90, 0x00]);
    let audio = frame.repeat(8);
    assert_eq!(len(mp3_raw_length, &[&audio[..], b"xyz1"].concat()), Some(8 * 417));
    assert_eq!(len(mp3_raw_length, &audio[417..]), None);
    // A tag of 5 bytes before, and a trailer after.
    let mut v = b"ID3\x03\0\0\0\0\0\x05abcde".to_vec();
    v.extend(&audio[..3 * 417]);
    v.extend(b"TAG");
    v.extend([0u8; 125]);
    whole(mp3_length, &v);
    assert_eq!(len(mp3_length, &v[..15 + 2 * 417 + 10]), None);
}

#[test]
fn fixed_headers_give_the_size() {
    let mut v = vec![0u8; 4096 + 65536];
    put(&mut v, 0, b"ElfFile\0");
    put(&mut v, 0x20, &le32(0x80));
    put(&mut v, 0x28, &le16(0x1000));
    put(&mut v, 0x2A, &le16(1));
    whole(evtx_length, &v);

    let mut v = b"AT&TFORM\0\0\0\x08DJVU".to_vec();
    v.extend([0u8; 4]);
    whole(djvu_length, &v);

    let mut v = vec![0u8; 4096 * 2];
    put(&mut v, 0, b"regf");
    put(&mut v, 0x14, &le32(1));
    put(&mut v, 0x28, &le32(4096));
    whole(regf_length, &v);
    put(&mut v, 0x28, &le32(4095));
    assert_eq!(len(regf_length, &v), None);

    let mut v = vec![0u8; 2048];
    put(&mut v, 0x20, &le32(1024));
    put(&mut v, 0x28, &le32(2));
    whole(pdb_length, &v);
    put(&mut v, 0x20, &le32(1000));
    assert_eq!(len(pdb_length, &v), None);

    let mut v = vec![0u8; 0x80];
    put(&mut v, 0, b"dex\n035\0");
    put(&mut v, 0x20, &le32(0x80));
    put(&mut v, 0x24, &le32(0x70));
    put(&mut v, 0x28, &le32(0x1234_5678));
    whole(dex_length, &v);

    let mut v = vec![0u8; 132];
    put(&mut v, 0, &be32(132));
    whole(icc_length, &v);
    put(&mut v, 0, &be32(130));
    assert_eq!(len(icc_length, &v), None);

    let mut v = vec![0u8; 120];
    put(&mut v, 0, &be32(9994));
    put(&mut v, 24, &be32(60));
    put(&mut v, 28, &le32(1000));
    whole(shp_length, &v);

    let mut v = vec![0u8; 200];
    put(&mut v, 0, b"!BDN");
    put(&mut v, 8, b"SM");
    put(&mut v, 10, &le16(23));
    put(&mut v, 0xB8, &200u64.to_le_bytes());
    whole(pst_length, &v);
    put(&mut v, 10, &le16(15));
    assert_eq!(len(pst_length, &v), None);

    let mut v = vec![0u8; 100];
    put(&mut v, 12, &le32(4096));
    put(&mut v, 22, &le16(12));
    put(&mut v, 28, &le16(4));
    put(&mut v, 40, &100u64.to_le_bytes());
    whole(squashfs_length, &v);
    put(&mut v, 22, &le16(13));
    assert_eq!(len(squashfs_length, &v), None);
}

#[test]
fn wmf_with_and_without_a_placeable_header() {
    let mut v = vec![0u8; 40];
    put(&mut v, 0, &[1, 0, 9, 0, 0, 3]);
    put(&mut v, 6, &le32(20));
    whole(wmf_length, &v);
    let placed = [&[0xD7, 0xCD, 0xC6, 0x9A][..], &[0u8; 18], &v].concat();
    whole(wmf_length, &placed);
    v[4] = 1;
    assert_eq!(len(wmf_length, &v), None);
}

#[test]
fn psd_raw_and_packed() {
    // Three channels of 10 by 2 pixels of 8 bits.
    let mut v = b"8BPS\0\x01\0\0\0\0\0\0\0\x03".to_vec();
    v.extend(be32(2));
    v.extend(be32(10));
    v.extend([0, 8, 0, 3]);
    v.extend(be32(2));
    v.extend([0u8; 2]);
    v.extend(be32(0));
    v.extend(be32(1));
    v.push(0);
    let head = v.clone();
    v.extend([0, 0]);
    v.extend([5u8; 60]);
    whole(psd_length, &v);
    // Packed: a byte count for each of six lines.
    let mut v = head.clone();
    v.extend([0, 1]);
    v.extend([0, 1, 0, 2, 0, 3, 0, 0, 0, 0, 0, 1]);
    v.extend([5u8; 7]);
    whole(psd_length, &v);
    let mut v = head;
    v.extend([0, 2]);
    assert_eq!(len(psd_length, &v), None);
}

#[test]
fn captures() {
    let mut v = vec![0xD4, 0xC3, 0xB2, 0xA1];
    v.extend([0u8; 12]);
    v.extend(le32(100));
    v.extend([0u8; 4]);
    v.extend([0u8; 8]);
    v.extend(le32(6));
    v.extend(le32(9));
    v.extend([1u8; 6]);
    whole(pcap_length, &v);
    v[0] = 0;
    assert_eq!(len(pcap_length, &v), None);

    let mut v = vec![0x0A, 0x0D, 0x0D, 0x0A];
    v.extend(be32(16));
    v.extend(be32(0x1A2B_3C4D));
    v.extend(be32(16));
    v.extend(be32(6));
    v.extend(be32(12));
    v.extend(be32(12));
    assert_eq!(len(pcapng_length, &v), Some(28));
    // A block whose two lengths differ ends the capture.
    let last = v.len() - 1;
    v[last] = 16;
    assert_eq!(len(pcapng_length, &v), Some(16));
}

/// A font with one table of `size` bytes, whose directory is at `at` of a file.
fn font(at: u32, size: u32) -> Vec<u8> {
    let mut v = vec![0, 1, 0, 0, 0, 1, 0, 16, 0, 0, 0, 0];
    v.extend(b"cmap\0\0\0\0");
    v.extend(be32(at + 28));
    v.extend(be32(size));
    v.extend(vec![3u8; (size as usize + 3) / 4 * 4]);
    v
}

#[test]
fn fonts_and_collections() {
    let mut v = font(0, 5);
    whole(sfnt_length, &v);
    v[7] = 32;
    assert_eq!(len(sfnt_length, &v), None);
    let mut v = b"ttcf\0\x01\0\0\0\0\0\x02".to_vec();
    v.extend(be32(20));
    v.extend(be32(52));
    v.extend(font(20, 4));
    v.extend(font(52, 7));
    whole(ttc_length, &v);
}

#[test]
fn midi_walks_its_tracks() {
    let mut v = b"MThd\0\0\0\x06\0\0\0\x01\0\x60".to_vec();
    v.extend(b"MTrk\0\0\0\x04\0\xFF\x2F\0");
    whole(midi_length, &v);
    v[7] = 7;
    assert_eq!(len(midi_length, &v), None);
}

#[test]
fn icons_end_with_their_furthest_image() {
    let mut v = vec![0, 0, 1, 0, 1, 0];
    v.extend([16, 16, 0, 0, 1, 0, 32, 0]);
    v.extend(le32(50));
    v.extend(le32(22));
    v.extend(le32(40));
    v.extend([0u8; 46]);
    whole(icocur_length, &v);
    v[9] = 1;
    assert_eq!(len(icocur_length, &v), None);
    v[9] = 0;
    v[22] = 41;
    assert_eq!(len(icocur_length, &v), None);
}

#[test]
fn wasm_walks_its_sections() {
    let mut v = b"\0asm\x01\0\0\0".to_vec();
    v.extend([1, 3, 9, 9, 9]);
    v.extend([10, 0x82, 0x00, 7, 7]);
    assert_eq!(len(wasm_length, &v), Some(v.len() as u64));
    assert_eq!(len(wasm_length, &[&v[..], &[13, 1, 1]].concat()), Some(v.len() as u64));
    assert_eq!(len(wasm_length, &v[..8]), None);
}

#[test]
fn asf_walks_its_objects() {
    let head = [
        0x30, 0x26, 0xB2, 0x75, 0x8E, 0x66, 0xCF, 0x11, 0xA6, 0xD9, 0x00, 0xAA, 0x00, 0x62, 0xCE,
        0x6C,
    ];
    let mut v = head.to_vec();
    v.extend(30u64.to_le_bytes());
    v.extend([0u8; 6]);
    whole(asf_length, &v);
    let two = [&v[..], &v[..]].concat();
    whole(|s, a, b| asf_length(s, a, b).map(|n| n.filter(|&x| x == 60)), &two);
}

#[test]
fn ogg_walks_its_pages() {
    let mut v = b"OggS\0".to_vec();
    v.extend([0u8; 21]);
    v.extend([2, 3, 4]);
    v.extend([1u8; 7]);
    whole(ogg_length, &v);
    v[4] = 1;
    assert_eq!(len(ogg_length, &v), None);
}

#[test]
fn matroska_with_known_and_unknown_sizes() {
    let head = [0x1A, 0x45, 0xDF, 0xA3, 0x82, 1, 2, 0x18, 0x53, 0x80, 0x67];
    let mut v = head.to_vec();
    v.extend([0x40, 0x03, 5, 5, 5]);
    whole(ebml_length, &v);
    // The size is unknown: two children, of two and one bytes.
    let mut v = head.to_vec();
    v.extend([0xFF, 0xEC, 0x82, 0, 0, 0x1F, 0x43, 0xB6, 0x75, 0x81, 9]);
    assert_eq!(len(ebml_length, &v), Some(v.len() as u64));
    assert_eq!(len(ebml_length, &v[..13]), None);
}

/// A TIFF of one image whose strips are 6 bytes at 100 and 4 bytes at 90.
fn tiff(be: bool) -> Vec<u8> {
    let w16 = |n: u16| if be { n.to_be_bytes() } else { n.to_le_bytes() };
    let w32 = |n: u32| if be { n.to_be_bytes() } else { n.to_le_bytes() };
    let mut v = if be { b"MM".to_vec() } else { b"II".to_vec() };
    v.extend(w16(42));
    v.extend(w32(8));
    v.extend(w16(2));
    for (tag, at) in [(273u16, 60u32), (279, 70)] {
        v.extend(w16(tag));
        v.extend(w16(if tag == 273 { 4 } else { 3 }));
        v.extend(w32(2));
        if tag == 273 {
            v.extend(w32(at));
        } else {
            v.extend(w16(6));
            v.extend(w16(4));
        }
    }
    v.extend(w32(0));
    v.resize(106, 0);
    put(&mut v, 60, &w32(100));
    put(&mut v, 64, &w32(90));
    v
}

#[test]
fn tiff_ends_with_what_it_refers_to() {
    whole(tiff_length, &tiff(false));
    whole(tiff_length, &tiff(true));
    let mut v = tiff(false);
    v[2] = 41;
    assert_eq!(len(tiff_length, &v), None);
    // A further directory behind the strips makes it longer, and one that leads back does not.
    let mut v = tiff(false);
    put(&mut v, 34, &le32(106));
    v.extend([0, 0]);
    v.extend(le32(8));
    assert_eq!(len(tiff_length, &v), Some(112));
    assert_eq!(len(tiff_length, &v[..111]), Some(106));
}

#[test]
fn big_tiff() {
    let mut v = b"II\x2B\0\x08\0\0\0".to_vec();
    v.extend(16u64.to_le_bytes());
    v.extend(1u64.to_le_bytes());
    // Three numbers of 8 bytes, out of line at 60.
    v.extend(le16(256));
    v.extend(le16(16));
    v.extend(3u64.to_le_bytes());
    v.extend(60u64.to_le_bytes());
    v.extend(0u64.to_le_bytes());
    v.resize(84, 0);
    whole(tiff_length, &v);
    v[4] = 4;
    assert_eq!(len(tiff_length, &v), None);
}

#[test]
fn pe_sections_and_certificates() {
    let mut v = vec![0u8; 600];
    put(&mut v, 0, b"MZ");
    put(&mut v, 0x3C, &le32(64));
    put(&mut v, 64, b"PE\0\0");
    put(&mut v, 70, &le16(1));
    put(&mut v, 84, &le16(136));
    put(&mut v, 88, &le16(0x10B));
    let sec = 88 + 136;
    put(&mut v, sec + 16, &le32(100));
    put(&mut v, sec + 20, &le32(400));
    assert_eq!(len(pe_length, &v), Some(500));
    // A certificate behind the sections.
    put(&mut v, 88 + 92, &le32(16));
    put(&mut v, 88 + 96 + 32, &le32(520));
    put(&mut v, 88 + 96 + 36, &le32(80));
    whole(pe_length, &v);
    put(&mut v, 64, b"NE");
    assert_eq!(len(pe_length, &v), None);
}

#[test]
fn elf_of_both_widths() {
    let mut v = vec![0u8; 200];
    put(&mut v, 0, b"\x7FELF\x02\x01");
    put(&mut v, 0x28, &72u64.to_le_bytes());
    put(&mut v, 0x3A, &le16(64));
    put(&mut v, 0x3C, &le16(2));
    whole(elf_length, &v);
    let mut v = vec![0u8; 140];
    put(&mut v, 0, b"\x7FELF\x01\x02");
    put(&mut v, 0x20, &be32(60));
    put(&mut v, 0x2E, &[0, 40, 0, 2]);
    whole(elf_length, &v);
    v[5] = 3;
    assert_eq!(len(elf_length, &v), None);
}

#[test]
fn macho_segments_and_tables() {
    let mut v = vec![0xCF, 0xFA, 0xED, 0xFE];
    v.extend([0u8; 12]);
    v.extend(le32(3));
    v.extend(le32(72 + 24 + 16));
    v.extend([0u8; 8]);
    v.extend(le32(0x19));
    v.extend(le32(72));
    v.extend([0u8; 32]);
    v.extend(150u64.to_le_bytes());
    v.extend(10u64.to_le_bytes());
    v.extend([0u8; 16]);
    v.extend(le32(2));
    v.extend(le32(24));
    for n in [160u32, 1, 176, 4] {
        v.extend(le32(n));
    }
    v.extend(le32(0x1D));
    v.extend(le32(16));
    v.extend(le32(180));
    v.extend(le32(20));
    v.resize(200, 0);
    whole(macho_length, &v);
    // A command that is not a multiple of four bytes.
    v[36] = 70;
    assert_eq!(len(macho_length, &v), None);
}

#[test]
fn aac_walks_its_frames() {
    let frame = [0xFF, 0xF1, 0x50, 0x00, 0x01, 0x20, 0x00, 1, 2];
    let v = frame.repeat(4);
    assert_eq!(len(aac_length, &v), Some(36));
    assert_eq!(len(aac_length, &v[..27]), None);
    // A frame of another sample rate ends the stream.
    let mut v = frame.repeat(6);
    v[5 * 9 + 2] = 0x4C;
    assert_eq!(len(aac_length, &v), Some(45));
}

#[test]
fn mpeg_streams() {
    let mut v = vec![0u8; 188 * 8 + 5];
    for i in 0..8 {
        v[188 * i] = 0x47;
    }
    assert_eq!(len(mpegts_length, &v), Some(188 * 8));
    v[188 * 7] = 0;
    assert_eq!(len(mpegts_length, &v), None);

    let mut v = vec![0, 0, 1, 0xBA, 0x44, 0, 0, 0, 0, 0, 0, 0, 0, 2, 0xFF, 0xFF]; // with stuffing
    v.extend([0, 0, 1, 0xBA, 0x21, 0, 0, 0, 0, 0, 0, 0]);
    v.extend([0, 0, 1, 0xE0, 0, 3, 7, 7, 7]);
    let packets = v.clone();
    v.extend([0, 0, 1, 0xB9]);
    whole(mpegps_length, &v);
    assert_eq!(len(mpegps_length, &packets), None);
    // Cut off after enough packets, the stream ends with the last whole one.
    let twice = [&packets[..], &packets[..], &[0, 0, 1]].concat();
    assert_eq!(len(mpegps_length, &twice), Some(2 * packets.len() as u64));
}

#[test]
fn eps_sections() {
    let mut v = vec![0u8; 90];
    put(&mut v, 0, &[0xC5, 0xD0, 0xD3, 0xC6]);
    put(&mut v, 4, &le32(30));
    put(&mut v, 8, &le32(20));
    assert_eq!(len(eps_length, &v), Some(50));
    put(&mut v, 20, &le32(60));
    put(&mut v, 24, &le32(30));
    whole(eps_length, &v);
    put(&mut v, 4, &le32(29));
    assert_eq!(len(eps_length, &v), None);
}

#[test]
fn ar_walks_its_members() {
    let member = |size: &str| format!("{:<48}{:<10}`\n", "name/", size);
    let v = format!("!<arch>\n{}abc\n{}xy", member("3"), member("2"));
    assert_eq!(len(ar_length, v.as_bytes()), Some(v.len() as u64));
    let junk = format!("{v}junk");
    assert_eq!(len(ar_length, junk.as_bytes()), Some(v.len() as u64));
    let bad = format!("!<arch>\n{}abc\n", member("x"));
    assert_eq!(len(ar_length, bad.as_bytes()), None);
}

fn tar_member(size: &[u8]) -> Vec<u8> {
    let mut b = vec![0u8; 512];
    put(&mut b, 0, b"name");
    put(&mut b, 124, size);
    put(&mut b, 257, b"ustar");
    let sum: u32 = b.iter().map(|&x| x as u32).sum::<u32>() + 8 * 0x20;
    let text = format!("{:06o}\0 ", sum);
    put(&mut b, 148, text.as_bytes());
    b
}

#[test]
fn tar_walks_to_its_zero_blocks() {
    let mut v = tar_member(b"00000000003\0");
    v.extend([9u8; 512]);
    v.extend(tar_member(&[0x80, 0, 0, 0, 0, 0, 0, 0, 0, 0, 2, 0]));
    v.extend([9u8; 512]);
    let members = v.len() as u64;
    assert_eq!(len(tar_length, &v), Some(members));
    v.extend([0u8; 512]);
    assert_eq!(len(tar_length, &v), Some(members + 512));
    v.extend([0u8; 600]);
    assert_eq!(len(tar_length, &v), Some(members + 1024));
    // A wrong checksum.
    v[0] = b'x';
    assert_eq!(len(tar_length, &v), None);
    assert_eq!(len(tar_length, &[0u8; 1024]), None);
}

fn cpio_entry(name: &str, data: &[u8]) -> Vec<u8> {
    let mut v = b"070701".to_vec();
    for i in 0..13 {
        let n = match i {
            6 => data.len(),
            11 => name.len() + 1,
            _ => 0,
        };
        v.extend(format!("{:08X}", n).bytes());
    }
    v.extend(name.bytes());
    v.push(0);
    while v.len() % 4 != 0 {
        v.push(0);
    }
    v.extend(data);
    while v.len() % 4 != 0 {
        v.push(0);
    }
    v
}

#[test]
fn tar_numbers_of_any_width() {
    assert_eq!(parse_tar_numeric(b"0000017\0"), Some(15));
    assert_eq!(parse_tar_numeric(b" 17 "), Some(15));
    assert_eq!(parse_tar_numeric(b"\0\0 "), Some(0));
    assert_eq!(parse_tar_numeric(b"18"), None);
    assert_eq!(parse_tar_numeric(b"+17"), None);
    assert_eq!(parse_tar_numeric(b""), None);
    assert_eq!(parse_tar_numeric(&[0x80, 1]), Some(0x8001));
    assert_eq!(parse_tar_numeric(&[0x80, 9, 0, 0, 0, 0, 0, 0, 1, 2]), Some(0x0102));
}

#[test]
fn rounding_up_saturates() {
    assert_eq!(round_up4(0), 0);
    assert_eq!(round_up4(5), 8);
    assert_eq!(round_up4(8), 8);
    assert_eq!(round_up4(u64::MAX), u64::MAX - 3);
}

#[test]
fn cpio_walks_to_its_trailer() {
    let entry = cpio_entry("file", b"hello");
    let end = cpio_entry("TRAILER!!!", b"");
    let v = [&entry[..], &end[..]].concat();
    assert_eq!(len(cpio_length, &v), Some(v.len() as u64));
    assert_eq!(len(cpio_length, &[&v[..], &[0; 9]].concat()), Some(v.len() as u64));
    assert_eq!(len(cpio_length, &entry), None);
    assert_eq!(len(cpio_length, &end), None);
    // A number with a sign is none.
    let mut v = v;
    v[54] = b'+';
    assert_eq!(len(cpio_length, &v), None);
}

/// What sizing gives where the byte at `bad` cannot be read.
fn with_fault(f: Sizer, bytes: &[u8], bad: u64) -> Length {
    let fault = Fault { start: bad, end: bad + 1 };
    let src = Source::with_faults(bytes.to_vec(), vec![fault]);
    f(&src, 0, src.size())
}

#[test]
fn only_bytes_that_are_looked_at_have_to_be_readable() {
    let entry = cpio_entry("file", b"hello");
    let v = [&entry[..], &cpio_entry("TRAILER!!!", b"")[..]].concat();
    let n = v.len() as u64;
    // The header, the name, the data, and the header of the trailer.
    assert_eq!(with_fault(cpio_length, &v, 109), Err(ReadError { offset: 109 }));
    assert_eq!(with_fault(cpio_length, &v, 110), Err(ReadError { offset: 110 }));
    assert_eq!(with_fault(cpio_length, &v, 117), Ok(Some(n)));
    let trailer = entry.len() as u64;
    assert_eq!(with_fault(cpio_length, &v, trailer), Err(ReadError { offset: trailer }));

    let mut tar = tar_member(b"00000000003\0");
    tar.extend([9u8; 512]);
    assert_eq!(with_fault(tar_length, &tar, 511), Err(ReadError { offset: 511 }));
    assert_eq!(with_fault(tar_length, &tar, 512), Ok(Some(1024)));

    // All of a GIF's image descriptor is read, but not its colour table.
    let mut gif = b"GIF89a\x01\x00\x01\x00\x00\x00\x00".to_vec();
    gif.extend([0x2C, 0, 0, 0, 0, 1, 0, 1, 0, 0x80, 1, 2, 3, 4, 5, 6, 2, 1, 7, 0, 0x3B]);
    assert_eq!(with_fault(gif_length, &gif, 14), Err(ReadError { offset: 14 }));
    assert_eq!(with_fault(gif_length, &gif, 22), Err(ReadError { offset: 22 }));
    assert_eq!(with_fault(gif_length, &gif, 23), Ok(Some(34)));

    let mut mp4 = [&be32(16)[..], b"ftypisom", &[0; 4], &be32(40)[..], b"mdat"].concat();
    mp4.extend([0u8; 32]);
    assert_eq!(with_fault(mp4_length, &mp4, 32), Ok(Some(56)));
    assert_eq!(with_fault(mp4_length, &mp4, 31), Err(ReadError { offset: 31 }));
    assert_eq!(with_fault(mp4_length, &mp4, 15), Err(ReadError { offset: 15 }));
}

#[test]
fn blend_walks_to_its_end_block() {
    let mut v = b"BLENDER_v279".to_vec();
    v.extend(b"DATA");
    v.extend(le32(3));
    v.extend([0u8; 12 + 3]);
    v.extend(b"ENDB");
    v.extend([0u8; 16]);
    whole(blend_length, &v);
    let mut v = b"BLENDER-V279".to_vec();
    v.extend(b"ENDB");
    v.extend([0u8; 20]);
    whole(blend_length, &v);
    v[7] = b'+';
    assert_eq!(len(blend_length, &v), None);
}

#[test]
fn compound_files_end_with_their_last_used_sector() {
    let mut v = vec![0u8; 512 * 4];
    put(&mut v, 0, &[0xD0, 0xCF, 0x11, 0xE0, 0xA1, 0xB1, 0x1A, 0xE1]);
    put(&mut v, 28, &[0xFE, 0xFF, 9, 0]);
    put(&mut v, 44, &le32(1));
    put(&mut v, 68, &le32(0xFFFF_FFFE));
    for i in 0..109 {
        put(&mut v, 76 + 4 * i, &le32(0xFFFF_FFFF));
    }
    put(&mut v, 76, &le32(0));
    for i in 0..128 {
        put(&mut v, 512 + 4 * i, &le32(if i < 3 { 0xFFFF_FFFE } else { 0xFFFF_FFFF }));
    }
    whole(cfbf_length, &v);
    put(&mut v, 44, &le32(2));
    assert_eq!(len(cfbf_length, &v), None);
}

#[test]
fn nes_banks() {
    let mut v = b"NES\x1a\x01\x01\x04\0".to_vec();
    v.resize(16 + 512 + 16384 + 8192, 0);
    whole(nes_length, &v);
    // NES 2.0: the counts have upper nibbles, and other ROMs make the size unknown.
    v[7] = 8;
    v[14] = 1;
    assert_eq!(len(nes_length, &v), None);
    v[14] = 0;
    v[9] = 0x0F;
    assert_eq!(len(nes_length, &v), None);
    v[9] = 0;
    assert_eq!(len(nes_length, &v), Some(v.len() as u64));
    v[4] = 0;
    assert_eq!(len(nes_length, &v), None);
}

#[test]
fn mp4_walks_its_boxes() {
    let mut v = be32(12).to_vec();
    v.extend(b"ftypisom");
    v.extend(be32(1));
    v.extend(b"mdat");
    v.extend(20u64.to_be_bytes());
    v.extend([7u8; 4]);
    assert_eq!(len(mp4_length, &v), Some(32));
    let junk = [&v[..], &[0, 0, 0, 9, 1, 2, 3, 4, 5]].concat();
    assert_eq!(len(mp4_length, &junk), Some(32));
    // A box to the end of the file, and one that is cut off.
    let mut open = v[..12].to_vec();
    open.extend(be32(0));
    open.extend(b"mdat12345");
    assert_eq!(len(mp4_length, &open), Some(open.len() as u64));
    assert_eq!(len(mp4_length, &v[..30]), Some(30));
    v[4] = b'g';
    assert_eq!(len(mp4_length, &v), None);
}

fn by_extent(extent: Extent<'static>, max_size: u64, bytes: &[u8]) -> Option<u64> {
    let sig = Signature {
        name: "t",
        ext: "t",
        magic: b"t",
        magic_offset: 0,
        secondary: None,
        extent,
        max_size,
        volume: false,
    };
    let src = Source::new(bytes.to_vec());
    file_length(&src, &sig, 0, src.size()).unwrap()
}

#[test]
fn extents_by_rule() {
    let eof = Extent::Footer {
        marker: b"%%EOF",
        trailing: 2,
    };
    assert_eq!(by_extent(eof, 99, b"abc%%EOF\r\n\n"), Some(10));
    assert_eq!(by_extent(eof, 99, b"abc%%EOFxx"), Some(8));
    assert_eq!(by_extent(eof, 99, b"abc%%EO"), None);
    // The size cap of the type is a limit too.
    assert_eq!(by_extent(eof, 7, b"abc%%EOF"), None);
    assert_eq!(by_extent(eof, 9, b"abc%%EOF\r\n"), Some(9));

    let size = Extent::HeaderSizeLe32 { offset: 1 };
    assert_eq!(by_extent(size, 99, &[9, 6, 0, 0, 0, 9]), Some(6));
    assert_eq!(by_extent(size, 99, &[9, 7, 0, 0, 0, 9]), None);
    assert_eq!(by_extent(size, 99, &[9, 0, 0, 0, 0, 9]), None);

    assert_eq!(by_extent(Extent::RiffSize, 99, b"RIFF\x02\0\0\0ab"), Some(10));
    assert_eq!(by_extent(Extent::FormSize, 99, b"FORM\0\0\0\x02ab"), Some(10));
    assert_eq!(by_extent(Extent::FormSize, 99, b"FORM\0\0\0\0ab"), None);

    let mut db = vec![0u8; 1024];
    put(&mut db, 16, &[2, 0]);
    put(&mut db, 28, &be32(2));
    assert_eq!(by_extent(Extent::Sqlite, 1 << 20, &db), Some(1024));
    put(&mut db, 16, &[0, 1]);
    assert_eq!(by_extent(Extent::Sqlite, 1 << 20, &db), None);

    let mut z = vec![0u8; 50];
    put(&mut z, 12, &10u64.to_le_bytes());
    put(&mut z, 20, &8u64.to_le_bytes());
    assert_eq!(by_extent(Extent::SevenZip, 99, &z), Some(50));
    put(&mut z, 20, &u64::MAX.to_le_bytes());
    assert_eq!(by_extent(Extent::SevenZip, 99, &z), None);
}

#[test]
fn a_length_is_not_guessed_past_an_unreadable_byte() {
    let mut v = b"{\\rtf1 a}".to_vec();
    v.extend([0u8; 4]);
    let src = Source::with_faults(v, vec![Fault { start: 5, end: 6 }]);
    assert_eq!(rtf_length(&src, 0, src.size()), Err(ReadError { offset: 5 }));
}

#[test]
fn an_unreadable_byte_that_is_not_looked_at_does_not_matter() {
    let mut v = vec![0u8; 40];
    put(&mut v, 0, b"FWS\x05");
    put(&mut v, 4, &le32(20));
    let src = Source::with_faults(v.clone(), vec![Fault { start: 8, end: 40 }]);
    assert_eq!(swf_length(&src, 0, src.size()), Ok(Some(20)));
    let src = Source::with_faults(v, vec![Fault { start: 7, end: 8 }]);
    assert_eq!(swf_length(&src, 0, src.size()), Err(ReadError { offset: 7 }));
}

/// `bytes`, and zeros up to `total`.
fn filled(bytes: &[u8], total: usize) -> Vec<u8> {
    let mut v = bytes.to_vec();
    v.resize(total, 0);
    v
}

#[test]
fn what_is_scanned_is_read_piece_by_piece() {
    let err = |offset: u64| Err(ReadError { offset });
    // A group that closes in the first 64 KiB, and one that does not.
    let v = filled(b"{\\rtf1 a}", 200_000);
    assert_eq!(with_fault(rtf_length, &v, 9), err(9));
    assert_eq!(with_fault(rtf_length, &v, 65_535), err(65_535));
    assert_eq!(with_fault(rtf_length, &v, 65_536), Ok(Some(9)));
    let mut v = filled(b"{", 200_000);
    v[65_536] = b'}';
    assert_eq!(with_fault(rtf_length, &v, 131_071), err(131_071));
    assert_eq!(with_fault(rtf_length, &v, 131_072), Ok(Some(65_537)));

    // A JPEG is read by the mebibyte, from behind its first marker, and a byte more.
    const MIB: u64 = 1 << 20;
    let v = filled(&[0xFF, 0xD8, 0xFF, 1, 2, 0xFF, 0xD9], 3 << 20);
    assert_eq!(with_fault(jpeg_length, &v, 7), err(7));
    assert_eq!(with_fault(jpeg_length, &v, MIB + 2), err(MIB + 2));
    assert_eq!(with_fault(jpeg_length, &v, MIB + 3), Ok(Some(7)));
    // An end that lies across two reads, and one behind a nested image that does.
    let mut v = filled(&[0xFF, 0xD8, 0xFF], 3 << 20);
    put(&mut v, MIB as usize + 1, &[0xFF, 0xD9]);
    assert_eq!(with_fault(jpeg_length, &v, MIB + 3), Ok(Some(MIB + 3)));
    put(&mut v, MIB as usize + 2, &[0xD8, 0xFF, 0xD9, 0xFF, 0xD9]);
    assert_eq!(with_fault(jpeg_length, &v, 2 * MIB + 2), err(2 * MIB + 2));
    assert_eq!(with_fault(jpeg_length, &v, 2 * MIB + 3), Ok(Some(MIB + 7)));

    // A ZIP by the mebibyte too, and three bytes more.
    let mut end = b"PK\x05\x06\0\0\0\0\0\0\0\0".to_vec();
    end.extend(le32(10));
    end.extend(le32(20));
    end.extend(le16(0));
    let mut v = vec![0u8; 3 << 20];
    put(&mut v, 30, &end);
    assert_eq!(with_fault(zip_length, &v, MIB + 2), err(MIB + 2));
    assert_eq!(with_fault(zip_length, &v, MIB + 3), Ok(Some(52)));
    assert_eq!(with_fault(zip_length, b"PK", 1), err(1));
    let mut v = vec![0u8; 3 << 20];
    put(&mut end, 16, &le32(MIB as u32 - 12));
    put(&mut v, MIB as usize - 2, &end);
    assert_eq!(with_fault(zip_length, &v, 2 * MIB), Ok(Some(MIB + 20)));
    assert_eq!(with_fault(zip_length, &v, MIB + 19), err(MIB + 19));

    // Packets by 348 in a read of 64 KiB.
    let mut v = vec![0u8; 188 * 700];
    for k in 0..348 {
        v[188 * k] = 0x47;
    }
    assert_eq!(with_fault(mpegts_length, &v, 1), err(1));
    assert_eq!(with_fault(mpegts_length, &v, 65_535), err(65_535));
    assert_eq!(with_fault(mpegts_length, &v, 65_424 + 65_535), err(65_424 + 65_535));
    assert_eq!(with_fault(mpegts_length, &v, 65_424 + 65_536), Ok(Some(65_424)));
}

#[test]
fn all_before_a_size_is_read() {
    let sized = |extent: Extent<'static>, bad: u64| {
        let sig = Signature {
            name: "t",
            ext: "t",
            magic: b"t",
            magic_offset: 0,
            secondary: None,
            extent,
            max_size: 99,
            volume: false,
        };
        let mut v = vec![0u8; 40];
        v[8] = 20;
        v[15] = 20;
        let src = Source::with_faults(v, vec![Fault { start: bad, end: bad + 1 }]);
        file_length(&src, &sig, 0, src.size())
    };
    let le = Extent::HeaderSizeLe32 { offset: 8 };
    assert_eq!(sized(le, 0), Err(ReadError { offset: 0 }));
    assert_eq!(sized(le, 11), Err(ReadError { offset: 11 }));
    assert_eq!(sized(le, 12), Ok(Some(20)));
    let be = Extent::HeaderSizeBe32 { offset: 12 };
    assert_eq!(sized(be, 3), Err(ReadError { offset: 3 }));
    assert_eq!(sized(be, 16), Ok(Some(20)));
    let field = Extent::SizeField {
        offset: 8,
        width: 16,
        big_endian: false,
        mul: 1,
        add: 1,
    };
    assert_eq!(sized(field, 7), Err(ReadError { offset: 7 }));
    assert_eq!(sized(field, 10), Ok(Some(21)));
    // Where the image ends first, there is no size, nor where no offset is as large.
    let beyond = Extent::HeaderSizeLe32 { offset: 38 };
    assert_eq!(sized(beyond, 39), Err(ReadError { offset: 39 }));
    assert_eq!(sized(beyond, 40), Ok(None));
    let beyond = Extent::HeaderSizeLe32 { offset: usize::MAX };
    assert_eq!(sized(beyond, 40), Ok(None));
    let beyond = Extent::SizeField {
        offset: usize::MAX,
        width: 16,
        big_endian: false,
        mul: 1,
        add: 1,
    };
    assert_eq!(sized(beyond, 0), Ok(None));
}
