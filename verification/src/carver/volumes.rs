//! Images of whole volumes.

use crate::bytes::{
    be16, be32, be64, fit, is_text, le16, le32, le64, mul_wide, ord32, ord64, pow2_u64, power_of_two,
    rd_be16, rd_be32, rd_be64, rd_le16, rd_le32, rd_le64, rd_ord32, rd_ord64, text_at, within,
};
use crate::source::{Length, Source};
use vstd::arithmetic::power2::{is_pow2, pow2};
use vstd::prelude::*;

verus! {

/// The length of an ISO 9660 image at the beginning of `f`: the number of blocks times
/// their size, which the primary volume descriptor at 0x8000 gives, each in both
/// byte orders, and these agree. A block is a power of two from 512 to 8192.
pub open spec fn iso9660_len(f: Seq<u8>, avail: int) -> Option<int> {
    let d = f.subrange(0x8000, 0x8084);
    let blocks = le32(d, 80);
    let size = le16(d, 128);
    if f.len() < 0x8084 || d[0] != 1 || !text_at(d, 1, "CD001"@) || d[6] != 1 || blocks == 0
        || blocks != be32(d, 84) || size != be16(d, 130) || !is_pow2(size as int) || !(512 <= size
        <= 8192) || blocks * size < 0x8084 {
        None
    } else {
        fit(blocks * size, avail)
    }
}

/// ISO 9660 disc-image length.
pub fn iso9660_length(source: &Source, file_start: u64, limit: u64) -> (r: Length)
    requires
        source.spans(file_start, limit),
    ensures
        source.sizes(
            file_start,
            r,
            iso9660_len(source.tail(file_start as int), limit - file_start),
            limit - file_start,
        ),
        r is Err <==> source.faulty(file_start + 0x8000, 132),
{
    let d = match source.part(file_start, 0x8000, 132)? {
        Some(d) => d,
        None => return Ok(None),
    };
    let blocks: u64 = rd_le32(&d, 80) as u64;
    let size: u64 = rd_le16(&d, 128) as u64;
    if d[0] != 1 || !is_text(&d, 1, "CD001") || d[6] != 1 || blocks == 0 || blocks != rd_be32(
        &d,
        84,
    ) as u64 || size != rd_be16(&d, 130) as u64 || !power_of_two(size) || !(512 <= size && size
        <= 8192) {
        return Ok(None);
    }
    assert(0 <= blocks * size <= 0xFFFF_FFFF * 8192) by (nonlinear_arith)
        requires
            0 <= blocks <= 0xFFFF_FFFF,
            0 <= size <= 8192,
    ;
    let total: u64 = blocks * size;
    if total < 0x8084 {
        return Ok(None);
    }
    Ok(within(total, limit - file_start))
}

/// The length of a SquashFS image at the beginning of `f`, of version 4: the bytes it
/// says are used, which cover the superblock. The block size is two to the power of
/// a logarithm from 12 to 20.
pub open spec fn squashfs_len(f: Seq<u8>, avail: int) -> Option<int> {
    let h = f.subrange(0, 48);
    if f.len() < 48 || le16(h, 28) != 4 || !(12 <= le16(h, 22) <= 20) || le32(h, 12) != pow2(
        le16(h, 22) as nat,
    ) || le64(h, 40) < 96 {
        None
    } else {
        fit(le64(h, 40) as int, avail)
    }
}

/// SquashFS image length.
pub fn squashfs_length(source: &Source, file_start: u64, limit: u64) -> (r: Length)
    requires
        source.spans(file_start, limit),
    ensures
        source.sizes(
            file_start,
            r,
            squashfs_len(source.tail(file_start as int), limit - file_start),
            limit - file_start,
        ),
        r is Err <==> source.faulty(file_start as int, 48),
{
    let h = match source.part(file_start, 0, 48)? {
        Some(h) => h,
        None => return Ok(None),
    };
    let log: u16 = rd_le16(&h, 22);
    let used: u64 = rd_le64(&h, 40);
    if rd_le16(&h, 28) != 4 || !(12 <= log && log <= 20) {
        return Ok(None);
    }
    if rd_le32(&h, 12) as u64 != pow2_u64(log as u32) || used < 96 {
        return Ok(None);
    }
    Ok(within(used, limit - file_start))
}

/// A size of blocks: a power of two from `lo` to `hi`.
pub open spec fn block_size(n: int, lo: int, hi: int) -> bool {
    is_pow2(n) && lo <= n <= hi
}

/// Whether `n` is a power of two from `lo` to `hi`.
fn is_block_size(n: u64, lo: u64, hi: u64) -> (r: bool)
    ensures
        r == block_size(n as int, lo as int, hi as int),
{
    lo <= n && n <= hi && power_of_two(n)
}

/// The size of a volume of `count` blocks of `size` bytes, where it has room.
fn volume_size(count: u64, size: u64, avail: u64) -> (r: Option<u64>)
    requires
        count > 0,
        size > 0,
    ensures
        match r {
            Some(n) => fit(count * size, avail as int) == Some(n as int) && 0 < n <= avail,
            None => fit(count * size, avail as int) is None,
        },
{
    assert(count * size > 0) by (nonlinear_arith)
        requires
            count > 0,
            size > 0,
    ;
    let wide: u128 = mul_wide(count, size);
    if wide > avail as u128 {
        None
    } else {
        Some(wide as u64)
    }
}

/// The logarithm of the block size of an EROFS image: zero stands for 12.
pub open spec fn erofs_bits(raw: u8) -> int {
    if raw == 0 {
        12
    } else {
        raw as int
    }
}

/// The length of an EROFS image at the beginning of `f`: its blocks, of 2^9 to 2^16
/// bytes; the superblock is at 1024.
pub open spec fn erofs_len(f: Seq<u8>, avail: int) -> Option<int> {
    let h = f.subrange(0, 1088);
    let bits = erofs_bits(h[1036]);
    if f.len() < 1088 || le32(h, 1024) != 0xE0F5_E1E2 || !(9 <= bits <= 16) || le32(h, 1060) == 0 {
        None
    } else {
        fit(le32(h, 1060) * pow2(bits as nat), avail)
    }
}

/// EROFS filesystem image (`.erofs`) length.
pub fn erofs_length(source: &Source, file_start: u64, limit: u64) -> (r: Length)
    requires
        source.spans(file_start, limit),
    ensures
        source.sizes(
            file_start,
            r,
            erofs_len(source.tail(file_start as int), limit - file_start),
            limit - file_start,
        ),
        r is Err <==> source.faulty(file_start as int, 1088),
{
    let h = match source.part(file_start, 0, 1088)? {
        Some(h) => h,
        None => return Ok(None),
    };
    let bits: u32 = if h[1036] == 0 {
        12
    } else {
        h[1036] as u32
    };
    let blocks: u64 = rd_le32(&h, 1060) as u64;
    if rd_le32(&h, 1024) != 0xE0F5_E1E2 || !(9 <= bits && bits <= 16) || blocks == 0 {
        return Ok(None);
    }
    Ok(volume_size(blocks, pow2_u64(bits), limit - file_start))
}

/// The length of an F2FS image at the beginning of `f`: its blocks, of 2^9 to 2^16 bytes;
/// the superblock is at 1024.
pub open spec fn f2fs_len(f: Seq<u8>, avail: int) -> Option<int> {
    let h = f.subrange(0, 1072);
    if f.len() < 1072 || le32(h, 1024) != 0xF2F5_2010 || !(9 <= le32(h, 1040) <= 16) || le64(h, 1060)
        == 0 {
        None
    } else {
        fit(le64(h, 1060) * pow2(le32(h, 1040) as nat), avail)
    }
}

/// F2FS filesystem image (`.f2fs`) length.
pub fn f2fs_length(source: &Source, file_start: u64, limit: u64) -> (r: Length)
    requires
        source.spans(file_start, limit),
    ensures
        source.sizes(
            file_start,
            r,
            f2fs_len(source.tail(file_start as int), limit - file_start),
            limit - file_start,
        ),
        r is Err <==> source.faulty(file_start as int, 1072),
{
    let h = match source.part(file_start, 0, 1072)? {
        Some(h) => h,
        None => return Ok(None),
    };
    let bits: u32 = rd_le32(&h, 1040);
    let blocks: u64 = rd_le64(&h, 1060);
    if rd_le32(&h, 1024) != 0xF2F5_2010 || !(9 <= bits && bits <= 16) || blocks == 0 {
        return Ok(None);
    }
    Ok(volume_size(blocks, pow2_u64(bits), limit - file_start))
}

/// The length of a btrfs image at the beginning of `f`, on one device: what the superblock
/// at 64 KiB gives. The sizes of sectors and nodes are sane powers of two.
pub open spec fn btrfs_len(f: Seq<u8>, avail: int) -> Option<int> {
    let h = f.subrange(0x1_0000, 0x1_0100);
    if f.len() < 0x1_0100 || !text_at(h, 64, "_BHRfS_M"@) || le64(h, 112) == 0 || le64(h, 136) != 1
        || !block_size(le32(h, 144) as int, 512, 65536) || !block_size(
        le32(h, 148) as int,
        512,
        262_144,
    ) {
        None
    } else {
        fit(le64(h, 112) as int, avail)
    }
}

/// btrfs filesystem image (`.btrfs`) length.
pub fn btrfs_length(source: &Source, file_start: u64, limit: u64) -> (r: Length)
    requires
        source.spans(file_start, limit),
    ensures
        source.sizes(
            file_start,
            r,
            btrfs_len(source.tail(file_start as int), limit - file_start),
            limit - file_start,
        ),
        r is Err <==> source.faulty(file_start + 0x1_0000, 256),
{
    let h = match source.part(file_start, 0x1_0000, 256)? {
        Some(h) => h,
        None => return Ok(None),
    };
    let total: u64 = rd_le64(&h, 112);
    if !is_text(&h, 64, "_BHRfS_M") || total == 0 || rd_le64(&h, 136) != 1 || !is_block_size(
        rd_le32(&h, 144) as u64,
        512,
        65536,
    ) || !is_block_size(rd_le32(&h, 148) as u64, 512, 262_144) {
        return Ok(None);
    }
    Ok(within(total, limit - file_start))
}

/// The length of an XFS image at the beginning of `f`: its data blocks.
pub open spec fn xfs_len(f: Seq<u8>, avail: int) -> Option<int> {
    let h = f.subrange(0, 16);
    if f.len() < 16 || !text_at(h, 0, "XFSB"@) || !block_size(be32(h, 4) as int, 512, 65536) || be64(
        h,
        8,
    ) == 0 {
        None
    } else {
        fit(be64(h, 8) * be32(h, 4), avail)
    }
}

/// XFS filesystem image (`.xfs`) length.
pub fn xfs_length(source: &Source, file_start: u64, limit: u64) -> (r: Length)
    requires
        source.spans(file_start, limit),
    ensures
        source.sizes(
            file_start,
            r,
            xfs_len(source.tail(file_start as int), limit - file_start),
            limit - file_start,
        ),
        r is Err <==> source.faulty(file_start as int, 16),
{
    let h = match source.part(file_start, 0, 16)? {
        Some(h) => h,
        None => return Ok(None),
    };
    let size: u64 = rd_be32(&h, 4) as u64;
    let blocks: u64 = rd_be64(&h, 8);
    if !is_text(&h, 0, "XFSB") || !is_block_size(size, 512, 65536) || blocks == 0 {
        return Ok(None);
    }
    Ok(volume_size(blocks, size, limit - file_start))
}

/// The length of an exFAT image at the beginning of `f`: its sectors, of 2^9 to 2^12 bytes.
/// A cluster has no more than 2^25 bytes.
pub open spec fn exfat_len(f: Seq<u8>, avail: int) -> Option<int> {
    let h = f.subrange(0, 128);
    if f.len() < 128 || !text_at(h, 3, "EXFAT   "@) || !(9 <= h[108] <= 12) || h[108] + h[109] > 25
        || le64(h, 72) == 0 {
        None
    } else {
        fit(le64(h, 72) * pow2(h[108] as nat), avail)
    }
}

/// exFAT filesystem image (`.exfat`) length.
pub fn exfat_length(source: &Source, file_start: u64, limit: u64) -> (r: Length)
    requires
        source.spans(file_start, limit),
    ensures
        source.sizes(
            file_start,
            r,
            exfat_len(source.tail(file_start as int), limit - file_start),
            limit - file_start,
        ),
        r is Err <==> source.faulty(file_start as int, 128),
{
    let h = match source.part(file_start, 0, 128)? {
        Some(h) => h,
        None => return Ok(None),
    };
    let sectors: u64 = rd_le64(&h, 72);
    if !is_text(&h, 3, "EXFAT   ") || !(9 <= h[108] && h[108] <= 12) || h[108] as u32 + h[109] as u32
        > 25 || sectors == 0 {
        return Ok(None);
    }
    Ok(volume_size(sectors, pow2_u64(h[108] as u32), limit - file_start))
}

/// The length of an APFS container at the beginning of `f`: its blocks.
pub open spec fn apfs_len(f: Seq<u8>, avail: int) -> Option<int> {
    let h = f.subrange(0, 48);
    if f.len() < 48 || !text_at(h, 32, "NXSB"@) || !block_size(le32(h, 36) as int, 512, 0x10_0000)
        || le64(h, 40) == 0 {
        None
    } else {
        fit(le64(h, 40) * le32(h, 36), avail)
    }
}

/// APFS container image (`.apfs`) length.
pub fn apfs_length(source: &Source, file_start: u64, limit: u64) -> (r: Length)
    requires
        source.spans(file_start, limit),
    ensures
        source.sizes(
            file_start,
            r,
            apfs_len(source.tail(file_start as int), limit - file_start),
            limit - file_start,
        ),
        r is Err <==> source.faulty(file_start as int, 48),
{
    let h = match source.part(file_start, 0, 48)? {
        Some(h) => h,
        None => return Ok(None),
    };
    let size: u64 = rd_le32(&h, 36) as u64;
    let blocks: u64 = rd_le64(&h, 40);
    if !is_text(&h, 32, "NXSB") || !is_block_size(size, 512, 0x10_0000) || blocks == 0 {
        return Ok(None);
    }
    Ok(volume_size(blocks, size, limit - file_start))
}

/// The length of a ReFS image at the beginning of `f`: its sectors.
pub open spec fn refs_len(f: Seq<u8>, avail: int) -> Option<int> {
    let h = f.subrange(0, 0x28);
    if f.len() < 0x28 || !text_at(h, 3, "ReFS"@) || !text_at(h, 0x10, "FSRS"@) || !block_size(
        le32(h, 0x20) as int,
        512,
        65536,
    ) || le64(h, 0x18) == 0 {
        None
    } else {
        fit(le64(h, 0x18) * le32(h, 0x20), avail)
    }
}

/// ReFS filesystem image (`.refs`) length.
pub fn refs_length(source: &Source, file_start: u64, limit: u64) -> (r: Length)
    requires
        source.spans(file_start, limit),
    ensures
        source.sizes(
            file_start,
            r,
            refs_len(source.tail(file_start as int), limit - file_start),
            limit - file_start,
        ),
        r is Err <==> source.faulty(file_start as int, 40),
{
    let h = match source.part(file_start, 0, 40)? {
        Some(h) => h,
        None => return Ok(None),
    };
    let sectors: u64 = rd_le64(&h, 0x18);
    let size: u64 = rd_le32(&h, 0x20) as u64;
    if !is_text(&h, 3, "ReFS") || !is_text(&h, 0x10, "FSRS") || !is_block_size(size, 512, 65536)
        || sectors == 0 {
        return Ok(None);
    }
    Ok(volume_size(sectors, size, limit - file_start))
}

/// The length of an NTFS image at the beginning of `f`: its sectors.
pub open spec fn ntfs_len(f: Seq<u8>, avail: int) -> Option<int> {
    let h = f.subrange(0, 48);
    if f.len() < 48 || !text_at(h, 3, "NTFS    "@) || !block_size(le16(h, 11) as int, 256, 4096)
        || le64(h, 40) == 0 {
        None
    } else {
        fit(le64(h, 40) * le16(h, 11), avail)
    }
}

/// NTFS filesystem image (`.ntfs`) length.
pub fn ntfs_length(source: &Source, file_start: u64, limit: u64) -> (r: Length)
    requires
        source.spans(file_start, limit),
    ensures
        source.sizes(
            file_start,
            r,
            ntfs_len(source.tail(file_start as int), limit - file_start),
            limit - file_start,
        ),
        r is Err <==> source.faulty(file_start as int, 48),
{
    let h = match source.part(file_start, 0, 48)? {
        Some(h) => h,
        None => return Ok(None),
    };
    let size: u64 = rd_le16(&h, 11) as u64;
    let sectors: u64 = rd_le64(&h, 40);
    if !is_text(&h, 3, "NTFS    ") || !is_block_size(size, 256, 4096) || sectors == 0 {
        return Ok(None);
    }
    Ok(volume_size(sectors, size, limit - file_start))
}

/// The length of a Linux swap area at the beginning of `f`, of version 1: its pages of 4096
/// bytes, of which the header gives the last, which is not the first.
pub open spec fn swap_len(f: Seq<u8>, avail: int) -> Option<int> {
    let h = f.subrange(1024, 1032);
    if f.len() < 4096 || !text_at(f.subrange(4086, 4096), 0, "SWAPSPACE2"@) || le32(h, 0) != 1
        || le32(h, 4) == 0 {
        None
    } else {
        fit((le32(h, 4) + 1) * 4096, avail)
    }
}

/// One of the bytes of a swap area that are looked at could not be read.
pub open spec fn swap_fails(src: Source, start: int) -> bool {
    let f = src.tail(start);
    src.faulty(start + 4086, 10) || (f.len() >= 4096 && text_at(f.subrange(4086, 4096), 0, "SWAPSPACE2"@)
        && src.faulty(start + 1024, 8))
}

/// Linux swap area (`.swap`) length. The place of the magic fixes the page size.
pub fn swap_length(source: &Source, file_start: u64, limit: u64) -> (r: Length)
    requires
        source.spans(file_start, limit),
    ensures
        source.sizes(
            file_start,
            r,
            swap_len(source.tail(file_start as int), limit - file_start),
            limit - file_start,
        ),
        r is Err <==> swap_fails(*source, file_start as int),
{
    let m = match source.part(file_start, 4086, 10)? {
        Some(m) => m,
        None => return Ok(None),
    };
    if !is_text(&m, 0, "SWAPSPACE2") {
        return Ok(None);
    }
    let h = match source.part(file_start, 1024, 8)? {
        Some(h) => h,
        None => return Ok(None),
    };
    let last: u64 = rd_le32(&h, 4) as u64;
    if rd_le32(&h, 0) != 1 || last == 0 {
        return Ok(None);
    }
    Ok(within((last + 1) * 4096, limit - file_start))
}

/// The length of a romfs image at the beginning of `f`: what its header gives, which
/// covers the header.
pub open spec fn romfs_len(f: Seq<u8>, avail: int) -> Option<int> {
    let h = f.subrange(0, 12);
    if f.len() < 12 || !text_at(h, 0, "-rom1fs-"@) || be32(h, 8) < 16 {
        None
    } else {
        fit(be32(h, 8) as int, avail)
    }
}

/// romfs image (`.romfs`) length.
pub fn romfs_length(source: &Source, file_start: u64, limit: u64) -> (r: Length)
    requires
        source.spans(file_start, limit),
    ensures
        source.sizes(
            file_start,
            r,
            romfs_len(source.tail(file_start as int), limit - file_start),
            limit - file_start,
        ),
        r is Err <==> source.faulty(file_start as int, 12),
{
    let h = match source.part(file_start, 0, 12)? {
        Some(h) => h,
        None => return Ok(None),
    };
    let size: u64 = rd_be32(&h, 8) as u64;
    if !is_text(&h, 0, "-rom1fs-") || size < 16 {
        return Ok(None);
    }
    Ok(within(size, limit - file_start))
}

/// The byte order in which the integer at `i` reads as `magic`: little-endian where it
/// does so, or else big-endian.
pub open spec fn magic_order(h: Seq<u8>, i: int, magic: u32) -> Option<bool> {
    if le32(h, i) == magic {
        Some(false)
    } else if be32(h, i) == magic {
        Some(true)
    } else {
        None
    }
}

/// The byte order in which the integer at `i` reads as `magic`.
pub fn byte_order_of(h: &[u8], i: usize, magic: u32) -> (r: Option<bool>)
    requires
        i + 4 <= h.len(),
    ensures
        r == magic_order(h@, i as int, magic),
{
    if rd_le32(h, i) == magic {
        Some(false)
    } else if rd_be32(h, i) == magic {
        Some(true)
    } else {
        None
    }
}

/// The length of a cramfs image at the beginning of `f`: what its superblock gives, in the
/// byte order of the magic.
pub open spec fn cramfs_len(f: Seq<u8>, avail: int) -> Option<int> {
    let h = f.subrange(0, 0x20);
    match magic_order(h, 0, 0x28CD_3D45) {
        Some(be) if f.len() >= 0x20 && text_at(h, 0x10, "Compressed ROMFS"@) && ord32(h, 4, be)
            >= 0x40 => fit(ord32(h, 4, be) as int, avail),
        _ => None,
    }
}

/// cramfs image (`.cramfs`) length.
pub fn cramfs_length(source: &Source, file_start: u64, limit: u64) -> (r: Length)
    requires
        source.spans(file_start, limit),
    ensures
        source.sizes(
            file_start,
            r,
            cramfs_len(source.tail(file_start as int), limit - file_start),
            limit - file_start,
        ),
        r is Err <==> source.faulty(file_start as int, 32),
{
    let h = match source.part(file_start, 0, 32)? {
        Some(h) => h,
        None => return Ok(None),
    };
    if !is_text(&h, 0x10, "Compressed ROMFS") {
        return Ok(None);
    }
    let be = match byte_order_of(&h, 0, 0x28CD_3D45) {
        Some(be) => be,
        None => return Ok(None),
    };
    let size: u64 = rd_ord32(&h, 4, be) as u64;
    if size < 0x40 {
        return Ok(None);
    }
    Ok(within(size, limit - file_start))
}

/// The length of a JFS image at the beginning of `f`: its blocks; the superblock is at 32
/// KiB, and the image reaches it.
pub open spec fn jfs_len(f: Seq<u8>, avail: int) -> Option<int> {
    let h = f.subrange(0x8000, 0x8020);
    let size = le32(h, 0x18) as int;
    if f.len() < 0x8020 || !text_at(h, 0, "JFS1"@) || le64(h, 8) == 0 || !block_size(size, 256, 65536)
        || le64(h, 8) * size < 0x8000 {
        None
    } else {
        fit(le64(h, 8) * size, avail)
    }
}

/// JFS filesystem image (`.jfs`) length.
pub fn jfs_length(source: &Source, file_start: u64, limit: u64) -> (r: Length)
    requires
        source.spans(file_start, limit),
    ensures
        source.sizes(
            file_start,
            r,
            jfs_len(source.tail(file_start as int), limit - file_start),
            limit - file_start,
        ),
        r is Err <==> source.faulty(file_start + 0x8000, 32),
{
    let h = match source.part(file_start, 0x8000, 32)? {
        Some(h) => h,
        None => return Ok(None),
    };
    let blocks: u64 = rd_le64(&h, 8);
    let size: u64 = rd_le32(&h, 0x18) as u64;
    if !is_text(&h, 0, "JFS1") || blocks == 0 || !is_block_size(size, 256, 65536) || mul_wide(
        blocks,
        size,
    ) < 0x8000 {
        return Ok(None);
    }
    Ok(volume_size(blocks, size, limit - file_start))
}

/// The length of a UFS1 image at the beginning of `f`: its fragments; the superblock is at
/// 8 KiB, and the image reaches it.
pub open spec fn ufs_len(f: Seq<u8>, avail: int) -> Option<int> {
    let h = f.subrange(0x2000, 0x2560);
    match magic_order(h, 0x55C, 0x0001_1954) {
        Some(be) if f.len() >= 0x2560 && block_size(ord32(h, 0x30, be) as int, 512, 65536)
            && block_size(ord32(h, 0x34, be) as int, 512, 65536) && ord32(h, 0x24, be) != 0 && ord32(
            h,
            0x24,
            be,
        ) * ord32(h, 0x34, be) >= 0x2000 => fit(ord32(h, 0x24, be) * ord32(h, 0x34, be), avail),
        _ => None,
    }
}

/// UFS1 filesystem image (`.ufs`) length. UFS2 has a different magic and is not matched.
pub fn ufs_length(source: &Source, file_start: u64, limit: u64) -> (r: Length)
    requires
        source.spans(file_start, limit),
    ensures
        source.sizes(
            file_start,
            r,
            ufs_len(source.tail(file_start as int), limit - file_start),
            limit - file_start,
        ),
        r is Err <==> source.faulty(file_start + 0x2000, 0x560),
{
    let h = match source.part(file_start, 0x2000, 0x560)? {
        Some(h) => h,
        None => return Ok(None),
    };
    let be = match byte_order_of(&h, 0x55C, 0x0001_1954) {
        Some(be) => be,
        None => return Ok(None),
    };
    let size: u64 = rd_ord32(&h, 0x34, be) as u64;
    let count: u64 = rd_ord32(&h, 0x24, be) as u64;
    if !is_block_size(rd_ord32(&h, 0x30, be) as u64, 512, 65536) || !is_block_size(size, 512, 65536)
        || count == 0 || mul_wide(count, size) < 0x2000 {
        return Ok(None);
    }
    Ok(volume_size(count, size, limit - file_start))
}

/// The length of a BeFS image at the beginning of `f`: its blocks; the superblock is at 512
/// and has two magics.
pub open spec fn befs_len(f: Seq<u8>, avail: int) -> Option<int> {
    let h = f.subrange(0x200, 0x248);
    match magic_order(h, 0x20, 0x4246_5331) {
        Some(be) if f.len() >= 0x248 && ord32(h, 0x44, be) == 0xDD12_1031 && block_size(
            ord32(h, 0x28, be) as int,
            512,
            65536,
        ) && ord64(h, 0x30, be) != 0 => fit(ord64(h, 0x30, be) * ord32(h, 0x28, be), avail),
        _ => None,
    }
}

/// BeFS filesystem image (`.befs`) length.
pub fn befs_length(source: &Source, file_start: u64, limit: u64) -> (r: Length)
    requires
        source.spans(file_start, limit),
    ensures
        source.sizes(
            file_start,
            r,
            befs_len(source.tail(file_start as int), limit - file_start),
            limit - file_start,
        ),
        r is Err <==> source.faulty(file_start + 0x200, 72),
{
    let h = match source.part(file_start, 0x200, 72)? {
        Some(h) => h,
        None => return Ok(None),
    };
    let be = match byte_order_of(&h, 0x20, 0x4246_5331) {
        Some(be) => be,
        None => return Ok(None),
    };
    let size: u64 = rd_ord32(&h, 0x28, be) as u64;
    let blocks: u64 = rd_ord64(&h, 0x30, be);
    if rd_ord32(&h, 0x44, be) != 0xDD12_1031 || !is_block_size(size, 512, 65536) || blocks == 0 {
        return Ok(None);
    }
    Ok(volume_size(blocks, size, limit - file_start))
}

/// The length of an HFS+ (`H+`) or HFSX (`HX`) image at the beginning of `f`: its blocks; the
/// volume header is at 1024, and the image reaches it.
pub open spec fn hfsplus_len(f: Seq<u8>, avail: int) -> Option<int> {
    let h = f.subrange(0x400, 0x430);
    let size = be32(h, 0x28) as int;
    if f.len() < 0x430 || !(be16(h, 0) == 0x482B || be16(h, 0) == 0x4858) || !block_size(
        size,
        512,
        65536,
    ) || be32(h, 0x2C) == 0 || be32(h, 0x2C) * size < 0x400 {
        None
    } else {
        fit(be32(h, 0x2C) * size, avail)
    }
}

/// HFS+ filesystem image (`.hfsplus`) length. Only direct volumes are handled.
pub fn hfsplus_length(source: &Source, file_start: u64, limit: u64) -> (r: Length)
    requires
        source.spans(file_start, limit),
    ensures
        source.sizes(
            file_start,
            r,
            hfsplus_len(source.tail(file_start as int), limit - file_start),
            limit - file_start,
        ),
        r is Err <==> source.faulty(file_start + 0x400, 48),
{
    let h = match source.part(file_start, 0x400, 48)? {
        Some(h) => h,
        None => return Ok(None),
    };
    let sig: u16 = rd_be16(&h, 0);
    let size: u64 = rd_be32(&h, 0x28) as u64;
    let blocks: u64 = rd_be32(&h, 0x2C) as u64;
    if !(sig == 0x482B || sig == 0x4858) || !is_block_size(size, 512, 65536) || blocks == 0
        || mul_wide(blocks, size) < 0x400 {
        return Ok(None);
    }
    Ok(volume_size(blocks, size, limit - file_start))
}

/// The length of a ReiserFS image at the beginning of `f` whose superblock is at `sb`: its
/// blocks, which reach the superblock.
pub open spec fn reiserfs_at(f: Seq<u8>, avail: int, sb: int) -> Option<int> {
    let h = f.subrange(sb, sb + 0x3E);
    let size = le16(h, 0x2C) as int;
    if f.len() < sb + 0x3E || !(text_at(h, 0x34, "ReIsEr2Fs"@) || text_at(h, 0x34, "ReIsEr3Fs"@)
        || text_at(h, 0x34, "ReIsErFs"@)) || le32(h, 0) == 0 || !block_size(size, 512, 65536) || le32(
        h,
        0,
    ) * size < sb {
        None
    } else {
        fit(le32(h, 0) * size, avail)
    }
}

/// The length of a ReiserFS image at the beginning of `f`, with its superblock at 64 KiB
/// (3.6) or else at 8 KiB (3.5).
pub open spec fn reiserfs_len(f: Seq<u8>, avail: int) -> Option<int> {
    match reiserfs_at(f, avail, 0x1_0000) {
        Some(n) => Some(n),
        None => reiserfs_at(f, avail, 0x2000),
    }
}

/// ReiserFS image length by the superblock at `sb`.
fn reiserfs_try(source: &Source, file_start: u64, limit: u64, sb: u64) -> (r: Length)
    requires
        source.spans(file_start, limit),
        sb <= 0x1_0000,
    ensures
        source.sizes(
            file_start,
            r,
            reiserfs_at(source.tail(file_start as int), limit - file_start, sb as int),
            limit - file_start,
        ),
        r is Err <==> source.faulty(file_start + sb, 62),
{
    let h = match source.part(file_start, sb, 62)? {
        Some(h) => h,
        None => return Ok(None),
    };
    let blocks: u64 = rd_le32(&h, 0) as u64;
    let size: u64 = rd_le16(&h, 0x2C) as u64;
    if !(is_text(&h, 0x34, "ReIsEr2Fs") || is_text(&h, 0x34, "ReIsEr3Fs") || is_text(
        &h,
        0x34,
        "ReIsErFs",
    )) || blocks == 0 || !is_block_size(size, 512, 65536) || mul_wide(blocks, size) < sb as u128 {
        return Ok(None);
    }
    Ok(volume_size(blocks, size, limit - file_start))
}

/// One of the superblocks of a ReiserFS that are looked at could not be read.
pub open spec fn reiserfs_fails(src: Source, start: int, avail: int) -> bool {
    src.faulty(start + 0x1_0000, 62) || (reiserfs_at(src.tail(start), avail, 0x1_0000) is None && src.faulty(
        start + 0x2000,
        62,
    ))
}

/// ReiserFS filesystem image length.
pub fn reiserfs_length(source: &Source, file_start: u64, limit: u64) -> (r: Length)
    requires
        source.spans(file_start, limit),
    ensures
        source.sizes(
            file_start,
            r,
            reiserfs_len(source.tail(file_start as int), limit - file_start),
            limit - file_start,
        ),
        r is Err <==> reiserfs_fails(*source, file_start as int, limit - file_start),
{
    match reiserfs_try(source, file_start, limit, 0x1_0000)? {
        Some(n) => Ok(Some(n)),
        None => reiserfs_try(source, file_start, limit, 0x2000),
    }
}

} // verus!
