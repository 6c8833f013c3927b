//! Boot images and firmware.

use crate::bytes::{
    be32, fit, is_text, le16, le32, rd_be32, rd_le16, rd_le32, round_up, rounded, text_at, within,
};
use crate::source::{window, Length, Source};
use vstd::prelude::*;

verus! {

/// A size field of the header `h`, rounded up to whole pages.
pub open spec fn pages(h: Seq<u8>, at: int, page: int) -> int {
    rounded(le32(h, at) as int, page)
}

/// A size field of the header `h`, rounded up to whole pages.
fn paged(h: &[u8], at: usize, page: u64) -> (r: u64)
    requires
        at + 4 <= h.len(),
        0 < page <= 65536,
    ensures
        r == pages(h@, at as int, page as int),
        le32(h@, at as int) <= r <= 0x1_0001_0000,
{
    round_up(rd_le32(h, at) as u64, page)
}

/// The length of an Android vendor_boot image at the beginning of `f`, of version 3
/// or 4: the header, the ramdisk, which is not empty, the device tree and, in
/// version 4, the ramdisk table and the boot configuration, each in whole pages.
pub open spec fn vendorboot_len(f: Seq<u8>, avail: int) -> Option<int> {
    let h = window(f, 0, 0x850);
    let page = le32(h, 0x0C) as int;
    let base = pages(h, 0x830, page) + pages(h, 0x18, page) + pages(h, 0x834, page);
    if h.len() < 0x838 || !text_at(h, 0, "VNDRBOOT"@) || !(le32(h, 0x08) == 3 || le32(h, 0x08) == 4)
        || le32(h, 0x18) == 0 || !(256 <= page <= 65536) || !(0x800 <= le32(h, 0x830) <= 0x2000) {
        None
    } else if le32(h, 0x08) == 3 {
        fit(base, avail)
    } else if h.len() < 0x850 {
        None
    } else {
        fit(base + pages(h, 0x840, page) + pages(h, 0x84C, page), avail)
    }
}

/// Android vendor_boot image (`vendor_boot.img`) length.
pub fn vendorboot_length(source: &Source, file_start: u64, limit: u64) -> (r: Length)
    requires
        source.spans(file_start, limit),
    ensures
        source.sizes(
            file_start,
            r,
            vendorboot_len(source.tail(file_start as int), limit - file_start),
            limit - file_start,
        ),
        r is Err <==> source.faulty(file_start as int, 0x850),
{
    let avail: u64 = limit - file_start;
    let h = source.part_upto(file_start, 0, 0x850)?;
    if h.len() < 0x838 || !is_text(&h, 0, "VNDRBOOT") {
        return Ok(None);
    }
    let version: u32 = rd_le32(&h, 0x08);
    let page: u64 = rd_le32(&h, 0x0C) as u64;
    let header: u64 = rd_le32(&h, 0x830) as u64;
    if !(version == 3 || version == 4) || rd_le32(&h, 0x18) == 0 || !(256 <= page && page <= 65536)
        || !(0x800 <= header && header <= 0x2000) {
        return Ok(None);
    }
    let base: u64 = paged(&h, 0x830, page) + paged(&h, 0x18, page) + paged(&h, 0x834, page);
    if version == 3 {
        return Ok(within(base, avail));
    }
    if h.len() < 0x850 {
        return Ok(None);
    }
    Ok(within(base + paged(&h, 0x840, page) + paged(&h, 0x84C, page), avail))
}

/// The length of an Android boot image at the beginning of `f`, of which the kernel
/// is not empty. Up to version 2: a page of header, the kernel, the ramdisk and the
/// second stage, from version 1 on the recovery device tree, and in version 2 the
/// device tree, each in whole pages of the size at 0x24. In versions 3 and 4: the
/// header, kernel, ramdisk and, in version 4, the signature, in pages of 4096.
pub open spec fn bootimg_len(f: Seq<u8>, avail: int) -> Option<int> {
    let h = window(f, 0, 0x680);
    let version = le32(h, 0x28);
    let page = le32(h, 0x24) as int;
    let base = page + pages(h, 0x08, page) + pages(h, 0x10, page) + pages(h, 0x18, page);
    let fixed = 4096 + pages(h, 0x08, 4096) + pages(h, 0x0C, 4096);
    if h.len() < 0x2C || !text_at(h, 0, "ANDROID!"@) || le32(h, 0x08) == 0 || version > 4 {
        None
    } else if version <= 2 {
        if !(256 <= page <= 65536) {
            None
        } else if version == 0 {
            fit(base, avail)
        } else if h.len() < 0x664 {
            None
        } else if version == 1 {
            fit(base + pages(h, 0x660, page), avail)
        } else if h.len() < 0x674 {
            None
        } else {
            fit(base + pages(h, 0x660, page) + pages(h, 0x670, page), avail)
        }
    } else if version == 3 {
        fit(fixed, avail)
    } else if h.len() < 0x630 {
        None
    } else {
        fit(fixed + pages(h, 0x62C, 4096), avail)
    }
}

/// Android boot image (`boot.img`) length. Any other version is skipped rather than
/// mis-sized.
pub fn bootimg_length(source: &Source, file_start: u64, limit: u64) -> (r: Length)
    requires
        source.spans(file_start, limit),
    ensures
        source.sizes(
            file_start,
            r,
            bootimg_len(source.tail(file_start as int), limit - file_start),
            limit - file_start,
        ),
        r is Err <==> source.faulty(file_start as int, 0x680),
{
    let avail: u64 = limit - file_start;
    let h = source.part_upto(file_start, 0, 0x680)?;
    if h.len() < 0x2C || !is_text(&h, 0, "ANDROID!") || rd_le32(&h, 0x08) == 0 {
        return Ok(None);
    }
    let version: u32 = rd_le32(&h, 0x28);
    if version > 4 {
        return Ok(None);
    }
    if version <= 2 {
        let page: u64 = rd_le32(&h, 0x24) as u64;
        if !(256 <= page && page <= 65536) {
            return Ok(None);
        }
        let mut total: u64 = page + paged(&h, 0x08, page) + paged(&h, 0x10, page) + paged(
            &h,
            0x18,
            page,
        );
        if version >= 1 {
            if h.len() < 0x664 {
                return Ok(None);
            }
            total = total + paged(&h, 0x660, page);
        }
        if version == 2 {
            if h.len() < 0x674 {
                return Ok(None);
            }
            total = total + paged(&h, 0x670, page);
        }
        return Ok(within(total, avail));
    }
    let mut total: u64 = 4096 + paged(&h, 0x08, 4096) + paged(&h, 0x0C, 4096);
    if version == 4 {
        if h.len() < 0x630 {
            return Ok(None);
        }
        total = total + paged(&h, 0x62C, 4096);
    }
    Ok(within(total, avail))
}

/// The length of a U-Boot legacy image at the beginning of `f`: a 64-byte header and
/// as much data as it says, which is not nothing.
pub open spec fn uimage_len(f: Seq<u8>, avail: int) -> Option<int> {
    let h = f.subrange(0, 64);
    if f.len() < 64 || be32(h, 0) != 0x2705_1956 || be32(h, 0x0C) == 0 {
        None
    } else {
        fit(64 + be32(h, 0x0C), avail)
    }
}

/// U-Boot legacy image (`.uimage`) length.
pub fn uimage_length(source: &Source, file_start: u64, limit: u64) -> (r: Length)
    requires
        source.spans(file_start, limit),
    ensures
        source.sizes(
            file_start,
            r,
            uimage_len(source.tail(file_start as int), limit - file_start),
            limit - file_start,
        ),
        r is Err <==> source.faulty(file_start as int, 64),
{
    let h = match source.part(file_start, 0, 64)? {
        Some(h) => h,
        None => return Ok(None),
    };
    let data: u64 = rd_be32(&h, 0x0C) as u64;
    if rd_be32(&h, 0) != 0x2705_1956 || data == 0 {
        return Ok(None);
    }
    Ok(within(64 + data, limit - file_start))
}

/// Where the chunks of an Android sparse image end of which `left` follow at `pos`, with headers of
/// `head` bytes: each gives its size, header included, at offset 8.
pub open spec fn sparse_from(f: Seq<u8>, avail: int, head: int, pos: int, left: nat) -> Option<int>
    decreases left,
{
    let size = le32(f.subrange(pos, pos + 12), 8);
    if left == 0 {
        fit(pos, avail)
    } else if pos + head > avail || size < head {
        None
    } else {
        sparse_from(f, avail, head, pos + size, (left - 1) as nat)
    }
}

/// The length of an Android sparse image at the beginning of `f`: its header, of 28 to 256 bytes, and
/// its chunks, whose headers have 12 to 64.
pub open spec fn android_sparse_len(f: Seq<u8>, avail: int) -> Option<int> {
    let h = f.subrange(0, 28);
    if f.len() < 28 || le32(h, 0) != 0xED26_FF3A || !(28 <= le16(h, 8) <= 256) || !(12 <= le16(h, 10)
        <= 64) {
        None
    } else {
        sparse_from(f, avail, le16(h, 10) as int, le16(h, 8) as int, le32(h, 0x14) as nat)
    }
}

/// One of the chunk headers of an Android sparse image from `pos` on, of which `left` are looked at, could not be read.
pub open spec fn sparse_walk_fails(
    src: Source,
    start: int,
    avail: int,
    head: int,
    pos: int,
    left: nat,
) -> bool
    decreases left,
{
    let size = le32(src.tail(start).subrange(pos, pos + 12), 8);
    left > 0 && pos + head <= avail && (src.faulty(start + pos, 12) || (size >= head && sparse_walk_fails(
        src,
        start,
        avail,
        head,
        pos + size,
        (left - 1) as nat,
    )))
}

/// Walk the chunks of an Android sparse image.
fn sparse_walk(source: &Source, file_start: u64, limit: u64, head: u64, first: u64, n: u32) -> (r:
    Length)
    requires
        source.spans(file_start, limit),
        12 <= head <= 64,
        0 < first < 1000,
    ensures
        source.sizes(
            file_start,
            r,
            sparse_from(
                source.tail(file_start as int),
                limit - file_start,
                head as int,
                first as int,
                n as nat,
            ),
            limit - file_start,
        ),
        r is Err <==> sparse_walk_fails(
            *source,
            file_start as int,
            limit - file_start,
            head as int,
            first as int,
            n as nat,
        ),
{
    let avail: u64 = limit - file_start;
    let ghost f = source.tail(file_start as int);
    let mut pos: u64 = first;
    let mut left: u32 = n;
    while left > 0
        invariant
            source.spans(file_start, limit),
            avail == limit - file_start,
            f == source.tail(file_start as int),
            12 <= head <= 64,
            0 < pos <= avail + 0x2_0000_0000,
            sparse_from(f, avail as int, head as int, first as int, n as nat) == sparse_from(
                f,
                avail as int,
                head as int,
                pos as int,
                left as nat,
            ),
            sparse_walk_fails(
                *source,
                file_start as int,
                avail as int,
                head as int,
                first as int,
                n as nat,
            ) == sparse_walk_fails(
                *source,
                file_start as int,
                avail as int,
                head as int,
                pos as int,
                left as nat,
            ),
        decreases left,
    {
        if pos + head > avail {
            return Ok(None);
        }
        let c = match source.part(file_start, pos, 12)? {
            Some(c) => c,
            None => return Ok(None),
        };
        let size: u64 = rd_le32(&c, 8) as u64;
        if size < head {
            return Ok(None);
        }
        pos = pos + size;
        left = left - 1;
    }
    Ok(within(pos, avail))
}

/// One of the bytes of an Android sparse image that are looked at could not be read.
pub open spec fn android_sparse_fails(src: Source, start: int, avail: int) -> bool {
    let f = src.tail(start);
    let h = f.subrange(0, 28);
    src.faulty(start, 28) || (f.len() >= 28 && le32(h, 0) == 0xED26_FF3A && 28 <= le16(h, 8) <= 256 && 12
        <= le16(h, 10) <= 64 && sparse_walk_fails(
        src,
        start,
        avail,
        le16(h, 10) as int,
        le16(h, 8) as int,
        le32(h, 0x14) as nat,
    ))
}

/// Android sparse image length.
pub fn android_sparse_length(source: &Source, file_start: u64, limit: u64) -> (r: Length)
    requires
        source.spans(file_start, limit),
    ensures
        source.sizes(
            file_start,
            r,
            android_sparse_len(source.tail(file_start as int), limit - file_start),
            limit - file_start,
        ),
        r is Err <==> android_sparse_fails(*source, file_start as int, limit - file_start),
{
    let h = match source.part(file_start, 0, 28)? {
        Some(h) => h,
        None => return Ok(None),
    };
    let first: u64 = rd_le16(&h, 8) as u64;
    let head: u64 = rd_le16(&h, 10) as u64;
    if rd_le32(&h, 0) != 0xED26_FF3A || !(28 <= first && first <= 256) || !(12 <= head && head <= 64) {
        return Ok(None);
    }
    sparse_walk(source, file_start, limit, head, first, rd_le32(&h, 0x14))
}

} // verus!
