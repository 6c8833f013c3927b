//! Archives and compressed streams.

use crate::bytes::{
    be16, be24, be32, be64, bytes_at, fit, is_bytes, is_text, larger, le16, le32, le64, max_u64,
    min_u64, rd_be16, rd_be24, rd_be32, rd_be64, rd_le16, rd_le32, rd_le64, smaller, text_at,
    within,
};
use crate::source::{window, Length, ReadError, Source};
use crate::text::{
    blank, lemma_number_sign, padded_number_in, parse_padded_number, parse_plain_number,
    parse_plain_padded_number, pass_space, plain_number_in, plain_padded_number_in,
};
use crate::varint::{
    be_uint, lemma_be_uint_sign, read_base128, read_uint, vint_at, vint_fails,
};
use vstd::prelude::*;

verus! {

/// Where the resource of a WIM resource header at `off` ends: a 56-bit size with
/// 8 bits of flags, then an offset, which is zero where there is no resource.
pub open spec fn wim_resource_end(h: Seq<u8>, off: int) -> int {
    if le64(h, off + 8) == 0 {
        0
    } else {
        le64(h, off + 8) + le64(h, off) % 0x100_0000_0000_0000
    }
}

/// The furthest end of the four resources that a WIM header describes.
pub open spec fn wim_end(h: Seq<u8>) -> int {
    larger(
        larger(wim_resource_end(h, 0x30), wim_resource_end(h, 0x48)),
        larger(wim_resource_end(h, 0x60), wim_resource_end(h, 0x7C)),
    )
}

/// The length of a Windows Imaging Format file that `f` begins with: up to the
/// furthest resource that its 208-byte header describes.
pub open spec fn wim_len(f: Seq<u8>, avail: int) -> Option<int> {
    let h = f.subrange(0, 148);
    if f.len() < 148 || !text_at(h, 0, "MSWIM\0\0\0"@) || le32(h, 8) != 0xD0 || wim_end(h)
        <= 0xD0 {
        None
    } else {
        fit(wim_end(h), avail)
    }
}

/// The end of one resource, or the largest integer where that is beyond it.
fn wim_resource(h: &[u8], off: usize) -> (r: u64)
    requires
        off + 16 <= h.len(),
    ensures
        wim_resource_end(h@, off as int) <= u64::MAX ==> r == wim_resource_end(h@, off as int),
        wim_resource_end(h@, off as int) > u64::MAX ==> r == u64::MAX,
{
    let size: u64 = rd_le64(h, off) % 0x100_0000_0000_0000;
    let offset: u64 = rd_le64(h, off + 8);
    if offset == 0 {
        0
    } else {
        offset.saturating_add(size)
    }
}

/// Windows Imaging Format (WIM) length. The header's own size field is checked
/// to reject a coincidental magic.
pub fn wim_length(source: &Source, file_start: u64, limit: u64) -> (r: Length)
    requires
        source.spans(file_start, limit),
    ensures
        source.sizes(
            file_start,
            r,
            wim_len(source.tail(file_start as int), limit - file_start),
            limit - file_start,
        ),
        r is Err <==> source.faulty(file_start as int, 148),
{
    let h = match source.part(file_start, 0, 148)? {
        Some(h) => h,
        None => return Ok(None),
    };
    if !is_text(&h, 0, "MSWIM\0\0\0") || rd_le32(&h, 8) != 0xD0 {
        return Ok(None);
    }
    let a: u64 = max_u64(wim_resource(&h, 0x30), wim_resource(&h, 0x48));
    let b: u64 = max_u64(wim_resource(&h, 0x60), wim_resource(&h, 0x7C));
    let end: u64 = max_u64(a, b);
    if end <= 0xD0 {
        return Ok(None);  // no resources: not a usable WIM
    }
    Ok(within(end, limit - file_start))
}

/// There is an End-of-Central-Directory record of a ZIP at `p`, all of which can
/// be read, and it and its comment end in the first `avail` bytes.
pub open spec fn zip_record(f: Seq<u8>, avail: int, p: int) -> bool {
    &&& bytes_at(f, p, seq![0x50u8, 0x4B, 0x05, 0x06])
    &&& p + 22 <= f.len()
    &&& zip_record_end(f, p) <= avail
}

/// Where the record at `p` and its comment end.
pub open spec fn zip_record_end(f: Seq<u8>, p: int) -> int {
    p + 22 + le16(f.subrange(p, p + 22), 20)
}

/// The record at `p` leaves its central directory's place to a ZIP64 record.
pub open spec fn zip_record_is_64(f: Seq<u8>, p: int) -> bool {
    let e = f.subrange(p, p + 22);
    le32(e, 12) == 0xFFFF_FFFF || le32(e, 16) == 0xFFFF_FFFF
}

/// The record at `p` gives a central directory that ends where it begins itself,
/// counted from the start of `f`: it is the archive's own, not that of an archive
/// stored inside it.
pub open spec fn zip_record_is_own(f: Seq<u8>, p: int) -> bool {
    let e = f.subrange(p, p + 22);
    !zip_record_is_64(f, p) && le32(e, 16) + le32(e, 12) == p
}

/// The length of a ZIP of which the records before `p` have been looked at: up
/// to the first record of its own, or else to the last ZIP64 one, `best` being
/// the last before `p`.
pub open spec fn zip_from(f: Seq<u8>, avail: int, p: int, best: Option<int>) -> Option<int>
    decreases avail - p,
{
    if p + 4 > avail {
        best
    } else if zip_record(f, avail, p) && zip_record_is_own(f, p) {
        Some(zip_record_end(f, p))
    } else if zip_record(f, avail, p) && zip_record_is_64(f, p) {
        zip_from(f, avail, p + 1, Some(zip_record_end(f, p)))
    } else {
        zip_from(f, avail, p + 1, best)
    }
}

/// The length of a ZIP archive at the beginning of `f`.
pub open spec fn zip_len(f: Seq<u8>, avail: int) -> Option<int> {
    zip_from(f, avail, 0, None)
}

/// How much of a ZIP is searched for records at a time. What is read reaches three bytes further, for a record whose
/// marker begins in the last ones.
pub const ZIP_WINDOW: u64 = 0x10_0000;

/// The window of a ZIP that begins at `p` could not be read.
pub open spec fn zip_window_fails(src: Source, start: int, avail: int, p: int) -> bool {
    src.faulty(start + p, smaller(avail - p, ZIP_WINDOW + 3))
}

/// One of the bytes that are looked at for a ZIP's records from `p` on could not be read: a window that the search
/// comes to, or a record that is found, up to the archive's own.
pub open spec fn zip_search_fails(src: Source, start: int, avail: int, p: int) -> bool
    decreases avail - p,
{
    let f = src.tail(start);
    p + 4 <= avail && ((p % ZIP_WINDOW as int == 0 && zip_window_fails(src, start, avail, p)) || (
    bytes_at(f, p, seq![0x50u8, 0x4B, 0x05, 0x06]) && src.faulty(start + p, 22)) || (!(zip_record(
        f,
        avail,
        p,
    ) && zip_record_is_own(f, p)) && zip_search_fails(src, start, avail, p + 1)))
}

/// One of the bytes of a ZIP that are looked at could not be read. Its first window is read however short it is.
pub open spec fn zip_fails(src: Source, start: int, avail: int) -> bool {
    zip_window_fails(src, start, avail, 0) || zip_search_fails(src, start, avail, 0)
}

/// The record of a ZIP whose marker is at `p`: where it and its comment end, and whether it is a ZIP64 one, if it is one
/// of the two that end an archive.
fn read_zip_record(source: &Source, file_start: u64, avail: u64, p: u64) -> (r: Result<
    Option<(u64, bool)>,
    ReadError,
>)
    requires
        source.wf(),
        file_start + avail <= source@.len(),
        p <= avail,
        bytes_at(source.tail(file_start as int), p as int, seq![0x50u8, 0x4B, 0x05, 0x06]),
    ensures
        ({
            let f = source.tail(file_start as int);
            match r {
                Ok(Some((end, is_zip64))) => {
                    &&& zip_record(f, avail as int, p as int)
                    &&& end == zip_record_end(f, p as int)
                    &&& is_zip64 == zip_record_is_64(f, p as int)
                    &&& is_zip64 || zip_record_is_own(f, p as int)
                },
                Ok(None) => !(zip_record(f, avail as int, p as int) && (zip_record_is_64(f, p as int)
                    || zip_record_is_own(f, p as int))),
                Err(e) => source.blames(file_start, avail as int, e),
            }
        }),
        r is Err <==> source.faulty(file_start + p, 22),
{
    let e = match source.part(file_start, p, 22)? {
        Some(e) => e,
        None => return Ok(None),
    };
    let cd_size: u64 = rd_le32(&e, 12) as u64;
    let cd_off: u64 = rd_le32(&e, 16) as u64;
    let end: u64 = p + 22 + rd_le16(&e, 20) as u64;
    let is_zip64 = cd_size == 0xFFFF_FFFF || cd_off == 0xFFFF_FFFF;
    if end <= avail && (is_zip64 || cd_off + cd_size == p) {
        Ok(Some((end, is_zip64)))
    } else {
        Ok(None)
    }
}

/// ZIP length: up to the end of the End-of-Central-Directory record, with its
/// comment, whose geometry matches this archive. A ZIP64 archive, whose geometry
/// fields are sentinels, ends at the last such record.
#[verifier::rlimit(40)]
pub fn zip_length(source: &Source, file_start: u64, limit: u64) -> (r: Length)
    requires
        source.spans(file_start, limit),
    ensures
        source.sizes(
            file_start,
            r,
            zip_len(source.tail(file_start as int), limit - file_start),
            limit - file_start,
        ),
        r is Err <==> zip_fails(*source, file_start as int, limit - file_start),
{
    let avail: u64 = limit - file_start;
    let ghost f = source.tail(file_start as int);
    let mut w = source.part_upto(file_start, 0, min_u64(avail, ZIP_WINDOW + 3) as usize)?;
    let mut best: Option<u64> = None;
    let mut best_end: u64 = 0;
    let mut base: u64 = 0;
    let mut p: u64 = 0;
    while p < avail && avail - p >= 4
        invariant
            source.spans(file_start, limit),
            avail == limit - file_start,
            f == source.tail(file_start as int),
            p <= avail,
            best is Some ==> best == Some(best_end) && 0 < best_end <= avail,
            zip_len(f, avail as int) == zip_from(
                f,
                avail as int,
                p as int,
                if best is Some {
                    Some(best_end as int)
                } else {
                    None
                },
            ),
            base <= p <= base + ZIP_WINDOW,
            p == base ==> p == 0,
            base % ZIP_WINDOW == 0,
            w@ == f.subrange(base as int, smaller(avail as int, base + ZIP_WINDOW + 3)),
            !zip_window_fails(*source, file_start as int, avail as int, 0),
            zip_search_fails(*source, file_start as int, avail as int, 0) == zip_search_fails(
                *source,
                file_start as int,
                avail as int,
                p as int,
            ),
        decreases avail - p,
    {
        if p - base == ZIP_WINDOW {
            w = source.part_upto(file_start, p, min_u64(avail - p, ZIP_WINDOW + 3) as usize)?;
            base = p;
        }
        assert(p % ZIP_WINDOW == 0 <==> p == base);
        let i: usize = (p - base) as usize;
        let found = is_bytes(&w, i, &[0x50, 0x4B, 0x05, 0x06]);
        assert(w@.subrange(i as int, i + 4) =~= f.subrange(p as int, p + 4));
        if found {
            if let Some((end, is_zip64)) = read_zip_record(source, file_start, avail, p)? {
                if !is_zip64 {
                    return Ok(Some(end));
                }
                best = Some(end);
                best_end = end;
            }
        }
        p = p + 1;
    }
    Ok(best)
}

/// The length of a RAR v4 archive from the block at `pos` on, of which no more
/// than `left` blocks are looked at: up to the end of the terminator block, which
/// has type 0x7B. A block header is a CRC, a type, flags and its size, with the
/// size of the data behind it where the top flag is set.
pub open spec fn rar4_from(f: Seq<u8>, avail: int, pos: int, left: nat) -> Option<int>
    decreases left,
{
    let h = window(f, pos, 11);
    let next = pos + le16(h, 5) + if le16(h, 3) >= 0x8000 {
        le32(h, 7) as int
    } else {
        0
    };
    if left == 0 || h.len() < 7 || le16(h, 5) < 7 || (le16(h, 3) >= 0x8000 && h.len() < 11) || next
        > avail {
        None
    } else if h[2] == 0x7B {
        Some(next)
    } else {
        rar4_from(f, avail, next, (left - 1) as nat)
    }
}

/// The length of a RAR v5 archive from the block at `pos` on, of which no more
/// than `left` blocks are looked at: up to the end of the terminator block, which
/// has type 5. A block is a CRC, the size of its header, the header, which begins
/// with a type and flags, and the data that the header gives the size of.
pub open spec fn rar5_from(f: Seq<u8>, avail: int, pos: int, left: nat) -> Option<int>
    decreases left,
{
    match rar5_block(f, pos) {
        None => None,
        Some((kind, len)) => if left == 0 || pos + len > avail {
            None
        } else if kind == 5 {
            Some(pos + len)
        } else {
            rar5_from(f, avail, pos + len, (left - 1) as nat)
        },
    }
}

/// The type of the RAR v5 block at `pos`, and its length.
pub open spec fn rar5_block(f: Seq<u8>, pos: int) -> Option<(u64, int)> {
    match vint_at(f, f.len() as int, pos + 4, 10) {
        None => None,
        Some((header_size, hs_len)) => match vint_at(f, f.len() as int, pos + 4 + hs_len, 10) {
            None => None,
            Some((kind, t_len)) => match vint_at(f, f.len() as int, pos + 4 + hs_len + t_len, 10) {
                None => None,
                Some((flags, f_len)) => match rar5_data_size(
                    f,
                    pos + 4 + hs_len + t_len + f_len,
                    flags,
                ) {
                    None => None,
                    Some(data_size) => Some((kind, 4 + hs_len + header_size + data_size)),
                },
            },
        },
    }
}

/// The size of a RAR v5 block's data, of which the header goes on at `cursor`:
/// behind the size of the extra area, where there is one.
pub open spec fn rar5_data_size(f: Seq<u8>, cursor: int, flags: u64) -> Option<int> {
    let extra = vint_at(f, f.len() as int, cursor, 10);
    if flags % 2 == 1 && extra is None {
        None
    } else {
        let at = if flags % 2 == 1 {
            cursor + extra->Some_0.1
        } else {
            cursor
        };
        if flags / 2 % 2 == 0 {
            Some(0)
        } else if vint_at(f, f.len() as int, at, 10) is None {
            None
        } else {
            Some(vint_at(f, f.len() as int, at, 10)->Some_0.0 as int)
        }
    }
}

/// The length of a RAR archive at the beginning of `f`.
pub open spec fn rar_len(f: Seq<u8>, avail: int) -> Option<int> {
    let h = window(f, 0, 8);
    if h.len() < 7 || !text_at(h, 0, "Rar!\x1a\x07"@) {
        None
    } else if h[6] == 0 {
        rar4_from(f, avail, 7, MAX_RAR_BLOCKS as nat)
    } else if h[6] == 1 && h.len() >= 8 && h[7] == 0 {
        rar5_from(f, avail, 8, MAX_RAR_BLOCKS as nat)
    } else {
        None
    }
}

/// The number of RAR blocks that are looked at.
pub const MAX_RAR_BLOCKS: u64 = 0x100_0000;

/// One of the bytes of a RAR archive that are looked at could not be read.
pub open spec fn rar_fails(src: Source, start: int, avail: int) -> bool {
    let h = window(src.tail(start), 0, 8);
    src.faulty(start, 8) || (h.len() >= 7 && text_at(h, 0, "Rar!\x1a\x07"@) && if h[6] == 0 {
        rar4_fails(src, start, avail, 7, MAX_RAR_BLOCKS as nat)
    } else {
        h[6] == 1 && h.len() >= 8 && h[7] == 0 && rar5_fails(
            src,
            start,
            avail,
            8,
            MAX_RAR_BLOCKS as nat,
        )
    })
}

/// RAR archive length. The signature is shared by v4 and v5; what follows it
/// selects the layout. Each is a chain of blocks that ends in a marker block.
pub fn rar_length(source: &Source, file_start: u64, limit: u64) -> (r: Length)
    requires
        source.spans(file_start, limit),
    ensures
        source.sizes(
            file_start,
            r,
            rar_len(source.tail(file_start as int), limit - file_start),
            limit - file_start,
        ),
        r is Err <==> rar_fails(*source, file_start as int, limit - file_start),
{
    let h = source.part_upto(file_start, 0, 8)?;
    if h.len() < 7 || !is_text(&h, 0, "Rar!\x1a\x07") {
        return Ok(None);
    }
    if h[6] == 0 {
        rar4_length(source, file_start, limit)
    } else if h[6] == 1 && h.len() >= 8 && h[7] == 0 {
        rar5_length(source, file_start, limit)
    } else {
        Ok(None)
    }
}

/// One of the block headers of a RAR v4 archive that are looked at from `pos` on could not be read.
pub open spec fn rar4_fails(src: Source, start: int, avail: int, pos: int, left: nat) -> bool
    decreases left,
{
    let h = window(src.tail(start), pos, 11);
    let next = pos + le16(h, 5) + if le16(h, 3) >= 0x8000 {
        le32(h, 7) as int
    } else {
        0
    };
    left > 0 && (src.faulty(start + pos, 11) || (h.len() >= 7 && le16(h, 5) >= 7 && !(le16(h, 3)
        >= 0x8000 && h.len() < 11) && next <= avail && h[2] != 0x7B && rar4_fails(
        src,
        start,
        avail,
        next,
        (left - 1) as nat,
    )))
}

/// RAR v4: the chain of blocks behind the 7-byte marker.
pub fn rar4_length(source: &Source, file_start: u64, limit: u64) -> (r: Length)
    requires
        source.spans(file_start, limit),
    ensures
        source.sizes(
            file_start,
            r,
            rar4_from(
                source.tail(file_start as int),
                limit - file_start,
                7,
                MAX_RAR_BLOCKS as nat,
            ),
            limit - file_start,
        ),
        r is Err <==> rar4_fails(
            *source,
            file_start as int,
            limit - file_start,
            7,
            MAX_RAR_BLOCKS as nat,
        ),
{
    let avail: u64 = limit - file_start;
    let ghost f = source.tail(file_start as int);
    let mut pos: u64 = 7;
    let mut left: u64 = MAX_RAR_BLOCKS;
    while left > 0
        invariant
            source.spans(file_start, limit),
            avail == limit - file_start,
            f == source.tail(file_start as int),
            pos <= avail || pos == 7,
            rar4_from(f, avail as int, 7, MAX_RAR_BLOCKS as nat) == rar4_from(
                f,
                avail as int,
                pos as int,
                left as nat,
            ),
            rar4_fails(*source, file_start as int, avail as int, 7, MAX_RAR_BLOCKS as nat)
                == rar4_fails(*source, file_start as int, avail as int, pos as int, left as nat),
        decreases left,
    {
        let h = source.part_upto(file_start, pos, 11)?;
        if h.len() < 7 {
            return Ok(None);
        }
        let flags: u16 = rd_le16(&h, 3);
        let head_size: u64 = rd_le16(&h, 5) as u64;
        if head_size < 7 {
            return Ok(None);
        }
        let mut add_size: u64 = 0;
        if flags >= 0x8000 {
            if h.len() < 11 {
                return Ok(None);
            }
            add_size = rd_le32(&h, 7) as u64;
        }
        pos = pos + head_size + add_size;
        if pos > avail {
            return Ok(None);
        }
        if h[2] == 0x7B {
            return Ok(Some(pos));
        }
        left = left - 1;
    }
    Ok(None)
}

/// One of the integers of the header of the RAR v5 block at `pos` that are looked at could not be read.
pub open spec fn rar5_block_fails(src: Source, start: int, pos: int) -> bool {
    let f = src.tail(start);
    let end = f.len() as int;
    vint_fails(src, start, end, pos + 4, 10, 0) || match vint_at(f, end, pos + 4, 10) {
        None => false,
        Some((_, hs_len)) => {
            let at = pos + 4 + hs_len;
            vint_fails(src, start, end, at, 10, 0) || match vint_at(f, end, at, 10) {
                None => false,
                Some((_, t_len)) => {
                    vint_fails(src, start, end, at + t_len, 10, 0) || match vint_at(
                        f,
                        end,
                        at + t_len,
                        10,
                    ) {
                        None => false,
                        Some((flags, f_len)) => rar5_data_size_fails(
                            src,
                            start,
                            at + t_len + f_len,
                            flags,
                        ),
                    }
                },
            }
        },
    }
}

/// One of the sizes in a RAR v5 block's header, which goes on at `cursor`, could not be read.
pub open spec fn rar5_data_size_fails(src: Source, start: int, cursor: int, flags: u64) -> bool {
    let f = src.tail(start);
    let end = f.len() as int;
    let extra = vint_at(f, end, cursor, 10);
    let at = if flags % 2 == 1 {
        cursor + extra->Some_0.1
    } else {
        cursor
    };
    ||| flags % 2 == 1 && vint_fails(src, start, end, cursor, 10, 0)
    ||| !(flags % 2 == 1 && extra is None) && flags / 2 % 2 != 0 && vint_fails(src, start, end, at, 10, 0)
}

/// The type and length of the RAR v5 block at `pos`.
fn read_rar5_block(source: &Source, file_start: u64, pos: u64) -> (r: Result<
    Option<(u64, u128)>,
    ReadError,
>)
    requires
        source.wf(),
        file_start <= source@.len(),
        pos <= isize::MAX,
    ensures
        match r {
            Ok(Some((kind, len))) => rar5_block(source.tail(file_start as int), pos as int) == Some(
                (kind, len as int),
            ) && 0 < len < 0x4_0000_0000_0000_0000,
            Ok(None) => rar5_block(source.tail(file_start as int), pos as int) is None,
            Err(e) => file_start + pos <= e.offset < file_start + pos + 54 && source.explains(e),
        },
        r is Err <==> rar5_block_fails(*source, file_start as int, pos as int),
{
    let room: u64 = source.size() - file_start;
    let (header_size, hs_len) = match read_base128(source, file_start, room, pos + 4, 10)? {
        Some(x) => x,
        None => return Ok(None),
    };
    let header_start: u64 = pos + 4 + hs_len;
    let (kind, t_len) = match read_base128(source, file_start, room, header_start, 10)? {
        Some(x) => x,
        None => return Ok(None),
    };
    let (flags, f_len) = match read_base128(source, file_start, room, header_start + t_len, 10)? {
        Some(x) => x,
        None => return Ok(None),
    };
    let mut cursor: u64 = header_start + t_len + f_len;
    if flags % 2 == 1 {
        // The extra area's own bytes are part of the header.
        cursor = match read_base128(source, file_start, room, cursor, 10)? {
            Some(x) => cursor + x.1,
            None => return Ok(None),
        };
    }
    let mut data_size: u64 = 0;
    if flags / 2 % 2 != 0 {
        data_size = match read_base128(source, file_start, room, cursor, 10)? {
            Some(x) => x.0,
            None => return Ok(None),
        };
    }
    Ok(Some((kind, (4 + hs_len) as u128 + header_size as u128 + data_size as u128)))
}

/// One of the block headers of a RAR v5 archive that are looked at from `pos` on could not be read.
pub open spec fn rar5_fails(src: Source, start: int, avail: int, pos: int, left: nat) -> bool
    decreases left,
{
    left > 0 && (rar5_block_fails(src, start, pos) || match rar5_block(src.tail(start), pos) {
        None => false,
        Some((kind, len)) => pos + len <= avail && kind != 5 && rar5_fails(
            src,
            start,
            avail,
            pos + len,
            (left - 1) as nat,
        ),
    })
}

/// RAR v5: the chain of blocks behind the 8-byte signature.
pub fn rar5_length(source: &Source, file_start: u64, limit: u64) -> (r: Length)
    requires
        source.spans(file_start, limit),
    ensures
        source.sizes(
            file_start,
            r,
            rar5_from(
                source.tail(file_start as int),
                limit - file_start,
                8,
                MAX_RAR_BLOCKS as nat,
            ),
            limit - file_start,
        ),
        r is Err <==> rar5_fails(
            *source,
            file_start as int,
            limit - file_start,
            8,
            MAX_RAR_BLOCKS as nat,
        ),
{
    let avail: u64 = limit - file_start;
    let ghost f = source.tail(file_start as int);
    let mut pos: u64 = 8;
    let mut left: u64 = MAX_RAR_BLOCKS;
    while left > 0
        invariant
            source.spans(file_start, limit),
            avail == limit - file_start,
            f == source.tail(file_start as int),
            pos <= avail || pos == 8,
            rar5_from(f, avail as int, 8, MAX_RAR_BLOCKS as nat) == rar5_from(
                f,
                avail as int,
                pos as int,
                left as nat,
            ),
            rar5_fails(*source, file_start as int, avail as int, 8, MAX_RAR_BLOCKS as nat)
                == rar5_fails(*source, file_start as int, avail as int, pos as int, left as nat),
        decreases left,
    {
        let (kind, len) = match read_rar5_block(source, file_start, pos)? {
            Some(x) => x,
            None => return Ok(None),
        };
        let next: u128 = pos as u128 + len;
        if next > avail as u128 {
            return Ok(None);
        }
        pos = next as u64;
        if kind == 5 {
            return Ok(Some(pos));
        }
        left = left - 1;
    }
    Ok(None)
}

/// Where the blocks of a Zstandard frame begin, which the descriptor byte behind
/// the magic gives: it sizes the window, dictionary and content size fields.
pub open spec fn zstd_blocks_at(fhd: u8) -> int {
    let single = fhd / 32 % 2;
    let dict: int = if fhd % 4 == 3 {
        4
    } else {
        (fhd % 4) as int
    };
    let content: int = if fhd / 64 == 0 {
        single as int
    } else if fhd / 64 == 1 {
        2
    } else if fhd / 64 == 2 {
        4
    } else {
        8
    };
    5 + (1 - single) + dict + content
}

/// Where the blocks of a Zstandard frame end of which the next is at `pos`, no
/// more than `left` blocks being looked at. A block's 3-byte header holds the last
/// flag, the type and the size; a block of type 1 is one byte repeated.
pub open spec fn zstd_blocks_end(f: Seq<u8>, avail: int, pos: int, left: nat) -> Option<int>
    decreases left,
{
    let raw = crate::bytes::le24(f.subrange(pos, pos + 3), 0);
    let next = pos + 3 + if raw / 2 % 4 == 1 {
        1
    } else {
        (raw / 8) as int
    };
    if left == 0 {
        Some(pos)
    } else if pos + 3 > f.len() || raw / 2 % 4 == 3 || next > avail {
        None
    } else if raw % 2 == 1 {
        Some(next)
    } else {
        zstd_blocks_end(f, avail, next, (left - 1) as nat)
    }
}

/// The number of Zstandard or LZ4 blocks that are looked at.
pub const MAX_STREAM_BLOCKS: u64 = 0x100_0000;

/// The length of a Zstandard frame at the beginning of `f`: its blocks, and the
/// checksum behind them where the descriptor says that there is one.
pub open spec fn zstd_len(f: Seq<u8>, avail: int) -> Option<int> {
    let h = f.subrange(0, 5);
    if f.len() < 5 || le32(h, 0) != 0xFD2F_B528 {
        None
    } else {
        match zstd_blocks_end(f, avail, zstd_blocks_at(h[4]), MAX_STREAM_BLOCKS as nat) {
            None => None,
            Some(end) => if h[4] / 4 % 2 == 1 {
                fit(end + 4, avail)
            } else {
                Some(end)
            },
        }
    }
}

/// One of the block headers of a Zstandard frame that are looked at from `pos` on could not be read.
pub open spec fn zstd_blocks_fails(src: Source, start: int, avail: int, pos: int, left: nat) -> bool
    decreases left,
{
    let f = src.tail(start);
    let raw = crate::bytes::le24(f.subrange(pos, pos + 3), 0);
    let next = pos + 3 + if raw / 2 % 4 == 1 {
        1
    } else {
        (raw / 8) as int
    };
    left > 0 && (src.faulty(start + pos, 3) || (pos + 3 <= f.len() && raw / 2 % 4 != 3 && next <= avail
        && raw % 2 != 1 && zstd_blocks_fails(src, start, avail, next, (left - 1) as nat)))
}

/// Where the blocks of a Zstandard frame end of which the first is at `first`.
fn zstd_blocks(source: &Source, file_start: u64, limit: u64, first: u64) -> (r: Length)
    requires
        source.spans(file_start, limit),
        0 < first < 32,
    ensures
        source.sizes(
            file_start,
            r,
            zstd_blocks_end(
                source.tail(file_start as int),
                limit - file_start,
                first as int,
                MAX_STREAM_BLOCKS as nat,
            ),
            limit - file_start,
        ),
        r is Err <==> zstd_blocks_fails(
            *source,
            file_start as int,
            limit - file_start,
            first as int,
            MAX_STREAM_BLOCKS as nat,
        ),
{
    let avail: u64 = limit - file_start;
    let ghost f = source.tail(file_start as int);
    let mut pos: u64 = first;
    let mut left: u64 = MAX_STREAM_BLOCKS;
    while left > 0
        invariant
            source.spans(file_start, limit),
            avail == limit - file_start,
            f == source.tail(file_start as int),
            left <= MAX_STREAM_BLOCKS,
            0 < pos,
            pos <= avail || left == MAX_STREAM_BLOCKS && pos < 32,
            zstd_blocks_end(f, avail as int, first as int, MAX_STREAM_BLOCKS as nat)
                == zstd_blocks_end(f, avail as int, pos as int, left as nat),
            zstd_blocks_fails(
                *source,
                file_start as int,
                avail as int,
                first as int,
                MAX_STREAM_BLOCKS as nat,
            ) == zstd_blocks_fails(
                *source,
                file_start as int,
                avail as int,
                pos as int,
                left as nat,
            ),
        decreases left,
    {
        let b = match source.part(file_start, pos, 3)? {
            Some(b) => b,
            None => return Ok(None),
        };
        let raw: u32 = crate::bytes::rd_le24(&b, 0);
        if raw / 2 % 4 == 3 {
            return Ok(None);  // reserved block type
        }
        pos = pos + 3 + if raw / 2 % 4 == 1 {
            1
        } else {
            (raw / 8) as u64
        };
        if pos > avail {
            return Ok(None);
        }
        if raw % 2 == 1 {
            return Ok(Some(pos));
        }
        left = left - 1;
    }
    Ok(Some(pos))
}

/// One of the bytes of a Zstandard frame that are looked at could not be read.
pub open spec fn zstd_fails(src: Source, start: int, avail: int) -> bool {
    let f = src.tail(start);
    let h = f.subrange(0, 5);
    src.faulty(start, 5) || (f.len() >= 5 && le32(h, 0) == 0xFD2F_B528 && zstd_blocks_fails(
        src,
        start,
        avail,
        zstd_blocks_at(h[4]),
        MAX_STREAM_BLOCKS as nat,
    ))
}

/// Zstandard frame length.
pub fn zstd_length(source: &Source, file_start: u64, limit: u64) -> (r: Length)
    requires
        source.spans(file_start, limit),
    ensures
        source.sizes(
            file_start,
            r,
            zstd_len(source.tail(file_start as int), limit - file_start),
            limit - file_start,
        ),
        r is Err <==> zstd_fails(*source, file_start as int, limit - file_start),
{
    let avail: u64 = limit - file_start;
    let ghost f = source.tail(file_start as int);
    let h = match source.part(file_start, 0, 5)? {
        Some(h) => h,
        None => return Ok(None),
    };
    if rd_le32(&h, 0) != 0xFD2F_B528 {
        return Ok(None);
    }
    let fhd: u8 = h[4];
    let single: u64 = (fhd / 32 % 2) as u64;
    let dict: u64 = if fhd % 4 == 3 {
        4
    } else {
        (fhd % 4) as u64
    };
    let content: u64 = match fhd / 64 {
        0 => single,
        1 => 2,
        2 => 4,
        _ => 8,
    };
    let pos: u64 = 5 + (1 - single) + dict + content;
    let end: u64 = match zstd_blocks(source, file_start, limit, pos)? {
        Some(end) => end,
        None => return Ok(None),
    };
    if fhd / 4 % 2 == 1 {
        return Ok(within(end + 4, avail));
    }
    Ok(Some(end))
}

/// Where the blocks of an LZ4 frame end of which the next is at `pos`, no more
/// than `left` blocks being looked at. A block is its size, with the top bit set
/// where it is not compressed, its data and `check` bytes of checksum; a size of
/// zero ends the chain.
pub open spec fn lz4_blocks_end(
    f: Seq<u8>,
    avail: int,
    check: int,
    pos: int,
    left: nat,
) -> Option<int>
    decreases left,
{
    let raw = le32(f.subrange(pos, pos + 4), 0);
    let next = pos + 4 + raw % 0x8000_0000 + check;
    if left == 0 {
        Some(pos)
    } else if pos + 4 > f.len() {
        None
    } else if raw == 0 {
        Some(pos + 4)
    } else if next > avail {
        None
    } else {
        lz4_blocks_end(f, avail, check, next, (left - 1) as nat)
    }
}

/// The length of an LZ4 frame at the beginning of `f`. The flags behind the magic
/// say whether there are block checksums, a content size, a content checksum and
/// a dictionary id; their version bits must be 01.
pub open spec fn lz4_len(f: Seq<u8>, avail: int) -> Option<int> {
    let h = f.subrange(0, 5);
    let flg = h[4];
    if f.len() < 5 || le32(h, 0) != 0x184D_2204 || flg / 64 != 1 {
        None
    } else {
        match lz4_blocks_end(
            f,
            avail,
            (flg / 16 % 2) * 4,
            7 + (flg / 8 % 2) * 8 + (flg % 2) * 4,
            MAX_STREAM_BLOCKS as nat,
        ) {
            None => None,
            Some(end) => fit(end + (flg / 4 % 2) * 4, avail),
        }
    }
}

/// One of the block sizes of an LZ4 frame that are looked at from `pos` on could not be read.
pub open spec fn lz4_blocks_fails(
    src: Source,
    start: int,
    avail: int,
    check: int,
    pos: int,
    left: nat,
) -> bool
    decreases left,
{
    let f = src.tail(start);
    let raw = le32(f.subrange(pos, pos + 4), 0);
    let next = pos + 4 + raw % 0x8000_0000 + check;
    left > 0 && (src.faulty(start + pos, 4) || (pos + 4 <= f.len() && raw != 0 && next <= avail
        && lz4_blocks_fails(src, start, avail, check, next, (left - 1) as nat)))
}

/// Where the blocks of an LZ4 frame end of which the first is at `first`.
fn lz4_blocks(source: &Source, file_start: u64, limit: u64, check: u64, first: u64) -> (r: Length)
    requires
        source.spans(file_start, limit),
        0 < first < 32,
        check <= 4,
    ensures
        match r {
            Ok(Some(n)) => lz4_blocks_end(
                source.tail(file_start as int),
                limit - file_start,
                check as int,
                first as int,
                MAX_STREAM_BLOCKS as nat,
            ) == Some(n as int) && 0 < n <= limit - file_start + 64,
            Ok(None) => lz4_blocks_end(
                source.tail(file_start as int),
                limit - file_start,
                check as int,
                first as int,
                MAX_STREAM_BLOCKS as nat,
            ) is None,
            Err(e) => source.blames(file_start, limit - file_start, e),
        },
        r is Err <==> lz4_blocks_fails(
            *source,
            file_start as int,
            limit - file_start,
            check as int,
            first as int,
            MAX_STREAM_BLOCKS as nat,
        ),
{
    let avail: u64 = limit - file_start;
    let ghost f = source.tail(file_start as int);
    let mut pos: u64 = first;
    let mut left: u64 = MAX_STREAM_BLOCKS;
    while left > 0
        invariant
            source.spans(file_start, limit),
            avail == limit - file_start,
            f == source.tail(file_start as int),
            left <= MAX_STREAM_BLOCKS,
            check <= 4,
            0 < pos,
            pos <= avail || pos < 32,
            lz4_blocks_end(f, avail as int, check as int, first as int, MAX_STREAM_BLOCKS as nat)
                == lz4_blocks_end(f, avail as int, check as int, pos as int, left as nat),
            lz4_blocks_fails(
                *source,
                file_start as int,
                avail as int,
                check as int,
                first as int,
                MAX_STREAM_BLOCKS as nat,
            ) == lz4_blocks_fails(
                *source,
                file_start as int,
                avail as int,
                check as int,
                pos as int,
                left as nat,
            ),
        decreases left,
    {
        let b = match source.part(file_start, pos, 4)? {
            Some(b) => b,
            None => return Ok(None),
        };
        let raw: u32 = rd_le32(&b, 0);
        if raw == 0 {
            return Ok(Some(pos + 4));
        }
        pos = pos + 4 + (raw % 0x8000_0000) as u64 + check;
        if pos > avail {
            return Ok(None);
        }
        left = left - 1;
    }
    Ok(Some(pos))
}

/// One of the bytes of an LZ4 frame that are looked at could not be read.
pub open spec fn lz4_fails(src: Source, start: int, avail: int) -> bool {
    let f = src.tail(start);
    let h = f.subrange(0, 5);
    let flg = h[4];
    src.faulty(start, 5) || (f.len() >= 5 && le32(h, 0) == 0x184D_2204 && flg / 64 == 1
        && lz4_blocks_fails(
        src,
        start,
        avail,
        (flg / 16 % 2) * 4,
        7 + (flg / 8 % 2) * 8 + (flg % 2) * 4,
        MAX_STREAM_BLOCKS as nat,
    ))
}

/// LZ4 frame length.
pub fn lz4_length(source: &Source, file_start: u64, limit: u64) -> (r: Length)
    requires
        source.spans(file_start, limit),
    ensures
        source.sizes(
            file_start,
            r,
            lz4_len(source.tail(file_start as int), limit - file_start),
            limit - file_start,
        ),
        r is Err <==> lz4_fails(*source, file_start as int, limit - file_start),
{
    let avail: u64 = limit - file_start;
    let ghost f = source.tail(file_start as int);
    let h = match source.part(file_start, 0, 5)? {
        Some(h) => h,
        None => return Ok(None),
    };
    let flg: u8 = h[4];
    if rd_le32(&h, 0) != 0x184D_2204 || flg / 64 != 1 {
        return Ok(None);
    }
    let check: u64 = (flg / 16 % 2) as u64 * 4;
    let pos: u64 = 7 + (flg / 8 % 2) as u64 * 8 + (flg % 2) as u64 * 4;
    let end: u64 = match lz4_blocks(source, file_start, limit, check, pos)? {
        Some(end) => end,
        None => return Ok(None),
    };
    Ok(within(end + (flg / 4 % 2) as u64 * 4, avail))
}

/// The length of a Unix archive of which `members` members have been passed, the
/// next being at `pos`: up to the last whole member. A member's 60-byte header ends
/// with a backquote and a newline; the size of its data is a decimal number at
/// offset 48, and the data is padded to an even length.
pub open spec fn ar_from(f: Seq<u8>, avail: int, pos: int, members: int) -> Option<int>
    decreases avail - pos,
{
    let h = f.subrange(pos, pos + 60);
    proof {
        lemma_number_sign(h.subrange(48, 58), 10);
    }
    let stop = if members == 0 {
        None
    } else {
        Some(pos)
    };
    match padded_number_in(h.subrange(48, 58), 10) {
        Some(size) if pos + 60 <= avail && text_at(h, 58, "`\n"@) && pos + 60 + size + size % 2
            <= avail => ar_from(f, avail, pos + 60 + size + size % 2, members + 1),
        _ => stop,
    }
}

/// The length of a Unix archive at the beginning of `f`.
pub open spec fn ar_len(f: Seq<u8>, avail: int) -> Option<int> {
    if f.len() < 8 || !text_at(f.subrange(0, 8), 0, "!<arch>\n"@) {
        None
    } else {
        ar_from(f, avail, 8, 0)
    }
}

/// One of the member headers of a Unix archive that are looked at from `pos` on could not be read.
pub open spec fn ar_walk_fails(src: Source, start: int, avail: int, pos: int) -> bool
    decreases avail - pos,
{
    let h = src.tail(start).subrange(pos, pos + 60);
    proof {
        lemma_number_sign(h.subrange(48, 58), 10);
    }
    pos + 60 <= avail && (src.faulty(start + pos, 60) || match padded_number_in(
        h.subrange(48, 58),
        10,
    ) {
        Some(size) => text_at(h, 58, "`\n"@) && pos + 60 + size + size % 2 <= avail && ar_walk_fails(
            src,
            start,
            avail,
            pos + 60 + size + size % 2,
        ),
        None => false,
    })
}

/// Walk the members of a Unix archive.
fn ar_walk(source: &Source, file_start: u64, limit: u64) -> (r: Length)
    requires
        source.spans(file_start, limit),
    ensures
        source.sizes(
            file_start,
            r,
            ar_from(source.tail(file_start as int), limit - file_start, 8, 0),
            limit - file_start,
        ),
        r is Err <==> ar_walk_fails(*source, file_start as int, limit - file_start, 8),
{
    let avail: u64 = limit - file_start;
    let ghost f = source.tail(file_start as int);
    let mut pos: u64 = 8;
    let mut members: u64 = 0;
    loop
        invariant
            source.spans(file_start, limit),
            avail == limit - file_start,
            f == source.tail(file_start as int),
            pos <= avail || members == 0 && pos == 8,
            members <= pos,
            pos >= 8,
            ar_from(f, avail as int, 8, 0) == ar_from(
                f,
                avail as int,
                pos as int,
                members as int,
            ),
            ar_walk_fails(*source, file_start as int, avail as int, 8) == ar_walk_fails(
                *source,
                file_start as int,
                avail as int,
                pos as int,
            ),
        decreases avail + 8 - pos,
    {
        let stop: Option<u64> = if members == 0 {
            None
        } else {
            Some(pos)
        };
        if pos + 60 > avail {
            return Ok(stop);
        }
        let h = match source.part(file_start, pos, 60)? {
            Some(h) => h,
            None => return Ok(None),
        };
        if !is_text(&h, 58, "`\n") {
            return Ok(stop);
        }
        let size: u64 = match parse_padded_number(&h[48..58], 10) {
            Some(size) => size,
            None => return Ok(stop),
        };
        let next: u64 = (pos + 60).saturating_add(size).saturating_add(size % 2);
        if next > avail {
            return Ok(stop);
        }
        pos = next;
        members = members + 1;
    }
}

/// One of the bytes of a Unix archive that are looked at could not be read.
pub open spec fn ar_fails(src: Source, start: int, avail: int) -> bool {
    let f = src.tail(start);
    src.faulty(start, 8) || (f.len() >= 8 && text_at(f.subrange(0, 8), 0, "!<arch>\n"@)
        && ar_walk_fails(src, start, avail, 8))
}

/// Unix `ar` archive length. At least one valid member is asked for, to reject a
/// stray magic.
pub fn ar_length(source: &Source, file_start: u64, limit: u64) -> (r: Length)
    requires
        source.spans(file_start, limit),
    ensures
        source.sizes(
            file_start,
            r,
            ar_len(source.tail(file_start as int), limit - file_start),
            limit - file_start,
        ),
        r is Err <==> ar_fails(*source, file_start as int, limit - file_start),
{
    let g = match source.part(file_start, 0, 8)? {
        Some(g) => g,
        None => return Ok(None),
    };
    if !is_text(&g, 0, "!<arch>\n") {
        return Ok(None);
    }
    ar_walk(source, file_start, limit)
}

/// A tar numeric field without its NULs.
pub open spec fn tar_text(s: Seq<u8>) -> Seq<u8> {
    s.filter(|b: u8| b != 0)
}

/// What a tar numeric field stands for: an octal number, padded with spaces and
/// NULs, zero where there is nothing but padding; or, where the top bit is set, a
/// big-endian integer, of which the last 8 bytes count. An empty field stands for nothing.
pub open spec fn tar_number(s: Seq<u8>) -> Option<int> {
    if s.len() == 0 {
        None
    } else if s[0] >= 128 {
        Some(be_uint(s.subrange(larger(s.len() - 8, 0), s.len() as int)))
    } else if blank(tar_text(s)) {
        Some(0)
    } else {
        plain_padded_number_in(tar_text(s), 8)
    }
}

/// A tar numeric field does not stand for a negative number.
pub proof fn lemma_tar_number_sign(s: Seq<u8>)
    ensures
        tar_number(s) matches Some(v) ==> v >= 0,
{
    lemma_be_uint_sign(s.subrange(larger(s.len() - 8, 0), s.len() as int));
    lemma_number_sign(tar_text(s), 8);
}

/// The sum of the first `n` bytes of a tar header, its checksum field taken as
/// spaces.
pub open spec fn tar_sum(b: Seq<u8>, n: nat) -> int
    decreases n,
{
    if n == 0 {
        0
    } else {
        tar_sum(b, (n - 1) as nat) + if 148 <= n - 1 < 156 {
            0x20
        } else {
            b[n - 1] as int
        }
    }
}

/// A tar member's header: the magic, and a checksum that is right.
pub open spec fn tar_header(b: Seq<u8>) -> bool {
    text_at(b, 257, "ustar"@) && tar_number(b.subrange(148, 156)) == Some(tar_sum(b, 512))
}

/// Nothing but zeros.
pub open spec fn all_zero(s: Seq<u8>) -> bool {
    forall|i: int| 0 <= i < s.len() ==> s[i] == 0
}

/// The number of tar members that are looked at.
pub const MAX_TAR_MEMBERS: u64 = 1_000_000;

/// The length of a tar of which `members` members have been passed, the next being
/// at `pos`: up to the two zero blocks that end it, or as many of them as have
/// room; or else to the last whole member. A member is a 512-byte header, with its
/// size at offset 124, and its data, padded to a multiple of 512.
pub open spec fn tar_from(f: Seq<u8>, avail: int, pos: int, members: int) -> Option<int>
    decreases avail - pos,
{
    let b = f.subrange(pos, pos + 512);
    proof {
        lemma_tar_number_sign(b.subrange(124, 136));
    }
    let stop = if members == 0 {
        None
    } else {
        Some(pos)
    };
    if pos + 512 > avail {
        stop
    } else if all_zero(b) {
        if members == 0 {
            None
        } else if pos + 1024 <= avail {
            Some(pos + 1024)
        } else {
            Some(pos + 512)
        }
    } else if !tar_header(b) {
        stop
    } else {
        match tar_number(b.subrange(124, 136)) {
            None => stop,
            Some(size) => {
                let next = pos + 512 + (size + 511) / 512 * 512;
                if next > avail || members >= MAX_TAR_MEMBERS {
                    stop
                } else {
                    tar_from(f, avail, next, members + 1)
                }
            },
        }
    }
}

/// The length of a tar at the beginning of `f`.
pub open spec fn tar_len(f: Seq<u8>, avail: int) -> Option<int> {
    tar_from(f, avail, 0, 0)
}

/// Drop the NULs of a tar numeric field.
fn tar_digits(s: &[u8]) -> (r: Vec<u8>)
    ensures
        r@ == tar_text(s@),
{
    let mut out: Vec<u8> = Vec::new();
    let mut i: usize = 0;
    reveal(Seq::filter);
    assert(s@.subrange(0, 0).filter(|b: u8| b != 0) =~= Seq::empty());
    while i < s.len()
        invariant
            i <= s@.len(),
            out@ == tar_text(s@.subrange(0, i as int)),
        decreases s@.len() - i,
    {
        reveal(Seq::filter);
        assert(s@.subrange(0, i + 1).drop_last() =~= s@.subrange(0, i as int));
        if s[i] != 0 {
            out.push(s[i]);
        }
        i = i + 1;
    }
    assert(s@.subrange(0, s@.len() as int) =~= s@);
    out
}

/// Parse a tar numeric field: octal ASCII (space/NUL padded), or GNU base-256 when
/// the field's top bit is set. An all-padding field is `0`.
pub fn parse_tar_numeric(field: &[u8]) -> (r: Option<u64>)
    ensures
        match r {
            Some(v) => tar_number(field@) == Some(v as int),
            None => tar_number(field@) is None,
        },
{
    if field.len() == 0 {
        return None;
    }
    if field[0] >= 128 {
        let from: usize = if field.len() > 8 {
            field.len() - 8
        } else {
            0
        };
        return Some(read_uint(&field[from..field.len()], true));
    }
    let digits = tar_digits(field);
    if pass_space(&digits, 0) == digits.len() {
        return Some(0);
    }
    parse_plain_padded_number(&digits, 8)
}

/// Verify a tar header's checksum: the sum of all 512 header bytes, with the 8-byte
/// checksum field (offset 148) taken as spaces, equals the value stored there.
pub fn tar_checksum_ok(block: &[u8]) -> (r: bool)
    requires
        block.len() == 512,
    ensures
        r == (tar_number(block@.subrange(148, 156)) == Some(tar_sum(block@, 512))),
{
    let stored: u64 = match parse_tar_numeric(&block[148..156]) {
        Some(v) => v,
        None => return false,
    };
    let mut sum: u64 = 0;
    let mut i: usize = 0;
    while i < 512
        invariant
            i <= 512,
            block.len() == 512,
            sum == tar_sum(block@, i as nat),
            sum <= i * 255,
        decreases 512 - i,
    {
        sum = sum + if 148 <= i && i < 156 {
            0x20
        } else {
            block[i] as u64
        };
        i = i + 1;
    }
    sum == stored
}

/// Whether there is nothing but zeros.
fn is_zero(b: &[u8]) -> (r: bool)
    ensures
        r == all_zero(b@),
{
    let mut i: usize = 0;
    while i < b.len()
        invariant
            i <= b@.len(),
            forall|k: int| 0 <= k < i ==> b@[k] == 0,
        decreases b@.len() - i,
    {
        if b[i] != 0 {
            return false;
        }
        i = i + 1;
    }
    true
}

/// One of the headers of a tar that are looked at could not be read, `members` members having been passed and the
/// next being at `pos`.
pub open spec fn tar_fails(src: Source, start: int, avail: int, pos: int, members: int) -> bool
    decreases avail - pos,
{
    let b = src.tail(start).subrange(pos, pos + 512);
    proof {
        lemma_tar_number_sign(b.subrange(124, 136));
    }
    pos + 512 <= avail && (src.faulty(start + pos, 512) || (!all_zero(b) && tar_header(b)
        && match tar_number(b.subrange(124, 136)) {
        None => false,
        Some(size) => {
            let next = pos + 512 + (size + 511) / 512 * 512;
            next <= avail && members < MAX_TAR_MEMBERS && tar_fails(
                src,
                start,
                avail,
                next,
                members + 1,
            )
        },
    }))
}

/// `tar` archive length. Each header's checksum is validated, so that a coincidental
/// magic does not over- or under-read; a truncated archive ends with its last
/// whole member.
pub fn tar_length(source: &Source, file_start: u64, limit: u64) -> (r: Length)
    requires
        source.spans(file_start, limit),
    ensures
        source.sizes(
            file_start,
            r,
            tar_len(source.tail(file_start as int), limit - file_start),
            limit - file_start,
        ),
        r is Err <==> tar_fails(*source, file_start as int, limit - file_start, 0, 0),
{
    let avail: u64 = limit - file_start;
    let ghost f = source.tail(file_start as int);
    let mut pos: u64 = 0;
    let mut members: u64 = 0;
    loop
        invariant
            source.spans(file_start, limit),
            avail == limit - file_start,
            f == source.tail(file_start as int),
            pos <= avail,
            members <= pos,
            tar_len(f, avail as int) == tar_from(f, avail as int, pos as int, members as int),
            tar_fails(*source, file_start as int, avail as int, 0, 0) == tar_fails(
                *source,
                file_start as int,
                avail as int,
                pos as int,
                members as int,
            ),
        decreases avail - pos,
    {
        let stop: Option<u64> = if members == 0 {
            None
        } else {
            Some(pos)
        };
        if pos + 512 > avail {
            return Ok(stop);
        }
        let b = match source.part(file_start, pos, 512)? {
            Some(b) => b,
            None => return Ok(None),
        };
        if is_zero(&b) {
            if members == 0 {
                return Ok(None);
            }
            return Ok(
                Some(
                    if pos + 1024 <= avail {
                        pos + 1024
                    } else {
                        pos + 512
                    },
                ),
            );
        }
        if !is_text(&b, 257, "ustar") || !tar_checksum_ok(&b) {
            return Ok(stop);
        }
        let size: u64 = match parse_tar_numeric(&b[124..136]) {
            Some(size) => size,
            None => return Ok(stop),
        };
        let next: u128 = pos as u128 + 512 + (size as u128 + 511) / 512 * 512;
        if next > avail as u128 || members >= MAX_TAR_MEMBERS {
            return Ok(stop);
        }
        pos = next as u64;
        members = members + 1;
    }
}

/// The next multiple of 4.
pub open spec fn up4(n: int) -> int {
    (n + 3) / 4 * 4
}

/// Round up to a multiple of 4 (cpio newc pads names and data to 4 bytes). Where that is more than
/// 64 bits can hold, it is the largest multiple that they can.
pub fn round_up4(n: u64) -> (r: u64)
    ensures
        r == smaller(up4(n as int), u64::MAX - 3),
{
    n.saturating_add(3) / 4 * 4
}

/// The number of cpio entries that are looked at.
pub const MAX_CPIO_ENTRIES: u64 = 5_000_000;

/// The name of a cpio entry, which may end with a NUL, says that it is the last.
pub open spec fn cpio_trailer(name: Seq<u8>) -> bool {
    text_at(name, 0, "TRAILER!!!"@) && (name.len() == 10 || name.len() == 11 && name[10] == 0)
}

/// The length of a cpio of which `entries` entries have been passed, the next being
/// at `pos`: up to the end of the trailer entry, before which there has to be one.
/// An entry is a 110-byte header with numbers of 8 hexadecimal digits, among them
/// the file's size at offset 54 and the name's at 94; the name; and the data, each
/// padded to a multiple of 4.
pub open spec fn cpio_from(f: Seq<u8>, avail: int, pos: int, entries: int) -> Option<int>
    decreases avail - pos,
{
    let h = f.subrange(pos, pos + 110);
    proof {
        lemma_number_sign(h.subrange(54, 62), 16);
        lemma_number_sign(h.subrange(94, 102), 16);
    }
    if pos + 110 > avail || !(text_at(h, 0, "070701"@) || text_at(h, 0, "070702"@)) {
        None
    } else {
        match (plain_number_in(h.subrange(54, 62), 16), plain_number_in(h.subrange(94, 102), 16)) {
            (Some(size), Some(n)) => {
                let name_end = pos + up4(110 + n);
                if n == 0 || n > 8192 || pos + 110 + n > avail {
                    None
                } else if cpio_trailer(f.subrange(pos + 110, pos + 110 + n)) {
                    if entries == 0 {
                        None
                    } else {
                        Some(smaller(name_end, avail))
                    }
                } else if name_end + up4(size) > avail || entries >= MAX_CPIO_ENTRIES {
                    None
                } else {
                    cpio_from(f, avail, name_end + up4(size), entries + 1)
                }
            },
            _ => None,
        }
    }
}

/// The length of a cpio (newc) at the beginning of `f`.
pub open spec fn cpio_len(f: Seq<u8>, avail: int) -> Option<int> {
    cpio_from(f, avail, 0, 0)
}

/// One of the headers and names of a cpio that are looked at could not be read, `entries` entries having been passed
/// and the next being at `pos`.
pub open spec fn cpio_fails(src: Source, start: int, avail: int, pos: int, entries: int) -> bool
    decreases avail - pos,
{
    let f = src.tail(start);
    let h = f.subrange(pos, pos + 110);
    proof {
        lemma_number_sign(h.subrange(54, 62), 16);
        lemma_number_sign(h.subrange(94, 102), 16);
    }
    pos + 110 <= avail && (src.faulty(start + pos, 110) || ((text_at(h, 0, "070701"@) || text_at(
        h,
        0,
        "070702"@,
    )) && match (plain_number_in(h.subrange(54, 62), 16), plain_number_in(h.subrange(94, 102), 16)) {
        (Some(size), Some(n)) => {
            let name_end = pos + up4(110 + n);
            0 < n <= 8192 && pos + 110 + n <= avail && (src.faulty(start + pos + 110, n) || (
            !cpio_trailer(f.subrange(pos + 110, pos + 110 + n)) && name_end + up4(size) <= avail
                && entries < MAX_CPIO_ENTRIES && cpio_fails(
                src,
                start,
                avail,
                name_end + up4(size),
                entries + 1,
            )))
        },
        _ => false,
    }))
}

/// `cpio` archive (newc) length.
pub fn cpio_length(source: &Source, file_start: u64, limit: u64) -> (r: Length)
    requires
        source.spans(file_start, limit),
    ensures
        source.sizes(
            file_start,
            r,
            cpio_len(source.tail(file_start as int), limit - file_start),
            limit - file_start,
        ),
        r is Err <==> cpio_fails(*source, file_start as int, limit - file_start, 0, 0),
{
    let avail: u64 = limit - file_start;
    let ghost f = source.tail(file_start as int);
    proof {
        reveal_strlit("TRAILER!!!");
    }
    let mut pos: u64 = 0;
    let mut entries: u64 = 0;
    loop
        invariant
            source.spans(file_start, limit),
            avail == limit - file_start,
            f == source.tail(file_start as int),
            pos <= avail,
            entries <= pos,
            "TRAILER!!!"@.len() == 10,
            cpio_len(f, avail as int) == cpio_from(f, avail as int, pos as int, entries as int),
            cpio_fails(*source, file_start as int, avail as int, 0, 0) == cpio_fails(
                *source,
                file_start as int,
                avail as int,
                pos as int,
                entries as int,
            ),
        decreases avail - pos,
    {
        if pos + 110 > avail {
            return Ok(None);
        }
        let h = match source.part(file_start, pos, 110)? {
            Some(h) => h,
            None => return Ok(None),
        };
        if !is_text(&h, 0, "070701") && !is_text(&h, 0, "070702") {
            return Ok(None);
        }
        let size: u64 = match parse_plain_number(&h[54..62], 16) {
            Some(v) => v,
            None => return Ok(None),
        };
        let n: u64 = match parse_plain_number(&h[94..102], 16) {
            Some(v) => v,
            None => return Ok(None),
        };
        // The name's length is bounded, so that a corrupt field does not make
        // absurd amounts be read.
        if n == 0 || n > 8192 || pos + 110 + n > avail {
            return Ok(None);
        }
        let name = match source.part(file_start, pos + 110, n as usize)? {
            Some(name) => name,
            None => return Ok(None),
        };
        let name_end: u64 = pos + round_up4(110 + n);
        if is_text(&name, 0, "TRAILER!!!") && (name.len() == 10 || name.len() == 11 && name[10] == 0) {
            if entries == 0 {
                return Ok(None);
            }
            return Ok(
                Some(
                    if name_end < avail {
                        name_end
                    } else {
                        avail
                    },
                ),
            );
        }
        let next: u128 = name_end as u128 + (size as u128 + 3) / 4 * 4;
        if next > avail as u128 || entries >= MAX_CPIO_ENTRIES {
            return Ok(None);
        }
        pos = next as u64;
        entries = entries + 1;
    }
}

/// The length of a ZIM archive at the beginning of `f`: up to the end of the 16-byte
/// checksum that its header places behind itself.
pub open spec fn zim_len(f: Seq<u8>, avail: int) -> Option<int> {
    let h = f.subrange(0, 0x50);
    if f.len() < 0x50 || !text_at(h, 0, "ZIM\x04"@) || le64(h, 0x48) < 0x50 {
        None
    } else {
        fit(le64(h, 0x48) + 16, avail)
    }
}

/// ZIM (`.zim`) length.
pub fn zim_length(source: &Source, file_start: u64, limit: u64) -> (r: Length)
    requires
        source.spans(file_start, limit),
    ensures
        source.sizes(
            file_start,
            r,
            zim_len(source.tail(file_start as int), limit - file_start),
            limit - file_start,
        ),
        r is Err <==> source.faulty(file_start as int, 80),
{
    let h = match source.part(file_start, 0, 80)? {
        Some(h) => h,
        None => return Ok(None),
    };
    let at: u64 = rd_le64(&h, 0x48);
    if !is_text(&h, 0, "ZIM\x04") || at < 0x50 {
        return Ok(None);
    }
    Ok(within(at.saturating_add(16), limit - file_start))
}

/// The furthest end of the entries of an AppleSingle file from entry `i` on, of `n`;
/// `end` is the furthest end before.
pub open spec fn applesingle_end(f: Seq<u8>, n: int, i: int, end: int) -> int
    decreases n - i,
{
    let at = 0x1A + i * 12;
    let e = f.subrange(at, at + 12);
    if i >= n {
        end
    } else {
        applesingle_end(f, n, i + 1, larger(end, be32(e, 4) + be32(e, 8)))
    }
}

/// The length of an AppleSingle or AppleDouble file at the beginning of `f`: up to
/// the furthest end of its table or its 1 to 256 entries.
pub open spec fn applesingle_len(f: Seq<u8>, avail: int) -> Option<int> {
    let h = f.subrange(0, 0x1A);
    let n = be16(h, 0x18);
    let table_end = 0x1A + n * 12;
    if f.len() < 0x1A || !(be32(h, 0) == 0x0005_1600 || be32(h, 0) == 0x0005_1607) || !(be32(h, 4)
        == 0x0001_0000 || be32(h, 4) == 0x0002_0000) || n == 0 || n > 256 || table_end > avail {
        None
    } else {
        fit(applesingle_end(f, n as int, 0, table_end), avail)
    }
}

/// One of the entries of an AppleSingle file from entry `i` on, of `n`, could not be read.
pub open spec fn applesingle_table_fails(src: Source, start: int, n: int, i: int) -> bool
    decreases n - i,
{
    i < n && (src.faulty(start + (0x1A + i * 12), 12) || applesingle_table_fails(src, start, n, i + 1))
}

/// One of the bytes of an AppleSingle or AppleDouble file that are looked at could not be read.
pub open spec fn applesingle_fails(src: Source, start: int, avail: int) -> bool {
    let f = src.tail(start);
    let h = f.subrange(0, 0x1A);
    let n = be16(h, 0x18);
    src.faulty(start, 26) || (f.len() >= 0x1A && (be32(h, 0) == 0x0005_1600 || be32(h, 0)
        == 0x0005_1607) && (be32(h, 4) == 0x0001_0000 || be32(h, 4) == 0x0002_0000) && 0 < n <= 256
        && 0x1A + n * 12 <= avail && applesingle_table_fails(src, start, n as int, 0))
}

/// AppleSingle / AppleDouble (RFC 1740) length.
pub fn applesingle_length(source: &Source, file_start: u64, limit: u64) -> (r: Length)
    requires
        source.spans(file_start, limit),
    ensures
        source.sizes(
            file_start,
            r,
            applesingle_len(source.tail(file_start as int), limit - file_start),
            limit - file_start,
        ),
        r is Err <==> applesingle_fails(*source, file_start as int, limit - file_start),
{
    let avail: u64 = limit - file_start;
    let ghost f = source.tail(file_start as int);
    let h = match source.part(file_start, 0, 26)? {
        Some(h) => h,
        None => return Ok(None),
    };
    let magic: u32 = rd_be32(&h, 0);
    let version: u32 = rd_be32(&h, 4);
    let n: u64 = rd_be16(&h, 0x18) as u64;
    if !(magic == 0x0005_1600 || magic == 0x0005_1607) || !(version == 0x0001_0000 || version
        == 0x0002_0000) || n == 0 || n > 256 || 0x1A + n * 12 > avail {
        return Ok(None);
    }
    let mut end: u64 = 0x1A + n * 12;
    let mut i: u64 = 0;
    while i < n
        invariant
            source.spans(file_start, limit),
            avail == limit - file_start,
            f == source.tail(file_start as int),
            i <= n <= 256,
            0x1A + n * 12 <= avail,
            0 < end < 0x2_0000_0000,
            applesingle_end(f, n as int, 0, 0x1A + n * 12) == applesingle_end(
                f,
                n as int,
                i as int,
                end as int,
            ),
            applesingle_fails(*source, file_start as int, avail as int) == applesingle_table_fails(
                *source,
                file_start as int,
                n as int,
                i as int,
            ),
        decreases n - i,
    {
        let at: u64 = 0x1A + i * 12;
        let a: u64 = match source.part(file_start, at, 12)? {
            Some(e) => rd_be32(&e, 4) as u64 + rd_be32(&e, 8) as u64,
            None => 0,
        };
        end = max_u64(end, a);
        i = i + 1;
    }
    Ok(within(end, avail))
}

/// The sizes that an RPM signature gives for what follows it, in 32 and in 64 bits, from
/// index entry `i` on, of `n`; `narrow` and `wide` are what entries before gave. The
/// values are counted from `data`; one that does not lie in `b` spoils the package.
pub open spec fn rpm_sizes(
    b: Seq<u8>,
    data: int,
    n: int,
    i: int,
    narrow: Option<u64>,
    wide: Option<u64>,
) -> Option<(Option<u64>, Option<u64>)>
    decreases n - i,
{
    let e = 112 + i * 16;
    let at = data + be32(b, e + 8);
    if i >= n {
        Some((narrow, wide))
    } else if be32(b, e) == 270 && be32(b, e + 4) == 5 {
        if at + 8 > b.len() {
            None
        } else {
            rpm_sizes(b, data, n, i + 1, narrow, Some(be64(b, at)))
        }
    } else if be32(b, e) == 1000 && be32(b, e + 4) == 4 {
        if at + 4 > b.len() {
            None
        } else {
            rpm_sizes(b, data, n, i + 1, Some(be32(b, at) as u64), wide)
        }
    } else {
        rpm_sizes(b, data, n, i + 1, narrow, wide)
    }
}

/// The length of an RPM package at the beginning of `f`: a 96-byte lead, the signature
/// header, padded to a multiple of 8, and as much as the signature says, in 64 bits
/// rather than in 32. The signature has up to 65536 index entries and lies in the
/// first 128 KiB.
pub open spec fn rpm_len(f: Seq<u8>, avail: int) -> Option<int> {
    let b = window(f, 0, 0x2_0000);
    let n = be32(b, 104);
    let size = be32(b, 108);
    let data = 112 + n * 16;
    let body = 96 + (16 + n * 16 + size + 7) / 8 * 8;
    if b.len() < 112 || be32(b, 0) != 0xEDAB_EEDB || be24(b, 96) != 0x8E_ADE8 || n == 0 || n > 65536
        || data + size > b.len() {
        None
    } else {
        match rpm_sizes(b, data, n as int, 0, None, None) {
            Some((_, Some(wide))) => fit(body + wide, avail),
            Some((Some(narrow), None)) => fit(body + narrow, avail),
            _ => None,
        }
    }
}

/// Read the sizes in an RPM signature.
fn rpm_read_sizes(b: &[u8], data: usize, n: usize) -> (r: Option<(Option<u64>, Option<u64>)>)
    requires
        b.len() <= 0x2_0000,
        n <= 65536,
        data == 112 + n * 16,
        data <= b.len(),
    ensures
        r == rpm_sizes(b@, data as int, n as int, 0, None, None),
{
    let mut narrow: Option<u64> = None;
    let mut wide: Option<u64> = None;
    let mut i: usize = 0;
    while i < n
        invariant
            b.len() <= 0x2_0000,
            i <= n <= 65536,
            data == 112 + n * 16,
            data <= b.len(),
            rpm_sizes(b@, data as int, n as int, 0, None, None) == rpm_sizes(
                b@,
                data as int,
                n as int,
                i as int,
                narrow,
                wide,
            ),
        decreases n - i,
    {
        let e: usize = 112 + i * 16;
        let tag: u32 = rd_be32(b, e);
        let kind: u32 = rd_be32(b, e + 4);
        let at: u64 = data as u64 + rd_be32(b, e + 8) as u64;
        if tag == 270 && kind == 5 {
            if at + 8 > b.len() as u64 {
                return None;
            }
            wide = Some(rd_be64(b, at as usize));
        } else if tag == 1000 && kind == 4 {
            if at + 4 > b.len() as u64 {
                return None;
            }
            narrow = Some(rd_be32(b, at as usize) as u64);
        }
        i = i + 1;
    }
    Some((narrow, wide))
}

/// RPM package (`.rpm`) length.
pub fn rpm_length(source: &Source, file_start: u64, limit: u64) -> (r: Length)
    requires
        source.spans(file_start, limit),
    ensures
        source.sizes(
            file_start,
            r,
            rpm_len(source.tail(file_start as int), limit - file_start),
            limit - file_start,
        ),
        r is Err <==> source.faulty(file_start as int, 0x2_0000),
{
    let avail: u64 = limit - file_start;
    let b = source.part_upto(file_start, 0, 0x2_0000)?;
    if b.len() < 112 || rd_be32(&b, 0) != 0xEDAB_EEDB || rd_be24(&b, 96) != 0x8E_ADE8 {
        return Ok(None);
    }
    let n: u64 = rd_be32(&b, 104) as u64;
    let size: u64 = rd_be32(&b, 108) as u64;
    if n == 0 || n > 65536 || 112 + n * 16 + size > b.len() as u64 {
        return Ok(None);
    }
    let body: u64 = 96 + (16 + n * 16 + size + 7) / 8 * 8;
    match rpm_read_sizes(&b, 112 + n as usize * 16, n as usize) {
        Some((narrow, wide)) => {
            if let Some(v) = wide {
                return Ok(within(body.saturating_add(v), avail));
            }
            if let Some(v) = narrow {
                return Ok(within(body.saturating_add(v), avail));
            }
            Ok(None)
        },
        None => Ok(None),
    }
}

} // verus!
