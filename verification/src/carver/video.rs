//! Video containers and animations.

use crate::bytes::{
    be16, be24, be32, be64, byte_at_or_after, capped, ceil, find_byte, fit, is_text, le16, le32,
    le64, lemma_byte_at, min_u64, mul_capped, rd_be16, rd_be24, rd_be32, rd_be64, rd_le16, rd_le32,
    rd_le64, smaller, text_at, token_end, within,
};
use crate::source::{window, Length, ReadError, Source};
use crate::text::{digits_end, digits_value, parse_at};
use crate::varint::{
    ebml_fails, ebml_id_len, ebml_unknown, ebml_value, ebml_vint, ebml_width_at, lemma_ebml_value,
};
use vstd::prelude::*;
use vstd::string::*;

verus! {

/// The length of an uncompressed Flash movie at the beginning of `f`: what its
/// header gives, which is at least the header itself, behind a version, which is
/// not zero.
pub open spec fn swf_len(f: Seq<u8>, avail: int) -> Option<int> {
    let h = f.subrange(0, 8);
    if f.len() < 8 || !text_at(h, 0, "FWS"@) || h[3] == 0 || le32(h, 4) < 8 {
        None
    } else {
        fit(le32(h, 4) as int, avail)
    }
}

/// Uncompressed Flash movie (`FWS`) length.
pub fn swf_length(source: &Source, file_start: u64, limit: u64) -> (r: Length)
    requires
        source.spans(file_start, limit),
    ensures
        source.sizes(
            file_start,
            r,
            swf_len(source.tail(file_start as int), limit - file_start),
            limit - file_start,
        ),
        r is Err <==> source.faulty(file_start as int, 8),
{
    let h = match source.part(file_start, 0, 8)? {
        Some(h) => h,
        None => return Ok(None),
    };
    if !is_text(&h, 0, "FWS") || h[3] == 0 {
        return Ok(None);
    }
    let size: u64 = rd_le32(&h, 4) as u64;
    if size < 8 {
        return Ok(None);
    }
    Ok(within(size, limit - file_start))
}

/// The number of Flash Video tags that are looked at.
pub const MAX_FLV_TAGS: u64 = 0x100_0000;

/// The length of a Flash Video of which `tags` tags have been passed and the rest
/// goes on at `pos` with the size of the tag before: up to the last whole tag and
/// the size behind it. A tag is an 11-byte header with a type (8 audio, 9 video,
/// 18 script data) and a data size, and the data.
pub open spec fn flv_from(f: Seq<u8>, avail: int, pos: int, tags: nat) -> Option<int>
    decreases avail - pos,
{
    let h = f.subrange(pos + 4, pos + 15);
    if pos + 4 > avail {
        if tags == 0 {
            None
        } else {
            Some(pos)
        }
    } else if tags == 0 && be32(f.subrange(pos, pos + 4), 0) != 0 {
        None
    } else if pos + 15 > avail || tags >= MAX_FLV_TAGS || !(h[0] == 8 || h[0] == 9 || h[0] == 18)
        || pos + 15 + be24(h, 1) > avail {
        if tags == 0 {
            None
        } else {
            Some(pos + 4)
        }
    } else {
        flv_from(f, avail, pos + 15 + be24(h, 1), tags + 1)
    }
}

/// The length of a Flash Video at the beginning of `f`, whose 9-byte header gives
/// its own size.
pub open spec fn flv_len(f: Seq<u8>, avail: int) -> Option<int> {
    let h = f.subrange(0, 9);
    if f.len() < 9 || !text_at(h, 0, "FLV"@) || be32(h, 5) != 9 {
        None
    } else {
        flv_from(f, avail, 9, 0)
    }
}

/// One of the tag headers of an FLV file that are looked at could not be read, `tags` tags having been passed and the
/// next being at `pos`.
pub open spec fn flv_walk_fails(src: Source, start: int, avail: int, pos: int, tags: nat) -> bool
    decreases avail - pos,
{
    let f = src.tail(start);
    let h = f.subrange(pos + 4, pos + 15);
    pos + 4 <= avail && (src.faulty(start + pos, 4) || (!(tags == 0 && be32(
        f.subrange(pos, pos + 4),
        0,
    ) != 0) && pos + 15 <= avail && tags < MAX_FLV_TAGS && (src.faulty(start + pos + 4, 11) || ((h[0] == 8
        || h[0] == 9 || h[0] == 18) && pos + 15 + be24(h, 1) <= avail && flv_walk_fails(
        src,
        start,
        avail,
        pos + 15 + be24(h, 1),
        tags + 1,
    )))))
}

/// Walk the tags of a Flash Video from behind its header on.
fn flv_walk(source: &Source, file_start: u64, limit: u64) -> (r: Length)
    requires
        source.spans(file_start, limit),
    ensures
        source.sizes(
            file_start,
            r,
            flv_from(source.tail(file_start as int), limit - file_start, 9, 0),
            limit - file_start,
        ),
        r is Err <==> flv_walk_fails(*source, file_start as int, limit - file_start, 9, 0),
{
    let avail: u64 = limit - file_start;
    let ghost f = source.tail(file_start as int);
    let mut pos: u64 = 9;
    let mut tags: u64 = 0;
    loop
        invariant
            source.spans(file_start, limit),
            avail == limit - file_start,
            f == source.tail(file_start as int),
            pos <= avail || tags == 0 && pos == 9,
            tags <= pos,
            0 < pos,
            flv_from(f, avail as int, 9, 0) == flv_from(f, avail as int, pos as int, tags as nat),
            flv_walk_fails(*source, file_start as int, avail as int, 9, 0) == flv_walk_fails(*source, file_start as int, avail as int, pos as int, tags as nat),
        decreases avail + 9 - pos,
    {
        if pos + 4 > avail {
            return Ok(if tags == 0 { None } else { Some(pos) });
        }
        let prev = match source.part(file_start, pos, 4)? {
            Some(prev) => prev,
            None => return Ok(None),
        };
        if tags == 0 && rd_be32(&prev, 0) != 0 {
            return Ok(None);
        }
        pos = pos + 4;
        if pos + 11 > avail || tags >= MAX_FLV_TAGS {
            return Ok(if tags == 0 { None } else { Some(pos) });
        }
        let tag = match source.part(file_start, pos, 11)? {
            Some(tag) => tag,
            None => return Ok(None),
        };
        let next: u64 = pos + 11 + rd_be24(&tag, 1) as u64;
        if !(tag[0] == 8 || tag[0] == 9 || tag[0] == 18) || next > avail {
            return Ok(if tags == 0 { None } else { Some(pos) });
        }
        pos = next;
        tags = tags + 1;
    }
}

/// One of the bytes of an FLV file that are looked at could not be read.
pub open spec fn flv_fails(src: Source, start: int, avail: int) -> bool {
    let f = src.tail(start);
    let h = f.subrange(0, 9);
    src.faulty(start, 9) || (f.len() >= 9 && text_at(h, 0, "FLV"@) && be32(h, 5) == 9 && flv_walk_fails(
        src,
        start,
        avail,
        9,
        0,
    ))
}

/// Flash Video length.
pub fn flv_length(source: &Source, file_start: u64, limit: u64) -> (r: Length)
    requires
        source.spans(file_start, limit),
    ensures
        source.sizes(
            file_start,
            r,
            flv_len(source.tail(file_start as int), limit - file_start),
            limit - file_start,
        ),
        r is Err <==> flv_fails(*source, file_start as int, limit - file_start),
{
    let h = match source.part(file_start, 0, 9)? {
        Some(h) => h,
        None => return Ok(None),
    };
    if !is_text(&h, 0, "FLV") || rd_be32(&h, 5) != 9 {
        return Ok(None);
    }
    flv_walk(source, file_start, limit)
}

/// Four printable characters, as a box type is.
pub open spec fn printable4(h: Seq<u8>, i: int) -> bool {
    &&& 0x20 <= h[i] <= 0x7E
    &&& 0x20 <= h[i + 1] <= 0x7E
    &&& 0x20 <= h[i + 2] <= 0x7E
    &&& 0x20 <= h[i + 3] <= 0x7E
}

/// The size of the box with the header `h`, of which `left` bytes remain: 1 stands
/// for a 64-bit size behind the header, 0 for all that remains.
pub open spec fn mp4_box_size(h: Seq<u8>, left: int) -> int {
    if be32(h, 0) == 1 {
        if h.len() < 16 {
            0
        } else {
            be64(h, 8) as int
        }
    } else if be32(h, 0) == 0 {
        left
    } else {
        be32(h, 0) as int
    }
}

/// The length of ISO base media from the box at `pos` on, `ftyp` telling whether
/// a file type box came before: up to the first bytes that are no box, or the end
/// of the room.
pub open spec fn mp4_from(f: Seq<u8>, avail: int, pos: int, ftyp: bool) -> Option<int>
    decreases avail - pos,
{
    let h = window(f, pos, 16);
    let size = mp4_box_size(h, avail - pos);
    let seen = ftyp || text_at(h, 4, "ftyp"@);
    if pos + 8 > avail || h.len() < 8 || !printable4(h, 4) {
        if ftyp && pos >= 8 {
            Some(pos)
        } else {
            None
        }
    } else if size < 8 {
        if seen && pos >= 8 {
            Some(pos)
        } else {
            None
        }
    } else if pos + size >= avail {
        if seen {
            Some(avail)
        } else {
            None
        }
    } else {
        mp4_from(f, avail, pos + size, seen)
    }
}

/// The length of ISO base media at the beginning of `f`.
pub open spec fn mp4_len(f: Seq<u8>, avail: int) -> Option<int> {
    mp4_from(f, avail, 0, false)
}

/// One of the box headers of an MP4 file that are looked at from `pos` on could not be read.
pub open spec fn mp4_fails(src: Source, start: int, avail: int, pos: int) -> bool
    decreases avail - pos,
{
    let h = window(src.tail(start), pos, 16);
    let size = mp4_box_size(h, avail - pos);
    pos + 8 <= avail && (src.faulty(start + pos, 16) || (h.len() >= 8 && printable4(h, 4) && size >= 8
        && pos + size < avail && mp4_fails(src, start, avail, pos + size)))
}

/// Walk the ISO base-media box structure to find the total media length.
pub fn mp4_length(source: &Source, file_start: u64, limit: u64) -> (r: Length)
    requires
        source.spans(file_start, limit),
    ensures
        source.sizes(
            file_start,
            r,
            mp4_len(source.tail(file_start as int), limit - file_start),
            limit - file_start,
        ),
        r is Err <==> mp4_fails(*source, file_start as int, limit - file_start, 0),
{
    let avail: u64 = limit - file_start;
    let ghost f = source.tail(file_start as int);
    let mut pos: u64 = 0;
    let mut ftyp = false;
    loop
        invariant
            source.spans(file_start, limit),
            avail == limit - file_start,
            f == source.tail(file_start as int),
            pos <= avail,
            mp4_len(f, avail as int) == mp4_from(f, avail as int, pos as int, ftyp),
            mp4_fails(*source, file_start as int, avail as int, 0) == mp4_fails(*source, file_start as int, avail as int, pos as int),
        decreases avail - pos,
    {
        if pos + 8 > avail {
            return Ok(if ftyp && pos >= 8 { Some(pos) } else { None });
        }
        let h = source.part_upto(file_start, pos, 16)?;
        if h.len() < 8 {
            return Ok(if ftyp && pos >= 8 { Some(pos) } else { None });
        }
        // Anything but printable characters means that the walk has left the
        // media for unrelated data.
        if !(0x20 <= h[4] && h[4] <= 0x7E && 0x20 <= h[5] && h[5] <= 0x7E && 0x20 <= h[6] && h[6]
            <= 0x7E && 0x20 <= h[7] && h[7] <= 0x7E) {
            return Ok(if ftyp && pos >= 8 { Some(pos) } else { None });
        }
        if is_text(&h, 4, "ftyp") {
            ftyp = true;
        }
        let size32: u32 = rd_be32(&h, 0);
        let size: u64 = if size32 == 1 {
            if h.len() < 16 {
                0
            } else {
                rd_be64(&h, 8)
            }
        } else if size32 == 0 {
            avail - pos
        } else {
            size32 as u64
        };
        if size < 8 {
            return Ok(if ftyp && pos >= 8 { Some(pos) } else { None });
        }
        if size >= avail - pos {
            return Ok(if ftyp { Some(avail) } else { None });
        }
        pos = pos + size;
    }
}

/// `g` is the GUID of a top-level ASF object: the header, the data, or one of the
/// indexes (simple, plain, media object, timecode).
pub open spec fn asf_guid(g: Seq<u8>) -> bool {
    ||| le64(g, 0) == 0x11CF_668E_75B2_2630 && be64(g, 8) == 0xA6D9_00AA_0062_CE6C
    ||| le64(g, 0) == 0x11CF_668E_75B2_2636 && be64(g, 8) == 0xA6D9_00AA_0062_CE6C
    ||| le64(g, 0) == 0x11CF_E5B1_3300_0890 && be64(g, 8) == 0x89F4_00A0_C903_49CB
    ||| le64(g, 0) == 0x11D1_35DA_D6E2_29D3 && be64(g, 8) == 0x9034_00A0_C903_49BE
    ||| le64(g, 0) == 0x4C64_12AD_FEB1_03F8 && be64(g, 8) == 0x840F_2A1D_2F7A_D48C
    ||| le64(g, 0) == 0x4803_0C4A_3CB7_3FD0 && be64(g, 8) == 0x953D_EDF7_B622_8F0C
}

/// The number of ASF objects that are looked at.
pub const MAX_ASF_OBJECTS: u64 = 4096;

/// The length of an ASF file of which `count` objects have been passed, the next
/// being at `pos`: up to the last whole object. An object has a GUID, its size,
/// which covers the whole of it, and its content.
pub open spec fn asf_from(f: Seq<u8>, avail: int, pos: int, count: int) -> Option<int>
    decreases avail - pos,
{
    let h = f.subrange(pos, pos + 24);
    if count >= MAX_ASF_OBJECTS || pos + 24 > avail || !asf_guid(h) || le64(h, 16) < 24 || pos
        + le64(h, 16) > avail {
        if count == 0 {
            None
        } else {
            Some(pos)
        }
    } else {
        asf_from(f, avail, pos + le64(h, 16), count + 1)
    }
}

/// The length of an ASF file (WMV, WMA) at the beginning of `f`.
pub open spec fn asf_len(f: Seq<u8>, avail: int) -> Option<int> {
    asf_from(f, avail, 0, 0)
}

/// Whether a header begins with the GUID of a top-level ASF object.
fn is_asf_guid(h: &[u8]) -> (r: bool)
    requires
        h.len() >= 16,
    ensures
        r == asf_guid(h@),
{
    let a: u64 = rd_le64(h, 0);
    let b: u64 = rd_be64(h, 8);
    (a == 0x11CF_668E_75B2_2630 && b == 0xA6D9_00AA_0062_CE6C) || (a == 0x11CF_668E_75B2_2636 && b
        == 0xA6D9_00AA_0062_CE6C) || (a == 0x11CF_E5B1_3300_0890 && b == 0x89F4_00A0_C903_49CB) || (
    a == 0x11D1_35DA_D6E2_29D3 && b == 0x9034_00A0_C903_49BE) || (a == 0x4C64_12AD_FEB1_03F8 && b
        == 0x840F_2A1D_2F7A_D48C) || (a == 0x4803_0C4A_3CB7_3FD0 && b == 0x953D_EDF7_B622_8F0C)
}

/// One of the object headers of an ASF file that are looked at could not be read, `count` objects having been passed
/// and the next being at `pos`.
pub open spec fn asf_fails(src: Source, start: int, avail: int, pos: int, count: int) -> bool
    decreases avail - pos,
{
    let h = src.tail(start).subrange(pos, pos + 24);
    count < MAX_ASF_OBJECTS && pos + 24 <= avail && (src.faulty(start + pos, 24) || (asf_guid(h) && le64(
        h,
        16,
    ) >= 24 && pos + le64(h, 16) <= avail && asf_fails(
        src,
        start,
        avail,
        pos + le64(h, 16),
        count + 1,
    )))
}

/// Walk the top-level ASF objects (WMV/WMA). The file ends at the first position
/// that is not a recognised one.
pub fn asf_length(source: &Source, file_start: u64, limit: u64) -> (r: Length)
    requires
        source.spans(file_start, limit),
    ensures
        source.sizes(
            file_start,
            r,
            asf_len(source.tail(file_start as int), limit - file_start),
            limit - file_start,
        ),
        r is Err <==> asf_fails(*source, file_start as int, limit - file_start, 0, 0),
{
    let avail: u64 = limit - file_start;
    let ghost f = source.tail(file_start as int);
    let mut pos: u64 = 0;
    let mut count: u64 = 0;
    loop
        invariant
            source.spans(file_start, limit),
            avail == limit - file_start,
            f == source.tail(file_start as int),
            pos <= avail,
            count <= MAX_ASF_OBJECTS,
            count > 0 ==> pos > 0,
            asf_len(f, avail as int) == asf_from(f, avail as int, pos as int, count as int),
            asf_fails(*source, file_start as int, avail as int, 0, 0) == asf_fails(*source, file_start as int, avail as int, pos as int, count as int),
        decreases avail - pos,
    {
        if count >= MAX_ASF_OBJECTS || pos + 24 > avail {
            return Ok(if count == 0 { None } else { Some(pos) });
        }
        let h = match source.part(file_start, pos, 24)? {
            Some(h) => h,
            None => return Ok(None),
        };
        let size: u64 = rd_le64(&h, 16);
        if !is_asf_guid(&h) || size < 24 || size > avail - pos {
            return Ok(if count == 0 { None } else { Some(pos) });
        }
        pos = pos + size;
        count = count + 1;
    }
}

/// The sum of bytes.
pub open spec fn byte_sum(s: Seq<u8>) -> int
    decreases s.len(),
{
    if s.len() == 0 {
        0
    } else {
        byte_sum(s.drop_last()) + s.last()
    }
}

/// The sum of bytes.
fn sum_bytes(h: &[u8]) -> (r: u64)
    requires
        h.len() <= 255,
    ensures
        r == byte_sum(h@),
        r <= 255 * 255,
{
    let mut sum: u64 = 0;
    let mut i: usize = 0;
    assert(h@.subrange(0, 0) =~= Seq::empty());
    while i < h.len()
        invariant
            i <= h@.len() <= 255,
            sum == byte_sum(h@.subrange(0, i as int)),
            sum <= i * 255,
        decreases h@.len() - i,
    {
        assert(h@.subrange(0, i + 1).drop_last() =~= h@.subrange(0, i as int));
        sum = sum + h[i] as u64;
        i = i + 1;
    }
    assert(h@.subrange(0, h@.len() as int) =~= h@);
    sum
}

/// The number of Ogg pages that are looked at.
pub const MAX_OGG_PAGES: u64 = 0x100_0000;

/// The length of the Ogg page at `pos`, where there is one: its 27-byte header, a
/// table of as many lacing values as its last byte says, and as much data as those
/// add up to.
pub open spec fn ogg_page_len(f: Seq<u8>, avail: int, pos: int) -> Option<int> {
    let h = f.subrange(pos, pos + 27);
    let len = 27 + h[26] + byte_sum(f.subrange(pos + 27, pos + 27 + h[26]));
    if pos + 27 > avail || !text_at(h, 0, "OggS"@) || h[4] != 0 || pos + 27 + h[26] > avail || pos
        + len > avail {
        None
    } else {
        Some(len)
    }
}

/// The length of an Ogg bitstream of which `pages` pages have been passed, the next
/// being at `pos`: up to the last whole page.
pub open spec fn ogg_from(f: Seq<u8>, avail: int, pos: int, pages: nat) -> Option<int>
    decreases MAX_OGG_PAGES - pages,
{
    match ogg_page_len(f, avail, pos) {
        Some(len) if pages < MAX_OGG_PAGES => ogg_from(f, avail, pos + len, pages + 1),
        _ => if pages == 0 {
            None
        } else {
            Some(pos)
        },
    }
}

/// The length of an Ogg bitstream at the beginning of `f`.
pub open spec fn ogg_len(f: Seq<u8>, avail: int) -> Option<int> {
    ogg_from(f, avail, 0, 0)
}

/// One of the page headers of an Ogg file that are looked at could not be read, `pages` pages having been passed and
/// the next being at `pos`.
pub open spec fn ogg_fails(src: Source, start: int, avail: int, pos: int, pages: nat) -> bool
    decreases MAX_OGG_PAGES - pages,
{
    let f = src.tail(start);
    let h = f.subrange(pos, pos + 27);
    pages < MAX_OGG_PAGES && pos + 27 <= avail && (src.faulty(start + pos, 27) || (text_at(h, 0, "OggS"@)
        && h[4] == 0 && pos + 27 + h[26] <= avail && (src.faulty(start + pos + 27, h[26] as int)
        || match ogg_page_len(f, avail, pos) {
        Some(len) => ogg_fails(src, start, avail, pos + len, pages + 1),
        None => false,
    })))
}

/// Walk the chain of Ogg pages. The bitstream ends at the first position that is
/// no longer a valid page.
pub fn ogg_length(source: &Source, file_start: u64, limit: u64) -> (r: Length)
    requires
        source.spans(file_start, limit),
    ensures
        source.sizes(
            file_start,
            r,
            ogg_len(source.tail(file_start as int), limit - file_start),
            limit - file_start,
        ),
        r is Err <==> ogg_fails(*source, file_start as int, limit - file_start, 0, 0),
{
    let avail: u64 = limit - file_start;
    let ghost f = source.tail(file_start as int);
    let mut pos: u64 = 0;
    let mut pages: u64 = 0;
    loop
        invariant
            source.spans(file_start, limit),
            avail == limit - file_start,
            f == source.tail(file_start as int),
            pos <= avail,
            pages <= MAX_OGG_PAGES,
            pages > 0 ==> pos > 0,
            ogg_len(f, avail as int) == ogg_from(f, avail as int, pos as int, pages as nat),
            ogg_fails(*source, file_start as int, avail as int, 0, 0) == ogg_fails(*source, file_start as int, avail as int, pos as int, pages as nat),
        decreases avail - pos,
    {
        let stop: Option<u64> = if pages == 0 {
            None
        } else {
            Some(pos)
        };
        if pages >= MAX_OGG_PAGES || pos + 27 > avail {
            return Ok(stop);
        }
        let h = match source.part(file_start, pos, 27)? {
            Some(h) => h,
            None => return Ok(None),
        };
        let n: u64 = h[26] as u64;
        if !is_text(&h, 0, "OggS") || h[4] != 0 || pos + 27 + n > avail {
            return Ok(stop);
        }
        let t = source.part_upto(file_start, pos + 27, n as usize)?;
        assert(t@ =~= f.subrange(pos + 27, pos + 27 + n));
        let len: u64 = 27 + n + sum_bytes(&t);
        if pos + len > avail {
            return Ok(stop);
        }
        assert(ogg_page_len(f, avail as int, pos as int) == Some(len as int));
        pos = pos + len;
        pages = pages + 1;
    }
}

/// Where the children of an EBML element end that have been passed up to `p`: at
/// the first that does not end in the room or has no known size.
pub open spec fn ebml_children(f: Seq<u8>, avail: int, p: int) -> int
    decreases avail - p,
{
    proof {
        let a = ebml_width_at(f, avail, p)->Some_0;
        lemma_ebml_value(f, p + a, ebml_width_at(f, avail, p + a)->Some_0);
    }
    match ebml_width_at(f, avail, p) {
        None => p,
        Some(a) => match ebml_width_at(f, avail, p + a) {
            None => p,
            Some(b) => {
                let next = p + a + b + ebml_value(f, p + a, b);
                if ebml_unknown(f, p + a, b) || next > avail {
                    p
                } else {
                    ebml_children(f, avail, next)
                }
            },
        },
    }
}

/// Where the segment of a Matroska file begins: behind the header element, an ID
/// of 4 bytes, a known size and its data.
pub open spec fn ebml_segment_at(f: Seq<u8>, avail: int) -> Option<int> {
    if f.len() < 4 || be32(f.subrange(0, 4), 0) != 0x1A45_DFA3 {
        None
    } else {
        match ebml_width_at(f, avail, 4) {
            None => None,
            Some(n) => if ebml_unknown(f, 4, n) {
                None
            } else {
                Some(4 + n + ebml_value(f, 4, n))
            },
        }
    }
}

/// The length of a Matroska or WebM file at the beginning of `f`: up to the end of
/// its segment, which is as long as it says or, where it does not say, as its
/// children are together.
pub open spec fn ebml_len(f: Seq<u8>, avail: int) -> Option<int> {
    match ebml_segment_at(f, avail) {
        None => None,
        Some(p) => if p + 4 > avail || be32(f.subrange(p, p + 4), 0) != 0x1853_8067 {
            None
        } else {
            match ebml_width_at(f, avail, p + 4) {
                None => None,
                Some(n) => {
                    let data = p + 4 + n;
                    let end = if ebml_unknown(f, p + 4, n) {
                        ebml_children(f, avail, data)
                    } else {
                        data + ebml_value(f, p + 4, n)
                    };
                    if end <= data {
                        None
                    } else {
                        fit(end, avail)
                    }
                },
            }
        },
    }
}

/// One of the bytes of the heads of EBML elements that are looked at from `p` on could not be read.
pub open spec fn ebml_children_fails(src: Source, start: int, avail: int, p: int) -> bool
    decreases avail - p,
{
    let f = src.tail(start);
    proof {
        let a = ebml_width_at(f, avail, p)->Some_0;
        lemma_ebml_value(f, p + a, ebml_width_at(f, avail, p + a)->Some_0);
    }
    (p < avail && src.faulty(start + p, 1)) || match ebml_width_at(f, avail, p) {
        None => false,
        Some(a) => ebml_fails(src, start, avail, p + a) || match ebml_width_at(f, avail, p + a) {
            None => false,
            Some(b) => {
                let next = p + a + b + ebml_value(f, p + a, b);
                !ebml_unknown(f, p + a, b) && next <= avail && ebml_children_fails(
                    src,
                    start,
                    avail,
                    next,
                )
            },
        },
    }
}

/// Sum up the children of an EBML element that declare a size.
fn ebml_walk(source: &Source, file_start: u64, avail: u64, first: u64) -> (r: Result<
    u64,
    ReadError,
>)
    requires
        source.wf(),
        file_start + avail <= source@.len(),
        first <= avail,
    ensures
        match r {
            Ok(p) => p == ebml_children(source.tail(file_start as int), avail as int, first as int)
                && first <= p <= avail,
            Err(e) => source.blames(file_start, avail as int, e),
        },
        r is Err <==> ebml_children_fails(*source, file_start as int, avail as int, first as int),
{
    let ghost f = source.tail(file_start as int);
    let mut p: u64 = first;
    loop
        invariant
            source.wf(),
            file_start + avail <= source@.len(),
            f == source.tail(file_start as int),
            first <= p <= avail,
            ebml_children(f, avail as int, first as int) == ebml_children(
                f,
                avail as int,
                p as int,
            ),
            ebml_children_fails(*source, file_start as int, avail as int, first as int) == ebml_children_fails(*source, file_start as int, avail as int, p as int),
        decreases avail - p,
    {
        let a: u64 = match ebml_id_len(source, file_start, avail, p)? {
            Some(a) => a,
            None => return Ok(p),
        };
        let (size, b, unknown) = match ebml_vint(source, file_start, avail, p + a)? {
            Some(x) => x,
            None => return Ok(p),
        };
        let next: u64 = p + a + b + size;
        if unknown || next > avail {
            return Ok(p);
        }
        p = next;
    }
}

/// One of the bytes of a Matroska file that are looked at could not be read.
pub open spec fn ebml_file_fails(src: Source, start: int, avail: int) -> bool {
    let f = src.tail(start);
    src.faulty(start, 4) || (f.len() >= 4 && be32(f.subrange(0, 4), 0) == 0x1A45_DFA3 && (ebml_fails(
        src,
        start,
        avail,
        4,
    ) || match ebml_segment_at(f, avail) {
        None => false,
        Some(p) => p + 4 <= avail && (src.faulty(start + p, 4) || (be32(f.subrange(p, p + 4), 0)
            == 0x1853_8067 && (ebml_fails(src, start, avail, p + 4) || match ebml_width_at(
            f,
            avail,
            p + 4,
        ) {
            None => false,
            Some(n) => ebml_unknown(f, p + 4, n) && ebml_children_fails(
                src,
                start,
                avail,
                p + 4 + n,
            ),
        }))),
    }))
}

/// Matroska/WebM (EBML) file length: skip the EBML header element, then take the
/// segment's declared size, or sum its top-level children when that is unknown.
pub fn ebml_length(source: &Source, file_start: u64, limit: u64) -> (r: Length)
    requires
        source.spans(file_start, limit),
    ensures
        source.sizes(
            file_start,
            r,
            ebml_len(source.tail(file_start as int), limit - file_start),
            limit - file_start,
        ),
        r is Err <==> ebml_file_fails(*source, file_start as int, limit - file_start),
{
    let avail: u64 = limit - file_start;
    let ghost f = source.tail(file_start as int);
    let id = match source.part(file_start, 0, 4)? {
        Some(id) => id,
        None => return Ok(None),
    };
    if rd_be32(&id, 0) != 0x1A45_DFA3 {
        return Ok(None);
    }
    let (hsize, hlen, hunknown) = match ebml_vint(source, file_start, avail, 4)? {
        Some(x) => x,
        None => return Ok(None),
    };
    if hunknown {
        return Ok(None);
    }
    let p: u64 = 4 + hlen + hsize;
    assert(ebml_segment_at(f, avail as int) == Some(p as int));
    if p + 4 > avail {
        return Ok(None);
    }
    let seg = match source.part(file_start, p, 4)? {
        Some(seg) => seg,
        None => return Ok(None),
    };
    if rd_be32(&seg, 0) != 0x1853_8067 {
        return Ok(None);
    }
    let (size, n, unknown) = match ebml_vint(source, file_start, avail, p + 4)? {
        Some(x) => x,
        None => return Ok(None),
    };
    let data: u64 = p + 4 + n;
    let end: u64 = if unknown {
        ebml_walk(source, file_start, avail, data)?
    } else {
        data + size
    };
    if end <= data {
        return Ok(None);
    }
    Ok(within(end, avail))
}

/// The number of whole 188-byte packets of a transport stream, `n` of them passed:
/// up to the first that does not begin with the sync byte.
pub open spec fn mpegts_packets(f: Seq<u8>, avail: int, n: int) -> int
    decreases avail - n * 188,
{
    if (n + 1) * 188 > avail || f[n * 188] != 0x47 {
        n
    } else {
        mpegts_packets(f, avail, n + 1)
    }
}

/// The length of an MPEG transport stream at the beginning of `f`, of eight packets
/// at least.
pub open spec fn mpegts_len(f: Seq<u8>, avail: int) -> Option<int> {
    let n = mpegts_packets(f, avail, 0);
    if n < 8 {
        None
    } else {
        Some(n * 188)
    }
}

/// The number of packets of a transport stream that are looked at in one read, which is of 64 KiB.
pub const MPEGTS_BATCH: u64 = 348;

/// One of the reads for an MPEG transport stream, from that for packet `n` on, ran into an unreadable byte.
pub open spec fn mpegts_fails(src: Source, start: int, avail: int, n: int) -> bool
    decreases avail - n * 188,
{
    (n + 1) * 188 <= avail && ((n % MPEGTS_BATCH as int == 0 && src.faulty(
        start + n * 188,
        smaller(avail - n * 188, 0x1_0000),
    )) || (src.tail(start)[n * 188] == 0x47 && mpegts_fails(src, start, avail, n + 1)))
}

/// MPEG transport stream (.ts) length. Several consecutive packets are asked for,
/// so that the single-byte sync cannot trigger a false carve.
pub fn mpegts_length(source: &Source, file_start: u64, limit: u64) -> (r: Length)
    requires
        source.spans(file_start, limit),
    ensures
        source.sizes(
            file_start,
            r,
            mpegts_len(source.tail(file_start as int), limit - file_start),
            limit - file_start,
        ),
        r is Err <==> mpegts_fails(*source, file_start as int, limit - file_start, 0),
{
    let avail: u64 = limit - file_start;
    let ghost f = source.tail(file_start as int);
    let mut n: u64 = 0;
    let mut pos: u64 = 0;
    let mut w: Vec<u8> = Vec::new();
    loop
        invariant
            source.spans(file_start, limit),
            avail == limit - file_start,
            f == source.tail(file_start as int),
            pos == n * 188,
            pos <= avail,
            n % MPEGTS_BATCH != 0 ==> w@ == f.subrange(
                (n - n % MPEGTS_BATCH) * 188,
                smaller(avail as int, (n - n % MPEGTS_BATCH) * 188 + 0x1_0000),
            ),
            mpegts_packets(f, avail as int, 0) == mpegts_packets(f, avail as int, n as int),
            mpegts_fails(*source, file_start as int, avail as int, 0) == mpegts_fails(
                *source,
                file_start as int,
                avail as int,
                n as int,
            ),
        decreases avail - pos,
    {
        let stop: Option<u64> = if n < 8 {
            None
        } else {
            Some(pos)
        };
        if pos + 188 > avail {
            return Ok(stop);
        }
        if n % MPEGTS_BATCH == 0 {
            w = source.part_upto(file_start, pos, min_u64(avail - pos, 0x1_0000) as usize)?;
        }
        if w[((n % MPEGTS_BATCH) * 188) as usize] != 0x47 {
            return Ok(stop);
        }
        pos = pos + 188;
        n = n + 1;
    }
}

/// The length of the element of a program stream at `pos`, which begins with a start
/// code: a pack header (BA), sized by the MPEG version and the stuffing, or a
/// system header or packet (BB and above), with a 16-bit length. The element has
/// to end in the room.
pub open spec fn mpegps_element(f: Seq<u8>, avail: int, pos: int) -> Option<int> {
    if f[pos + 3] == 0xBA {
        if pos + 4 >= f.len() {
            None
        } else if f[pos + 4] / 64 == 1 {
            if pos + 14 <= avail {
                mpegps_room(avail, pos, 14 + f[pos + 13] % 8)
            } else {
                None
            }
        } else if f[pos + 4] / 16 == 2 {
            mpegps_room(avail, pos, 12)
        } else {
            None
        }
    } else if f[pos + 3] >= 0xBB && pos + 6 <= avail {
        mpegps_room(avail, pos, 6 + be16(f.subrange(pos + 4, pos + 6), 0))
    } else {
        None
    }
}

/// `len`, where as much at `pos` ends in the room.
pub open spec fn mpegps_room(avail: int, pos: int, len: int) -> Option<int> {
    if pos + len > avail {
        None
    } else {
        Some(len)
    }
}

/// The length of a program stream of which `n` elements have been passed, the next
/// being at `pos`: up to the program end code (B9), or else the last whole element;
/// there have to be four at least.
pub open spec fn mpegps_from(f: Seq<u8>, avail: int, pos: int, n: int) -> Option<int>
    decreases avail - pos,
{
    let stop = if n < 4 {
        None
    } else {
        Some(pos)
    };
    if pos + 4 > avail || be24(f.subrange(pos, pos + 4), 0) != 1 {
        stop
    } else if f[pos + 3] == 0xB9 {
        if n < 3 {
            None
        } else {
            Some(pos + 4)
        }
    } else {
        match mpegps_element(f, avail, pos) {
            None => stop,
            Some(len) => mpegps_from(f, avail, pos + len, n + 1),
        }
    }
}

/// The length of an MPEG program stream at the beginning of `f`.
pub open spec fn mpegps_len(f: Seq<u8>, avail: int) -> Option<int> {
    mpegps_from(f, avail, 0, 0)
}

/// One of the bytes behind the start code of the element at `pos` of an MPEG program stream that are looked at could
/// not be read.
pub open spec fn mpegps_element_fails(src: Source, start: int, avail: int, pos: int) -> bool {
    let f = src.tail(start);
    if f[pos + 3] == 0xBA {
        src.faulty(start + pos + 4, 1) || (pos + 4 < f.len() && f[pos + 4] / 64 == 1 && pos + 14 <= avail
            && src.faulty(start + pos + 13, 1))
    } else {
        f[pos + 3] >= 0xBB && pos + 6 <= avail && src.faulty(start + pos + 4, 2)
    }
}

/// The length of the element of a program stream at `pos`.
fn mpegps_step(source: &Source, file_start: u64, limit: u64, pos: u64, code: u8) -> (r: Result<
    Option<u64>,
    ReadError,
>)
    requires
        source.spans(file_start, limit),
        pos + 4 <= limit - file_start,
        code == source.tail(file_start as int)[pos + 3],
    ensures
        match r {
            Ok(Some(n)) => mpegps_element(
                source.tail(file_start as int),
                limit - file_start,
                pos as int,
            ) == Some(n as int) && 6 <= n && pos + n <= limit - file_start,
            Ok(None) => mpegps_element(
                source.tail(file_start as int),
                limit - file_start,
                pos as int,
            ) is None,
            Err(e) => source.blames(file_start, limit - file_start, e),
        },
        r is Err <==> mpegps_element_fails(*source, file_start as int, limit - file_start, pos as int),
{
    let avail: u64 = limit - file_start;
    let mut len: u64 = 0;
    if code == 0xBA {
        let b: u8 = match source.byte(file_start, pos + 4)? {
            Some(b) => b,
            None => return Ok(None),
        };
        if b / 64 == 1 {
            // MPEG-2: 14 bytes, plus the low 3 bits of the last of them.
            if pos + 14 > avail {
                return Ok(None);
            }
            let s: u8 = match source.byte(file_start, pos + 13)? {
                Some(s) => s,
                None => return Ok(None),
            };
            len = 14 + (s % 8) as u64;
        } else if b / 16 == 2 {
            len = 12;  // MPEG-1
        } else {
            return Ok(None);
        }
    } else if code >= 0xBB {
        if pos + 6 > avail {
            return Ok(None);
        }
        let l = match source.part(file_start, pos + 4, 2)? {
            Some(l) => l,
            None => return Ok(None),
        };
        len = 6 + rd_be16(&l, 0) as u64;
    } else {
        return Ok(None);
    }
    if pos + len > avail {
        return Ok(None);
    }
    Ok(Some(len))
}

/// One of the bytes of the elements of an MPEG program stream that are looked at from `pos` on could not be read.
pub open spec fn mpegps_fails(src: Source, start: int, avail: int, pos: int) -> bool
    decreases avail - pos,
{
    let f = src.tail(start);
    pos + 4 <= avail && (src.faulty(start + pos, 4) || (be24(f.subrange(pos, pos + 4), 0) == 1 && f[pos + 3]
        != 0xB9 && (mpegps_element_fails(src, start, avail, pos) || match mpegps_element(f, avail, pos) {
        None => false,
        Some(len) => mpegps_fails(src, start, avail, pos + len),
    })))
}

/// MPEG program stream (.mpg) length.
pub fn mpegps_length(source: &Source, file_start: u64, limit: u64) -> (r: Length)
    requires
        source.spans(file_start, limit),
    ensures
        source.sizes(
            file_start,
            r,
            mpegps_len(source.tail(file_start as int), limit - file_start),
            limit - file_start,
        ),
        r is Err <==> mpegps_fails(*source, file_start as int, limit - file_start, 0),
{
    let avail: u64 = limit - file_start;
    let ghost f = source.tail(file_start as int);
    let mut pos: u64 = 0;
    let mut n: u64 = 0;
    loop
        invariant
            source.spans(file_start, limit),
            avail == limit - file_start,
            f == source.tail(file_start as int),
            n <= pos <= avail,
            mpegps_len(f, avail as int) == mpegps_from(f, avail as int, pos as int, n as int),
            mpegps_fails(*source, file_start as int, avail as int, 0) == mpegps_fails(*source, file_start as int, avail as int, pos as int),
        decreases avail - pos,
    {
        let stop: Option<u64> = if n < 4 {
            None
        } else {
            Some(pos)
        };
        if pos + 4 > avail {
            return Ok(stop);
        }
        let sc = match source.part(file_start, pos, 4)? {
            Some(sc) => sc,
            None => return Ok(None),
        };
        if rd_be24(&sc, 0) != 1 {
            return Ok(stop);
        }
        if sc[3] == 0xB9 {
            return Ok(if n < 3 { None } else { Some(pos + 4) });
        }
        let len: u64 = match mpegps_step(source, file_start, limit, pos, sc[3])? {
            Some(len) => len,
            None => return Ok(stop),
        };
        pos = pos + len;
        n = n + 1;
    }
}

/// The length of an IVF file from the frame at `pos` on, of which `left` follow: a
/// frame is a 12-byte header with its size, and its data.
pub open spec fn ivf_from(f: Seq<u8>, avail: int, pos: int, left: nat) -> Option<int>
    decreases left,
{
    let next = pos + 12 + le32(f.subrange(pos, pos + 12), 0);
    if left == 0 {
        Some(pos)
    } else if pos + 12 > avail || next > avail {
        None
    } else {
        ivf_from(f, avail, next, (left - 1) as nat)
    }
}

/// The length of an IVF file at the beginning of `f`: a 32-byte header, and as many
/// frames as it says, one at least.
pub open spec fn ivf_len(f: Seq<u8>, avail: int) -> Option<int> {
    let h = f.subrange(0, 32);
    if f.len() < 32 || !text_at(h, 0, "DKIF"@) || le16(h, 4) != 0 || le16(h, 6) != 32 || le32(
        h,
        0x18,
    ) == 0 {
        None
    } else {
        ivf_from(f, avail, 32, le32(h, 0x18) as nat)
    }
}

/// One of the frame headers of an IVF file from `pos` on, of which `left` are looked at, could not be read.
pub open spec fn ivf_walk_fails(src: Source, start: int, avail: int, pos: int, left: nat) -> bool
    decreases left,
{
    let next = pos + 12 + le32(src.tail(start).subrange(pos, pos + 12), 0);
    left > 0 && pos + 12 <= avail && (src.faulty(start + pos, 12) || (next <= avail && ivf_walk_fails(
        src,
        start,
        avail,
        next,
        (left - 1) as nat,
    )))
}

/// Walk the frames of an IVF file.
fn ivf_walk(source: &Source, file_start: u64, limit: u64, n: u32) -> (r: Length)
    requires
        source.spans(file_start, limit),
        n > 0,
    ensures
        source.sizes(
            file_start,
            r,
            ivf_from(source.tail(file_start as int), limit - file_start, 32, n as nat),
            limit - file_start,
        ),
        r is Err <==> ivf_walk_fails(*source, file_start as int, limit - file_start, 32, n as nat),
{
    let avail: u64 = limit - file_start;
    let ghost f = source.tail(file_start as int);
    let mut pos: u64 = 32;
    let mut left: u32 = n;
    while left > 0
        invariant
            source.spans(file_start, limit),
            avail == limit - file_start,
            f == source.tail(file_start as int),
            pos <= avail || left == n && pos == 32,
            n > 0,
            left <= n,
            pos >= 32,
            ivf_from(f, avail as int, 32, n as nat) == ivf_from(
                f,
                avail as int,
                pos as int,
                left as nat,
            ),
            ivf_walk_fails(*source, file_start as int, avail as int, 32, n as nat) == ivf_walk_fails(*source, file_start as int, avail as int, pos as int, left as nat),
        decreases left,
    {
        if pos + 12 > avail {
            return Ok(None);
        }
        let h = match source.part(file_start, pos, 12)? {
            Some(h) => h,
            None => return Ok(None),
        };
        pos = pos + 12 + rd_le32(&h, 0) as u64;
        if pos > avail {
            return Ok(None);
        }
        left = left - 1;
    }
    Ok(Some(pos))
}

/// One of the bytes of an IVF file that are looked at could not be read.
pub open spec fn ivf_fails(src: Source, start: int, avail: int) -> bool {
    let f = src.tail(start);
    let h = f.subrange(0, 32);
    src.faulty(start, 32) || (f.len() >= 32 && text_at(h, 0, "DKIF"@) && le16(h, 4) == 0 && le16(h, 6)
        == 32 && le32(h, 0x18) != 0 && ivf_walk_fails(src, start, avail, 32, le32(h, 0x18) as nat))
}

/// IVF (`.ivf`) length: the container of raw AV1/VP9/VP8 bitstreams.
pub fn ivf_length(source: &Source, file_start: u64, limit: u64) -> (r: Length)
    requires
        source.spans(file_start, limit),
    ensures
        source.sizes(
            file_start,
            r,
            ivf_len(source.tail(file_start as int), limit - file_start),
            limit - file_start,
        ),
        r is Err <==> ivf_fails(*source, file_start as int, limit - file_start),
{
    let h = match source.part(file_start, 0, 32)? {
        Some(h) => h,
        None => return Ok(None),
    };
    let n: u32 = rd_le32(&h, 0x18);
    if !is_text(&h, 0, "DKIF") || rd_le16(&h, 4) != 0 || rd_le16(&h, 6) != 32 || n == 0 {
        return Ok(None);
    }
    ivf_walk(source, file_start, limit, n)
}

/// The length of an Autodesk FLIC animation at the beginning of `f`: what its header
/// gives, which covers the 128 bytes of it. There are frames, of sane dimensions,
/// and the depth is 8, or 0, which stands for 8.
pub open spec fn flic_len(f: Seq<u8>, avail: int) -> Option<int> {
    let h = f.subrange(0, 16);
    if f.len() < 16 || !(le16(h, 4) == 0xAF11 || le16(h, 4) == 0xAF12) || le16(h, 6) == 0 || !(1
        <= le16(h, 8) <= 10000) || !(1 <= le16(h, 10) <= 10000) || !(le16(h, 12) == 8 || le16(h, 12)
        == 0) || le32(h, 0) < 128 {
        None
    } else {
        fit(le32(h, 0) as int, avail)
    }
}

/// Autodesk FLIC animation (`.fli`/`.flc`) length.
pub fn flic_length(source: &Source, file_start: u64, limit: u64) -> (r: Length)
    requires
        source.spans(file_start, limit),
    ensures
        source.sizes(
            file_start,
            r,
            flic_len(source.tail(file_start as int), limit - file_start),
            limit - file_start,
        ),
        r is Err <==> source.faulty(file_start as int, 16),
{
    let h = match source.part(file_start, 0, 16)? {
        Some(h) => h,
        None => return Ok(None),
    };
    let magic: u16 = rd_le16(&h, 4);
    let width: u16 = rd_le16(&h, 8);
    let height: u16 = rd_le16(&h, 10);
    let depth: u16 = rd_le16(&h, 12);
    let size: u64 = rd_le32(&h, 0) as u64;
    if !(magic == 0xAF11 || magic == 0xAF12) || rd_le16(&h, 6) == 0 || !(1 <= width && width <= 10000)
        || !(1 <= height && height <= 10000) || !(depth == 8 || depth == 0) || size < 128 {
        return Ok(None);
    }
    Ok(within(size, limit - file_start))
}

/// What a parameter of a YUV4MPEG2 header comes to: a number of digits alone.
pub open spec fn y4m_number(s: Seq<u8>) -> Option<int> {
    let v = digits_value(s, 0, s.len() as int, 10);
    if s.len() == 0 || digits_end(s, 0, 10) != s.len() || v > u64::MAX {
        None
    } else {
        Some(v)
    }
}

/// What the parameters of a YUV4MPEG2 header say.
pub struct Y4mParams {
    pub width: Option<int>,
    pub height: Option<int>,
    pub space: Seq<u8>,
}

/// The parameters after the one `t`: W for the width, H for the height, C for the colour
/// space; others do not matter.
pub open spec fn y4m_after(p: Y4mParams, t: Seq<u8>) -> Y4mParams {
    if t.len() == 0 {
        p
    } else if t[0] == 0x57 {
        Y4mParams { width: y4m_number(t.skip(1)), ..p }
    } else if t[0] == 0x48 {
        Y4mParams { height: y4m_number(t.skip(1)), ..p }
    } else if t[0] == 0x43 {
        Y4mParams { space: t.skip(1), ..p }
    } else {
        p
    }
}

/// The parameters in `s`, which spaces part, from `i` on; `p` is what those before say.
pub open spec fn y4m_params(s: Seq<u8>, i: int, p: Y4mParams) -> Y4mParams
    decreases s.len() + 1 - i,
{
    proof {
        lemma_byte_at(s, i, 0x20);
    }
    if i > s.len() {
        p
    } else {
        let e = token_end(s, i, 0x20);
        y4m_params(s, e + 1, y4m_after(p, s.subrange(i, e)))
    }
}

/// The bytes of a frame of `w` by `h` pixels in a colour space of 8 bits.
pub open spec fn y4m_frame(w: int, h: int, space: Seq<u8>) -> Option<int> {
    if is_y4m(space, "mono"@) {
        Some(w * h)
    } else if is_y4m(space, "420"@) || is_y4m(space, "420jpeg"@) || is_y4m(space, "420paldv"@)
        || is_y4m(space, "420mpeg2"@) {
        Some(w * h + ceil(w, 2) * ceil(h, 2) * 2)
    } else if is_y4m(space, "422"@) {
        Some(w * h + ceil(w, 2) * h * 2)
    } else if is_y4m(space, "444"@) {
        Some(w * h * 3)
    } else {
        None
    }
}

/// `space` is the name `t`.
pub open spec fn is_y4m(space: Seq<u8>, t: Seq<char>) -> bool {
    space.len() == t.len() && text_at(space, 0, t)
}

/// The length of a YUV4MPEG2 stream of which the frames before `pos` have been passed, of
/// `frame` bytes each: up to the first place where there is no frame line. The line
/// ends in 128 bytes. No frame at all makes no stream.
pub open spec fn y4m_from(f: Seq<u8>, avail: int, frame: nat, first: int, pos: int) -> Option<int>
    decreases avail - pos,
{
    let h = window(f, pos, 128);
    proof {
        lemma_byte_at(h, 0, 0x0A);
    }
    if !text_at(h, 0, "FRAME"@) {
        if pos == first {
            None
        } else {
            Some(pos)
        }
    } else {
        match byte_at_or_after(h, 0, 0x0A) {
            None => None,
            Some(e) => if pos + e + 1 + frame > avail {
                None
            } else {
                y4m_from(f, avail, frame, first, pos + e + 1 + frame)
            },
        }
    }
}

/// The length of a YUV4MPEG2 stream at the beginning of `f`. Its header is a line in the
/// first 512 bytes, with the width, the height, neither zero, and the colour space,
/// 4:2:0 where it does not say.
pub open spec fn y4m_len(f: Seq<u8>, avail: int) -> Option<int> {
    let b = window(f, 0, 512);
    match byte_at_or_after(b, 0, 0x0A) {
        Some(e) if b.len() >= 10 && text_at(b, 0, "YUV4MPEG2"@) => {
            let p = y4m_params(
                b.subrange(9, e),
                0,
                Y4mParams { width: None, height: None, space: seq![0x34u8, 0x32, 0x30] },
            );
            match (p.width, p.height) {
                (Some(w), Some(h)) if w > 0 && h > 0 => match y4m_frame(w, h, p.space) {
                    None => None,
                    Some(frame) => y4m_from(f, avail, frame as nat, e + 1, e + 1),
                },
                _ => None,
            }
        },
        _ => None,
    }
}

/// Read a parameter of a YUV4MPEG2 header.
fn y4m_parse_number(s: &[u8]) -> (r: Option<u64>)
    ensures
        match r {
            Some(v) => y4m_number(s@) == Some(v as int),
            None => y4m_number(s@) is None,
        },
{
    if s.len() == 0 || s[0] == 0x2B {
        return None;
    }
    match parse_at(s, 0, 10) {
        Some((v, e)) => if e == s.len() {
            Some(v)
        } else {
            None
        },
        None => None,
    }
}

/// Whether a colour space is the one of the name `t`.
fn y4m_is(space: &[u8], t: &str) -> (r: bool)
    ensures
        r == is_y4m(space@, t@),
{
    space.len() == t.unicode_len() && is_text(space, 0, t)
}

/// The bytes of a frame, as far as 64 bits hold their number.
fn y4m_frame_size(w: u64, h: u64, space: &[u8]) -> (r: Option<u64>)
    requires
        0 < w,
        0 < h,
    ensures
        match r {
            Some(n) => y4m_frame(w as int, h as int, space@) matches Some(x) && n == capped(x) && x
                >= 0,
            None => y4m_frame(w as int, h as int, space@) is None,
        },
{
    let luma: u64 = mul_capped(w, h);
    let cw: u64 = w / 2 + w % 2;
    let ch: u64 = h / 2 + h % 2;
    assert(cw == ceil(w as int, 2) && ch == ceil(h as int, 2));
    assert(w * h >= 0 && cw * ch >= 0 && cw * h >= 0) by (nonlinear_arith);
    if y4m_is(space, "mono") {
        return Some(luma);
    }
    if y4m_is(space, "420") || y4m_is(space, "420jpeg") || y4m_is(space, "420paldv") || y4m_is(
        space,
        "420mpeg2",
    ) {
        let chroma: u64 = mul_capped(cw, ch);
        return Some(luma.saturating_add(chroma.saturating_add(chroma)));
    }
    if y4m_is(space, "422") {
        let chroma: u64 = mul_capped(cw, h);
        return Some(luma.saturating_add(chroma.saturating_add(chroma)));
    }
    if y4m_is(space, "444") {
        return Some(luma.saturating_add(luma.saturating_add(luma)));
    }
    None
}

/// One of the bytes in which the frame headers of a YUV4MPEG2 file that are looked at from `pos` on could be, could not
/// be read.
pub open spec fn y4m_walk_fails(src: Source, start: int, avail: int, frame: nat, pos: int) -> bool
    decreases avail - pos,
{
    let h = window(src.tail(start), pos, 128);
    proof {
        lemma_byte_at(h, 0, 0x0A);
    }
    src.faulty(start + pos, 128) || (text_at(h, 0, "FRAME"@) && match byte_at_or_after(h, 0, 0x0A) {
        None => false,
        Some(e) => pos + e + 1 + frame <= avail && y4m_walk_fails(
            src,
            start,
            avail,
            frame,
            pos + e + 1 + frame,
        ),
    })
}

/// Walk the frames of a YUV4MPEG2 stream.
fn y4m_walk(source: &Source, file_start: u64, limit: u64, frame: u64, first: u64) -> (r: Length)
    requires
        source.spans(file_start, limit),
        0 < first < 1000,
    ensures
        source.sizes(
            file_start,
            r,
            y4m_from(
                source.tail(file_start as int),
                limit - file_start,
                frame as nat,
                first as int,
                first as int,
            ),
            limit - file_start,
        ),
        r is Err <==> y4m_walk_fails(
            *source,
            file_start as int,
            limit - file_start,
            frame as nat,
            first as int,
        ),
{
    let avail: u64 = limit - file_start;
    let ghost f = source.tail(file_start as int);
    let mut pos: u64 = first;
    loop
        invariant
            source.spans(file_start, limit),
            avail == limit - file_start,
            f == source.tail(file_start as int),
            0 < first < 1000,
            pos >= first,
            pos <= avail || pos == first,
            y4m_from(f, avail as int, frame as nat, first as int, first as int) == y4m_from(
                f,
                avail as int,
                frame as nat,
                first as int,
                pos as int,
            ),
            y4m_walk_fails(*source, file_start as int, avail as int, frame as nat, first as int) == y4m_walk_fails(*source, file_start as int, avail as int, frame as nat, pos as int),
        decreases avail + 1000 - pos,
    {
        let h = source.part_upto(file_start, pos, 128)?;
        if !is_text(&h, 0, "FRAME") {
            return Ok(if pos == first { None } else { Some(pos) });
        }
        let e: usize = match find_byte(&h, 0, 0x0A) {
            Some(e) => e,
            None => return Ok(None),
        };
        let next: u64 = (pos + e as u64 + 1).saturating_add(frame);
        if next > avail {
            return Ok(None);
        }
        pos = next;
    }
}

/// The parameters of a YUV4MPEG2 header: width, height and colour space.
fn y4m_read_params(s: &[u8]) -> (r: (Option<u64>, Option<u64>, Vec<u8>))
    requires
        s.len() <= 512,
    ensures
        ({
            let p = y4m_params(
                s@,
                0,
                Y4mParams { width: None, height: None, space: seq![0x34u8, 0x32, 0x30] },
            );
            &&& p.width == y4m_lift(r.0)
            &&& p.height == y4m_lift(r.1)
            &&& p.space == r.2@
        }),
{
    let mut width: Option<u64> = None;
    let mut height: Option<u64> = None;
    let mut space: Vec<u8> = vec![0x34u8, 0x32, 0x30];
    assert(space@ =~= seq![0x34u8, 0x32, 0x30]);
    let mut i: usize = 0;
    while i <= s.len()
        invariant
            s.len() <= 512,
            i <= s.len() + 1,
            y4m_params(
                s@,
                0,
                Y4mParams { width: None, height: None, space: seq![0x34u8, 0x32, 0x30] },
            ) == y4m_params(
                s@,
                i as int,
                Y4mParams { width: y4m_lift(width), height: y4m_lift(height), space: space@ },
            ),
        decreases s.len() + 1 - i,
    {
        let e: usize = match find_byte(s, i, 0x20) {
            Some(e) => e,
            None => s.len(),
        };
        let t = &s[i..e];
        if t.len() > 0 {
            let v = &t[1..t.len()];
            if t[0] == 0x57 {
                width = y4m_parse_number(v);
            } else if t[0] == 0x48 {
                height = y4m_parse_number(v);
            } else if t[0] == 0x43 {
                space = vstd::slice::slice_to_vec(v);
            }
        }
        i = e + 1;
    }
    (width, height, space)
}

/// A number that may be absent.
pub open spec fn y4m_lift(n: Option<u64>) -> Option<int> {
    match n {
        Some(v) => Some(v as int),
        None => None,
    }
}

/// One of the bytes of a YUV4MPEG2 file that are looked at could not be read.
pub open spec fn y4m_fails(src: Source, start: int, avail: int) -> bool {
    let b = window(src.tail(start), 0, 512);
    src.faulty(start, 512) || match byte_at_or_after(b, 0, 0x0A) {
        Some(e) if b.len() >= 10 && text_at(b, 0, "YUV4MPEG2"@) => {
            let p = y4m_params(
                b.subrange(9, e),
                0,
                Y4mParams { width: None, height: None, space: seq![0x34u8, 0x32, 0x30] },
            );
            match (p.width, p.height) {
                (Some(w), Some(h)) if w > 0 && h > 0 => match y4m_frame(w, h, p.space) {
                    None => false,
                    Some(frame) => y4m_walk_fails(src, start, avail, frame as nat, e + 1),
                },
                _ => false,
            }
        },
        _ => false,
    }
}

/// YUV4MPEG2 stream (`.y4m`) length. Only the 8-bit colour spaces are handled; of others
/// the frame size is not guessed.
pub fn y4m_length(source: &Source, file_start: u64, limit: u64) -> (r: Length)
    requires
        source.spans(file_start, limit),
    ensures
        source.sizes(
            file_start,
            r,
            y4m_len(source.tail(file_start as int), limit - file_start),
            limit - file_start,
        ),
        r is Err <==> y4m_fails(*source, file_start as int, limit - file_start),
{
    let avail: u64 = limit - file_start;
    let ghost f = source.tail(file_start as int);
    let b = source.part_upto(file_start, 0, 512)?;
    if b.len() < 10 || !is_text(&b, 0, "YUV4MPEG2") {
        return Ok(None);
    }
    let e: usize = match find_byte(&b, 0, 0x0A) {
        Some(e) => e,
        None => return Ok(None),
    };
    proof {
        reveal_strlit("YUV4MPEG2");
        if e < 9 {
            assert(b@[e as int] == "YUV4MPEG2"@[e as int] as u32);
            assert(e == 0 || e == 1 || e == 2 || e == 3 || e == 4 || e == 5 || e == 6 || e == 7 || e
                == 8);
        }
    }
    let (width, height, space) = y4m_read_params(&b[9..e]);
    let (w, h) = match (width, height) {
        (Some(w), Some(h)) => (w, h),
        _ => return Ok(None),
    };
    if w == 0 || h == 0 {
        return Ok(None);
    }
    let frame: u64 = match y4m_frame_size(w, h, &space) {
        Some(n) => n,
        None => return Ok(None),
    };
    proof {
        let x = y4m_frame(w as int, h as int, space@)->Some_0;
        lemma_byte_at(window(f, e + 1, 128), 0, 0x0A);
        if x > u64::MAX {
            assert(y4m_from(f, avail as int, x as nat, e + 1, e + 1) is None);
            assert(y4m_from(f, avail as int, frame as nat, e + 1, e + 1) is None);
            assert(y4m_walk_fails(*source, file_start as int, avail as int, x as nat, e + 1)
                == y4m_walk_fails(*source, file_start as int, avail as int, frame as nat, e + 1));
        }
    }
    y4m_walk(source, file_start, limit, frame, e as u64 + 1)
}

} // verus!
