//! Still images and metafiles.

use crate::bytes::{
    be16, be32, be64, fit, is_text, larger, le16, le32, max_u64, min_u64, rd_be16, rd_be32,
    rd_be64, rd_le16, rd_le32, smaller, text_at, within,
};
use crate::source::{window, Length, Source};
use vstd::arithmetic::power2::pow2;
use vstd::prelude::*;

verus! {

/// The size of the colour table that a packed GIF field announces: none where
/// its top bit is clear, or else 3 bytes for each of 2^(n+1) colours, n being the
/// low three bits.
pub open spec fn gif_colors(packed: u8) -> int {
    if packed < 128 {
        0
    } else {
        6 * pow2((packed % 8) as nat) as int
    }
}

fn gif_color_table(packed: u8) -> (r: u64)
    ensures
        r == gif_colors(packed),
        r <= 768,
{
    if packed < 128 {
        return 0;
    }
    proof {
        vstd::arithmetic::power2::lemma2_to64();
    }
    6 * crate::bytes::pow2_u64((packed % 8) as u32)
}

/// Where a chain of GIF sub-blocks at `pos` ends, behind its terminator. Each is a
/// length byte and that many bytes; a length of zero is the terminator.
pub open spec fn gif_chain(f: Seq<u8>, avail: int, pos: int) -> Option<int>
    decreases avail - pos,
{
    if pos >= avail {
        None
    } else if f[pos] == 0 {
        Some(pos + 1)
    } else if pos + 1 + f[pos] > avail {
        None
    } else {
        gif_chain(f, avail, pos + 1 + f[pos])
    }
}

/// A chain ends in the room, past where it began.
pub proof fn lemma_gif_chain(f: Seq<u8>, avail: int, pos: int)
    ensures
        gif_chain(f, avail, pos) matches Some(p) ==> pos < p <= avail,
    decreases avail - pos,
{
    if pos < avail && f[pos] != 0 && pos + 1 + f[pos] <= avail {
        lemma_gif_chain(f, avail, pos + 1 + f[pos]);
    }
}

/// Where a GIF block that begins at `pos` goes on with a chain of sub-blocks: an
/// image (0x2C) after its 9-byte descriptor, colour table and code size, an
/// extension (0x21) after its label.
pub open spec fn gif_chain_at(f: Seq<u8>, avail: int, pos: int) -> Option<int> {
    let image = pos + 11 + gif_colors(f[pos + 9]);
    if f[pos] == 0x2C && pos + 10 <= avail && image <= avail {
        Some(image)
    } else if f[pos] == 0x21 && pos + 2 <= avail {
        Some(pos + 2)
    } else {
        None
    }
}

/// The length of a GIF from the block at `pos` on: up to the trailer (0x3B).
pub open spec fn gif_from(f: Seq<u8>, avail: int, pos: int) -> Option<int>
    decreases avail - pos,
{
    proof {
        lemma_gif_chain(f, avail, gif_chain_at(f, avail, pos)->Some_0);
    }
    if pos >= avail {
        None
    } else if f[pos] == 0x3B {
        Some(pos + 1)
    } else {
        match gif_chain_at(f, avail, pos) {
            None => None,
            Some(q) => match gif_chain(f, avail, q) {
                None => None,
                Some(p) => gif_from(f, avail, p),
            },
        }
    }
}

/// The length of a GIF at the beginning of `f`: the blocks follow the 13-byte
/// header and the global colour table.
pub open spec fn gif_len(f: Seq<u8>, avail: int) -> Option<int> {
    let h = f.subrange(0, 13);
    if f.len() < 13 || !text_at(h, 0, "GIF"@) {
        None
    } else {
        gif_from(f, avail, 13 + gif_colors(h[10]))
    }
}

/// The length of one of the sub-blocks of a GIF that are looked at from `pos` on could not be read.
pub open spec fn gif_chain_fails(src: Source, start: int, avail: int, pos: int) -> bool
    decreases avail - pos,
{
    let f = src.tail(start);
    pos < avail && (src.faulty(start + pos, 1) || (f[pos] != 0 && pos + 1 + f[pos] <= avail
        && gif_chain_fails(src, start, avail, pos + 1 + f[pos])))
}

/// Advance past a GIF sub-block chain.
pub fn gif_skip_subblocks(source: &Source, file_start: u64, first: u64, avail: u64) -> (r: Length)
    requires
        source.wf(),
        file_start + avail <= source@.len(),
    ensures
        match r {
            Ok(Some(p)) => gif_chain(source.tail(file_start as int), avail as int, first as int)
                == Some(p as int) && first < p <= avail,
            Ok(None) => gif_chain(
                source.tail(file_start as int),
                avail as int,
                first as int,
            ) is None,
            Err(e) => source.blames(file_start, avail as int, e),
        },
        r is Err <==> gif_chain_fails(*source, file_start as int, avail as int, first as int),
{
    let ghost f = source.tail(file_start as int);
    let mut pos: u64 = first;
    while pos < avail
        invariant
            source.wf(),
            file_start + avail <= source@.len(),
            f == source.tail(file_start as int),
            first <= pos,
            gif_chain(f, avail as int, first as int) == gif_chain(f, avail as int, pos as int),
            gif_chain_fails(*source, file_start as int, avail as int, first as int) == gif_chain_fails(*source, file_start as int, avail as int, pos as int),
        decreases avail - pos,
    {
        let len: u8 = match source.byte(file_start, pos)? {
            Some(b) => b,
            None => return Ok(None),
        };
        if len == 0 {
            return Ok(Some(pos + 1));
        }
        if pos + 1 + len as u64 > avail {
            return Ok(None);
        }
        pos = pos + 1 + len as u64;
    }
    Ok(None)
}

/// One of the bytes of the blocks of a GIF that are looked at from `pos` on could not be read.
pub open spec fn gif_walk_fails(src: Source, start: int, avail: int, pos: int) -> bool
    decreases avail - pos,
{
    let f = src.tail(start);
    proof {
        lemma_gif_chain(f, avail, gif_chain_at(f, avail, pos)->Some_0);
    }
    pos < avail && (src.faulty(start + pos, 1) || (f[pos] != 0x3B && ((f[pos] == 0x2C && pos + 10 <= avail
        && src.faulty(start + pos + 1, 9)) || match gif_chain_at(f, avail, pos) {
        None => false,
        Some(q) => gif_chain_fails(src, start, avail, q) || match gif_chain(f, avail, q) {
            None => false,
            Some(p) => gif_walk_fails(src, start, avail, p),
        },
    })))
}

/// Walk the blocks of a GIF from the one at `first` on.
fn gif_walk(source: &Source, file_start: u64, limit: u64, first: u64) -> (r: Length)
    requires
        source.spans(file_start, limit),
        first < 1000,
    ensures
        source.sizes(
            file_start,
            r,
            gif_from(source.tail(file_start as int), limit - file_start, first as int),
            limit - file_start,
        ),
        r is Err <==> gif_walk_fails(*source, file_start as int, limit - file_start, first as int),
{
    let avail: u64 = limit - file_start;
    let ghost f = source.tail(file_start as int);
    let mut pos: u64 = first;
    while pos < avail
        invariant
            source.spans(file_start, limit),
            avail == limit - file_start,
            f == source.tail(file_start as int),
            gif_from(f, avail as int, first as int) == gif_from(f, avail as int, pos as int),
            gif_walk_fails(*source, file_start as int, avail as int, first as int) == gif_walk_fails(*source, file_start as int, avail as int, pos as int),
        decreases avail - pos,
    {
        let b: u8 = match source.byte(file_start, pos)? {
            Some(b) => b,
            None => return Ok(None),
        };
        if b == 0x3B {
            return Ok(Some(pos + 1));
        }
        let mut at: u64 = 0;
        if b == 0x2C {
            if pos + 10 > avail {
                return Ok(None);
            }
            let d = match source.part(file_start, pos + 1, 9)? {
                Some(d) => d,
                None => return Ok(None),
            };
            at = pos + 11 + gif_color_table(d[8]);
            if at > avail {
                return Ok(None);
            }
        } else if b == 0x21 {
            if pos + 2 > avail {
                return Ok(None);
            }
            at = pos + 2;
        } else {
            return Ok(None);  // not a block introducer
        }
        assert(gif_chain_at(f, avail as int, pos as int) == Some(at as int));
        pos = match gif_skip_subblocks(source, file_start, at, avail)? {
            Some(p) => p,
            None => return Ok(None),
        };
    }
    Ok(None)
}

/// One of the bytes of a GIF that are looked at could not be read.
pub open spec fn gif_fails(src: Source, start: int, avail: int) -> bool {
    let f = src.tail(start);
    let h = f.subrange(0, 13);
    src.faulty(start, 13) || (f.len() >= 13 && text_at(h, 0, "GIF"@) && gif_walk_fails(
        src,
        start,
        avail,
        13 + gif_colors(h[10]),
    ))
}

/// GIF length. Walking the blocks avoids stopping at a trailer byte that occurs
/// by chance inside the image data.
pub fn gif_length(source: &Source, file_start: u64, limit: u64) -> (r: Length)
    requires
        source.spans(file_start, limit),
    ensures
        source.sizes(
            file_start,
            r,
            gif_len(source.tail(file_start as int), limit - file_start),
            limit - file_start,
        ),
        r is Err <==> gif_fails(*source, file_start as int, limit - file_start),
{
    let h = match source.part(file_start, 0, 13)? {
        Some(h) => h,
        None => return Ok(None),
    };
    if !is_text(&h, 0, "GIF") {
        return Ok(None);
    }
    gif_walk(source, file_start, limit, 13 + gif_color_table(h[10]))
}

/// The length of a JPEG of which the bytes before `i` have been looked at, with
/// `depth` images open inside the outer one: up to the End-of-Image marker (FF D9)
/// that closes the outer image, which a Start-of-Image marker (FF D8) on the way
/// puts off.
pub open spec fn jpeg_from(f: Seq<u8>, avail: int, i: int, depth: int) -> Option<int>
    decreases avail - i,
{
    if i + 1 >= avail {
        None
    } else if f[i] == 0xFF && f[i + 1] == 0xD8 {
        jpeg_from(f, avail, i + 1, depth + 1)
    } else if f[i] == 0xFF && f[i + 1] == 0xD9 {
        if depth == 0 {
            Some(i + 2)
        } else {
            jpeg_from(f, avail, i + 1, depth - 1)
        }
    } else {
        jpeg_from(f, avail, i + 1, depth)
    }
}

/// The length of a JPEG at the beginning of `f`.
pub open spec fn jpeg_len(f: Seq<u8>, avail: int) -> Option<int> {
    if f.len() < 3 || f[0] != 0xFF || f[1] != 0xD8 {
        None
    } else {
        jpeg_from(f, avail, 2, 0)
    }
}

/// How much of a JPEG is scanned at a time. What is read reaches one byte further, for a marker that begins in the
/// last one.
pub const JPEG_WINDOW: u64 = 0x10_0000;

/// One of the windows of a JPEG that the scan comes to from `i` on could not be read, `depth` images being open. The
/// first window begins behind the Start-of-Image marker.
pub open spec fn jpeg_scan_fails(src: Source, start: int, avail: int, i: int, depth: int) -> bool
    decreases avail - i,
{
    let f = src.tail(start);
    i + 1 < avail && (((i - 2) % JPEG_WINDOW as int == 0 && src.faulty(
        start + i,
        smaller(avail - i, JPEG_WINDOW + 1),
    )) || if f[i] == 0xFF && f[i + 1] == 0xD8 {
        jpeg_scan_fails(src, start, avail, i + 1, depth + 1)
    } else if f[i] == 0xFF && f[i + 1] == 0xD9 {
        depth != 0 && jpeg_scan_fails(src, start, avail, i + 1, depth - 1)
    } else {
        jpeg_scan_fails(src, start, avail, i + 1, depth)
    })
}

/// Scan a JPEG from behind its Start-of-Image marker on.
fn jpeg_scan(source: &Source, file_start: u64, limit: u64) -> (r: Length)
    requires
        source.spans(file_start, limit),
    ensures
        source.sizes(
            file_start,
            r,
            jpeg_from(source.tail(file_start as int), limit - file_start, 2, 0),
            limit - file_start,
        ),
        r is Err <==> jpeg_scan_fails(*source, file_start as int, limit - file_start, 2, 0),
{
    let avail: u64 = limit - file_start;
    let ghost f = source.tail(file_start as int);
    let mut i: u64 = 2;
    let mut depth: u64 = 0;
    let mut w: Vec<u8> = Vec::new();
    while i < avail && avail - i > 1
        invariant
            source.spans(file_start, limit),
            avail == limit - file_start,
            f == source.tail(file_start as int),
            2 <= i,
            depth <= i,
            (i - 2) % JPEG_WINDOW as int != 0 ==> w@ == f.subrange(
                i - (i - 2) % JPEG_WINDOW as int,
                smaller(avail as int, i - (i - 2) % JPEG_WINDOW as int + JPEG_WINDOW + 1),
            ),
            jpeg_from(f, avail as int, 2, 0) == jpeg_from(
                f,
                avail as int,
                i as int,
                depth as int,
            ),
            jpeg_scan_fails(*source, file_start as int, avail as int, 2, 0) == jpeg_scan_fails(
                *source,
                file_start as int,
                avail as int,
                i as int,
                depth as int,
            ),
        decreases avail - i,
    {
        if (i - 2) % JPEG_WINDOW == 0 {
            w = source.part_upto(file_start, i, min_u64(avail - i, JPEG_WINDOW + 1) as usize)?;
        }
        let k: usize = ((i - 2) % JPEG_WINDOW) as usize;
        if w[k] == 0xFF && w[k + 1] == 0xD8 {
            depth = depth + 1;
        } else if w[k] == 0xFF && w[k + 1] == 0xD9 {
            if depth == 0 {
                return Ok(Some(i + 2));
            }
            depth = depth - 1;
        }
        i = i + 1;
    }
    Ok(None)
}

/// One of the bytes of a JPEG that are looked at could not be read.
pub open spec fn jpeg_fails(src: Source, start: int, avail: int) -> bool {
    let f = src.tail(start);
    src.faulty(start, 3) || (f.len() >= 3 && f[0] == 0xFF && f[1] == 0xD8 && jpeg_scan_fails(
        src,
        start,
        avail,
        2,
        0,
    ))
}

/// JPEG length. Within entropy-coded data an FF byte is always stuffed or a
/// restart marker, so the two markers only ever mark image boundaries; counting
/// them keeps an embedded thumbnail from ending the file early.
pub fn jpeg_length(source: &Source, file_start: u64, limit: u64) -> (r: Length)
    requires
        source.spans(file_start, limit),
    ensures
        source.sizes(
            file_start,
            r,
            jpeg_len(source.tail(file_start as int), limit - file_start),
            limit - file_start,
        ),
        r is Err <==> jpeg_fails(*source, file_start as int, limit - file_start),
{
    let soi = match source.part(file_start, 0, 3)? {
        Some(soi) => soi,
        None => return Ok(None),
    };
    if soi[0] != 0xFF || soi[1] != 0xD8 {
        return Ok(None);
    }
    jpeg_scan(source, file_start, limit)
}

/// The length of a DjVu document at the beginning of `f`: an IFF form behind a
/// 4-byte prefix, whose length covers what follows it.
pub open spec fn djvu_len(f: Seq<u8>, avail: int) -> Option<int> {
    let h = f.subrange(0, 16);
    if f.len() < 16 || !text_at(h, 0, "AT&TFORM"@) || !(text_at(h, 12, "DJVU"@) || text_at(
        h,
        12,
        "DJVM"@,
    ) || text_at(h, 12, "DJVI"@)) || be32(h, 8) < 4 {
        None
    } else {
        fit(be32(h, 8) + 12, avail)
    }
}

/// DjVu document length. The form type must be a known one to reject a
/// coincidental magic.
pub fn djvu_length(source: &Source, file_start: u64, limit: u64) -> (r: Length)
    requires
        source.spans(file_start, limit),
    ensures
        source.sizes(
            file_start,
            r,
            djvu_len(source.tail(file_start as int), limit - file_start),
            limit - file_start,
        ),
        r is Err <==> source.faulty(file_start as int, 16),
{
    let h = match source.part(file_start, 0, 16)? {
        Some(h) => h,
        None => return Ok(None),
    };
    if !is_text(&h, 0, "AT&TFORM") {
        return Ok(None);
    }
    if !(is_text(&h, 12, "DJVU") || is_text(&h, 12, "DJVM") || is_text(&h, 12, "DJVI")) {
        return Ok(None);
    }
    let length: u64 = rd_be32(&h, 8) as u64;
    if length < 4 {
        return Ok(None);
    }
    Ok(within(length + 12, limit - file_start))
}

/// The length of a Windows Metafile at the beginning of `f`: what its header
/// gives in 16-bit words, which a 22-byte placeable header may precede.
pub open spec fn wmf_len(f: Seq<u8>, avail: int) -> Option<int> {
    let h = window(f, 0, 32);
    if h.len() < 6 {
        None
    } else if le32(h, 0) == 0x9AC6_CDD7 {
        if h.len() < 32 || le32(h, 28) < 9 {
            None
        } else {
            fit(22 + le32(h, 28) * 2, avail)
        }
    } else if h.len() < 10 || !(le16(h, 0) == 1 || le16(h, 0) == 2) || le16(h, 2) != 9 || !(le16(
        h,
        4,
    ) == 0x0100 || le16(h, 4) == 0x0300) || le32(h, 6) < 9 {
        None
    } else {
        fit(le32(h, 6) * 2, avail)
    }
}

/// Windows Metafile (WMF) length.
pub fn wmf_length(source: &Source, file_start: u64, limit: u64) -> (r: Length)
    requires
        source.spans(file_start, limit),
    ensures
        source.sizes(
            file_start,
            r,
            wmf_len(source.tail(file_start as int), limit - file_start),
            limit - file_start,
        ),
        r is Err <==> source.faulty(file_start as int, 32),
{
    let avail: u64 = limit - file_start;
    let h = source.part_upto(file_start, 0, 32)?;
    if h.len() < 6 {
        return Ok(None);
    }
    if rd_le32(&h, 0) == 0x9AC6_CDD7 {
        if h.len() < 32 {
            return Ok(None);
        }
        let words: u64 = rd_le32(&h, 28) as u64;
        if words < 9 {
            return Ok(None);
        }
        return Ok(within(22 + words * 2, avail));
    }
    if h.len() < 10 {
        return Ok(None);
    }
    let kind: u16 = rd_le16(&h, 0);
    let version: u16 = rd_le16(&h, 4);
    if !(kind == 1 || kind == 2) || rd_le16(&h, 2) != 9 || !(version == 0x0100 || version
        == 0x0300) {
        return Ok(None);
    }
    let words: u64 = rd_le32(&h, 6) as u64;
    if words < 9 {
        return Ok(None);
    }
    Ok(within(words * 2, avail))
}

/// Where one of a Photoshop document's length-prefixed sections at `pos` ends:
/// its length takes `field` bytes, 4 or 8.
pub open spec fn psd_section_end(f: Seq<u8>, avail: int, pos: int, field: int) -> Option<int> {
    let h = f.subrange(pos, pos + field);
    let len: int = if field == 8 {
        be64(h, 0) as int
    } else {
        be32(h, 0) as int
    };
    if pos + field > f.len() {
        None
    } else {
        fit(pos + field + len, avail)
    }
}

/// Where a Photoshop document's image data begins: behind the colour mode data,
/// the image resources and the layer information, whose length takes 8 bytes in
/// version 2.
pub open spec fn psd_data_at(f: Seq<u8>, avail: int, version: u16) -> Option<int> {
    match psd_section_end(f, avail, 26, 4) {
        None => None,
        Some(a) => match psd_section_end(f, avail, a, 4) {
            None => None,
            Some(b) => psd_section_end(
                f,
                avail,
                b,
                if version == 2 {
                    8
                } else {
                    4
                },
            ),
        },
    }
}

/// The sum of the first `n` scanline byte counts in `c`, which take 4 bytes each
/// where they are `wide`, and 2 where they are not.
pub open spec fn psd_counts(c: Seq<u8>, wide: bool, n: nat) -> int
    decreases n,
{
    if n == 0 {
        0
    } else if wide {
        psd_counts(c, wide, (n - 1) as nat) + be32(c, (n - 1) * 4)
    } else {
        psd_counts(c, wide, (n - 1) as nat) + be16(c, (n - 1) * 2)
    }
}

/// The number of bytes in an uncompressed scanline.
pub open spec fn psd_row(width: int, depth: int) -> int {
    if depth == 1 {
        (width + 7) / 8
    } else if depth == 8 {
        width
    } else if depth == 16 {
        width * 2
    } else {
        width * 4
    }
}

/// Where the image data at `pos` of a Photoshop document with the header `h` ends:
/// the compression method, then `rows` scanlines, uncompressed (0) or each packed
/// into as many bytes as a table of counts says (1). Of other methods the length
/// cannot be told, nor of a table larger than 64 MiB.
pub open spec fn psd_data_end(f: Seq<u8>, h: Seq<u8>, pos: int) -> Option<int> {
    let rows = be32(h, 14) * be16(h, 12);
    let wide = be16(h, 4) == 2;
    let table: int = rows * if wide {
        4int
    } else {
        2int
    };
    let method = be16(f.subrange(pos, pos + 2), 0);
    if pos + 2 > f.len() {
        None
    } else if method == 0 {
        Some(pos + 2 + psd_row(be32(h, 18) as int, be16(h, 22) as int) * rows)
    } else if method == 1 && table <= 0x400_0000 && pos + 2 + table <= f.len() {
        Some(
            pos + 2 + table + psd_counts(
                f.subrange(pos + 2, pos + 2 + table),
                wide,
                rows as nat,
            ),
        )
    } else {
        None
    }
}

/// The 26-byte header of a Photoshop document: version 1 or 2, 1 to 56 channels,
/// a picture with pixels, and a depth of 1, 8, 16 or 32 bits.
pub open spec fn psd_header(h: Seq<u8>) -> bool {
    &&& text_at(h, 0, "8BPS"@)
    &&& be16(h, 4) == 1 || be16(h, 4) == 2
    &&& 1 <= be16(h, 12) <= 56
    &&& be32(h, 14) != 0
    &&& be32(h, 18) != 0
    &&& be16(h, 22) == 1 || be16(h, 22) == 8 || be16(h, 22) == 16 || be16(h, 22) == 32
}

/// The length of a Photoshop document at the beginning of `f`.
pub open spec fn psd_len(f: Seq<u8>, avail: int) -> Option<int> {
    let h = f.subrange(0, 26);
    if f.len() < 26 || !psd_header(h) {
        None
    } else {
        match psd_data_at(f, avail, be16(h, 4)) {
            None => None,
            Some(pos) => match psd_data_end(f, h, pos) {
                None => None,
                Some(end) => fit(end, avail),
            },
        }
    }
}

/// Advance past one of a PSD's length-prefixed sections.
pub fn psd_section(
    source: &Source,
    file_start: u64,
    pos: u64,
    field_size: usize,
    limit: u64,
) -> (r: Length)
    requires
        source.spans(file_start, limit),
        field_size == 4 || field_size == 8,
    ensures
        source.sizes_afar(
            file_start,
            r,
            psd_section_end(
                source.tail(file_start as int),
                limit - file_start,
                pos as int,
                field_size as int,
            ),
            limit - file_start,
        ),
        r is Err <==> source.faulty(file_start + pos, field_size as int),
{
    let h = match source.part(file_start, pos, field_size)? {
        Some(h) => h,
        None => return Ok(None),
    };
    let len: u64 = if field_size == 8 {
        rd_be64(&h, 0)
    } else {
        rd_be32(&h, 0) as u64
    };
    let next: u64 = pos.saturating_add(field_size as u64).saturating_add(len);
    Ok(within(next, limit - file_start))
}

/// The sum of the scanline byte counts in `c`.
fn psd_sum(c: &[u8], wide: bool, rows: usize) -> (r: u64)
    requires
        rows <= 0x200_0000,
        c.len() == rows * if wide {
            4int
        } else {
            2int
        },
    ensures
        r == psd_counts(c@, wide, rows as nat),
        r <= rows * 0xFFFF_FFFF,
{
    let mut sum: u64 = 0;
    let mut i: usize = 0;
    while i < rows
        invariant
            i <= rows <= 0x200_0000,
            c.len() == rows * if wide {
                4int
            } else {
                2int
            },
            sum == psd_counts(c@, wide, i as nat),
            sum <= i * 0xFFFF_FFFF,
        decreases rows - i,
    {
        let n: u64 = if wide {
            rd_be32(c, i * 4) as u64
        } else {
            rd_be16(c, i * 2) as u64
        };
        sum = sum + n;
        i = i + 1;
    }
    sum
}

/// The row lengths of the image data at `pos` of a Photoshop document, where it has them, could not be read.
pub open spec fn psd_counts_fail(src: Source, start: int, h: Seq<u8>, pos: int) -> bool {
    let f = src.tail(start);
    let table: int = be32(h, 14) * be16(h, 12) * if be16(h, 4) == 2 {
        4int
    } else {
        2int
    };
    pos + 2 <= f.len() && be16(f.subrange(pos, pos + 2), 0) == 1 && table <= 0x400_0000 && src.faulty(
        start + pos + 2,
        table,
    )
}

/// One of the bytes of a Photoshop document that are looked at could not be read.
pub open spec fn psd_fails(src: Source, start: int, avail: int) -> bool {
    let f = src.tail(start);
    let h = f.subrange(0, 26);
    let field: int = if be16(h, 4) == 2 {
        8
    } else {
        4
    };
    src.faulty(start, 26) || (f.len() >= 26 && psd_header(h) && (src.faulty(start + 26, 4)
        || match psd_section_end(f, avail, 26, 4) {
        None => false,
        Some(a) => src.faulty(start + a, 4) || match psd_section_end(f, avail, a, 4) {
            None => false,
            Some(b) => src.faulty(start + b, field) || match psd_section_end(f, avail, b, field) {
                None => false,
                Some(pos) => src.faulty(start + pos, 2) || psd_counts_fail(src, start, h, pos),
            },
        },
    }))
}

/// Photoshop document (PSD/PSB) length: the header, three length-prefixed
/// sections, and the image data.
#[verifier::rlimit(40)]
pub fn psd_length(source: &Source, file_start: u64, limit: u64) -> (r: Length)
    requires
        source.spans(file_start, limit),
    ensures
        source.sizes_afar(
            file_start,
            r,
            psd_len(source.tail(file_start as int), limit - file_start),
            limit - file_start,
        ),
        r is Err <==> psd_fails(*source, file_start as int, limit - file_start),
{
    let avail: u64 = limit - file_start;
    let ghost f = source.tail(file_start as int);
    let h = match source.part(file_start, 0, 26)? {
        Some(h) => h,
        None => return Ok(None),
    };
    let version: u16 = rd_be16(&h, 4);
    let channels: u64 = rd_be16(&h, 12) as u64;
    let height: u64 = rd_be32(&h, 14) as u64;
    let width: u64 = rd_be32(&h, 18) as u64;
    let depth: u64 = rd_be16(&h, 22) as u64;
    if !is_text(&h, 0, "8BPS") || version != 1 && version != 2 || channels == 0 || channels > 56
        || width == 0 || height == 0 || !(depth == 1 || depth == 8 || depth == 16 || depth == 32) {
        return Ok(None);
    }
    assert(psd_header(h@));
    let a: u64 = match psd_section(source, file_start, 26, 4, limit)? {
        Some(p) => p,
        None => return Ok(None),
    };
    let b: u64 = match psd_section(source, file_start, a, 4, limit)? {
        Some(p) => p,
        None => return Ok(None),
    };
    let layer_field: usize = if version == 2 {
        8
    } else {
        4
    };
    let pos: u64 = match psd_section(source, file_start, b, layer_field, limit)? {
        Some(p) => p,
        None => return Ok(None),
    };
    assert(psd_data_at(f, avail as int, version) == Some(pos as int));
    let c = match source.part(file_start, pos, 2)? {
        Some(c) => c,
        None => return Ok(None),
    };
    assert(0 < height * channels <= 0xFFFF_FFFF * 56) by (nonlinear_arith)
        requires
            0 < height <= 0xFFFF_FFFF,
            0 < channels <= 56,
    ;
    let rows: u64 = height * channels;
    let method: u16 = rd_be16(&c, 0);
    if method == 0 {
        let row: u64 = if depth == 1 {
            (width + 7) / 8
        } else if depth == 8 {
            width
        } else if depth == 16 {
            width * 2
        } else {
            width * 4
        };
        assert(row == psd_row(width as int, depth as int));
        let end: u128 = (pos + 2) as u128 + crate::bytes::mul_wide(row, rows);
        assert(psd_data_end(f, h@, pos as int) == Some(end as int));
        if end > avail as u128 {
            return Ok(None);
        }
        return Ok(Some(end as u64));
    }
    if method == 1 {
        let table: u64 = if version == 2 {
            rows * 4
        } else {
            rows * 2
        };
        if table > 0x400_0000 {
            return Ok(None);
        }
        let counts = match source.part(file_start, pos + 2, table as usize)? {
            Some(counts) => counts,
            None => return Ok(None),
        };
        let sum: u64 = psd_sum(&counts, version == 2, rows as usize);
        let end: u64 = pos + 2 + table + sum;
        assert(psd_data_end(f, h@, pos as int) == Some(end as int));
        return Ok(within(end, avail));
    }
    Ok(None)
}

/// One entry `e` of an icon directory that ends at `dir_end`: fields in their
/// small legal ranges, and image data that is not empty and lies behind the
/// directory.
pub open spec fn ico_entry(e: Seq<u8>, dir_end: int) -> bool {
    let bpp = le16(e, 6);
    &&& e[3] == 0
    &&& le16(e, 4) <= 1
    &&& bpp == 0 || bpp == 1 || bpp == 4 || bpp == 8 || bpp == 16 || bpp == 24 || bpp == 32
    &&& le32(e, 8) != 0
    &&& le32(e, 12) >= dir_end
}

/// How the image data of an icon begins: with the size of a bitmap header that
/// there is, or as a whole PNG.
pub open spec fn ico_image(d: Seq<u8>) -> bool {
    let n = le32(d, 0);
    n == 12 || n == 40 || n == 52 || n == 56 || n == 108 || n == 124 || text_at(
        d,
        0,
        "\u{89}PNG\r\n\u{1a}\n"@,
    )
}

/// The furthest end of the first `n` images of an icon whose directory ends at
/// `dir_end`; the directory itself counts.
pub open spec fn ico_images(f: Seq<u8>, avail: int, dir_end: int, n: nat) -> Option<int>
    decreases n,
{
    if n == 0 {
        Some(dir_end)
    } else {
        let at = 6 + (n - 1) * 16;
        let e = f.subrange(at, at + 16);
        let off = le32(e, 12);
        match ico_images(f, avail, dir_end, (n - 1) as nat) {
            Some(a) if ico_entry(e, dir_end) && off + 8 <= avail && ico_image(
                f.subrange(off as int, off + 8),
            ) => Some(larger(a, off + le32(e, 8))),
            _ => None,
        }
    }
}

/// The length of an icon (1) or cursor (2) file at the beginning of `f`, of 1 to
/// 1024 images.
pub open spec fn icocur_len(f: Seq<u8>, avail: int) -> Option<int> {
    let h = f.subrange(0, 6);
    let n = le16(h, 4);
    if f.len() < 6 || le16(h, 0) != 0 || !(le16(h, 2) == 1 || le16(h, 2) == 2) || n == 0 || n
        > 1024 || 6 + n * 16 > avail {
        None
    } else {
        match ico_images(f, avail, 6 + n * 16, n as nat) {
            None => None,
            Some(end) => fit(end, avail),
        }
    }
}

/// Where one image of an icon says that the walk fails, so does the whole.
proof fn lemma_ico_none(f: Seq<u8>, avail: int, dir_end: int, i: nat, n: nat)
    requires
        i <= n,
        ico_images(f, avail, dir_end, i) is None,
    ensures
        ico_images(f, avail, dir_end, n) is None,
    decreases n - i,
{
    if i < n {
        lemma_ico_none(f, avail, dir_end, i + 1, n);
    }
}

/// One of the directory entries of an icon, from entry `i` on, of `n`, and of the images that they point at, as far as
/// they are looked at, could not be read.
pub open spec fn ico_images_fails(src: Source, start: int, avail: int, n: int, i: int) -> bool
    decreases n - i,
{
    let f = src.tail(start);
    let at = 6 + i * 16;
    let e = f.subrange(at, at + 16);
    let off = le32(e, 12);
    i < n && (src.faulty(start + at, 16) || (ico_entry(e, 6 + n * 16) && off + 8 <= avail && (src.faulty(
        start + off,
        8,
    ) || (ico_image(f.subrange(off as int, off + 8)) && ico_images_fails(src, start, avail, n, i + 1)))))
}

/// One of the bytes of an icon or cursor that are looked at could not be read.
pub open spec fn icocur_fails(src: Source, start: int, avail: int) -> bool {
    let f = src.tail(start);
    let h = f.subrange(0, 6);
    let n = le16(h, 4);
    src.faulty(start, 6) || (f.len() >= 6 && le16(h, 0) == 0 && (le16(h, 2) == 1 || le16(h, 2) == 2) && 0 < n
        <= 1024 && 6 + n * 16 <= avail && ico_images_fails(src, start, avail, n as int, 0))
}

/// ICO/CUR file length: up to the furthest end of its images. The magic is only
/// four bytes, so every field that has a small legal range is checked.
pub fn icocur_length(source: &Source, file_start: u64, limit: u64) -> (r: Length)
    requires
        source.spans(file_start, limit),
    ensures
        source.sizes(
            file_start,
            r,
            icocur_len(source.tail(file_start as int), limit - file_start),
            limit - file_start,
        ),
        r is Err <==> icocur_fails(*source, file_start as int, limit - file_start),
{
    let avail: u64 = limit - file_start;
    let ghost f = source.tail(file_start as int);
    let h = match source.part(file_start, 0, 6)? {
        Some(h) => h,
        None => return Ok(None),
    };
    let kind: u16 = rd_le16(&h, 2);
    let n: u64 = rd_le16(&h, 4) as u64;
    if rd_le16(&h, 0) != 0 || !(kind == 1 || kind == 2) || n == 0 || n > 1024 || 6 + n * 16 > avail {
        return Ok(None);
    }
    let dir_end: u64 = 6 + n * 16;
    let mut max_end: u64 = dir_end;
    let mut i: u64 = 0;
    while i < n
        invariant
            source.spans(file_start, limit),
            avail == limit - file_start,
            f == source.tail(file_start as int),
            i <= n <= 1024,
            dir_end == 6 + n * 16,
            dir_end <= avail,
            dir_end <= max_end <= 0x2_0000_0000,
            icocur_len(f, avail as int) == match ico_images(
                f,
                avail as int,
                dir_end as int,
                n as nat,
            ) {
                None => None,
                Some(end) => fit(end, avail as int),
            },
            ico_images(f, avail as int, dir_end as int, i as nat) == Some(max_end as int),
            icocur_fails(*source, file_start as int, avail as int) == ico_images_fails(
                *source,
                file_start as int,
                avail as int,
                n as int,
                i as int,
            ),
        decreases n - i,
    {
        let e = match source.part(file_start, 6 + i * 16, 16)? {
            Some(e) => e,
            None => return Ok(None),
        };
        let bpp: u16 = rd_le16(&e, 6);
        let size: u64 = rd_le32(&e, 8) as u64;
        let off: u64 = rd_le32(&e, 12) as u64;
        proof {
            if ico_images(f, avail as int, dir_end as int, (i + 1) as nat) is None {
                lemma_ico_none(f, avail as int, dir_end as int, (i + 1) as nat, n as nat);
            }
        }
        if e[3] != 0 || rd_le16(&e, 4) > 1 || !(bpp == 0 || bpp == 1 || bpp == 4 || bpp == 8 || bpp
            == 16 || bpp == 24 || bpp == 32) || size == 0 || off < dir_end || off + 8 > avail {
            return Ok(None);
        }
        let d = match source.part(file_start, off, 8)? {
            Some(d) => d,
            None => return Ok(None),
        };
        let dib: u32 = rd_le32(&d, 0);
        if !(dib == 12 || dib == 40 || dib == 52 || dib == 56 || dib == 108 || dib == 124)
            && !is_text(&d, 0, "\u{89}PNG\r\n\u{1a}\n") {
            return Ok(None);
        }
        max_end = max_u64(max_end, off + size);
        i = i + 1;
    }
    Ok(within(max_end, avail))
}

/// The length of an ICC colour profile at the beginning of `f`: what it gives, a
/// multiple of 4 that covers the 128-byte header.
pub open spec fn icc_len(f: Seq<u8>, avail: int) -> Option<int> {
    let size = be32(f.subrange(0, 4), 0);
    if f.len() < 4 || size < 128 || size % 4 != 0 {
        None
    } else {
        fit(size as int, avail)
    }
}

/// ICC colour profile length.
pub fn icc_length(source: &Source, file_start: u64, limit: u64) -> (r: Length)
    requires
        source.spans(file_start, limit),
    ensures
        source.sizes(
            file_start,
            r,
            icc_len(source.tail(file_start as int), limit - file_start),
            limit - file_start,
        ),
        r is Err <==> source.faulty(file_start as int, 4),
{
    let h = match source.part(file_start, 0, 4)? {
        Some(h) => h,
        None => return Ok(None),
    };
    let size: u64 = rd_be32(&h, 0) as u64;
    if size < 128 || size % 4 != 0 {
        return Ok(None);
    }
    Ok(within(size, limit - file_start))
}

/// The length of a Sun raster image at the beginning of `f`: a 32-byte header, the
/// colour map and the data, which is not nothing. The picture has pixels, of 1, 8,
/// 24 or 32 bits, and the types of image and map are known ones.
pub open spec fn sun_raster_len(f: Seq<u8>, avail: int) -> Option<int> {
    let h = f.subrange(0, 32);
    let depth = be32(h, 0x0C);
    if f.len() < 32 || be32(h, 0) != 0x59A6_6A95 || be32(h, 4) == 0 || be32(h, 8) == 0 || !(depth
        == 1 || depth == 8 || depth == 24 || depth == 32) || be32(h, 0x14) > 5 || be32(h, 0x18) > 2
        || be32(h, 0x10) == 0 {
        None
    } else {
        fit(32 + be32(h, 0x1C) + be32(h, 0x10), avail)
    }
}

/// Sun raster image (`.ras`) length.
pub fn sun_raster_length(source: &Source, file_start: u64, limit: u64) -> (r: Length)
    requires
        source.spans(file_start, limit),
    ensures
        source.sizes(
            file_start,
            r,
            sun_raster_len(source.tail(file_start as int), limit - file_start),
            limit - file_start,
        ),
        r is Err <==> source.faulty(file_start as int, 32),
{
    let h = match source.part(file_start, 0, 32)? {
        Some(h) => h,
        None => return Ok(None),
    };
    let depth: u32 = rd_be32(&h, 0x0C);
    let data: u64 = rd_be32(&h, 0x10) as u64;
    if rd_be32(&h, 0) != 0x59A6_6A95 || rd_be32(&h, 4) == 0 || rd_be32(&h, 8) == 0 || !(depth == 1
        || depth == 8 || depth == 24 || depth == 32) || rd_be32(&h, 0x14) > 5 || rd_be32(&h, 0x18)
        > 2 || data == 0 {
        return Ok(None);
    }
    Ok(within(32 + rd_be32(&h, 0x1C) as u64 + data, limit - file_start))
}

/// The length of a Fuji raw image at the beginning of `f`: up to the furthest end of the preview, the
/// sensor's header and its data, which covers the header.
pub open spec fn raf_len(f: Seq<u8>, avail: int) -> Option<int> {
    let h = f.subrange(0, 0x6C);
    let end = larger(
        larger(be32(h, 0x54) + be32(h, 0x58), be32(h, 0x5C) + be32(h, 0x60)),
        be32(h, 0x64) + be32(h, 0x68),
    );
    if f.len() < 0x6C || !text_at(h, 0, "FUJIFILMCCD-RAW "@) || end < 0x6C {
        None
    } else {
        fit(end, avail)
    }
}

/// Fuji RAF raw image (`.raf`) length.
pub fn raf_length(source: &Source, file_start: u64, limit: u64) -> (r: Length)
    requires
        source.spans(file_start, limit),
    ensures
        source.sizes(
            file_start,
            r,
            raf_len(source.tail(file_start as int), limit - file_start),
            limit - file_start,
        ),
        r is Err <==> source.faulty(file_start as int, 108),
{
    let h = match source.part(file_start, 0, 108)? {
        Some(h) => h,
        None => return Ok(None),
    };
    let a: u64 = rd_be32(&h, 0x54) as u64 + rd_be32(&h, 0x58) as u64;
    let b: u64 = rd_be32(&h, 0x5C) as u64 + rd_be32(&h, 0x60) as u64;
    let c: u64 = rd_be32(&h, 0x64) as u64 + rd_be32(&h, 0x68) as u64;
    let end: u64 = max_u64(max_u64(a, b), c);
    if !is_text(&h, 0, "FUJIFILMCCD-RAW ") || end < 0x6C {
        return Ok(None);
    }
    Ok(within(end, limit - file_start))
}

} // verus!
