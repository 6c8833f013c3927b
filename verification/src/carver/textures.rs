//! Textures, and the images that graphics programs exchange.

use crate::bytes::{
    be32, be64, byte_at_or_after, capped, ceil, ceil_div, find_byte, fit, is_text, larger, le24,
    le32, le64, max_u64, mul_wide, ord32, rd_be32, rd_be64, rd_le24, rd_le32, rd_le64, rd_ord32,
    smaller, text_at, within,
};
use crate::source::{window, Length, Source};
use vstd::prelude::*;

verus! {

/// The furthest end of the levels of a KTX2 texture from level `i` on, of `n`, as
/// far as 64 bits hold it; `end` is the furthest end before. The level index has
/// to lie in the room.
pub open spec fn ktx2_levels(f: Seq<u8>, avail: int, n: int, i: int, end: int) -> Option<int>
    decreases n - i,
{
    let at = 0x50 + i * 24;
    let e = f.subrange(at, at + 24);
    if i >= n {
        Some(end)
    } else if at + 24 > avail {
        None
    } else {
        ktx2_levels(f, avail, n, i + 1, larger(end, capped(le64(e, 0) + le64(e, 8))))
    }
}

/// The furthest end of what the header of a KTX2 texture places, with `n` levels.
pub open spec fn ktx2_header_end(h: Seq<u8>, n: int) -> int {
    larger(
        larger(0x50 + n * 24, le32(h, 0x30) + le32(h, 0x34)),
        larger(le32(h, 0x38) + le32(h, 0x3C), capped(le64(h, 0x40) + le64(h, 0x48))),
    )
}

/// The number of levels that a KTX2 texture stores: a count of zero asks for levels
/// to be generated, and stores one.
pub open spec fn ktx2_level_count(h: Seq<u8>) -> int {
    if le32(h, 0x28) == 0 {
        1
    } else {
        le32(h, 0x28) as int
    }
}

/// The length of a KTX2 texture at the beginning of `f`, of up to 32 levels: up to
/// the furthest end of what its header and its level index place.
pub open spec fn ktx2_len(f: Seq<u8>, avail: int) -> Option<int> {
    let h = f.subrange(0, 0x50);
    let n = ktx2_level_count(h);
    if f.len() < 0x50 || !text_at(h, 0, "\u{AB}KTX 20\u{BB}\r\n\u{1a}\n"@) || n > 32 {
        None
    } else {
        match ktx2_levels(f, avail, n, 0, ktx2_header_end(h, n)) {
            None => None,
            Some(end) => fit(end, avail),
        }
    }
}

/// One of the level records of a KTX 2 texture, from level `i` on, of `n`, as far as they are looked at, could not be
/// read.
pub open spec fn ktx2_levels_fails(src: Source, start: int, avail: int, n: int, i: int) -> bool
    decreases n - i,
{
    let at = 0x50 + i * 24;
    i < n && at + 24 <= avail && (src.faulty(start + at, 24) || ktx2_levels_fails(
        src,
        start,
        avail,
        n,
        i + 1,
    ))
}

/// One of the bytes of a KTX 2 texture that are looked at could not be read.
pub open spec fn ktx2_fails(src: Source, start: int, avail: int) -> bool {
    let f = src.tail(start);
    let h = f.subrange(0, 0x50);
    let n = ktx2_level_count(h);
    src.faulty(start, 80) || (f.len() >= 0x50 && text_at(h, 0, "\u{AB}KTX 20\u{BB}\r\n\u{1a}\n"@) && n <= 32
        && ktx2_levels_fails(src, start, avail, n, 0))
}

/// KTX2 texture (`.ktx2`) length.
pub fn ktx2_length(source: &Source, file_start: u64, limit: u64) -> (r: Length)
    requires
        source.spans(file_start, limit),
    ensures
        source.sizes(
            file_start,
            r,
            ktx2_len(source.tail(file_start as int), limit - file_start),
            limit - file_start,
        ),
        r is Err <==> ktx2_fails(*source, file_start as int, limit - file_start),
{
    let avail: u64 = limit - file_start;
    let ghost f = source.tail(file_start as int);
    let h = match source.part(file_start, 0, 80)? {
        Some(h) => h,
        None => return Ok(None),
    };
    let count: u64 = rd_le32(&h, 0x28) as u64;
    if !is_text(&h, 0, "\u{AB}KTX 20\u{BB}\r\n\u{1a}\n") || count > 32 {
        return Ok(None);
    }
    let n: u64 = if count == 0 {
        1
    } else {
        count
    };
    let a: u64 = max_u64(
        0x50 + n * 24,
        rd_le32(&h, 0x30) as u64 + rd_le32(&h, 0x34) as u64,
    );
    let b: u64 = max_u64(
        rd_le32(&h, 0x38) as u64 + rd_le32(&h, 0x3C) as u64,
        rd_le64(&h, 0x40).saturating_add(rd_le64(&h, 0x48)),
    );
    let first: u64 = max_u64(a, b);
    let mut end: u64 = first;
    let mut i: u64 = 0;
    while i < n
        invariant
            source.spans(file_start, limit),
            avail == limit - file_start,
            f == source.tail(file_start as int),
            i <= n <= 32,
            0 < end,
            ktx2_len(f, avail as int) == match ktx2_levels(
                f,
                avail as int,
                n as int,
                0,
                first as int,
            ) {
                None => None,
                Some(end) => fit(end, avail as int),
            },
            ktx2_levels(f, avail as int, n as int, 0, first as int) == ktx2_levels(
                f,
                avail as int,
                n as int,
                i as int,
                end as int,
            ),
            ktx2_fails(*source, file_start as int, avail as int) == ktx2_levels_fails(
                *source,
                file_start as int,
                avail as int,
                n as int,
                i as int,
            ),
        decreases n - i,
    {
        let at: u64 = 0x50 + i * 24;
        if at + 24 > avail {
            return Ok(None);
        }
        let e = match source.part(file_start, at, 24)? {
            Some(e) => e,
            None => return Ok(None),
        };
        end = max_u64(end, rd_le64(&e, 0).saturating_add(rd_le64(&e, 8)));
        i = i + 1;
    }
    Ok(within(end, avail))
}

/// The number of bytes in a picture of `w` by `h` pixels, in blocks of 4 by 4 pixels
/// of `unit` bytes where it is `blocked`, and in pixels of `unit` bytes where not.
pub open spec fn level_size(w: int, h: int, unit: int, blocked: bool) -> int {
    if blocked {
        ceil(w, 4) * ceil(h, 4) * unit
    } else {
        w * h * unit
    }
}

/// The number of bytes in `n` levels of a texture, each half as wide and half as high
/// as the one before, but a pixel at least.
pub open spec fn mip_chain(w: int, h: int, unit: int, blocked: bool, n: nat) -> int
    decreases n,
{
    if n == 0 {
        0
    } else {
        level_size(larger(w, 1), larger(h, 1), unit, blocked) + mip_chain(
            w / 2,
            h / 2,
            unit,
            blocked,
            (n - 1) as nat,
        )
    }
}

/// A chain of `n` levels of a texture whose sides are less than 2^32.
fn mip_total(width: u64, height: u64, unit: u64, blocked: bool, n: u64) -> (r: u128)
    requires
        width < 0x1_0000_0000,
        height < 0x1_0000_0000,
        0 < unit <= 16,
        n <= 32,
    ensures
        r == mip_chain(width as int, height as int, unit as int, blocked, n as nat),
        n > 0 ==> r > 0,
        r <= n * 0x10_0000_0000_0000_0000,
{
    let mut total: u128 = 0;
    let mut w: u64 = width;
    let mut h: u64 = height;
    let mut left: u64 = n;
    while left > 0
        invariant
            left <= n <= 32,
            0 < unit <= 16,
            w < 0x1_0000_0000,
            h < 0x1_0000_0000,
            left < n ==> total > 0,
            total <= (n - left) * 0x10_0000_0000_0000_0000,
            mip_chain(width as int, height as int, unit as int, blocked, n as nat) == total
                + mip_chain(w as int, h as int, unit as int, blocked, left as nat),
        decreases left,
    {
        let a: u64 = max_u64(w, 1);
        let b: u64 = max_u64(h, 1);
        let x: u64 = if blocked {
            ceil_div(a, 4)
        } else {
            a
        };
        let y: u64 = if blocked {
            ceil_div(b, 4)
        } else {
            b
        };
        assert(0 < x * y < 0x1_0000_0000_0000_0000) by (nonlinear_arith)
            requires
                0 < x < 0x1_0000_0000,
                0 < y < 0x1_0000_0000,
        ;
        let area: u64 = x * y;
        assert(area * unit > 0) by (nonlinear_arith)
            requires
                area > 0,
                unit > 0,
        ;
        assert(area * unit <= 0x10_0000_0000_0000_0000) by (nonlinear_arith)
            requires
                0 <= area < 0x1_0000_0000_0000_0000,
                0 <= unit <= 16,
        ;
        let level: u128 = mul_wide(area, unit);
        assert(level == level_size(a as int, b as int, unit as int, blocked));
        total = total + level;
        w = w / 2;
        h = h / 2;
        left = left - 1;
    }
    total
}

/// The bytes of a block and whether there are blocks, for the pixel format of a DDS
/// header: a block format by its name, or else uncompressed pixels of whole bytes.
pub open spec fn dds_unit(h: Seq<u8>) -> Option<(int, bool)> {
    if le32(h, 80) / 4 % 2 == 1 {
        if text_at(h, 84, "DXT1"@) || text_at(h, 84, "ATI1"@) || text_at(h, 84, "BC4U"@) || text_at(
            h,
            84,
            "BC4S"@,
        ) {
            Some((8, true))
        } else if text_at(h, 84, "DXT2"@) || text_at(h, 84, "DXT3"@) || text_at(h, 84, "DXT4"@)
            || text_at(h, 84, "DXT5"@) || text_at(h, 84, "ATI2"@) || text_at(h, 84, "BC5U"@)
            || text_at(h, 84, "BC5S"@) {
            Some((16, true))
        } else {
            None
        }
    } else if le32(h, 80) / 0x40 % 2 == 1 && le32(h, 88) != 0 && le32(h, 88) % 8 == 0 && le32(h, 88)
        <= 128 {
        Some(((le32(h, 88) / 8) as int, false))
    } else {
        None
    }
}

/// The number of levels in a DDS texture, one at least.
pub open spec fn dds_levels(h: Seq<u8>) -> int {
    larger(le32(h, 28) as int, 1)
}

/// The length of a DDS texture at the beginning of `f`: a 128-byte header and up to 20
/// levels, of sides from 1 to 65536. Cube maps and volumes are left out.
pub open spec fn dds_len(f: Seq<u8>, avail: int) -> Option<int> {
    let h = f.subrange(0, 128);
    if f.len() < 128 || !text_at(h, 0, "DDS "@) || le32(h, 4) != 124 || le32(h, 76) != 32 || !(1
        <= le32(h, 16) <= 65536) || !(1 <= le32(h, 12) <= 65536) || dds_levels(h) > 20 || le32(
        h,
        112,
    ) / 0x200 % 2 == 1 || le32(h, 112) / 0x20_0000 % 2 == 1 {
        None
    } else {
        match dds_unit(h) {
            None => None,
            Some((unit, blocked)) => fit(
                128 + mip_chain(
                    le32(h, 16) as int,
                    le32(h, 12) as int,
                    unit,
                    blocked,
                    dds_levels(h) as nat,
                ),
                avail,
            ),
        }
    }
}

/// The pixel format of a DDS header.
fn dds_format(h: &[u8]) -> (r: Option<(u64, bool)>)
    requires
        h.len() == 128,
    ensures
        match r {
            Some(x) => dds_unit(h@) == Some((x.0 as int, x.1)) && 0 < x.0 <= 16,
            None => dds_unit(h@) is None,
        },
{
    let flags: u32 = rd_le32(h, 80);
    if flags / 4 % 2 == 1 {
        if is_text(h, 84, "DXT1") || is_text(h, 84, "ATI1") || is_text(h, 84, "BC4U") || is_text(
            h,
            84,
            "BC4S",
        ) {
            return Some((8, true));
        }
        if is_text(h, 84, "DXT2") || is_text(h, 84, "DXT3") || is_text(h, 84, "DXT4") || is_text(
            h,
            84,
            "DXT5",
        ) || is_text(h, 84, "ATI2") || is_text(h, 84, "BC5U") || is_text(h, 84, "BC5S") {
            return Some((16, true));
        }
        return None;
    }
    let bits: u32 = rd_le32(h, 88);
    if flags / 0x40 % 2 == 1 && bits != 0 && bits % 8 == 0 && bits <= 128 {
        return Some(((bits / 8) as u64, false));
    }
    None
}

/// DDS texture (`.dds`) length. DX10-extended, cubemap, and volume textures, and
/// unknown formats, are skipped rather than mis-sized.
pub fn dds_length(source: &Source, file_start: u64, limit: u64) -> (r: Length)
    requires
        source.spans(file_start, limit),
    ensures
        source.sizes(
            file_start,
            r,
            dds_len(source.tail(file_start as int), limit - file_start),
            limit - file_start,
        ),
        r is Err <==> source.faulty(file_start as int, 128),
{
    let avail: u64 = limit - file_start;
    let h = match source.part(file_start, 0, 128)? {
        Some(h) => h,
        None => return Ok(None),
    };
    let height: u64 = rd_le32(&h, 12) as u64;
    let width: u64 = rd_le32(&h, 16) as u64;
    let levels: u64 = max_u64(rd_le32(&h, 28) as u64, 1);
    let caps: u32 = rd_le32(&h, 112);
    if !is_text(&h, 0, "DDS ") || rd_le32(&h, 4) != 124 || rd_le32(&h, 76) != 32 || !(1 <= width
        && width <= 65536) || !(1 <= height && height <= 65536) || levels > 20 || caps / 0x200 % 2
        == 1 || caps / 0x20_0000 % 2 == 1 {
        return Ok(None);
    }
    let (unit, blocked) = match dds_format(&h) {
        Some(x) => x,
        None => return Ok(None),
    };
    let total: u128 = 128 + mip_total(width, height, unit, blocked, levels);
    if total > avail as u128 {
        return Ok(None);
    }
    Ok(Some(total as u64))
}

/// The length of an ASTC texture at the beginning of `f`: a 16-byte header, and 16
/// bytes for each block, of up to 12 texels along each axis.
pub open spec fn astc_len(f: Seq<u8>, avail: int) -> Option<int> {
    let h = f.subrange(0, 16);
    if f.len() < 16 || le32(h, 0) != 0x5CA1_AB13 || !(1 <= h[4] <= 12) || !(1 <= h[5] <= 12) || !(1
        <= h[6] <= 12) || le24(h, 7) == 0 || le24(h, 10) == 0 || le24(h, 13) == 0 {
        None
    } else {
        fit(
            16 + ceil(le24(h, 7) as int, h[4] as int) * ceil(le24(h, 10) as int, h[5] as int)
                * ceil(le24(h, 13) as int, h[6] as int) * 16,
            avail,
        )
    }
}

/// ASTC texture (`.astc`) length.
pub fn astc_length(source: &Source, file_start: u64, limit: u64) -> (r: Length)
    requires
        source.spans(file_start, limit),
    ensures
        source.sizes(
            file_start,
            r,
            astc_len(source.tail(file_start as int), limit - file_start),
            limit - file_start,
        ),
        r is Err <==> source.faulty(file_start as int, 16),
{
    let avail: u64 = limit - file_start;
    let h = match source.part(file_start, 0, 16)? {
        Some(h) => h,
        None => return Ok(None),
    };
    if rd_le32(&h, 0) != 0x5CA1_AB13 || !(1 <= h[4] && h[4] <= 12) || !(1 <= h[5] && h[5] <= 12)
        || !(1 <= h[6] && h[6] <= 12) {
        return Ok(None);
    }
    let x: u64 = rd_le24(&h, 7) as u64;
    let y: u64 = rd_le24(&h, 10) as u64;
    let z: u64 = rd_le24(&h, 13) as u64;
    if x == 0 || y == 0 || z == 0 {
        return Ok(None);
    }
    let a: u64 = ceil_div(x, h[4] as u64);
    let b: u64 = ceil_div(y, h[5] as u64);
    let c: u64 = ceil_div(z, h[6] as u64);
    assert(0 < a * b < 0x1_0000_0000_0000) by (nonlinear_arith)
        requires
            0 < a < 0x100_0000,
            0 < b < 0x100_0000,
    ;
    let layer: u64 = a * b;
    assert(0 <= layer * c < 0x100_0000_0000_0000_0000) by (nonlinear_arith)
        requires
            0 < layer < 0x1_0000_0000_0000,
            0 < c < 0x100_0000,
    ;
    let total: u128 = 16 + mul_wide(layer, c) * 16;
    if total > avail as u128 {
        return Ok(None);
    }
    Ok(Some(total as u64))
}

/// The length of a KTX texture from the level at `pos` on, of which `left` follow: each
/// has its size, and as many bytes, padded to a multiple of 4.
pub open spec fn ktx1_from(f: Seq<u8>, avail: int, be: bool, pos: int, left: nat) -> Option<int>
    decreases left,
{
    let next = pos + 4 + ceil(ord32(f.subrange(pos, pos + 4), 0, be) as int, 4) * 4;
    if left == 0 {
        Some(pos)
    } else if pos + 4 > f.len() || next > avail {
        None
    } else {
        ktx1_from(f, avail, be, next, (left - 1) as nat)
    }
}

/// The length of a KTX (version 1) texture at the beginning of `f`: a 64-byte header,
/// whose mark at 12 tells the byte order, key and value data, and up to 32 levels,
/// one at least. Only plain textures, no arrays or cube maps, are sized.
pub open spec fn ktx1_len(f: Seq<u8>, avail: int) -> Option<int> {
    let h = f.subrange(0, 64);
    let be = le32(h, 12) == 0x0102_0304;
    if f.len() < 64 || !text_at(h, 0, "\u{AB}KTX 11\u{BB}\r\n\u{1a}\n"@) || !(le32(h, 12)
        == 0x0403_0201 || be) || ord32(h, 48, be) != 0 || ord32(h, 52, be) != 1 || ord32(h, 56, be)
        > 32 {
        None
    } else {
        ktx1_from(
            f,
            avail,
            be,
            64 + ord32(h, 60, be),
            larger(ord32(h, 56, be) as int, 1) as nat,
        )
    }
}

/// One of the level sizes of a KTX 1 texture from `pos` on, of which `left` are looked at, could not be read.
pub open spec fn ktx1_walk_fails(
    src: Source,
    start: int,
    avail: int,
    be: bool,
    pos: int,
    left: nat,
) -> bool
    decreases left,
{
    let f = src.tail(start);
    let next = pos + 4 + ceil(ord32(f.subrange(pos, pos + 4), 0, be) as int, 4) * 4;
    left > 0 && (src.faulty(start + pos, 4) || (pos + 4 <= f.len() && next <= avail && ktx1_walk_fails(
        src,
        start,
        avail,
        be,
        next,
        (left - 1) as nat,
    )))
}

/// Walk the levels of a KTX texture.
fn ktx1_walk(source: &Source, file_start: u64, limit: u64, be: bool, first: u64, n: u64) -> (r:
    Length)
    requires
        source.spans(file_start, limit),
        64 <= first < 0x2_0000_0000,
        n > 0,
    ensures
        source.sizes_afar(
            file_start,
            r,
            ktx1_from(
                source.tail(file_start as int),
                limit - file_start,
                be,
                first as int,
                n as nat,
            ),
            limit - file_start,
        ),
        r is Err <==> ktx1_walk_fails(
            *source,
            file_start as int,
            limit - file_start,
            be,
            first as int,
            n as nat,
        ),
{
    let avail: u64 = limit - file_start;
    let ghost f = source.tail(file_start as int);
    let mut pos: u64 = first;
    let mut left: u64 = n;
    while left > 0
        invariant
            source.spans(file_start, limit),
            avail == limit - file_start,
            f == source.tail(file_start as int),
            left <= n,
            n > 0,
            64 <= first < 0x2_0000_0000,
            64 <= pos,
            pos <= avail || left == n && pos == first,
            ktx1_from(f, avail as int, be, first as int, n as nat) == ktx1_from(
                f,
                avail as int,
                be,
                pos as int,
                left as nat,
            ),
            ktx1_walk_fails(
                *source,
                file_start as int,
                avail as int,
                be,
                first as int,
                n as nat,
            ) == ktx1_walk_fails(
                *source,
                file_start as int,
                avail as int,
                be,
                pos as int,
                left as nat,
            ),
        decreases left,
    {
        let s = match source.part(file_start, pos, 4)? {
            Some(s) => s,
            None => return Ok(None),
        };
        pos = pos + 4 + ceil_div(rd_ord32(&s, 0, be) as u64, 4) * 4;
        if pos > avail {
            return Ok(None);
        }
        left = left - 1;
    }
    Ok(Some(pos))
}

/// One of the bytes of a KTX 1 texture that are looked at could not be read.
pub open spec fn ktx1_fails(src: Source, start: int, avail: int) -> bool {
    let f = src.tail(start);
    let h = f.subrange(0, 64);
    let be = le32(h, 12) == 0x0102_0304;
    src.faulty(start, 64) || (f.len() >= 64 && text_at(h, 0, "\u{AB}KTX 11\u{BB}\r\n\u{1a}\n"@) && (le32(
        h,
        12,
    ) == 0x0403_0201 || be) && ord32(h, 48, be) == 0 && ord32(h, 52, be) == 1 && ord32(h, 56, be) <= 32
        && ktx1_walk_fails(
        src,
        start,
        avail,
        be,
        64 + ord32(h, 60, be),
        larger(ord32(h, 56, be) as int, 1) as nat,
    ))
}

/// KTX v1 GPU texture (`.ktx`) length.
pub fn ktx1_length(source: &Source, file_start: u64, limit: u64) -> (r: Length)
    requires
        source.spans(file_start, limit),
    ensures
        source.sizes_afar(
            file_start,
            r,
            ktx1_len(source.tail(file_start as int), limit - file_start),
            limit - file_start,
        ),
        r is Err <==> ktx1_fails(*source, file_start as int, limit - file_start),
{
    let h = match source.part(file_start, 0, 64)? {
        Some(h) => h,
        None => return Ok(None),
    };
    let mark: u32 = rd_le32(&h, 12);
    let be = mark == 0x0102_0304;
    if !is_text(&h, 0, "\u{AB}KTX 11\u{BB}\r\n\u{1a}\n") || !(mark == 0x0403_0201 || be) {
        return Ok(None);
    }
    let levels: u64 = rd_ord32(&h, 56, be) as u64;
    if rd_ord32(&h, 48, be) != 0 || rd_ord32(&h, 52, be) != 1 || levels > 32 {
        return Ok(None);
    }
    ktx1_walk(
        source,
        file_start,
        limit,
        be,
        64 + rd_ord32(&h, 60, be) as u64,
        max_u64(levels, 1),
    )
}

/// The bytes of a block of a PVR texture, by its pixel format, where that is known for
/// certain.
pub open spec fn pvr_unit(format: u32) -> Option<int> {
    if format == 6 || format == 7 || format == 12 || format == 22 || format == 24 || format == 25 {
        Some(8)
    } else if format == 9 || format == 11 || 13 <= format <= 15 || format == 23 || format == 26 {
        Some(16)
    } else {
        None
    }
}

/// The length of a PVR texture at the beginning of `f`: a 52-byte header, metadata, and
/// 1 to 32 levels. Only plain textures in blocks of 4 by 4 are sized.
pub open spec fn pvr_len(f: Seq<u8>, avail: int) -> Option<int> {
    let h = f.subrange(0, 52);
    if f.len() < 52 || le32(h, 0) != 0x0352_5650 || le32(h, 12) != 0 || le32(h, 24) == 0 || le32(
        h,
        28,
    ) == 0 || le32(h, 32) != 1 || le32(h, 36) != 1 || le32(h, 40) != 1 || le32(h, 44) == 0 || le32(
        h,
        44,
    ) > 32 {
        None
    } else {
        match pvr_unit(le32(h, 8)) {
            None => None,
            Some(unit) => fit(
                52 + le32(h, 48) + mip_chain(
                    le32(h, 28) as int,
                    le32(h, 24) as int,
                    unit,
                    true,
                    le32(h, 44) as nat,
                ),
                avail,
            ),
        }
    }
}

/// PVR v3 texture (`.pvr`) length.
pub fn pvr_length(source: &Source, file_start: u64, limit: u64) -> (r: Length)
    requires
        source.spans(file_start, limit),
    ensures
        source.sizes(
            file_start,
            r,
            pvr_len(source.tail(file_start as int), limit - file_start),
            limit - file_start,
        ),
        r is Err <==> source.faulty(file_start as int, 52),
{
    let avail: u64 = limit - file_start;
    let h = match source.part(file_start, 0, 52)? {
        Some(h) => h,
        None => return Ok(None),
    };
    let height: u64 = rd_le32(&h, 24) as u64;
    let width: u64 = rd_le32(&h, 28) as u64;
    let levels: u64 = rd_le32(&h, 44) as u64;
    if rd_le32(&h, 0) != 0x0352_5650 || rd_le32(&h, 12) != 0 || height == 0 || width == 0
        || rd_le32(&h, 32) != 1 || rd_le32(&h, 36) != 1 || rd_le32(&h, 40) != 1 || levels == 0
        || levels > 32 {
        return Ok(None);
    }
    let unit: u64 = match rd_le32(&h, 8) {
        // ETC1, BC1/DXT1, BC4, ETC2_RGB, ETC2_RGB_A1, EAC_R11
        6 | 7 | 12 | 22 | 24 | 25 => 8,
        // BC2/DXT3, BC3/DXT5, BC5, BC6H, BC7, ETC2_RGBA, EAC_RG11
        9 | 11 | 13 | 14 | 15 | 23 | 26 => 16,
        _ => return Ok(None),
    };
    let total: u128 = 52 + rd_le32(&h, 48) as u128 + mip_total(width, height, unit, true, levels);
    if total > avail as u128 {
        return Ok(None);
    }
    Ok(Some(total as u64))
}

/// The furthest end of the levels of a BLP texture from level `i` on, of 16; `end` is
/// the furthest end before. A level of length zero is unused.
pub open spec fn blp_levels(h: Seq<u8>, i: int, end: int) -> int
    decreases 16 - i,
{
    if i >= 16 {
        end
    } else if le32(h, 0x54 + i * 4) == 0 {
        blp_levels(h, i + 1, end)
    } else {
        blp_levels(h, i + 1, larger(end, le32(h, 0x14 + i * 4) + le32(h, 0x54 + i * 4)))
    }
}

/// Some level of a BLP texture is used.
pub open spec fn blp_used(h: Seq<u8>) -> bool {
    exists|i: int| 0 <= i < 16 && #[trigger] le32(h, 0x54 + i * 4) != 0
}

/// The length of a BLP2 texture at the beginning of `f`: up to the furthest end of its
/// 148-byte header and its levels, of which one is used at least; its sides are from
/// 1 to 65536.
pub open spec fn blp_len(f: Seq<u8>, avail: int) -> Option<int> {
    let h = f.subrange(0, 0x94);
    if f.len() < 0x94 || !text_at(h, 0, "BLP2"@) || !(1 <= le32(h, 12) <= 65536) || !(1 <= le32(
        h,
        16,
    ) <= 65536) || !blp_used(h) {
        None
    } else {
        fit(blp_levels(h, 0, 0x94), avail)
    }
}

/// BLP2 texture (`.blp`) length.
pub fn blp_length(source: &Source, file_start: u64, limit: u64) -> (r: Length)
    requires
        source.spans(file_start, limit),
    ensures
        source.sizes(
            file_start,
            r,
            blp_len(source.tail(file_start as int), limit - file_start),
            limit - file_start,
        ),
        r is Err <==> source.faulty(file_start as int, 148),
{
    let avail: u64 = limit - file_start;
    let h = match source.part(file_start, 0, 148)? {
        Some(h) => h,
        None => return Ok(None),
    };
    let width: u32 = rd_le32(&h, 12);
    let height: u32 = rd_le32(&h, 16);
    if !is_text(&h, 0, "BLP2") || !(1 <= width && width <= 65536) || !(1 <= height && height
        <= 65536) {
        return Ok(None);
    }
    let mut end: u64 = 0x94;
    let mut any = false;
    let mut i: usize = 0;
    while i < 16
        invariant
            h.len() == 148,
            i <= 16,
            0 < end < 0x2_0000_0000,
            any == (exists|k: int| 0 <= k < i && #[trigger] le32(h@, 0x54 + k * 4) != 0),
            blp_levels(h@, 0, 0x94) == blp_levels(h@, i as int, end as int),
        decreases 16 - i,
    {
        let at: u64 = rd_le32(&h, 0x14 + i * 4) as u64;
        let len: u64 = rd_le32(&h, 0x54 + i * 4) as u64;
        assert(le32(h@, 0x54 + i * 4) == len);
        if len != 0 {
            any = true;
            end = max_u64(end, at + len);
        }
        i = i + 1;
    }
    if !any {
        return Ok(None);
    }
    Ok(within(end, avail))
}

/// Where the attributes of an OpenEXR header end that go on at `p` of `b`, no more than
/// `left` of them being looked at: each is a name and a type, which end with a NUL, a
/// size, and as many bytes; an empty name ends the list.
pub open spec fn exr_attributes(b: Seq<u8>, p: int, left: nat) -> Option<int>
    decreases left,
{
    if left == 0 || p >= b.len() {
        None
    } else if b[p] == 0 {
        Some(p + 1)
    } else {
        match byte_at_or_after(b, p, 0) {
            None => None,
            Some(name_end) => match byte_at_or_after(b, name_end + 1, 0) {
                None => None,
                Some(type_end) => if type_end + 5 > b.len() {
                    None
                } else {
                    exr_attributes(b, type_end + 5 + le32(b, type_end + 1), (left - 1) as nat)
                },
            },
        }
    }
}

/// The length of an OpenEXR image at the beginning of `f`, of version 2, of one part and
/// in scan lines. The attributes, in the first 64 KiB, are followed by a table of the
/// places of chunks. The first chunk begins where the table ends; the last, which
/// gives the size of its data, ends the file.
pub open spec fn exr_len(f: Seq<u8>, avail: int) -> Option<int> {
    let h = f.subrange(0, 8);
    if f.len() < 8 || le32(h, 0) != 0x0131_2F76 || h[4] != 2 || h[5] / 2 % 2 == 1 || h[5] / 8 % 2
        == 1 || h[5] / 16 % 2 == 1 {
        None
    } else {
        match exr_attributes(window(f, 0, 65536), 8, 1000) {
            None => None,
            Some(table) => {
                let first = le64(f.subrange(table, table + 8), 0);
                let last = le64(f.subrange(first - 8, first as int), 0);
                if table + 8 > f.len() || first <= table || (first - table) % 8 != 0 || (first
                    - table) / 8 > 0x100_0000 || first > f.len() || last < first || last + 8
                    > f.len() {
                    None
                } else {
                    fit(
                        last + 8 + le32(f.subrange(last as int, last + 8), 4),
                        avail,
                    )
                }
            },
        }
    }
}

/// Find where the attributes of an OpenEXR header end.
fn exr_header_end(b: &[u8]) -> (r: Option<u64>)
    requires
        b.len() <= 65536,
    ensures
        match r {
            Some(p) => exr_attributes(b@, 8, 1000) == Some(p as int) && 8 < p <= b.len(),
            None => exr_attributes(b@, 8, 1000) is None,
        },
{
    let mut p: u64 = 8;
    let mut left: u64 = 1000;
    while left > 0
        invariant
            b.len() <= 65536,
            8 <= p < 0x2_0000_0000,
            exr_attributes(b@, 8, 1000) == exr_attributes(b@, p as int, left as nat),
        decreases left,
    {
        if p >= b.len() as u64 {
            return None;
        }
        let at: usize = p as usize;
        if b[at] == 0 {
            return Some(p + 1);
        }
        let name_end: usize = match find_byte(b, at, 0) {
            Some(e) => e,
            None => return None,
        };
        let type_end: usize = match find_byte(b, name_end + 1, 0) {
            Some(e) => e,
            None => return None,
        };
        if type_end + 5 > b.len() {
            return None;
        }
        p = type_end as u64 + 5 + rd_le32(b, type_end + 1) as u64;
        left = left - 1;
    }
    None
}

/// One of the bytes of an OpenEXR image that are looked at could not be read: its header, and the first and the last
/// entry of the offset table behind it, and the head of the last chunk.
pub open spec fn exr_fails(src: Source, start: int) -> bool {
    let f = src.tail(start);
    let h = f.subrange(0, 8);
    src.faulty(start, 8) || (f.len() >= 8 && le32(h, 0) == 0x0131_2F76 && h[4] == 2 && h[5] / 2 % 2 != 1 && h[5]
        / 8 % 2 != 1 && h[5] / 16 % 2 != 1 && (src.faulty(start, 65536) || match exr_attributes(
        window(f, 0, 65536),
        8,
        1000,
    ) {
        None => false,
        Some(table) => {
            let first = le64(f.subrange(table, table + 8), 0);
            let last = le64(f.subrange(first - 8, first as int), 0);
            src.faulty(start + table, 8) || (table + 8 <= f.len() && first > table && (first - table) % 8 == 0
                && (first - table) / 8 <= 0x100_0000 && (src.faulty(start + first - 8, 8) || (first <= f.len()
                && last >= first && src.faulty(start + last, 8))))
        },
    }))
}

/// OpenEXR image (`.exr`) length. The tiled, deep and multi-part kinds have different
/// chunk layouts and are skipped.
pub fn exr_length(source: &Source, file_start: u64, limit: u64) -> (r: Length)
    requires
        source.spans(file_start, limit),
    ensures
        source.sizes_afar(
            file_start,
            r,
            exr_len(source.tail(file_start as int), limit - file_start),
            limit - file_start,
        ),
        r is Err <==> exr_fails(*source, file_start as int),
{
    let avail: u64 = limit - file_start;
    let ghost f = source.tail(file_start as int);
    let h = match source.part(file_start, 0, 8)? {
        Some(h) => h,
        None => return Ok(None),
    };
    if rd_le32(&h, 0) != 0x0131_2F76 || h[4] != 2 || h[5] / 2 % 2 == 1 || h[5] / 8 % 2 == 1 || h[5]
        / 16 % 2 == 1 {
        return Ok(None);
    }
    let b = source.part_upto(file_start, 0, 65536)?;
    let table: u64 = match exr_header_end(&b) {
        Some(p) => p,
        None => return Ok(None),
    };
    let o = match source.part(file_start, table, 8)? {
        Some(o) => o,
        None => return Ok(None),
    };
    let first: u64 = rd_le64(&o, 0);
    if first <= table || (first - table) % 8 != 0 || (first - table) / 8 > 0x100_0000 {
        return Ok(None);
    }
    let l = match source.part(file_start, first - 8, 8)? {
        Some(l) => l,
        None => return Ok(None),
    };
    let last: u64 = rd_le64(&l, 0);
    if last < first {
        return Ok(None);
    }
    let c = match source.part(file_start, last, 8)? {
        Some(c) => c,
        None => return Ok(None),
    };
    Ok(within((last + 8).saturating_add(rd_le32(&c, 4) as u64), avail))
}

/// The bytes of a QOI chunk, by its first byte, and the pixels it stands for.
pub open spec fn qoi_chunk(tag: u8) -> (int, int) {
    if tag == 0xFE {
        (4, 1)
    } else if tag == 0xFF {
        (5, 1)
    } else if tag < 0x80 {
        (1, 1)
    } else if tag < 0xC0 {
        (2, 1)
    } else {
        (1, tag - 0xC0 + 1)
    }
}

/// The length of a QOI image of which the chunks before `pos` have been passed and
/// `left` pixels are still to come: up to the end marker behind the chunk that brings
/// the last of them.
pub open spec fn qoi_from(f: Seq<u8>, avail: int, pos: int, left: int) -> Option<int>
    decreases avail - pos,
{
    let (n, pixels) = qoi_chunk(f[pos]);
    if left <= 0 {
        if pos + 8 <= avail && be64(f.subrange(pos, pos + 8), 0) == 1 {
            Some(pos + 8)
        } else {
            None
        }
    } else if pos + n > avail {
        None
    } else {
        qoi_from(f, avail, pos + n, left - pixels)
    }
}

/// The length of a QOI image at the beginning of `f`, which has pixels, of 3 or 4
/// channels.
pub open spec fn qoi_len(f: Seq<u8>, avail: int) -> Option<int> {
    let h = f.subrange(0, 14);
    if f.len() < 14 || !text_at(h, 0, "qoif"@) || be32(h, 4) == 0 || be32(h, 8) == 0 || !(3 <= h[12]
        <= 4) || h[13] > 1 {
        None
    } else {
        qoi_from(f, avail, 14, be32(h, 4) * be32(h, 8))
    }
}

/// How much of a QOI image is read at a time.
pub const QOI_WINDOW: u64 = 0x1_0000;

/// A read for the chunks of a QOI image from `pos` on, or for the end marker, ran into an unreadable byte, `left` pixels
/// being left and the bytes before `end` having been read. A chunk is five bytes at most, and where fewer have been read
/// there is a read at the chunk.
pub open spec fn qoi_walk_fails(
    src: Source,
    start: int,
    avail: int,
    pos: int,
    left: int,
    end: int,
) -> bool
    decreases avail - pos,
{
    let f = src.tail(start);
    let (n, pixels) = qoi_chunk(f[pos]);
    if left <= 0 {
        src.faulty(start + pos, 8)
    } else {
        (pos + 5 > end && src.faulty(start + pos, QOI_WINDOW as int)) || (pos + n <= avail
            && qoi_walk_fails(
            src,
            start,
            avail,
            pos + n,
            left - pixels,
            if pos + 5 > end {
                smaller(pos + QOI_WINDOW, f.len() as int)
            } else {
                end
            },
        ))
    }
}

/// Walk the chunks of a QOI image.
fn qoi_walk(source: &Source, file_start: u64, limit: u64, total: u64) -> (r: Length)
    requires
        source.spans(file_start, limit),
        14 <= source@.len() - file_start,
    ensures
        source.sizes(
            file_start,
            r,
            qoi_from(source.tail(file_start as int), limit - file_start, 14, total as int),
            limit - file_start,
        ),
        r is Err <==> qoi_walk_fails(
            *source,
            file_start as int,
            limit - file_start,
            14,
            total as int,
            14,
        ),
{
    let avail: u64 = limit - file_start;
    let ghost f = source.tail(file_start as int);
    let mut pos: u64 = 14;
    let mut left: u64 = total;
    let ghost mut over: int = 0;
    let mut base: u64 = 14;
    let mut w: Vec<u8> = Vec::new();
    while left > 0
        invariant
            source.spans(file_start, limit),
            14 <= source@.len() - file_start,
            avail == limit - file_start,
            f == source.tail(file_start as int),
            base <= pos,
            base + w.len() <= f.len(),
            w@ == f.subrange(base as int, base + w.len()),
            pos <= avail || pos == 14,
            pos >= 14,
            over == 0 || left == 0 && over < 0,
            qoi_from(f, avail as int, 14, total as int) == qoi_from(
                f,
                avail as int,
                pos as int,
                left + over,
            ),
            qoi_walk_fails(*source, file_start as int, avail as int, 14, total as int, 14)
                == qoi_walk_fails(
                *source,
                file_start as int,
                avail as int,
                pos as int,
                left + over,
                base + w.len(),
            ),
        decreases avail + 14 - pos,
    {
        if pos + 5 > base + w.len() as u64 {
            w = source.part_upto(file_start, pos, QOI_WINDOW as usize)?;
            base = pos;
        }
        if pos - base >= w.len() as u64 {
            return Ok(None);  // cut off before the chunk
        }
        let tag: u8 = w[(pos - base) as usize];
        let n: u64 = if tag == 0xFE {
            4
        } else if tag == 0xFF {
            5
        } else if tag < 0x80 {
            1
        } else if tag < 0xC0 {
            2
        } else {
            1
        };
        let pixels: u64 = if tag >= 0xC0 && tag < 0xFE {
            (tag - 0xC0) as u64 + 1
        } else {
            1
        };
        pos = pos + n;
        if pos > avail {
            return Ok(None);
        }
        if pixels > left {
            proof {
                over = left - pixels;
            }
            left = 0;
        } else {
            left = left - pixels;
        }
    }
    let m = match source.part(file_start, pos, 8)? {
        Some(m) => m,
        None => return Ok(None),
    };
    if rd_be64(&m, 0) != 1 || pos + 8 > avail {
        return Ok(None);
    }
    Ok(Some(pos + 8))
}

/// One of the bytes of a QOI image that are looked at could not be read.
pub open spec fn qoi_fails(src: Source, start: int, avail: int) -> bool {
    let f = src.tail(start);
    let h = f.subrange(0, 14);
    src.faulty(start, 14) || (f.len() >= 14 && text_at(h, 0, "qoif"@) && be32(h, 4) != 0 && be32(h, 8) != 0
        && 3 <= h[12] <= 4 && h[13] <= 1 && qoi_walk_fails(
        src,
        start,
        avail,
        14,
        be32(h, 4) * be32(h, 8),
        14,
    ))
}

/// QOI image (`.qoi`) length. Counting the pixels that the chunks stand for locates the
/// end without searching for the marker, which can appear in pixel data.
pub fn qoi_length(source: &Source, file_start: u64, limit: u64) -> (r: Length)
    requires
        source.spans(file_start, limit),
    ensures
        source.sizes(
            file_start,
            r,
            qoi_len(source.tail(file_start as int), limit - file_start),
            limit - file_start,
        ),
        r is Err <==> qoi_fails(*source, file_start as int, limit - file_start),
{
    let h = match source.part(file_start, 0, 14)? {
        Some(h) => h,
        None => return Ok(None),
    };
    let width: u64 = rd_be32(&h, 4) as u64;
    let height: u64 = rd_be32(&h, 8) as u64;
    if !is_text(&h, 0, "qoif") || width == 0 || height == 0 || !(3 <= h[12] && h[12] <= 4) || h[13]
        > 1 {
        return Ok(None);
    }
    assert(0 <= width * height <= 0xFFFF_FFFF * 0xFFFF_FFFF) by (nonlinear_arith)
        requires
            0 <= width <= 0xFFFF_FFFF,
            0 <= height <= 0xFFFF_FFFF,
    ;
    qoi_walk(source, file_start, limit, width * height)
}

/// The length of a farbfeld image at the beginning of `f`: a 16-byte header, and 8 bytes
/// for each pixel, of which there are some.
pub open spec fn farbfeld_len(f: Seq<u8>, avail: int) -> Option<int> {
    let h = f.subrange(0, 16);
    if f.len() < 16 || !text_at(h, 0, "farbfeld"@) || be32(h, 8) == 0 || be32(h, 12) == 0 {
        None
    } else {
        fit(16 + be32(h, 8) * be32(h, 12) * 8, avail)
    }
}

/// farbfeld image (`.ff`) length.
pub fn farbfeld_length(source: &Source, file_start: u64, limit: u64) -> (r: Length)
    requires
        source.spans(file_start, limit),
    ensures
        source.sizes(
            file_start,
            r,
            farbfeld_len(source.tail(file_start as int), limit - file_start),
            limit - file_start,
        ),
        r is Err <==> source.faulty(file_start as int, 16),
{
    let h = match source.part(file_start, 0, 16)? {
        Some(h) => h,
        None => return Ok(None),
    };
    let width: u64 = rd_be32(&h, 8) as u64;
    let height: u64 = rd_be32(&h, 12) as u64;
    if !is_text(&h, 0, "farbfeld") || width == 0 || height == 0 {
        return Ok(None);
    }
    assert(0 <= width * height <= 0xFFFF_FFFF * 0xFFFF_FFFF) by (nonlinear_arith)
        requires
            0 <= width <= 0xFFFF_FFFF,
            0 <= height <= 0xFFFF_FFFF,
    ;
    let total: u128 = 16 + mul_wide(width, height) * 8;
    if total > (limit - file_start) as u128 {
        return Ok(None);
    }
    Ok(Some(total as u64))
}

} // verus!
