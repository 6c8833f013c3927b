//! Game data and game console images.

use crate::bytes::{
    be32, be64, byte_at_or_after, bytes_at, capped, find_byte, fit, is_bytes, is_text, larger, le32,
    le64, max_u64, pow2_u64, rd_be32, rd_be64, rd_le32, rd_le64, text_at, within,
};
use crate::signatures::{gameboy_logo, gameboy_logo_bytes};
use crate::source::{window, Length, ReadError, Source};
use vstd::arithmetic::power2::pow2;
use vstd::prelude::*;

verus! {

/// The length of a Quake II model at the beginning of `f`: what the last field of
/// its header gives, which covers the header.
pub open spec fn md2_len(f: Seq<u8>, avail: int) -> Option<int> {
    let h = f.subrange(0, 0x44);
    if f.len() < 0x44 || !text_at(h, 0, "IDP2"@) || le32(h, 4) != 8 || le32(h, 0x40) < 0x44 {
        None
    } else {
        fit(le32(h, 0x40) as int, avail)
    }
}

/// Quake II model (`.md2`) length.
pub fn md2_length(source: &Source, file_start: u64, limit: u64) -> (r: Length)
    requires
        source.spans(file_start, limit),
    ensures
        source.sizes(
            file_start,
            r,
            md2_len(source.tail(file_start as int), limit - file_start),
            limit - file_start,
        ),
        r is Err <==> source.faulty(file_start as int, 68),
{
    let h = match source.part(file_start, 0, 68)? {
        Some(h) => h,
        None => return Ok(None),
    };
    let end: u64 = rd_le32(&h, 0x40) as u64;
    if !is_text(&h, 0, "IDP2") || rd_le32(&h, 4) != 8 || end < 0x44 {
        return Ok(None);
    }
    Ok(within(end, limit - file_start))
}

/// The length of a Quake PAK archive at the beginning of `f`: up to the end of its
/// directory, which lies behind the header and has whole entries of 64 bytes.
pub open spec fn pak_len(f: Seq<u8>, avail: int) -> Option<int> {
    let h = f.subrange(0, 12);
    if f.len() < 12 || !text_at(h, 0, "PACK"@) || le32(h, 4) < 12 || le32(h, 8) == 0 || le32(h, 8)
        % 64 != 0 {
        None
    } else {
        fit(le32(h, 4) + le32(h, 8), avail)
    }
}

/// Quake PAK archive (`.pak`) length.
pub fn pak_length(source: &Source, file_start: u64, limit: u64) -> (r: Length)
    requires
        source.spans(file_start, limit),
    ensures
        source.sizes(
            file_start,
            r,
            pak_len(source.tail(file_start as int), limit - file_start),
            limit - file_start,
        ),
        r is Err <==> source.faulty(file_start as int, 12),
{
    let h = match source.part(file_start, 0, 12)? {
        Some(h) => h,
        None => return Ok(None),
    };
    let at: u64 = rd_le32(&h, 4) as u64;
    let len: u64 = rd_le32(&h, 8) as u64;
    if !is_text(&h, 0, "PACK") || at < 12 || len == 0 || len % 64 != 0 {
        return Ok(None);
    }
    Ok(within(at + len, limit - file_start))
}

/// The furthest end of the lumps of a Source engine map from lump `i` on, of 64; `end`
/// is the furthest end before. Places and lengths of 2^31 and above are negative, and
/// no lump has them; an empty lump is nowhere.
pub open spec fn bsp_lumps(h: Seq<u8>, i: int, end: int) -> Option<int>
    decreases 64 - i,
{
    let at = le32(h, 8 + i * 16);
    let len = le32(h, 12 + i * 16);
    if i >= 64 {
        Some(end)
    } else if at >= 0x8000_0000 || len >= 0x8000_0000 {
        None
    } else if len == 0 {
        bsp_lumps(h, i + 1, end)
    } else {
        bsp_lumps(h, i + 1, larger(end, at + len))
    }
}

/// The length of a Source engine map at the beginning of `f`, of version 17 to 31: up to
/// the furthest end of its 1036-byte header and its lumps.
pub open spec fn bsp_len(f: Seq<u8>, avail: int) -> Option<int> {
    let h = f.subrange(0, 1032);
    if f.len() < 1032 || !text_at(h, 0, "VBSP"@) || !(17 <= le32(h, 4) <= 31) {
        None
    } else {
        match bsp_lumps(h, 0, 1036) {
            None => None,
            Some(end) => fit(end, avail),
        }
    }
}

/// Source-engine BSP map (`.bsp`) length.
pub fn bsp_length(source: &Source, file_start: u64, limit: u64) -> (r: Length)
    requires
        source.spans(file_start, limit),
    ensures
        source.sizes(
            file_start,
            r,
            bsp_len(source.tail(file_start as int), limit - file_start),
            limit - file_start,
        ),
        r is Err <==> source.faulty(file_start as int, 1032),
{
    let avail: u64 = limit - file_start;
    let ghost f = source.tail(file_start as int);
    let h = match source.part(file_start, 0, 1032)? {
        Some(h) => h,
        None => return Ok(None),
    };
    let version: u32 = rd_le32(&h, 4);
    if !is_text(&h, 0, "VBSP") || !(17 <= version && version <= 31) {
        return Ok(None);
    }
    let mut end: u64 = 1036;
    let mut i: usize = 0;
    while i < 64
        invariant
            h.len() == 1032,
            i <= 64,
            0 < end < 0x2_0000_0000,
            bsp_len(f, avail as int) == match bsp_lumps(h@, 0, 1036) {
                None => None,
                Some(end) => fit(end, avail as int),
            },
            f == source.tail(file_start as int),
            avail == limit - file_start,
            bsp_lumps(h@, 0, 1036) == bsp_lumps(h@, i as int, end as int),
            !source.faulty(file_start as int, 1032),
        decreases 64 - i,
    {
        let at: u32 = rd_le32(&h, 8 + i * 16);
        let len: u32 = rd_le32(&h, 12 + i * 16);
        if at >= 0x8000_0000 || len >= 0x8000_0000 {
            return Ok(None);
        }
        if len != 0 {
            end = max_u64(end, at as u64 + len as u64);
        }
        i = i + 1;
    }
    Ok(within(end, avail))
}

/// The length of an iNES or NES 2.0 image at the beginning of `f`: a 16-byte header, a trainer
/// of 512 bytes where there is one, the program, in units of 16 KiB, of which there is
/// one at least, and the characters, in units of 8 KiB. NES 2.0 has further bits of
/// those numbers, which may not be all ones, and has to have no other ROM area.
pub open spec fn nes_len(f: Seq<u8>, avail: int) -> Option<int> {
    let h = f.subrange(0, 16);
    let v2 = h[7] / 4 % 4 == 2;
    let prg = h[4] + if v2 {
        (h[9] % 16) * 256
    } else {
        0
    };
    let chr = h[5] + if v2 {
        (h[9] / 16) * 256
    } else {
        0
    };
    let trainer: int = if h[6] / 4 % 2 == 1 {
        512
    } else {
        0
    };
    if f.len() < 16 || !text_at(h, 0, "NES\x1a"@) || (v2 && (h[14] % 4 != 0 || h[9] % 16 == 15 || h[9]
        / 16 == 15)) || prg == 0 {
        None
    } else {
        fit(16 + trainer + prg * 16384 + chr * 8192, avail)
    }
}

/// iNES / NES 2.0 ROM length.
pub fn nes_length(source: &Source, file_start: u64, limit: u64) -> (r: Length)
    requires
        source.spans(file_start, limit),
    ensures
        source.sizes(
            file_start,
            r,
            nes_len(source.tail(file_start as int), limit - file_start),
            limit - file_start,
        ),
        r is Err <==> source.faulty(file_start as int, 16),
{
    let h = match source.part(file_start, 0, 16)? {
        Some(h) => h,
        None => return Ok(None),
    };
    if !is_text(&h, 0, "NES\x1a") {
        return Ok(None);
    }
    let trainer: u64 = if h[6] / 4 % 2 == 1 {
        512
    } else {
        0
    };
    let mut prg: u64 = h[4] as u64;
    let mut chr: u64 = h[5] as u64;
    if h[7] / 4 % 4 == 2 {
        if h[14] % 4 != 0 || h[9] % 16 == 15 || h[9] / 16 == 15 {
            return Ok(None);
        }
        prg = prg + (h[9] % 16) as u64 * 256;
        chr = chr + (h[9] / 16) as u64 * 256;
    }
    if prg == 0 {
        return Ok(None);
    }
    Ok(within(16 + trainer + prg * 16384 + chr * 8192, limit - file_start))
}

/// The sum of `n` bytes from `i` on, each with one added.
pub open spec fn gameboy_sum(h: Seq<u8>, i: int, n: nat) -> int
    decreases n,
{
    if n == 0 {
        0
    } else {
        gameboy_sum(h, i, (n - 1) as nat) + h[i + n - 1] + 1
    }
}

/// The length of a Game Boy image at the beginning of `f`: 32 KiB times a power of two up to 2^8.
/// The header has the logo, and a checksum that takes the sum of the 25 bytes from 0x134
/// on, each with one added, to a multiple of 256.
pub open spec fn gameboy_len(f: Seq<u8>, avail: int) -> Option<int> {
    let h = f.subrange(0, 0x150);
    if f.len() < 0x150 || !bytes_at(h, 0x104, gameboy_logo_bytes()) || (gameboy_sum(h, 0x134, 25)
        + h[0x14D]) % 256 != 0 || h[0x148] > 8 {
        None
    } else {
        fit(0x8000 * pow2(h[0x148] as nat) as int, avail)
    }
}

/// Game Boy / Game Boy Color ROM length. The checksum rejects a coincidental match of the logo.
pub fn gameboy_length(source: &Source, file_start: u64, limit: u64) -> (r: Length)
    requires
        source.spans(file_start, limit),
    ensures
        source.sizes(
            file_start,
            r,
            gameboy_len(source.tail(file_start as int), limit - file_start),
            limit - file_start,
        ),
        r is Err <==> source.faulty(file_start as int, 336),
{
    let h = match source.part(file_start, 0, 336)? {
        Some(h) => h,
        None => return Ok(None),
    };
    let logo = gameboy_logo();
    if !is_bytes(&h, 0x104, &logo) {
        return Ok(None);
    }
    let mut sum: u64 = 0;
    let mut i: usize = 0;
    while i < 25
        invariant
            h.len() == 336,
            i <= 25,
            sum == gameboy_sum(h@, 0x134, i as nat),
            sum <= i * 256,
        decreases 25 - i,
    {
        sum = sum + h[0x134 + i] as u64 + 1;
        i = i + 1;
    }
    if (sum + h[0x14D] as u64) % 256 != 0 || h[0x148] > 8 {
        return Ok(None);
    }
    proof {
        vstd::arithmetic::power2::lemma2_to64();
    }
    Ok(within(0x8000 * pow2_u64(h[0x148] as u32), limit - file_start))
}

/// The length of a Doom archive at the beginning of `f`: up to the end of its directory, of 16
/// bytes for each lump, which lies behind the header. Numbers of 2^31 and above are
/// negative.
pub open spec fn wad_len(f: Seq<u8>, avail: int) -> Option<int> {
    let h = f.subrange(0, 12);
    if f.len() < 12 || !(text_at(h, 0, "IWAD"@) || text_at(h, 0, "PWAD"@)) || le32(h, 4)
        >= 0x8000_0000 || !(12 <= le32(h, 8) < 0x8000_0000) {
        None
    } else {
        fit(le32(h, 8) + le32(h, 4) * 16, avail)
    }
}

/// Doom WAD archive length. The Doom engine writes the directory last.
pub fn wad_length(source: &Source, file_start: u64, limit: u64) -> (r: Length)
    requires
        source.spans(file_start, limit),
    ensures
        source.sizes(
            file_start,
            r,
            wad_len(source.tail(file_start as int), limit - file_start),
            limit - file_start,
        ),
        r is Err <==> source.faulty(file_start as int, 12),
{
    let h = match source.part(file_start, 0, 12)? {
        Some(h) => h,
        None => return Ok(None),
    };
    let lumps: u64 = rd_le32(&h, 4) as u64;
    let dir: u64 = rd_le32(&h, 8) as u64;
    if !(is_text(&h, 0, "IWAD") || is_text(&h, 0, "PWAD")) || lumps >= 0x8000_0000 || !(12 <= dir
        && dir < 0x8000_0000) {
        return Ok(None);
    }
    Ok(within(dir + lumps * 16, limit - file_start))
}

/// The length of a Mega Drive image at the beginning of `f`: up to the last address that its
/// header gives, which is behind the header; the first address is zero.
pub open spec fn genesis_len(f: Seq<u8>, avail: int) -> Option<int> {
    let h = f.subrange(0, 0x1A8);
    if f.len() < 0x1A8 || !text_at(h, 0x100, "SEGA"@) || be32(h, 0x1A0) != 0 || be32(h, 0x1A4) < 0x1FF {
        None
    } else {
        fit(be32(h, 0x1A4) + 1, avail)
    }
}

/// Sega Mega Drive / Genesis ROM length.
pub fn genesis_length(source: &Source, file_start: u64, limit: u64) -> (r: Length)
    requires
        source.spans(file_start, limit),
    ensures
        source.sizes(
            file_start,
            r,
            genesis_len(source.tail(file_start as int), limit - file_start),
            limit - file_start,
        ),
        r is Err <==> source.faulty(file_start as int, 424),
{
    let h = match source.part(file_start, 0, 424)? {
        Some(h) => h,
        None => return Ok(None),
    };
    let last: u64 = rd_be32(&h, 0x1A4) as u64;
    if !is_text(&h, 0x100, "SEGA") || rd_be32(&h, 0x1A0) != 0 || last < 0x1FF {
        return Ok(None);
    }
    Ok(within(last + 1, limit - file_start))
}

/// The length of a PlayStation executable at the beginning of `f`: a header of 2 KiB, and the
/// text, of whole units of 2 KiB and not empty.
pub open spec fn psxexe_len(f: Seq<u8>, avail: int) -> Option<int> {
    let h = f.subrange(0, 0x20);
    if f.len() < 0x20 || !text_at(h, 0, "PS-X EXE"@) || le32(h, 0x1C) == 0 || le32(h, 0x1C) % 0x800
        != 0 {
        None
    } else {
        fit(0x800 + le32(h, 0x1C), avail)
    }
}

/// PlayStation (PS1) executable length.
pub fn psxexe_length(source: &Source, file_start: u64, limit: u64) -> (r: Length)
    requires
        source.spans(file_start, limit),
    ensures
        source.sizes(
            file_start,
            r,
            psxexe_len(source.tail(file_start as int), limit - file_start),
            limit - file_start,
        ),
        r is Err <==> source.faulty(file_start as int, 32),
{
    let h = match source.part(file_start, 0, 32)? {
        Some(h) => h,
        None => return Ok(None),
    };
    let text: u64 = rd_le32(&h, 0x1C) as u64;
    if !is_text(&h, 0, "PS-X EXE") || text == 0 || text % 0x800 != 0 {
        return Ok(None);
    }
    Ok(within(0x800 + text, limit - file_start))
}

/// The length of a Valve VPK archive at the beginning of `f`, of version 2: a 28-byte header, and
/// the five sections whose sizes it gives, the first of which is not empty.
pub open spec fn vpk_len(f: Seq<u8>, avail: int) -> Option<int> {
    let h = f.subrange(0, 28);
    if f.len() < 28 || le32(h, 0) != 0x55AA_1234 || le32(h, 4) != 2 || le32(h, 8) == 0 {
        None
    } else {
        fit(28 + le32(h, 8) + le32(h, 0x0C) + le32(h, 0x10) + le32(h, 0x14) + le32(h, 0x18), avail)
    }
}

/// Valve VPK archive (`.vpk`) length. Only version 2 carries all the section sizes.
pub fn vpk_length(source: &Source, file_start: u64, limit: u64) -> (r: Length)
    requires
        source.spans(file_start, limit),
    ensures
        source.sizes(
            file_start,
            r,
            vpk_len(source.tail(file_start as int), limit - file_start),
            limit - file_start,
        ),
        r is Err <==> source.faulty(file_start as int, 28),
{
    let h = match source.part(file_start, 0, 28)? {
        Some(h) => h,
        None => return Ok(None),
    };
    let tree: u64 = rd_le32(&h, 8) as u64;
    if rd_le32(&h, 0) != 0x55AA_1234 || rd_le32(&h, 4) != 2 || tree == 0 {
        return Ok(None);
    }
    Ok(
        within(
            28 + tree + rd_le32(&h, 0x0C) as u64 + rd_le32(&h, 0x10) as u64 + rd_le32(&h, 0x14) as u64
                + rd_le32(&h, 0x18) as u64,
            limit - file_start,
        ),
    )
}

/// Where the directory of a Godot pack ends of which `left` entries follow at `pos`, and the
/// furthest end of the files that they describe; `end` is the furthest before. An entry
/// is a path, of up to 4096 bytes behind its length, an offset from `base`, a size, and
/// `extra` bytes more.
pub open spec fn godot_entries(
    f: Seq<u8>,
    avail: int,
    base: int,
    extra: int,
    pos: int,
    left: nat,
    end: int,
) -> Option<(int, int)>
    decreases left,
{
    let n = le32(f.subrange(pos, pos + 4), 0);
    let at = pos + 4 + n;
    let e = f.subrange(at, at + 16);
    if left == 0 {
        Some((pos, end))
    } else if pos + 4 > avail || n > 4096 || at + 16 + extra > avail {
        None
    } else {
        godot_entries(
            f,
            avail,
            base,
            extra,
            at + 16 + extra,
            (left - 1) as nat,
            larger(end, capped(base + le64(e, 0) + le64(e, 8))),
        )
    }
}

/// The length of a Godot pack at the beginning of `f`, of version 1 or 2: up to the furthest end of
/// its directory and its files, of which there are up to four million.
pub open spec fn godot_pck_len(f: Seq<u8>, avail: int) -> Option<int> {
    let h = f.subrange(0, 0x64);
    let v2 = le32(h, 4) == 2;
    let n = if v2 {
        le32(h, 0x60)
    } else {
        le32(h, 0x54)
    };
    if f.len() < 0x64 || !text_at(h, 0, "GDPC"@) || !(le32(h, 4) == 1 || v2) || n == 0 || n
        > 0x40_0000 {
        None
    } else {
        match if v2 {
            godot_entries(f, avail, le64(h, 0x18) as int, 20, 0x64, n as nat, 0)
        } else {
            godot_entries(f, avail, 0, 16, 0x58, n as nat, 0)
        } {
            None => None,
            Some((pos, end)) => fit(larger(pos, end), avail),
        }
    }
}

/// One of the entries of a Godot pack from `pos` on, of which `left` are looked at, could not be read.
pub open spec fn godot_entries_fails(
    src: Source,
    start: int,
    avail: int,
    extra: int,
    pos: int,
    left: nat,
) -> bool
    decreases left,
{
    let n = le32(src.tail(start).subrange(pos, pos + 4), 0);
    let at = pos + 4 + n;
    left > 0 && pos + 4 <= avail && (src.faulty(start + pos, 4) || (n <= 4096 && at + 16 + extra <= avail && (
    src.faulty(start + at, 16) || godot_entries_fails(
        src,
        start,
        avail,
        extra,
        at + 16 + extra,
        (left - 1) as nat,
    ))))
}

/// Walk the directory of a Godot pack.
fn godot_walk(
    source: &Source,
    file_start: u64,
    limit: u64,
    base: u64,
    extra: u64,
    first: u64,
    n: u64,
) -> (r: Result<Option<(u64, u64)>, ReadError>)
    requires
        source.spans(file_start, limit),
        16 <= extra <= 20,
        0 < first < 1000,
    ensures
        match r {
            Ok(Some(x)) => godot_entries(
                source.tail(file_start as int),
                limit - file_start,
                base as int,
                extra as int,
                first as int,
                n as nat,
                0,
            ) == Some((x.0 as int, x.1 as int)) && x.0 > 0,
            Ok(None) => godot_entries(
                source.tail(file_start as int),
                limit - file_start,
                base as int,
                extra as int,
                first as int,
                n as nat,
                0,
            ) is None,
            Err(e) => source.blames(file_start, limit - file_start, e),
        },
        r is Err <==> godot_entries_fails(
            *source,
            file_start as int,
            limit - file_start,
            extra as int,
            first as int,
            n as nat,
        ),
{
    let avail: u64 = limit - file_start;
    let ghost f = source.tail(file_start as int);
    let mut pos: u64 = first;
    let mut end: u64 = 0;
    let mut left: u64 = n;
    while left > 0
        invariant
            source.spans(file_start, limit),
            avail == limit - file_start,
            f == source.tail(file_start as int),
            16 <= extra <= 20,
            0 < first < 1000,
            0 < pos,
            pos <= avail || pos == first,
            godot_entries(
                f,
                avail as int,
                base as int,
                extra as int,
                first as int,
                n as nat,
                0,
            ) == godot_entries(
                f,
                avail as int,
                base as int,
                extra as int,
                pos as int,
                left as nat,
                end as int,
            ),
            godot_entries_fails(
                *source,
                file_start as int,
                avail as int,
                extra as int,
                first as int,
                n as nat,
            ) == godot_entries_fails(
                *source,
                file_start as int,
                avail as int,
                extra as int,
                pos as int,
                left as nat,
            ),
        decreases left,
    {
        if pos + 4 > avail {
            return Ok(None);
        }
        let b = match source.part(file_start, pos, 4)? {
            Some(b) => b,
            None => return Ok(None),
        };
        let len: u64 = rd_le32(&b, 0) as u64;
        let at: u64 = pos + 4 + len;
        if len > 4096 || at + 16 + extra > avail {
            return Ok(None);
        }
        let e = match source.part(file_start, at, 16)? {
            Some(e) => e,
            None => return Ok(None),
        };
        end = max_u64(
            end,
            base.saturating_add(rd_le64(&e, 0)).saturating_add(rd_le64(&e, 8)),
        );
        pos = at + 16 + extra;
        left = left - 1;
    }
    Ok(Some((pos, end)))
}

/// One of the bytes of a Godot pack that are looked at could not be read.
pub open spec fn godot_pck_fails(src: Source, start: int, avail: int) -> bool {
    let f = src.tail(start);
    let h = f.subrange(0, 0x64);
    let v2 = le32(h, 4) == 2;
    let n = if v2 {
        le32(h, 0x60)
    } else {
        le32(h, 0x54)
    };
    src.faulty(start, 100) || (f.len() >= 0x64 && text_at(h, 0, "GDPC"@) && (le32(h, 4) == 1 || v2) && 0 < n
        <= 0x40_0000 && if v2 {
        godot_entries_fails(src, start, avail, 20, 0x64, n as nat)
    } else {
        godot_entries_fails(src, start, avail, 16, 0x58, n as nat)
    })
}

/// Godot asset pack (`.pck`) length.
pub fn godot_pck_length(source: &Source, file_start: u64, limit: u64) -> (r: Length)
    requires
        source.spans(file_start, limit),
    ensures
        source.sizes(
            file_start,
            r,
            godot_pck_len(source.tail(file_start as int), limit - file_start),
            limit - file_start,
        ),
        r is Err <==> godot_pck_fails(*source, file_start as int, limit - file_start),
{
    let avail: u64 = limit - file_start;
    let h = match source.part(file_start, 0, 100)? {
        Some(h) => h,
        None => return Ok(None),
    };
    let version: u32 = rd_le32(&h, 4);
    if !is_text(&h, 0, "GDPC") || !(version == 1 || version == 2) {
        return Ok(None);
    }
    let n: u64 = if version == 2 {
        rd_le32(&h, 0x60) as u64
    } else {
        rd_le32(&h, 0x54) as u64
    };
    if n == 0 || n > 0x40_0000 {
        return Ok(None);
    }
    let found = if version == 2 {
        godot_walk(source, file_start, limit, rd_le64(&h, 0x18), 20, 0x64, n)?
    } else {
        godot_walk(source, file_start, limit, 0, 16, 0x58, n)?
    };
    match found {
        Some((pos, end)) => Ok(within(max_u64(pos, end), avail)),
        None => Ok(None),
    }
}

/// The length of a Unity asset bundle at the beginning of `f`: what its header gives, behind two
/// texts that end with a NUL in the first 256 bytes; it covers those.
pub open spec fn unityfs_len(f: Seq<u8>, avail: int) -> Option<int> {
    let h = window(f, 0, 256);
    if h.len() < 20 || !text_at(h, 0, "UnityFS\0"@) || be32(h, 8) == 0 || be32(h, 8) > 1000 {
        None
    } else {
        match byte_at_or_after(h, 12, 0) {
            None => None,
            Some(a) => match byte_at_or_after(h, a + 1, 0) {
                Some(b) if b + 9 <= h.len() && be64(h, b + 1) >= b + 9 => fit(
                    be64(h, b + 1) as int,
                    avail,
                ),
                _ => None,
            },
        }
    }
}

/// Unity asset bundle (`.unity3d`) length.
pub fn unityfs_length(source: &Source, file_start: u64, limit: u64) -> (r: Length)
    requires
        source.spans(file_start, limit),
    ensures
        source.sizes(
            file_start,
            r,
            unityfs_len(source.tail(file_start as int), limit - file_start),
            limit - file_start,
        ),
        r is Err <==> source.faulty(file_start as int, 256),
{
    let h = source.part_upto(file_start, 0, 256)?;
    if h.len() < 20 || !is_text(&h, 0, "UnityFS\0") {
        return Ok(None);
    }
    let version: u32 = rd_be32(&h, 8);
    if version == 0 || version > 1000 {
        return Ok(None);
    }
    let a: usize = match find_byte(&h, 12, 0) {
        Some(k) => k,
        None => return Ok(None),
    };
    let b: usize = match find_byte(&h, a + 1, 0) {
        Some(k) => k,
        None => return Ok(None),
    };
    if b + 9 > h.len() {
        return Ok(None);
    }
    let size: u64 = rd_be64(&h, b + 1);
    if size < b as u64 + 9 {
        return Ok(None);
    }
    Ok(within(size, limit - file_start))
}

} // verus!
