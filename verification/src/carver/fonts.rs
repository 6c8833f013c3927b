//! Fonts.

use crate::bytes::{
    be16, be32, fit, is_text, larger, le32, max_u64, pow2_u64, rd_be16, rd_be32, rd_le32, text_at,
    within,
};
use crate::carver::video::printable4;
use crate::source::{Length, Source};
use vstd::arithmetic::power2::pow2;
use vstd::prelude::*;

verus! {

/// The header of an SFNT table directory: 1 to 512 tables, and the fields for a
/// binary search over them that follow from that number. These are the largest
/// power of two that is not above it times 16, the exponent of that power, and
/// what is then left of the number times 16.
pub open spec fn sfnt_header(h: Seq<u8>) -> bool {
    let n = be16(h, 4);
    let k = be16(h, 8);
    &&& 1 <= n <= 512
    &&& k < 16
    &&& pow2(k as nat) <= n < 2 * pow2(k as nat)
    &&& be16(h, 6) == 16 * pow2(k as nat)
    &&& be16(h, 10) == 16 * n - be16(h, 6)
}

/// Where a table ends, padded to 4 bytes, that the directory entry `e` describes:
/// a tag of printable characters, and a place behind the directory and in the
/// room.
pub open spec fn sfnt_table_end(e: Seq<u8>, dir_end: int, avail: int) -> Option<int> {
    let end = (be32(e, 8) + be32(e, 12) + 3) / 4 * 4;
    if !printable4(e, 0) || be32(e, 8) < dir_end || end > avail {
        None
    } else {
        Some(end)
    }
}

/// The furthest end of the first `n` tables of the directory at `dir`, which ends
/// at `dir_end`; the directory itself counts.
pub open spec fn sfnt_tables(f: Seq<u8>, avail: int, dir: int, dir_end: int, n: nat) -> Option<int>
    decreases n,
{
    if n == 0 {
        Some(dir_end)
    } else {
        let at = dir + 12 + (n - 1) * 16;
        match (
            sfnt_tables(f, avail, dir, dir_end, (n - 1) as nat),
            sfnt_table_end(f.subrange(at, at + 16), dir_end, avail),
        ) {
            (Some(a), Some(b)) => Some(larger(a, b)),
            _ => None,
        }
    }
}

/// The furthest end of the tables of the SFNT directory at `dir`. Tables have
/// their offsets from the start of the file.
pub open spec fn sfnt_end(f: Seq<u8>, avail: int, dir: int) -> Option<int> {
    let h = f.subrange(dir, dir + 12);
    let dir_end = dir + 12 + be16(h, 4) * 16;
    if dir + 12 > avail || !sfnt_header(h) || dir_end > avail {
        None
    } else {
        sfnt_tables(f, avail, dir, dir_end, be16(h, 4) as nat)
    }
}

/// Where one table directory says that the walk fails, so does the whole.
proof fn lemma_sfnt_none(f: Seq<u8>, avail: int, dir: int, dir_end: int, i: nat, n: nat)
    requires
        i <= n,
        sfnt_tables(f, avail, dir, dir_end, i) is None,
    ensures
        sfnt_tables(f, avail, dir, dir_end, n) is None,
    decreases n - i,
{
    if i < n {
        lemma_sfnt_none(f, avail, dir, dir_end, i + 1, n);
    }
}

/// One of the table records of the font directory at `dir`, from record `i` on, of `n`, as far as they are looked at,
/// could not be read.
pub open spec fn sfnt_tables_fails(
    src: Source,
    start: int,
    avail: int,
    dir: int,
    dir_end: int,
    n: int,
    i: int,
) -> bool
    decreases n - i,
{
    let at = dir + 12 + i * 16;
    i < n && (src.faulty(start + at, 16) || (sfnt_table_end(
        src.tail(start).subrange(at, at + 16),
        dir_end,
        avail,
    ) is Some && sfnt_tables_fails(src, start, avail, dir, dir_end, n, i + 1)))
}

/// One of the bytes of the font directory at `dir` that are looked at could not be read.
pub open spec fn sfnt_fails(src: Source, start: int, avail: int, dir: int) -> bool {
    let h = src.tail(start).subrange(dir, dir + 12);
    let dir_end = dir + 12 + be16(h, 4) * 16;
    dir + 12 <= avail && (src.faulty(start + dir, 12) || (sfnt_header(h) && dir_end <= avail
        && sfnt_tables_fails(src, start, avail, dir, dir_end, be16(h, 4) as int, 0)))
}

/// Walk one SFNT table directory at `dir_rel` bytes into the font or collection
/// file, and return the furthest end of its tables.
pub fn sfnt_tables_end(source: &Source, file_start: u64, dir_rel: u64, avail: u64) -> (r: Length)
    requires
        source.wf(),
        file_start + avail <= source@.len(),
    ensures
        source.sizes(
            file_start,
            r,
            sfnt_end(source.tail(file_start as int), avail as int, dir_rel as int),
            avail as int,
        ),
        r is Err <==> sfnt_fails(*source, file_start as int, avail as int, dir_rel as int),
{
    let ghost f = source.tail(file_start as int);
    if dir_rel.saturating_add(12) > avail {
        return Ok(None);
    }
    let h = match source.part(file_start, dir_rel, 12)? {
        Some(h) => h,
        None => return Ok(None),
    };
    let n: u64 = rd_be16(&h, 4) as u64;
    let range: u64 = rd_be16(&h, 6) as u64;
    let selector: u16 = rd_be16(&h, 8);
    if n == 0 || n > 512 || selector >= 16 {
        return Ok(None);
    }
    proof {
        vstd::arithmetic::power2::lemma2_to64();
    }
    let p: u64 = pow2_u64(selector as u32);
    if p > n || n >= 2 * p || range != 16 * p || rd_be16(&h, 10) as u64 != 16 * n - range {
        return Ok(None);
    }
    assert(sfnt_header(h@));
    let dir_end: u64 = dir_rel + 12 + n * 16;
    if dir_end > avail {
        return Ok(None);
    }
    let mut max_end: u64 = dir_end;
    let mut i: u64 = 0;
    while i < n
        invariant
            source.wf(),
            file_start + avail <= source@.len(),
            f == source.tail(file_start as int),
            i <= n <= 512,
            dir_end == dir_rel + 12 + n * 16,
            0 < max_end <= avail,
            dir_end <= avail,
            sfnt_end(f, avail as int, dir_rel as int) == sfnt_tables(
                f,
                avail as int,
                dir_rel as int,
                dir_end as int,
                n as nat,
            ),
            sfnt_tables(f, avail as int, dir_rel as int, dir_end as int, i as nat) == Some(
                max_end as int,
            ),
            sfnt_fails(*source, file_start as int, avail as int, dir_rel as int)
                == sfnt_tables_fails(
                *source,
                file_start as int,
                avail as int,
                dir_rel as int,
                dir_end as int,
                n as int,
                i as int,
            ),
        decreases n - i,
    {
        let e = match source.part(file_start, dir_rel + 12 + i * 16, 16)? {
            Some(e) => e,
            None => return Ok(None),
        };
        let off: u64 = rd_be32(&e, 8) as u64;
        let end: u64 = (off + rd_be32(&e, 12) as u64 + 3) / 4 * 4;
        // Table tags are four printable ASCII characters ("cmap", "OS/2").
        if !(0x20 <= e[0] && e[0] <= 0x7E && 0x20 <= e[1] && e[1] <= 0x7E && 0x20 <= e[2] && e[2]
            <= 0x7E && 0x20 <= e[3] && e[3] <= 0x7E) || off < dir_end || end > avail {
            proof {
                lemma_sfnt_none(
                    f,
                    avail as int,
                    dir_rel as int,
                    dir_end as int,
                    (i + 1) as nat,
                    n as nat,
                );
            }
            return Ok(None);
        }
        max_end = max_u64(max_end, end);
        i = i + 1;
    }
    Ok(Some(max_end))
}

/// The length of a font at the beginning of `f`: one table directory.
pub open spec fn sfnt_len(f: Seq<u8>, avail: int) -> Option<int> {
    sfnt_end(f, avail, 0)
}

/// A standalone SFNT font is a single table directory at the file start.
pub fn sfnt_length(source: &Source, file_start: u64, limit: u64) -> (r: Length)
    requires
        source.spans(file_start, limit),
    ensures
        source.sizes(
            file_start,
            r,
            sfnt_len(source.tail(file_start as int), limit - file_start),
            limit - file_start,
        ),
        r is Err <==> sfnt_fails(*source, file_start as int, limit - file_start, 0),
{
    sfnt_tables_end(source, file_start, 0, limit - file_start)
}

/// The furthest end of the first `n` fonts of a collection whose list of
/// directories ends at `list_end`; the list itself counts.
pub open spec fn ttc_fonts(f: Seq<u8>, avail: int, list_end: int, n: nat) -> Option<int>
    decreases n,
{
    if n == 0 {
        Some(list_end)
    } else {
        let at = 12 + (n - 1) * 4;
        let dir = be32(f.subrange(at, at + 4), 0) as int;
        if dir < list_end {
            None
        } else {
            match (ttc_fonts(f, avail, list_end, (n - 1) as nat), sfnt_end(f, avail, dir)) {
                (Some(a), Some(b)) => Some(larger(a, b)),
                _ => None,
            }
        }
    }
}

/// The length of a TrueType collection at the beginning of `f`, of 1 to 1024 fonts.
pub open spec fn ttc_len(f: Seq<u8>, avail: int) -> Option<int> {
    let h = f.subrange(0, 12);
    let n = be32(h, 8);
    if f.len() < 12 || !text_at(h, 0, "ttcf"@) || n == 0 || n > 1024 || 12 + n * 4 > avail {
        None
    } else {
        ttc_fonts(f, avail, 12 + n * 4, n as nat)
    }
}

/// Where one font of a collection says that the walk fails, so does the whole.
proof fn lemma_ttc_none(f: Seq<u8>, avail: int, list_end: int, i: nat, n: nat)
    requires
        i <= n,
        ttc_fonts(f, avail, list_end, i) is None,
    ensures
        ttc_fonts(f, avail, list_end, n) is None,
    decreases n - i,
{
    if i < n {
        lemma_ttc_none(f, avail, list_end, i + 1, n);
    }
}

/// One of the bytes of a font collection that are looked at for its fonts, from font `i` on, of `n`, could not be read.
pub open spec fn ttc_fonts_fails(src: Source, start: int, avail: int, n: int, i: int) -> bool
    decreases n - i,
{
    let f = src.tail(start);
    let at = 12 + i * 4;
    let dir = be32(f.subrange(at, at + 4), 0) as int;
    i < n && (src.faulty(start + at, 4) || (dir >= 12 + n * 4 && (sfnt_fails(src, start, avail, dir) || (
    sfnt_end(f, avail, dir) is Some && ttc_fonts_fails(src, start, avail, n, i + 1)))))
}

/// One of the bytes of a font collection that are looked at could not be read.
pub open spec fn ttc_fails(src: Source, start: int, avail: int) -> bool {
    let f = src.tail(start);
    let h = f.subrange(0, 12);
    let n = be32(h, 8);
    src.faulty(start, 12) || (f.len() >= 12 && text_at(h, 0, "ttcf"@) && 0 < n <= 1024 && 12 + n * 4 <= avail
        && ttc_fonts_fails(src, start, avail, n as int, 0))
}

/// TrueType Collection (`ttcf`) length: up to the furthest table end across all
/// member fonts.
pub fn ttc_length(source: &Source, file_start: u64, limit: u64) -> (r: Length)
    requires
        source.spans(file_start, limit),
    ensures
        source.sizes(
            file_start,
            r,
            ttc_len(source.tail(file_start as int), limit - file_start),
            limit - file_start,
        ),
        r is Err <==> ttc_fails(*source, file_start as int, limit - file_start),
{
    let avail: u64 = limit - file_start;
    let ghost f = source.tail(file_start as int);
    let h = match source.part(file_start, 0, 12)? {
        Some(h) => h,
        None => return Ok(None),
    };
    let n: u64 = rd_be32(&h, 8) as u64;
    if !is_text(&h, 0, "ttcf") || n == 0 || n > 1024 || 12 + n * 4 > avail {
        return Ok(None);
    }
    let list_end: u64 = 12 + n * 4;
    let mut max_end: u64 = list_end;
    let mut i: u64 = 0;
    while i < n
        invariant
            source.spans(file_start, limit),
            avail == limit - file_start,
            f == source.tail(file_start as int),
            i <= n <= 1024,
            list_end == 12 + n * 4,
            list_end <= avail,
            0 < max_end <= avail,
            ttc_len(f, avail as int) == ttc_fonts(f, avail as int, list_end as int, n as nat),
            ttc_fonts(f, avail as int, list_end as int, i as nat) == Some(max_end as int),
            ttc_fails(*source, file_start as int, avail as int) == ttc_fonts_fails(
                *source,
                file_start as int,
                avail as int,
                n as int,
                i as int,
            ),
        decreases n - i,
    {
        let d = match source.part(file_start, 12 + i * 4, 4)? {
            Some(d) => d,
            None => return Ok(None),
        };
        let dir: u64 = rd_be32(&d, 0) as u64;
        proof {
            if ttc_fonts(f, avail as int, list_end as int, (i + 1) as nat) is None {
                lemma_ttc_none(f, avail as int, list_end as int, (i + 1) as nat, n as nat);
            }
        }
        if dir < list_end {
            return Ok(None);
        }
        let end: u64 = match sfnt_tables_end(source, file_start, dir, avail)? {
            Some(end) => end,
            None => return Ok(None),
        };
        max_end = max_u64(max_end, end);
        i = i + 1;
    }
    Ok(Some(max_end))
}

/// The furthest end of the tables of a PCF font from table `i` on, of `n`, each of
/// which lies behind the table of contents; `end` is the furthest end before.
pub open spec fn pcf_tables(f: Seq<u8>, n: int, i: int, end: int) -> Option<int>
    decreases n - i,
{
    let at = 8 + i * 16;
    let e = f.subrange(at, at + 16);
    if i >= n {
        Some(end)
    } else if le32(e, 12) < 8 + n * 16 {
        None
    } else {
        pcf_tables(f, n, i + 1, larger(end, le32(e, 12) + le32(e, 8)))
    }
}

/// The length of a PCF font at the beginning of `f`, of 1 to 64 tables.
pub open spec fn pcf_len(f: Seq<u8>, avail: int) -> Option<int> {
    let h = f.subrange(0, 8);
    let n = le32(h, 4);
    if f.len() < 8 || !text_at(h, 0, "\x01fcp"@) || n == 0 || n > 64 || 8 + n * 16 > avail {
        None
    } else {
        match pcf_tables(f, n as int, 0, 8 + n * 16) {
            None => None,
            Some(end) => fit(end, avail),
        }
    }
}

/// One of the entries of the table of contents of a PCF font, from entry `i` on, of `n`, as far as they are looked at,
/// could not be read.
pub open spec fn pcf_tables_fails(src: Source, start: int, n: int, i: int) -> bool
    decreases n - i,
{
    let at = 8 + i * 16;
    i < n && (src.faulty(start + at, 16) || (le32(src.tail(start).subrange(at, at + 16), 12) >= 8 + n * 16
        && pcf_tables_fails(src, start, n, i + 1)))
}

/// One of the bytes of a PCF font that are looked at could not be read.
pub open spec fn pcf_fails(src: Source, start: int, avail: int) -> bool {
    let f = src.tail(start);
    let h = f.subrange(0, 8);
    let n = le32(h, 4);
    src.faulty(start, 8) || (f.len() >= 8 && text_at(h, 0, "\x01fcp"@) && 0 < n <= 64 && 8 + n * 16 <= avail
        && pcf_tables_fails(src, start, n as int, 0))
}

/// PCF bitmap font (`.pcf`) length.
pub fn pcf_length(source: &Source, file_start: u64, limit: u64) -> (r: Length)
    requires
        source.spans(file_start, limit),
    ensures
        source.sizes(
            file_start,
            r,
            pcf_len(source.tail(file_start as int), limit - file_start),
            limit - file_start,
        ),
        r is Err <==> pcf_fails(*source, file_start as int, limit - file_start),
{
    let avail: u64 = limit - file_start;
    let ghost f = source.tail(file_start as int);
    let h = match source.part(file_start, 0, 8)? {
        Some(h) => h,
        None => return Ok(None),
    };
    let n: u64 = rd_le32(&h, 4) as u64;
    if !is_text(&h, 0, "\x01fcp") || n == 0 || n > 64 || 8 + n * 16 > avail {
        return Ok(None);
    }
    let toc_end: u64 = 8 + n * 16;
    let mut end: u64 = toc_end;
    let mut i: u64 = 0;
    while i < n
        invariant
            source.spans(file_start, limit),
            avail == limit - file_start,
            f == source.tail(file_start as int),
            i <= n <= 64,
            toc_end == 8 + n * 16,
            toc_end <= avail,
            0 < end < 0x2_0000_0000,
            pcf_len(f, avail as int) == match pcf_tables(f, n as int, 0, toc_end as int) {
                None => None,
                Some(end) => fit(end, avail as int),
            },
            pcf_tables(f, n as int, 0, toc_end as int) == pcf_tables(
                f,
                n as int,
                i as int,
                end as int,
            ),
            pcf_fails(*source, file_start as int, avail as int) == pcf_tables_fails(
                *source,
                file_start as int,
                n as int,
                i as int,
            ),
        decreases n - i,
    {
        let e = match source.part(file_start, 8 + i * 16, 16)? {
            Some(e) => e,
            None => return Ok(None),
        };
        let off: u64 = rd_le32(&e, 12) as u64;
        if off < toc_end {
            return Ok(None);
        }
        end = max_u64(end, off + rd_le32(&e, 8) as u64);
        i = i + 1;
    }
    Ok(within(end, avail))
}

} // verus!
