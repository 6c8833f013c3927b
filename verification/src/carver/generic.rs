//! Lengths that a signature itself says how to find: by a footer, a fixed size, or a size field.

use crate::bytes::{
    be16, be32, fit, le32, le64, min_u64, mul_wide, rd_be16, rd_be32, rd_le32, rd_le64, smaller,
    within,
};
use crate::source::{Length, Source};
use crate::varint::{be_uint, le_uint, read_uint};
use vstd::prelude::*;
use vstd::slice::slice_subrange;

verus! {

/// Where `needle`, which is not empty, first occurs in the first `end` bytes of `s`, from `i` on.
pub open spec fn occurrence(s: Seq<u8>, end: int, needle: Seq<u8>, i: int) -> Option<int>
    decreases end - i,
{
    if needle.len() == 0 || i + needle.len() > end {
        None
    } else if s.subrange(i, i + needle.len()) == needle {
        Some(i)
    } else {
        occurrence(s, end, needle, i + 1)
    }
}

/// Where there is no occurrence between two places, the search goes on from the second as from the
/// first.
pub proof fn lemma_occurrence_skip(s: Seq<u8>, end: int, needle: Seq<u8>, a: int, b: int)
    requires
        a <= b,
        forall|i: int| a <= i < b && i + needle.len() <= end ==> #[trigger] s.subrange(
            i,
            i + needle.len(),
        ) != needle,
    ensures
        occurrence(s, end, needle, a) == occurrence(s, end, needle, b),
    decreases b - a,
{
    if a < b && needle.len() > 0 && a + needle.len() <= end {
        assert(s.subrange(a, a + needle.len()) != needle);
        lemma_occurrence_skip(s, end, needle, a + 1, b);
    }
}

/// What is found is an occurrence, and the first; where nothing is found, there is none.
pub proof fn lemma_occurrence(s: Seq<u8>, end: int, needle: Seq<u8>, i: int)
    requires
        needle.len() > 0,
    ensures
        match occurrence(s, end, needle, i) {
            Some(p) => i <= p && p + needle.len() <= end && s.subrange(p, p + needle.len()) == needle
                && forall|k: int| i <= k < p ==> #[trigger] s.subrange(k, k + needle.len()) != needle,
            None => forall|k: int|
                i <= k && k + needle.len() <= end ==> #[trigger] s.subrange(k, k + needle.len())
                    != needle,
        },
    decreases end - i,
{
    if i + needle.len() <= end && s.subrange(i, i + needle.len()) != needle {
        lemma_occurrence(s, end, needle, i + 1);
    }
}

/// Naive substring search. Fine here: the haystack is a window of a mebibyte or so and the needle a
/// handful of bytes.
pub fn find_subsequence(haystack: &[u8], needle: &[u8]) -> (r: Option<usize>)
    ensures
        match r {
            Some(p) => occurrence(haystack@, haystack@.len() as int, needle@, 0) == Some(p as int)
                && p + needle@.len() <= haystack@.len(),
            None => occurrence(haystack@, haystack@.len() as int, needle@, 0) is None,
        },
{
    if needle.len() == 0 || haystack.len() < needle.len() {
        return None;
    }
    let ghost h = haystack@;
    let last: usize = haystack.len() - needle.len();
    let mut i: usize = 0;
    while i <= last
        invariant
            h == haystack@,
            h.len() == haystack.len(),
            needle@.len() > 0,
            last + needle@.len() == h.len(),
            i <= last + 1,
            occurrence(h, h.len() as int, needle@, 0) == occurrence(
                h,
                h.len() as int,
                needle@,
                i as int,
            ),
        decreases last + 1 - i,
    {
        let same = crate::bytes::is_bytes(haystack, i, needle);
        if same {
            return Some(i);
        }
        i = i + 1;
    }
    None
}

/// Where the carriage returns and line feeds that begin at `p` end, of which `left` are taken in at most.
pub open spec fn line_end(f: Seq<u8>, avail: int, p: int, left: nat) -> int
    decreases left,
{
    if left > 0 && p < avail && (f[p] == 0x0D || f[p] == 0x0A) {
        line_end(f, avail, p + 1, (left - 1) as nat)
    } else {
        p
    }
}

/// The length of a file at the beginning of `f` that ends with `marker`: up to its first occurrence, and
/// the line ending behind it, of `trailing` bytes at most.
pub open spec fn footer_len(f: Seq<u8>, avail: int, marker: Seq<u8>, trailing: nat) -> Option<int> {
    match occurrence(f, avail, marker, 0) {
        None => None,
        Some(p) => Some(line_end(f, avail, p + marker.len(), trailing)),
    }
}

/// A search in a window of `f` finds what a search in `f` finds.
proof fn lemma_window(f: Seq<u8>, avail: int, needle: Seq<u8>, pos: int, n: int)
    requires
        needle.len() > 0,
        0 <= pos,
        0 <= n,
        pos + n <= avail <= f.len(),
    ensures
        match occurrence(f.subrange(pos, pos + n), n, needle, 0) {
            Some(p) => occurrence(f, avail, needle, pos) == Some(pos + p),
            None => n >= needle.len() ==> occurrence(f, avail, needle, pos) == occurrence(
                f,
                avail,
                needle,
                pos + n - needle.len() + 1,
            ),
        },
{
    let w = f.subrange(pos, pos + n);
    lemma_occurrence(w, n, needle, 0);
    match occurrence(w, n, needle, 0) {
        Some(p) => {
            assert forall|i: int| pos <= i < pos + p && i + needle.len() <= avail implies #[trigger] f.subrange(
                i,
                i + needle.len(),
            ) != needle by {
                assert(w.subrange(i - pos, i - pos + needle.len()) =~= f.subrange(
                    i,
                    i + needle.len(),
                ));
            }
            lemma_occurrence_skip(f, avail, needle, pos, pos + p);
            assert(w.subrange(p, p + needle.len()) =~= f.subrange(pos + p, pos + p + needle.len()));
        },
        None => {
            if n >= needle.len() {
                let b = pos + n - needle.len() + 1;
                assert forall|i: int| pos <= i < b && i + needle.len() <= avail implies #[trigger] f.subrange(
                    i,
                    i + needle.len(),
                ) != needle by {
                    assert(w.subrange(i - pos, i - pos + needle.len()) =~= f.subrange(
                        i,
                        i + needle.len(),
                    ));
                }
                lemma_occurrence_skip(f, avail, needle, pos, b);
            }
        },
    }
}

/// How much of the image is searched for a marker of `m` bytes at a time: as much as is left, of one mebibyte and
/// what a marker that begins in it reaches behind it.
pub open spec fn search_window(avail: int, m: int, pos: int) -> int {
    smaller(avail - pos, 0x10_0000 + m - 1)
}

/// The search for `marker` from `pos` on, in the room behind `start`, runs into an unreadable byte: one of a window
/// that it comes to, as it does where there is no marker in those before.
pub open spec fn marker_fails(src: Source, start: int, avail: int, marker: Seq<u8>, pos: int) -> bool
    decreases avail - pos,
{
    let m = marker.len() as int;
    let n = search_window(avail, m, pos);
    pos < avail && m > 0 && (src.faulty(start + pos, n) || (occurrence(
        src.tail(start).subrange(pos, pos + n),
        n,
        marker,
        0,
    ) is None && pos + n < avail && marker_fails(src, start, avail, marker, pos + n - m + 1)))
}

/// One of the bytes that are looked at for a line ending at `p`, of which `left` are taken in at most, could not be
/// read.
pub open spec fn line_end_fails(src: Source, start: int, avail: int, p: int, left: nat) -> bool
    decreases left,
{
    let f = src.tail(start);
    left > 0 && p < avail && (src.faulty(start + p, 1) || ((f[p] == 0x0D || f[p] == 0x0A)
        && line_end_fails(src, start, avail, p + 1, (left - 1) as nat)))
}

/// A byte that is looked at for a footer could not be read: one of the windows that are searched, or of the line
/// ending behind the marker.
pub open spec fn footer_fails(
    src: Source,
    start: int,
    avail: int,
    marker: Seq<u8>,
    trailing: nat,
) -> bool {
    ||| marker_fails(src, start, avail, marker, 0)
    ||| match occurrence(src.tail(start), avail, marker, 0) {
        Some(p) => line_end_fails(src, start, avail, p + marker.len(), trailing),
        None => false,
    }
}

/// Where `marker` first occurs in what follows `file_start`, before `limit`.
fn find_marker(source: &Source, file_start: u64, marker: &[u8], limit: u64) -> (r: Length)
    requires
        source.spans(file_start, limit),
        0 < marker@.len(),
    ensures
        match r {
            Ok(Some(p)) => occurrence(
                source.tail(file_start as int),
                limit - file_start,
                marker@,
                0,
            ) == Some(p as int) && p + marker@.len() <= limit - file_start,
            Ok(None) => occurrence(
                source.tail(file_start as int),
                limit - file_start,
                marker@,
                0,
            ) is None,
            Err(e) => source.blames(file_start, limit - file_start, e),
        },
        r is Err <==> marker_fails(*source, file_start as int, limit - file_start, marker@, 0),
{
    let avail: u64 = limit - file_start;
    let ghost f = source.tail(file_start as int);
    let m: u64 = marker.len() as u64;
    let mut pos: u64 = 0;
    while pos < avail
        invariant
            source.spans(file_start, limit),
            avail == limit - file_start,
            f == source.tail(file_start as int),
            m == marker.len(),
            0 < m,
            pos <= avail,
            occurrence(f, avail as int, marker@, 0) == occurrence(
                f,
                avail as int,
                marker@,
                pos as int,
            ),
            marker_fails(*source, file_start as int, avail as int, marker@, 0) == marker_fails(
                *source,
                file_start as int,
                avail as int,
                marker@,
                pos as int,
            ),
        decreases avail - pos,
    {
        let n: u64 = min_u64(avail - pos, (m - 1).saturating_add(0x10_0000));
        let w = source.part_upto(file_start, pos, n as usize)?;
        assert(w@ == f.subrange(pos as int, pos + n));
        proof {
            lemma_window(f, avail as int, marker@, pos as int, n as int);
        }
        if let Some(p) = find_subsequence(&w, marker) {
            return Ok(Some(pos + p as u64));
        }
        if n == avail - pos {
            return Ok(None);
        }
        // All but the last bytes of the window, in which a marker could still begin.
        pos = pos + (n - m + 1);
    }
    Ok(None)
}

/// Search forward from `file_start` for `marker`: the file ends behind it. The trailing allowance is for
/// a line ending after the marker (`%%EOF\r\n`), so only CR and LF bytes are absorbed, never whatever
/// happens to follow the file on disk.
pub fn find_footer(source: &Source, file_start: u64, marker: &[u8], trailing: u64, limit: u64) -> (r:
    Length)
    requires
        source.spans(file_start, limit),
    ensures
        source.sizes(
            file_start,
            r,
            footer_len(
                source.tail(file_start as int),
                limit - file_start,
                marker@,
                trailing as nat,
            ),
            limit - file_start,
        ),
        r is Err <==> footer_fails(
            *source,
            file_start as int,
            limit - file_start,
            marker@,
            trailing as nat,
        ),
{
    let avail: u64 = limit - file_start;
    let ghost f = source.tail(file_start as int);
    if marker.len() == 0 {
        return Ok(None);
    }
    let p: u64 = match find_marker(source, file_start, marker, limit)? {
        Some(p) => p,
        None => return Ok(None),
    };
    let first: u64 = p + marker.len() as u64;
    let mut end: u64 = first;
    let mut left: u64 = trailing;
    while left > 0 && end < avail
        invariant
            source.spans(file_start, limit),
            avail == limit - file_start,
            f == source.tail(file_start as int),
            0 < first <= end <= avail,
            footer_len(f, avail as int, marker@, trailing as nat) == Some(
                line_end(f, avail as int, end as int, left as nat),
            ),
            !marker_fails(*source, file_start as int, avail as int, marker@, 0),
            occurrence(f, avail as int, marker@, 0) == Some(p as int),
            first == p + marker@.len(),
            line_end_fails(*source, file_start as int, avail as int, first as int, trailing as nat)
                == line_end_fails(*source, file_start as int, avail as int, end as int, left as nat),
        decreases left,
    {
        let b: u8 = match source.byte(file_start, end)? {
            Some(b) => b,
            None => return Ok(Some(end)),
        };
        if b != 0x0D && b != 0x0A {
            return Ok(Some(end));
        }
        end = end + 1;
        left = left - 1;
    }
    Ok(Some(end))
}

/// `size`, where it is not zero and has room.
pub open spec fn some_len(size: int, avail: int) -> Option<int> {
    if size == 0 {
        None
    } else {
        fit(size, avail)
    }
}

/// `size`, where it is not zero and has room.
fn some_length(size: u64, avail: u64) -> (r: Option<u64>)
    ensures
        match r {
            Some(n) => some_len(size as int, avail as int) == Some(n as int) && 0 < n <= avail,
            None => some_len(size as int, avail as int) is None,
        },
{
    if size == 0 {
        None
    } else {
        within(size, avail)
    }
}

/// The length of a file at the beginning of `f` that has it as an integer of 32 bits at `offset`.
pub open spec fn header32_len(f: Seq<u8>, avail: int, offset: int, be: bool) -> Option<int> {
    let h = f.subrange(offset, offset + 4);
    if offset + 4 > f.len() {
        None
    } else if be {
        some_len(be32(h, 0) as int, avail)
    } else {
        some_len(le32(h, 0) as int, avail)
    }
}

/// Length by an integer of 32 bits at a fixed offset. All of the file up to the end of the integer is read.
pub fn header32_length(source: &Source, file_start: u64, limit: u64, offset: usize, be: bool) -> (r:
    Length)
    requires
        source.spans(file_start, limit),
    ensures
        source.sizes_afar(
            file_start,
            r,
            header32_len(
                source.tail(file_start as int),
                limit - file_start,
                offset as int,
                be,
            ),
            limit - file_start,
        ),
        r is Err <==> source.faulty(file_start as int, offset + 4),
{
    let ghost f = source.tail(file_start as int);
    let need: usize = offset.saturating_add(4);
    let h = source.part_upto(file_start, 0, need)?;
    if h.len() < need || need - 4 < offset {
        return Ok(None);
    }
    assert(h@.subrange(offset as int, offset + 4) =~= f.subrange(offset as int, offset + 4));
    let size: u64 = if be {
        rd_be32(&h, offset) as u64
    } else {
        rd_le32(&h, offset) as u64
    };
    Ok(some_length(size, limit - file_start))
}

/// The length of a file at the beginning of `f` that an integer of `width` bits at `offset` gives, times
/// `mul`, plus `add`. The result has to fit in 64 bits.
pub open spec fn sizefield_len(
    f: Seq<u8>,
    avail: int,
    offset: int,
    width: u8,
    be: bool,
    mul: int,
    add: int,
) -> Option<int> {
    let b = f.subrange(offset, offset + width / 8);
    let size = (if be {
        be_uint(b)
    } else {
        le_uint(b)
    }) * mul + add;
    if offset + width / 8 > f.len() || size > u64::MAX {
        None
    } else {
        some_len(size, avail)
    }
}

/// Length by a size field that a signature describes. All of the file up to the end of the field is read. Any
/// arithmetic overflow or short read yields no match, so such a signature can never emit a length that runs
/// past the source.
pub fn sizefield_length(
    source: &Source,
    file_start: u64,
    limit: u64,
    offset: usize,
    width: u8,
    big_endian: bool,
    mul: u64,
    add: u64,
) -> (r: Length)
    requires
        source.spans(file_start, limit),
        width <= 64,
    ensures
        source.sizes_afar(
            file_start,
            r,
            sizefield_len(
                source.tail(file_start as int),
                limit - file_start,
                offset as int,
                width,
                big_endian,
                mul as int,
                add as int,
            ),
            limit - file_start,
        ),
        r is Err <==> offset + width / 8 <= usize::MAX && source.faulty(
            file_start as int,
            offset + width / 8,
        ),
{
    let ghost f = source.tail(file_start as int);
    let n: usize = (width / 8) as usize;
    let need: usize = match offset.checked_add(n) {
        Some(need) => need,
        None => return Ok(None),
    };
    let head = source.part_upto(file_start, 0, need)?;
    if head.len() < need {
        return Ok(None);
    }
    let b = slice_subrange(head.as_slice(), offset, need);
    assert(b@ =~= f.subrange(offset as int, offset + n));
    let raw: u64 = read_uint(b, big_endian);
    let size: u128 = mul_wide(raw, mul) + add as u128;
    if size > u64::MAX as u128 {
        return Ok(None);
    }
    Ok(some_length(size as u64, limit - file_start))
}

/// The length of a file of a fixed size.
pub fn fixed_length(source: &Source, file_start: u64, limit: u64, size: u64) -> (r: Length)
    requires
        source.spans(file_start, limit),
    ensures
        source.sizes(file_start, r, some_len(size as int, limit - file_start), limit - file_start),
        r is Ok,
{
    Ok(some_length(size, limit - file_start))
}

/// The length of a RIFF file at the beginning of `f` (of an IFF file, where `be`): the chunk that it is,
/// which is not empty, and the 8 bytes before.
pub open spec fn chunk_len(f: Seq<u8>, avail: int, be: bool) -> Option<int> {
    let h = f.subrange(0, 8);
    let size = if be {
        be32(h, 4)
    } else {
        le32(h, 4)
    };
    if f.len() < 8 || size == 0 {
        None
    } else {
        fit(size + 8, avail)
    }
}

/// RIFF or IFF file length.
pub fn chunk_length(source: &Source, file_start: u64, limit: u64, be: bool) -> (r: Length)
    requires
        source.spans(file_start, limit),
    ensures
        source.sizes(
            file_start,
            r,
            chunk_len(source.tail(file_start as int), limit - file_start, be),
            limit - file_start,
        ),
        r is Err <==> source.faulty(file_start as int, 8),
{
    let h = match source.part(file_start, 0, 8)? {
        Some(h) => h,
        None => return Ok(None),
    };
    let size: u64 = if be {
        rd_be32(&h, 4) as u64
    } else {
        rd_le32(&h, 4) as u64
    };
    if size == 0 {
        return Ok(None);
    }
    Ok(within(size + 8, limit - file_start))
}

/// The size of a page of an SQLite database, by its header: 1 stands for 65536.
pub open spec fn sqlite_page(h: Seq<u8>) -> int {
    if be16(h, 16) == 1 {
        65536
    } else {
        be16(h, 16) as int
    }
}

/// The length of an SQLite database at the beginning of `f`: its pages.
pub open spec fn sqlite_len(f: Seq<u8>, avail: int) -> Option<int> {
    let h = f.subrange(0, 32);
    if f.len() < 32 {
        None
    } else {
        some_len(sqlite_page(h) * be32(h, 28), avail)
    }
}

/// SQLite database length.
pub fn sqlite_length(source: &Source, file_start: u64, limit: u64) -> (r: Length)
    requires
        source.spans(file_start, limit),
    ensures
        source.sizes(
            file_start,
            r,
            sqlite_len(source.tail(file_start as int), limit - file_start),
            limit - file_start,
        ),
        r is Err <==> source.faulty(file_start as int, 32),
{
    let h = match source.part(file_start, 0, 32)? {
        Some(h) => h,
        None => return Ok(None),
    };
    let raw: u64 = rd_be16(&h, 16) as u64;
    let page: u64 = if raw == 1 {
        65536
    } else {
        raw
    };
    let count: u64 = rd_be32(&h, 28) as u64;
    assert(0 <= page * count <= 65536 * 0xFFFF_FFFF) by (nonlinear_arith)
        requires
            0 <= page <= 65536,
            0 <= count <= 0xFFFF_FFFF,
    ;
    Ok(some_length(page * count, limit - file_start))
}

/// The length of a 7-Zip archive at the beginning of `f`: a 32-byte header, and the second header, of the
/// place and size that it gives; there has to be something behind the first.
pub open spec fn sevenzip_len(f: Seq<u8>, avail: int) -> Option<int> {
    let h = f.subrange(0, 32);
    let size = 32 + le64(h, 12) + le64(h, 20);
    if f.len() < 32 || size == 32 {
        None
    } else {
        fit(size, avail)
    }
}

/// 7-Zip archive length.
pub fn sevenzip_length(source: &Source, file_start: u64, limit: u64) -> (r: Length)
    requires
        source.spans(file_start, limit),
    ensures
        source.sizes(
            file_start,
            r,
            sevenzip_len(source.tail(file_start as int), limit - file_start),
            limit - file_start,
        ),
        r is Err <==> source.faulty(file_start as int, 32),
{
    let h = match source.part(file_start, 0, 32)? {
        Some(h) => h,
        None => return Ok(None),
    };
    let size: u64 = rd_le64(&h, 12).saturating_add(rd_le64(&h, 20)).saturating_add(32);
    if size == 32 {
        return Ok(None);
    }
    Ok(within(size, limit - file_start))
}

} // verus!
