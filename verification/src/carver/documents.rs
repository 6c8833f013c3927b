//! Documents, databases and logs.

use crate::bytes::{
    be64, fit, is_text, larger, le16, le32, le64, max_u64, min_u64, power_of_two, rd_be64, rd_le16,
    rd_le32, rd_le64, smaller, text_at, within,
};
use crate::source::{Length, ReadError, Source};
use vstd::arithmetic::power2::is_pow2;
use vstd::prelude::*;

verus! {

/// The length of a Windows Event Log at the beginning of `f`: a 4096-byte header
/// block, then as many chunks of 64 KiB as it says, at least one.
pub open spec fn evtx_len(f: Seq<u8>, avail: int) -> Option<int> {
    let h = f.subrange(0, 48);
    if f.len() < 48 || !text_at(h, 0, "ElfFile\0"@) || le32(h, 0x20) != 0x80 || le16(h, 0x28)
        != 0x1000 || le16(h, 0x2A) == 0 {
        None
    } else {
        fit(4096 + le16(h, 0x2A) * 65536, avail)
    }
}

/// Windows Event Log (EVTX) length. The header's own sizes are checked to reject
/// a coincidental magic.
pub fn evtx_length(source: &Source, file_start: u64, limit: u64) -> (r: Length)
    requires
        source.spans(file_start, limit),
    ensures
        source.sizes(
            file_start,
            r,
            evtx_len(source.tail(file_start as int), limit - file_start),
            limit - file_start,
        ),
        r is Err <==> source.faulty(file_start as int, 48),
{
    let h = match source.part(file_start, 0, 48)? {
        Some(h) => h,
        None => return Ok(None),
    };
    if !is_text(&h, 0, "ElfFile\0") || rd_le32(&h, 0x20) != 0x80 || rd_le16(&h, 0x28) != 0x1000 {
        return Ok(None);
    }
    let chunks: u64 = rd_le16(&h, 0x2A) as u64;
    if chunks == 0 {
        return Ok(None);
    }
    Ok(within(4096 + chunks * 65536, limit - file_start))
}

/// The length of a Rich Text document of which the bytes before `pos` have been
/// passed, with `depth` groups open; `escaped` tells whether a backslash came just
/// before, which takes a brace its meaning. The document ends where its first
/// group closes.
pub open spec fn rtf_from(f: Seq<u8>, avail: int, pos: int, depth: int, escaped: bool) -> Option<
    int,
>
    decreases avail - pos,
{
    if pos >= avail {
        None
    } else if escaped {
        rtf_from(f, avail, pos + 1, depth, false)
    } else if f[pos] == 0x5C {  // backslash
        rtf_from(f, avail, pos + 1, depth, true)
    } else if f[pos] == 0x7B {  // opening brace
        rtf_from(f, avail, pos + 1, depth + 1, false)
    } else if f[pos] == 0x7D {  // closing brace
        if depth == 1 {
            Some(pos + 1)
        } else if depth < 1 {
            None
        } else {
            rtf_from(f, avail, pos + 1, depth - 1, false)
        }
    } else {
        rtf_from(f, avail, pos + 1, depth, false)
    }
}

/// The length of a Rich Text document at the beginning of `f`.
pub open spec fn rtf_len(f: Seq<u8>, avail: int) -> Option<int> {
    rtf_from(f, avail, 0, 0, false)
}

/// How much of an RTF document is read at a time.
pub const RTF_CHUNK: u64 = 0x1_0000;

/// One of the chunks of an RTF document that are read from `pos` on, each where the walk comes to it, could not be
/// read.
pub open spec fn rtf_fails(
    src: Source,
    start: int,
    avail: int,
    pos: int,
    depth: int,
    escaped: bool,
) -> bool
    decreases avail - pos,
{
    let f = src.tail(start);
    pos < avail && ((pos % RTF_CHUNK as int == 0 && src.faulty(
        start + pos,
        smaller(avail - pos, RTF_CHUNK as int),
    )) || if escaped {
        rtf_fails(src, start, avail, pos + 1, depth, false)
    } else if f[pos] == 0x5C {
        rtf_fails(src, start, avail, pos + 1, depth, true)
    } else if f[pos] == 0x7B {
        rtf_fails(src, start, avail, pos + 1, depth + 1, false)
    } else if f[pos] == 0x7D {
        depth > 1 && rtf_fails(src, start, avail, pos + 1, depth - 1, false)
    } else {
        rtf_fails(src, start, avail, pos + 1, depth, false)
    })
}

/// RTF document length. The whole document is a single group.
pub fn rtf_length(source: &Source, file_start: u64, limit: u64) -> (r: Length)
    requires
        source.spans(file_start, limit),
    ensures
        source.sizes(
            file_start,
            r,
            rtf_len(source.tail(file_start as int), limit - file_start),
            limit - file_start,
        ),
        r is Err <==> rtf_fails(*source, file_start as int, limit - file_start, 0, 0, false),
{
    let avail: u64 = limit - file_start;
    let ghost f = source.tail(file_start as int);
    let mut pos: u64 = 0;
    let mut depth: u64 = 0;
    let mut escaped = false;
    let mut chunk: Vec<u8> = Vec::new();
    while pos < avail
        invariant
            source.spans(file_start, limit),
            avail == limit - file_start,
            f == source.tail(file_start as int),
            pos <= avail,
            depth <= pos,
            pos % RTF_CHUNK != 0 ==> chunk@ == f.subrange(
                pos - pos % RTF_CHUNK,
                smaller(avail as int, pos - pos % RTF_CHUNK + RTF_CHUNK),
            ),
            rtf_len(f, avail as int) == rtf_from(
                f,
                avail as int,
                pos as int,
                depth as int,
                escaped,
            ),
            rtf_fails(*source, file_start as int, avail as int, 0, 0, false) == rtf_fails(
                *source,
                file_start as int,
                avail as int,
                pos as int,
                depth as int,
                escaped,
            ),
        decreases avail - pos,
    {
        if pos % RTF_CHUNK == 0 {
            chunk = source.part_upto(file_start, pos, min_u64(avail - pos, RTF_CHUNK) as usize)?;
        }
        let b: u8 = chunk[(pos % RTF_CHUNK) as usize];
        pos = pos + 1;
        if escaped {
            escaped = false;
        } else if b == 0x5C {
            escaped = true;
        } else if b == 0x7B {
            depth = depth + 1;
        } else if b == 0x7D {
            if depth == 1 {
                return Ok(Some(pos));
            }
            if depth < 1 {
                return Ok(None);
            }
            depth = depth - 1;
        }
    }
    Ok(None)
}

/// The length of a Windows registry hive at the beginning of `f`: a base block of
/// 4096 bytes, then as much hive-bin data as it says, which is a multiple of 4096
/// and not nothing. A primary hive has major version 1 and file type 0.
pub open spec fn regf_len(f: Seq<u8>, avail: int) -> Option<int> {
    let h = f.subrange(0, 48);
    if f.len() < 48 || !text_at(h, 0, "regf"@) || le32(h, 0x14) != 1 || le32(h, 0x1C) != 0 || le32(
        h,
        0x28,
    ) == 0 || le32(h, 0x28) % 4096 != 0 {
        None
    } else {
        fit(4096 + le32(h, 0x28), avail)
    }
}

/// Windows registry hive (`regf`) length.
pub fn regf_length(source: &Source, file_start: u64, limit: u64) -> (r: Length)
    requires
        source.spans(file_start, limit),
    ensures
        source.sizes(
            file_start,
            r,
            regf_len(source.tail(file_start as int), limit - file_start),
            limit - file_start,
        ),
        r is Err <==> source.faulty(file_start as int, 48),
{
    let h = match source.part(file_start, 0, 48)? {
        Some(h) => h,
        None => return Ok(None),
    };
    let data: u64 = rd_le32(&h, 0x28) as u64;
    if !is_text(&h, 0, "regf") || rd_le32(&h, 0x14) != 1 || rd_le32(&h, 0x1C) != 0 || data == 0
        || data % 4096 != 0 {
        return Ok(None);
    }
    Ok(within(4096 + data, limit - file_start))
}

/// The length of a Microsoft Program Database at the beginning of `f`: its blocks,
/// of a size that is a power of two from 512 to 65536.
pub open spec fn pdb_len(f: Seq<u8>, avail: int) -> Option<int> {
    let h = f.subrange(0, 0x2C);
    let size = le32(h, 0x20) * le32(h, 0x28);
    if f.len() < 0x2C || !is_pow2(le32(h, 0x20) as int) || !(512 <= le32(h, 0x20) <= 65536) || size
        < 0x2C {
        None
    } else {
        fit(size, avail)
    }
}

/// Microsoft Program Database (PDB) length.
pub fn pdb_length(source: &Source, file_start: u64, limit: u64) -> (r: Length)
    requires
        source.spans(file_start, limit),
    ensures
        source.sizes(
            file_start,
            r,
            pdb_len(source.tail(file_start as int), limit - file_start),
            limit - file_start,
        ),
        r is Err <==> source.faulty(file_start as int, 44),
{
    let h = match source.part(file_start, 0, 44)? {
        Some(h) => h,
        None => return Ok(None),
    };
    let block: u64 = rd_le32(&h, 0x20) as u64;
    if !power_of_two(block) || !(512 <= block && block <= 65536) {
        return Ok(None);
    }
    let count: u64 = rd_le32(&h, 0x28) as u64;
    assert(0 <= block * count <= 65536 * 0xFFFF_FFFF) by (nonlinear_arith)
        requires
            0 <= block <= 65536,
            0 <= count <= 0xFFFF_FFFF,
    ;
    let size: u64 = block * count;
    if size < 0x2C {
        return Ok(None);
    }
    Ok(within(size, limit - file_start))
}

/// Where a section of a binary EPS file ends whose offset and length are at `i` of
/// the header; zero where it is absent.
pub open spec fn eps_section_end(h: Seq<u8>, i: int) -> int {
    if le32(h, i) == 0 || le32(h, i + 4) == 0 {
        0
    } else {
        le32(h, i) + le32(h, i + 4)
    }
}

/// The length of a binary (DOS) EPS file at the beginning of `f`: up to the furthest
/// end of the PostScript section, which must be there and lie behind the header,
/// and of the WMF and TIFF previews.
pub open spec fn eps_len(f: Seq<u8>, avail: int) -> Option<int> {
    let h = f.subrange(0, 28);
    if f.len() < 28 || le32(h, 4) < 30 || le32(h, 8) == 0 {
        None
    } else {
        fit(
            larger(
                larger(eps_section_end(h, 4), eps_section_end(h, 12)),
                eps_section_end(h, 20),
            ),
            avail,
        )
    }
}

fn eps_section(h: &[u8], i: usize) -> (r: u64)
    requires
        i + 8 <= h.len(),
    ensures
        r == eps_section_end(h@, i as int),
{
    let off: u64 = rd_le32(h, i) as u64;
    let len: u64 = rd_le32(h, i + 4) as u64;
    if off == 0 || len == 0 {
        0
    } else {
        off + len
    }
}

/// Binary (DOS) EPS length.
pub fn eps_length(source: &Source, file_start: u64, limit: u64) -> (r: Length)
    requires
        source.spans(file_start, limit),
    ensures
        source.sizes(
            file_start,
            r,
            eps_len(source.tail(file_start as int), limit - file_start),
            limit - file_start,
        ),
        r is Err <==> source.faulty(file_start as int, 28),
{
    let h = match source.part(file_start, 0, 28)? {
        Some(h) => h,
        None => return Ok(None),
    };
    if rd_le32(&h, 4) < 30 || rd_le32(&h, 8) == 0 {
        return Ok(None);
    }
    let previews: u64 = max_u64(eps_section(&h, 4), eps_section(&h, 12));
    Ok(within(max_u64(previews, eps_section(&h, 20)), limit - file_start))
}

/// The value in a sector table for a sector that is free.
pub const FREESECT: u32 = 0xFFFF_FFFF;

/// The value in a sector table for the end of a chain.
pub const ENDOFCHAIN: u32 = 0xFFFF_FFFE;

/// The first `n` sector numbers in `s` from `at` on, without those that stand for nothing.
pub open spec fn cfbf_pointers(s: Seq<u8>, at: int, n: nat) -> Seq<u32>
    decreases n,
{
    if n == 0 {
        Seq::empty()
    } else {
        let before = cfbf_pointers(s, at, (n - 1) as nat);
        let p = le32(s, at + (n - 1) * 4);
        if p == FREESECT || p == ENDOFCHAIN {
            before
        } else {
            before.push(p)
        }
    }
}

/// Sector `n` of a compound file whose sectors have `size` bytes: the header is before the
/// first.
pub open spec fn cfbf_sector(f: Seq<u8>, size: int, n: u32) -> Seq<u8> {
    f.subrange((n + 1) * size, (n + 1) * size + size)
}

/// `list`, and the sector numbers in a chain of table sectors that begins with `next`, no
/// more than `left` of them being read. The last number of each names the one after.
pub open spec fn cfbf_chain(f: Seq<u8>, size: int, next: u32, left: nat, list: Seq<u32>) -> Option<
    Seq<u32>,
>
    decreases left,
{
    let s = cfbf_sector(f, size, next);
    let n = size / 4 - 1;
    if next == FREESECT || next == ENDOFCHAIN || left == 0 {
        Some(list)
    } else if (next + 1) * size + size > f.len() {
        None
    } else {
        cfbf_chain(
            f,
            size,
            le32(s, n * 4),
            (left - 1) as nat,
            list + cfbf_pointers(s, 0, n as nat),
        )
    }
}

/// The highest sector that one of the first `n` entries of the table sector `s` marks as in
/// use, the first entry being for sector `base`; `top` where there is none.
pub open spec fn cfbf_top(s: Seq<u8>, base: int, n: nat, top: int) -> int
    decreases n,
{
    if n == 0 {
        top
    } else if le32(s, (n - 1) * 4) != FREESECT {
        base + n - 1
    } else {
        cfbf_top(s, base, (n - 1) as nat, top)
    }
}

/// The highest sector in use, by the first `k` sectors of the table, -1 where there is none;
/// `None` where the image ends before one of them.
pub open spec fn cfbf_used(f: Seq<u8>, size: int, table: Seq<u32>, k: nat) -> Option<int>
    decreases k,
{
    if k == 0 {
        Some(-1)
    } else {
        match cfbf_used(f, size, table, (k - 1) as nat) {
            Some(top) if (table[k - 1] + 1) * size + size <= f.len() => Some(
                cfbf_top(
                    cfbf_sector(f, size, table[k - 1]),
                    (k - 1) * (size / 4),
                    (size / 4) as nat,
                    top,
                ),
            ),
            _ => None,
        }
    }
}

/// The size of a compound file's sectors, by its header: 512 or 4096.
pub open spec fn cfbf_sector_size(h: Seq<u8>) -> Option<int> {
    if le16(h, 30) == 9 {
        Some(512)
    } else if le16(h, 30) == 12 {
        Some(4096)
    } else {
        None
    }
}

/// The length of a compound file (OLE2) at the beginning of `f`: up to the end of the highest
/// sector in use. The first 109 sectors of the sector table are named in the header, the
/// others in a chain of sectors; there have to be as many as the header says.
pub open spec fn cfbf_len(f: Seq<u8>, avail: int) -> Option<int> {
    let h = f.subrange(0, 512);
    match cfbf_sector_size(h) {
        Some(size) if f.len() >= 512 && be64(h, 0) == 0xD0CF_11E0_A1B1_1AE1 && le16(h, 28) == 0xFFFE
            && le32(h, 44) != 0 && le32(h, 44) <= avail / size + 2 => match cfbf_chain(
            f,
            size,
            le32(h, 68),
            le32(h, 72) as nat,
            cfbf_pointers(h, 76, 109),
        ) {
            Some(table) if table.len() == le32(h, 44) => match cfbf_used(
                f,
                size,
                table,
                table.len(),
            ) {
                Some(top) if top >= 0 => fit((top + 2) * size, avail),
                _ => None,
            },
            _ => None,
        },
        _ => None,
    }
}

/// Take the sector numbers in `s` over into a list.
fn cfbf_collect(s: &[u8], at: usize, n: usize, list: &mut Vec<u32>)
    requires
        at + n * 4 <= s.len(),
        n <= 1024,
        at <= 512,
    ensures
        final(list)@ == old(list)@ + cfbf_pointers(s@, at as int, n as nat),
{
    let ghost before = list@;
    let mut i: usize = 0;
    assert(before + cfbf_pointers(s@, at as int, 0) =~= before);
    while i < n
        invariant
            at + n * 4 <= s.len(),
            i <= n <= 1024,
            at <= 512,
            list@ == before + cfbf_pointers(s@, at as int, i as nat),
        decreases n - i,
    {
        let p: u32 = rd_le32(s, at + i * 4);
        if p != FREESECT && p != ENDOFCHAIN {
            list.push(p);
        }
        i = i + 1;
        assert(list@ =~= before + cfbf_pointers(s@, at as int, i as nat));
    }
}

/// The highest sector that a table sector marks as in use.
fn cfbf_highest(s: &[u8], base: u64, n: usize, top: i64) -> (r: i64)
    requires
        s.len() == n * 4,
        n <= 1024,
        base < 0x1000_0000_0000,
        -1 <= top < 0x1000_0000_0000,
    ensures
        r == cfbf_top(s@, base as int, n as nat, top as int),
        -1 <= r < 0x1000_0000_0000 + 1024,
        r == top || base <= r < base + n,
{
    let mut k: usize = n;
    while k > 0
        invariant
            s.len() == n * 4,
            k <= n <= 1024,
            base < 0x1000_0000_0000,
            cfbf_top(s@, base as int, n as nat, top as int) == cfbf_top(
                s@,
                base as int,
                k as nat,
                top as int,
            ),
        decreases k,
    {
        if rd_le32(s, (k - 1) * 4) != FREESECT {
            return (base + k as u64 - 1) as i64;
        }
        k = k - 1;
    }
    top
}

/// One of the sectors in which the allocation table of a compound file goes on, from `next` on, could not be read.
pub open spec fn cfbf_chain_fails(src: Source, start: int, size: int, next: u32, left: nat) -> bool
    decreases left,
{
    let f = src.tail(start);
    next != FREESECT && next != ENDOFCHAIN && left > 0 && (src.faulty(start + (next + 1) * size, size) || ((
    next + 1) * size + size <= f.len() && cfbf_chain_fails(
        src,
        start,
        size,
        le32(cfbf_sector(f, size, next), (size / 4 - 1) * 4),
        (left - 1) as nat,
    )))
}

/// The sectors of a compound file's sector table.
fn cfbf_table(source: &Source, file_start: u64, h: &[u8], size: u64) -> (r: Result<
    Option<Vec<u32>>,
    ReadError,
>)
    requires
        source.wf(),
        file_start <= source@.len(),
        h.len() == 512,
        size == 512 || size == 4096,
    ensures
        match r {
            Ok(Some(v)) => cfbf_chain(
                source.tail(file_start as int),
                size as int,
                le32(h@, 68),
                le32(h@, 72) as nat,
                cfbf_pointers(h@, 76, 109),
            ) == Some(v@),
            Ok(None) => cfbf_chain(
                source.tail(file_start as int),
                size as int,
                le32(h@, 68),
                le32(h@, 72) as nat,
                cfbf_pointers(h@, 76, 109),
            ) is None,
            Err(e) => file_start <= e.offset && source.explains(e),
        },
        r is Err <==> cfbf_chain_fails(
            *source,
            file_start as int,
            size as int,
            le32(h@, 68),
            le32(h@, 72) as nat,
        ),
{
    let ghost f = source.tail(file_start as int);
    let mut list: Vec<u32> = Vec::new();
    cfbf_collect(h, 76, 109, &mut list);
    assert(list@ =~= cfbf_pointers(h@, 76, 109));
    let mut next: u32 = rd_le32(h, 68);
    let mut left: u32 = rd_le32(h, 72);
    while next != FREESECT && next != ENDOFCHAIN && left > 0
        invariant
            source.wf(),
            file_start <= source@.len(),
            f == source.tail(file_start as int),
            size == 512 || size == 4096,
            cfbf_chain(
                f,
                size as int,
                le32(h@, 68),
                le32(h@, 72) as nat,
                cfbf_pointers(h@, 76, 109),
            ) == cfbf_chain(f, size as int, next, left as nat, list@),
            cfbf_chain_fails(
                *source,
                file_start as int,
                size as int,
                le32(h@, 68),
                le32(h@, 72) as nat,
            ) == cfbf_chain_fails(*source, file_start as int, size as int, next, left as nat),
        decreases left,
    {
        let sector: u64 = next as u64 + 1;
        assert(sector <= 0x1_0000_0000);
        let at: u64 = if size == 512 {
            sector * 512
        } else {
            sector * 4096
        };
        assert(at == (next + 1) * size);
        let s = match source.part(file_start, at, size as usize)? {
            Some(s) => s,
            None => return Ok(None),
        };
        let n: usize = size as usize / 4 - 1;
        cfbf_collect(&s, 0, n, &mut list);
        next = rd_le32(&s, n * 4);
        left = left - 1;
    }
    Ok(Some(list))
}

/// One of the sectors of the allocation table of a compound file from the one at `k` on, as far as they are looked
/// at, could not be read.
pub open spec fn cfbf_used_fails(src: Source, start: int, size: int, table: Seq<u32>, k: int) -> bool
    decreases table.len() - k,
{
    k < table.len() && (src.faulty(start + (table[k] + 1) * size, size) || ((table[k] + 1) * size + size
        <= src.tail(start).len() && cfbf_used_fails(src, start, size, table, k + 1)))
}

/// The highest sector in use by a compound file's sector table.
fn cfbf_walk(source: &Source, file_start: u64, size: u64, table: &Vec<u32>) -> (r: Result<
    Option<i64>,
    ReadError,
>)
    requires
        source.wf(),
        file_start <= source@.len(),
        size == 512 || size == 4096,
        table@.len() <= 0xFFFF_FFFF,
    ensures
        match r {
            Ok(Some(top)) => cfbf_used(
                source.tail(file_start as int),
                size as int,
                table@,
                table@.len(),
            ) == Some(top as int) && -1 <= top < 0x1000_0000_0000,
            Ok(None) => cfbf_used(
                source.tail(file_start as int),
                size as int,
                table@,
                table@.len(),
            ) is None,
            Err(e) => file_start <= e.offset && source.explains(e),
        },
        r is Err <==> cfbf_used_fails(*source, file_start as int, size as int, table@, 0),
{
    let ghost f = source.tail(file_start as int);
    let entries: u64 = size / 4;
    let mut top: i64 = -1;
    let mut base: u64 = 0;
    let mut k: usize = 0;
    while k < table.len()
        invariant
            source.wf(),
            file_start <= source@.len(),
            f == source.tail(file_start as int),
            size == 512 || size == 4096,
            entries == size / 4,
            k <= table@.len() <= 0xFFFF_FFFF,
            base == k * entries,
            base <= k * 1024,
            -1 <= top < k * 1024 || top == -1,
            cfbf_used(f, size as int, table@, k as nat) == Some(top as int),
            cfbf_used_fails(*source, file_start as int, size as int, table@, 0) == cfbf_used_fails(
                *source,
                file_start as int,
                size as int,
                table@,
                k as int,
            ),
        decreases table@.len() - k,
    {
        let n: u32 = table[k];
        let sector: u64 = n as u64 + 1;
        assert(sector <= 0x1_0000_0000);
        let at: u64 = if size == 512 {
            sector * 512
        } else {
            sector * 4096
        };
        assert(at == (n + 1) * size);
        proof {
            if (n + 1) * size + size > f.len() {
                lemma_cfbf_none(f, size as int, table@, (k + 1) as nat, table@.len());
            }
            assert((k + 1) * entries == k * entries + entries) by (nonlinear_arith);
        }
        let s = match source.part(file_start, at, size as usize)? {
            Some(s) => s,
            None => return Ok(None),
        };
        top = cfbf_highest(&s, base, entries as usize, top);
        base = base + entries;
        k = k + 1;
    }
    Ok(Some(top))
}

/// A table sector beyond the image spoils the file.
proof fn lemma_cfbf_none(f: Seq<u8>, size: int, table: Seq<u32>, i: nat, n: nat)
    requires
        i <= n,
        cfbf_used(f, size, table, i) is None,
    ensures
        cfbf_used(f, size, table, n) is None,
    decreases n - i,
{
    if i < n {
        lemma_cfbf_none(f, size, table, i + 1, n);
    }
}

/// One of the bytes of a compound file that are looked at could not be read.
pub open spec fn cfbf_fails(src: Source, start: int, avail: int) -> bool {
    let f = src.tail(start);
    let h = f.subrange(0, 512);
    src.faulty(start, 512) || match cfbf_sector_size(h) {
        Some(size) => f.len() >= 512 && be64(h, 0) == 0xD0CF_11E0_A1B1_1AE1 && le16(h, 28) == 0xFFFE
            && le32(h, 44) != 0 && le32(h, 44) <= avail / size + 2 && (cfbf_chain_fails(
            src,
            start,
            size,
            le32(h, 68),
            le32(h, 72) as nat,
        ) || match cfbf_chain(
            f,
            size,
            le32(h, 68),
            le32(h, 72) as nat,
            cfbf_pointers(h, 76, 109),
        ) {
            Some(table) => table.len() == le32(h, 44) && cfbf_used_fails(src, start, size, table, 0),
            None => false,
        }),
        None => false,
    }
}

/// Compound File Binary Format (OLE2) length.
pub fn cfbf_length(source: &Source, file_start: u64, limit: u64) -> (r: Length)
    requires
        source.spans(file_start, limit),
    ensures
        source.sizes_afar(
            file_start,
            r,
            cfbf_len(source.tail(file_start as int), limit - file_start),
            limit - file_start,
        ),
        r is Err <==> cfbf_fails(*source, file_start as int, limit - file_start),
{
    let avail: u64 = limit - file_start;
    let ghost f = source.tail(file_start as int);
    let h = match source.part(file_start, 0, 512)? {
        Some(h) => h,
        None => return Ok(None),
    };
    if rd_be64(&h, 0) != 0xD0CF_11E0_A1B1_1AE1 || rd_le16(&h, 28) != 0xFFFE {
        return Ok(None);
    }
    let shift: u16 = rd_le16(&h, 30);
    if shift != 9 && shift != 12 {
        return Ok(None);
    }
    let size: u64 = if shift == 9 {
        512
    } else {
        4096
    };
    let count: u64 = rd_le32(&h, 44) as u64;
    // A corrupt header could claim more table sectors than could fit in the room.
    if count == 0 || count > avail / size + 2 {
        return Ok(None);
    }
    let table = match cfbf_table(source, file_start, &h, size)? {
        Some(t) => t,
        None => return Ok(None),
    };
    if table.len() as u64 != count {
        return Ok(None);
    }
    let top: i64 = match cfbf_walk(source, file_start, size, &table)? {
        Some(t) => t,
        None => return Ok(None),
    };
    if top < 0 {
        return Ok(None);
    }
    let total: u64 = if size == 512 {
        (top as u64 + 2) * 512
    } else {
        (top as u64 + 2) * 4096
    };
    assert(total == (top + 2) * size);
    Ok(within(total, avail))
}

/// The length of an Outlook data file at the beginning of `f`, in the Unicode format (version
/// 23 and above): the end that its header gives, which covers the header.
pub open spec fn pst_len(f: Seq<u8>, avail: int) -> Option<int> {
    let h = f.subrange(0, 0xC0);
    if f.len() < 0xC0 || !text_at(h, 0, "!BDN"@) || !text_at(h, 8, "SM"@) || le16(h, 10) < 23 || le64(
        h,
        0xB8,
    ) < 0xC0 {
        None
    } else {
        fit(le64(h, 0xB8) as int, avail)
    }
}

/// Outlook data file (PST/OST) length.
pub fn pst_length(source: &Source, file_start: u64, limit: u64) -> (r: Length)
    requires
        source.spans(file_start, limit),
    ensures
        source.sizes(
            file_start,
            r,
            pst_len(source.tail(file_start as int), limit - file_start),
            limit - file_start,
        ),
        r is Err <==> source.faulty(file_start as int, 192),
{
    let h = match source.part(file_start, 0, 192)? {
        Some(h) => h,
        None => return Ok(None),
    };
    let size: u64 = rd_le64(&h, 0xB8);
    if !is_text(&h, 0, "!BDN") || !is_text(&h, 8, "SM") || rd_le16(&h, 10) < 23 || size < 0xC0 {
        return Ok(None);
    }
    Ok(within(size, limit - file_start))
}

} // verus!
