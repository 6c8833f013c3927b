//! Executables and console images.

use crate::bytes::{
    be32, capped, fit, is_text, larger, le16, le32, max_u64, ord16, ord32, ord64, pad, padded,
    rd_be32, rd_le16, rd_le32, rd_ord16, rd_ord32, rd_ord64, text_at, within,
};
use crate::source::{window, Length, ReadError, Source};
use crate::varint::{lemma_vint_width, read_base128, vint_at, vint_fails};
use vstd::prelude::*;

verus! {

/// The number of WebAssembly sections that are looked at.
pub const MAX_WASM_SECTIONS: u64 = 0x1_0000;

/// The length of a WebAssembly module of which `sections` sections have been
/// passed, the next being at `pos`: up to the last whole section. A section has an
/// id, 12 at most, a size, which is a base-128 integer of 5 bytes at most and not
/// zero, and its content.
pub open spec fn wasm_from(f: Seq<u8>, avail: int, pos: int, sections: int) -> Option<int>
    decreases avail - pos,
{
    proof {
        lemma_vint_width(f, avail, pos + 1, 5, 0, 0);
    }
    let stop = if sections == 0 {
        None
    } else {
        Some(pos)
    };
    if sections >= MAX_WASM_SECTIONS || pos >= avail || f[pos] > 12 {
        stop
    } else {
        match vint_at(f, avail, pos + 1, 5) {
            None => stop,
            Some((size, n)) => if size == 0 || pos + 1 + n + size > avail {
                stop
            } else {
                wasm_from(f, avail, pos + 1 + n + size, sections + 1)
            },
        }
    }
}

/// The length of a WebAssembly module at the beginning of `f`, of version 1.
pub open spec fn wasm_len(f: Seq<u8>, avail: int) -> Option<int> {
    let h = f.subrange(0, 8);
    if f.len() < 8 || !text_at(h, 0, "\0asm"@) || le32(h, 4) != 1 {
        None
    } else {
        wasm_from(f, avail, 8, 0)
    }
}

/// One of the section headers of a WebAssembly module that are looked at could not be read, `sections` sections having
/// been passed and the next being at `pos`.
pub open spec fn wasm_walk_fails(
    src: Source,
    start: int,
    avail: int,
    pos: int,
    sections: int,
) -> bool
    decreases avail - pos,
{
    let f = src.tail(start);
    proof {
        lemma_vint_width(f, avail, pos + 1, 5, 0, 0);
    }
    sections < MAX_WASM_SECTIONS && pos < avail && (src.faulty(start + pos, 1) || (f[pos] <= 12 && (
    vint_fails(src, start, avail, pos + 1, 5, 0) || match vint_at(f, avail, pos + 1, 5) {
        None => false,
        Some((size, n)) => size != 0 && pos + 1 + n + size <= avail && wasm_walk_fails(
            src,
            start,
            avail,
            pos + 1 + n + size,
            sections + 1,
        ),
    })))
}

/// Walk the sections of a WebAssembly module.
fn wasm_walk(source: &Source, file_start: u64, limit: u64) -> (r: Length)
    requires
        source.spans(file_start, limit),
    ensures
        source.sizes(
            file_start,
            r,
            wasm_from(source.tail(file_start as int), limit - file_start, 8, 0),
            limit - file_start,
        ),
        r is Err <==> wasm_walk_fails(*source, file_start as int, limit - file_start, 8, 0),
{
    let avail: u64 = limit - file_start;
    let ghost f = source.tail(file_start as int);
    let mut pos: u64 = 8;
    let mut sections: u64 = 0;
    loop
        invariant
            source.spans(file_start, limit),
            avail == limit - file_start,
            f == source.tail(file_start as int),
            pos <= avail || sections == 0 && pos == 8,
            sections <= MAX_WASM_SECTIONS,
            pos >= 8,
            wasm_from(f, avail as int, 8, 0) == wasm_from(
                f,
                avail as int,
                pos as int,
                sections as int,
            ),
            wasm_walk_fails(*source, file_start as int, avail as int, 8, 0) == wasm_walk_fails(
                *source,
                file_start as int,
                avail as int,
                pos as int,
                sections as int,
            ),
        decreases avail + 8 - pos,
    {
        let stop: Option<u64> = if sections == 0 {
            None
        } else {
            Some(pos)
        };
        if sections >= MAX_WASM_SECTIONS || pos >= avail {
            return Ok(stop);
        }
        let id: u8 = match source.byte(file_start, pos)? {
            Some(b) => b,
            None => return Ok(stop),
        };
        if id > 12 {
            return Ok(stop);
        }
        let (size, n) = match read_base128(source, file_start, avail, pos + 1, 5)? {
            Some(x) => x,
            None => return Ok(stop),
        };
        if size == 0 || size > avail - (pos + 1 + n) {
            return Ok(stop);
        }
        pos = pos + 1 + n + size;
        sections = sections + 1;
    }
}

/// One of the bytes of a WebAssembly module that are looked at could not be read.
pub open spec fn wasm_fails(src: Source, start: int, avail: int) -> bool {
    let f = src.tail(start);
    let h = f.subrange(0, 8);
    src.faulty(start, 8) || (f.len() >= 8 && text_at(h, 0, "\0asm"@) && le32(h, 4) == 1 && wasm_walk_fails(
        src,
        start,
        avail,
        8,
        0,
    ))
}

/// WebAssembly module length.
pub fn wasm_length(source: &Source, file_start: u64, limit: u64) -> (r: Length)
    requires
        source.spans(file_start, limit),
    ensures
        source.sizes(
            file_start,
            r,
            wasm_len(source.tail(file_start as int), limit - file_start),
            limit - file_start,
        ),
        r is Err <==> wasm_fails(*source, file_start as int, limit - file_start),
{
    let h = match source.part(file_start, 0, 8)? {
        Some(h) => h,
        None => return Ok(None),
    };
    if !is_text(&h, 0, "\0asm") || rd_le32(&h, 4) != 1 {
        return Ok(None);
    }
    wasm_walk(source, file_start, limit)
}

/// The furthest end of the sections of a PE from section `i` on, of `n`, in the
/// table at `table`; `end` is the furthest end before. The sections whose headers
/// lie beyond the image are left out.
pub open spec fn pe_sections(f: Seq<u8>, table: int, n: int, i: int, end: int) -> int
    decreases n - i,
{
    let at = table + i * 40;
    let h = f.subrange(at, at + 40);
    if i >= n || at + 40 > f.len() {
        end
    } else if le32(h, 20) != 0 {
        pe_sections(f, table, n, i + 1, larger(end, le32(h, 20) + le32(h, 16)))
    } else {
        pe_sections(f, table, n, i + 1, end)
    }
}

/// Where the certificate table of a PE ends, whose optional header of `size` bytes
/// is at `opt`; zero where there is none. The directory entry for it, the fifth,
/// holds an offset in the file.
pub open spec fn pe_cert(f: Seq<u8>, opt: int, size: int) -> int {
    let magic = le16(f.subrange(opt, opt + 2), 0);
    let dirs: int = if magic == 0x10B {
        96
    } else {
        112
    };
    let cert = f.subrange(opt + dirs + 32, opt + dirs + 40);
    if size < 4 || opt + 2 > f.len() || !(magic == 0x10B || magic == 0x20B) || size < dirs + 40
        || opt + dirs > f.len() || le32(f.subrange(opt + dirs - 4, opt + dirs), 0) <= 4 || opt
        + dirs + 40 > f.len() || le32(cert, 0) == 0 {
        0
    } else {
        le32(cert, 0) + le32(cert, 4)
    }
}

/// The length of a Windows executable at the beginning of `f`: up to the furthest
/// end of its headers, its sections and its certificates. The DOS header places
/// the PE header, which gives 1 to 96 sections.
pub open spec fn pe_len(f: Seq<u8>, avail: int) -> Option<int> {
    let dos = f.subrange(0, 64);
    let pe = le32(dos, 0x3C) as int;
    let coff = f.subrange(pe, pe + 24);
    let n = le16(coff, 6);
    let size = le16(coff, 20);
    let table = pe + 24 + size;
    if f.len() < 64 || !text_at(dos, 0, "MZ"@) || pe < 64 || pe + 24 > avail || !text_at(
        coff,
        0,
        "PE\0\0"@,
    ) || n == 0 || n > 96 {
        None
    } else {
        fit(
            larger(
                pe_sections(f, table, n as int, 0, table + n * 40),
                pe_cert(f, pe + 24, size as int),
            ),
            avail,
        )
    }
}

/// One of the headers of the section table at `table` of a PE file, from section `i` on, of `n`, as far as they are
/// looked at, could not be read.
pub open spec fn pe_sections_fails(src: Source, start: int, table: int, n: int, i: int) -> bool
    decreases n - i,
{
    let at = table + i * 40;
    i < n && (src.faulty(start + at, 40) || (at + 40 <= src.tail(start).len() && pe_sections_fails(
        src,
        start,
        table,
        n,
        i + 1,
    )))
}

/// Take in the sections of a PE.
fn pe_walk(source: &Source, file_start: u64, table: u64, n: u64) -> (r: Result<u64, ReadError>)
    requires
        source.wf(),
        file_start <= source@.len(),
        n <= 96,
        0 < table < 0x2_0000_0000,
    ensures
        match r {
            Ok(end) => end == pe_sections(
                source.tail(file_start as int),
                table as int,
                n as int,
                0,
                table + n * 40,
            ) && 0 < end < 0x3_0000_0000,
            Err(e) => file_start <= e.offset < file_start + table + n * 40 && source.explains(e),
        },
        r is Err <==> pe_sections_fails(*source, file_start as int, table as int, n as int, 0),
{
    let ghost f = source.tail(file_start as int);
    let mut end: u64 = table + n * 40;
    let mut i: u64 = 0;
    while i < n
        invariant
            source.wf(),
            file_start <= source@.len(),
            f == source.tail(file_start as int),
            i <= n <= 96,
            0 < table < 0x2_0000_0000,
            0 < end < 0x3_0000_0000,
            pe_sections(f, table as int, n as int, 0, table + n * 40) == pe_sections(
                f,
                table as int,
                n as int,
                i as int,
                end as int,
            ),
            pe_sections_fails(*source, file_start as int, table as int, n as int, 0)
                == pe_sections_fails(*source, file_start as int, table as int, n as int, i as int),
        decreases n - i,
    {
        let h = match source.part(file_start, table + i * 40, 40)? {
            Some(h) => h,
            None => return Ok(end),
        };
        let size: u64 = rd_le32(&h, 16) as u64;
        let at: u64 = rd_le32(&h, 20) as u64;
        if at != 0 {
            end = max_u64(end, at + size);
        }
        i = i + 1;
    }
    Ok(end)
}

/// One of the fields of the optional header at `opt` of a PE file, which has `size` bytes, that are looked at for the
/// certificates could not be read.
pub open spec fn pe_cert_fails(src: Source, start: int, opt: int, size: int) -> bool {
    let f = src.tail(start);
    let magic = le16(f.subrange(opt, opt + 2), 0);
    let dirs: int = if magic == 0x10B {
        96
    } else {
        112
    };
    size >= 4 && (src.faulty(start + opt, 2) || (opt + 2 <= f.len() && (magic == 0x10B || magic == 0x20B)
        && size >= dirs + 40 && (src.faulty(start + opt + dirs - 4, 4) || (opt + dirs <= f.len() && le32(
        f.subrange(opt + dirs - 4, opt + dirs),
        0,
    ) > 4 && src.faulty(start + opt + dirs + 32, 8)))))
}

/// Read the PE optional header's certificate-table directory entry: where the
/// table ends, or zero if there is none.
pub fn pe_cert_end(source: &Source, file_start: u64, opt_off: u64, opt_size: u64) -> (r: Result<
    u64,
    ReadError,
>)
    requires
        source.wf(),
        file_start <= source@.len(),
        opt_off <= u64::MAX - 0x98,
    ensures
        match r {
            Ok(end) => end == pe_cert(
                source.tail(file_start as int),
                opt_off as int,
                opt_size as int,
            ) && end < 0x2_0000_0000,
            Err(e) => file_start <= e.offset < file_start + opt_off + 0x98 && source.explains(e),
        },
        r is Err <==> pe_cert_fails(
            *source,
            file_start as int,
            opt_off as int,
            opt_size as int,
        ),
{
    if opt_size < 4 {
        return Ok(0);
    }
    let m = match source.part(file_start, opt_off, 2)? {
        Some(m) => m,
        None => return Ok(0),
    };
    let magic: u16 = rd_le16(&m, 0);
    if magic != 0x10B && magic != 0x20B {
        return Ok(0);
    }
    // The data directories come later in PE32+ than in PE32.
    let dirs: u64 = if magic == 0x10B {
        96
    } else {
        112
    };
    if opt_size < dirs + 40 {
        return Ok(0);
    }
    let count = match source.part(file_start, opt_off + dirs - 4, 4)? {
        Some(c) => c,
        None => return Ok(0),
    };
    if rd_le32(&count, 0) <= 4 {
        return Ok(0);
    }
    let cert = match source.part(file_start, opt_off + dirs + 32, 8)? {
        Some(c) => c,
        None => return Ok(0),
    };
    let at: u64 = rd_le32(&cert, 0) as u64;
    if at == 0 {
        return Ok(0);
    }
    Ok(at + rd_le32(&cert, 4) as u64)
}

/// One of the bytes of a PE file that are looked at could not be read.
pub open spec fn pe_fails(src: Source, start: int, avail: int) -> bool {
    let f = src.tail(start);
    let dos = f.subrange(0, 64);
    let pe = le32(dos, 0x3C) as int;
    let coff = f.subrange(pe, pe + 24);
    let n = le16(coff, 6);
    let size = le16(coff, 20);
    src.faulty(start, 64) || (f.len() >= 64 && text_at(dos, 0, "MZ"@) && pe >= 64 && pe + 24 <= avail && (
    src.faulty(start + pe, 24) || (text_at(coff, 0, "PE\0\0"@) && 0 < n <= 96 && (pe_sections_fails(
        src,
        start,
        pe + 24 + size,
        n as int,
        0,
    ) || pe_cert_fails(src, start, pe + 24, size as int)))))
}

/// PE (Windows EXE/DLL) length. The MZ magic is only two bytes, so the real gate
/// is finding the `PE\0\0` header and a sane section table.
pub fn pe_length(source: &Source, file_start: u64, limit: u64) -> (r: Length)
    requires
        source.spans(file_start, limit),
    ensures
        source.sizes(
            file_start,
            r,
            pe_len(source.tail(file_start as int), limit - file_start),
            limit - file_start,
        ),
        r is Err <==> pe_fails(*source, file_start as int, limit - file_start),
{
    let avail: u64 = limit - file_start;
    let dos = match source.part(file_start, 0, 64)? {
        Some(dos) => dos,
        None => return Ok(None),
    };
    let pe: u64 = rd_le32(&dos, 0x3C) as u64;
    if !is_text(&dos, 0, "MZ") || pe < 64 || pe + 24 > avail {
        return Ok(None);
    }
    let coff = match source.part(file_start, pe, 24)? {
        Some(coff) => coff,
        None => return Ok(None),
    };
    let n: u64 = rd_le16(&coff, 6) as u64;
    let size: u64 = rd_le16(&coff, 20) as u64;
    if !is_text(&coff, 0, "PE\0\0") || n == 0 || n > 96 {
        return Ok(None);
    }
    let sections: u64 = pe_walk(source, file_start, pe + 24 + size, n)?;
    let cert: u64 = pe_cert_end(source, file_start, pe + 24, size)?;
    Ok(within(max_u64(sections, cert), avail))
}

/// The length of an ELF file at the beginning of `f`: up to the end of its section
/// header table, of which the header gives the place, the size of an entry and the
/// number of entries. A header that the image ends in reads as zeros from there.
pub open spec fn elf_len(f: Seq<u8>, avail: int) -> Option<int> {
    let h = padded(window(f, 0, 64), 64);
    let be = h[5] == 2;
    let (at, size, n) = if h[4] == 2 {
        (ord64(h, 0x28, be) as int, ord16(h, 0x3A, be), ord16(h, 0x3C, be))
    } else {
        (ord32(h, 0x20, be) as int, ord16(h, 0x2E, be), ord16(h, 0x30, be))
    };
    if f.len() < 52 || !(h[4] == 1 || h[4] == 2) || !(h[5] == 1 || h[5] == 2) || at == 0 || size == 0
        || n == 0 {
        None
    } else {
        fit(at + n * size, avail)
    }
}

/// ELF length from the section-header table, which normally sits at the end of the
/// file. Handles 32/64-bit and either byte order.
pub fn elf_length(source: &Source, file_start: u64, limit: u64) -> (r: Length)
    requires
        source.spans(file_start, limit),
    ensures
        source.sizes(
            file_start,
            r,
            elf_len(source.tail(file_start as int), limit - file_start),
            limit - file_start,
        ),
        r is Err <==> source.faulty(file_start as int, 64),
{
    let head = source.part_upto(file_start, 0, 64)?;
    if head.len() < 52 {
        return Ok(None);  // smaller than even a 32-bit ELF header
    }
    let h = pad(head, 64);
    if !(h[4] == 1 || h[4] == 2) || !(h[5] == 1 || h[5] == 2) {
        return Ok(None);
    }
    let be = h[5] == 2;
    let at: u64 = if h[4] == 2 {
        rd_ord64(&h, 0x28, be)
    } else {
        rd_ord32(&h, 0x20, be) as u64
    };
    let size: u64 = if h[4] == 2 {
        rd_ord16(&h, 0x3A, be) as u64
    } else {
        rd_ord16(&h, 0x2E, be) as u64
    };
    let n: u64 = if h[4] == 2 {
        rd_ord16(&h, 0x3C, be) as u64
    } else {
        rd_ord16(&h, 0x30, be) as u64
    };
    if at == 0 || n == 0 || size == 0 {
        return Ok(None);  // stripped of section headers
    }
    assert(0 <= n * size <= 0xFFFF * 0xFFFF) by (nonlinear_arith)
        requires
            0 <= n <= 0xFFFF,
            0 <= size <= 0xFFFF,
    ;
    Ok(within(at.saturating_add(n * size), limit - file_start))
}

/// A load command with the data of the link editor, whose place and size it gives:
/// the code signature, function starts and the like.
pub open spec fn macho_linkedit(cmd: u32) -> bool {
    cmd == 0x1D || cmd == 0x1E || cmd == 0x26 || cmd == 0x29 || cmd == 0x2B || cmd == 0x2E || cmd
        == 0x8000_0033 || cmd == 0x8000_0034
}

/// The furthest end of what the load command at `off` of `c`, of `size` bytes,
/// places in the file: a segment, the symbols and their strings, or data of the
/// link editor; zero for other commands.
pub open spec fn macho_command_end(c: Seq<u8>, wide: bool, be: bool, off: int, size: int) -> int {
    let cmd = ord32(c, off, be);
    if cmd == 0x1 && size >= 56 {
        ord32(c, off + 32, be) + ord32(c, off + 36, be)
    } else if cmd == 0x19 && size >= 72 {
        capped(ord64(c, off + 40, be) + ord64(c, off + 48, be))
    } else if cmd == 0x2 && size >= 24 {
        larger(
            ord32(c, off + 8, be) + ord32(c, off + 12, be) * if wide {
                16int
            } else {
                12int
            },
            ord32(c, off + 16, be) + ord32(c, off + 20, be),
        )
    } else if macho_linkedit(cmd) && size >= 16 {
        ord32(c, off + 8, be) + ord32(c, off + 12, be)
    } else {
        0
    }
}

/// The furthest end of what the load commands `c` place in the file from the one at
/// `off` on, `left` at most; `end` is the furthest end before. A command's size
/// must be a multiple of 4, be 8 at least, and lie in the region.
pub open spec fn macho_commands(
    c: Seq<u8>,
    wide: bool,
    be: bool,
    off: int,
    left: nat,
    end: int,
) -> Option<int>
    decreases left,
{
    let size = ord32(c, off + 4, be) as int;
    if left == 0 || off + 8 > c.len() {
        Some(end)
    } else if size < 8 || size % 4 != 0 || off + size > c.len() {
        None
    } else {
        macho_commands(
            c,
            wide,
            be,
            off + size,
            (left - 1) as nat,
            larger(end, macho_command_end(c, wide, be, off, size)),
        )
    }
}

/// Whether a Mach-O file is of 64 bits, and whether it is big-endian, by its magic.
pub open spec fn macho_kind(magic: u32) -> Option<(bool, bool)> {
    if magic == 0xCFFA_EDFE {
        Some((true, false))
    } else if magic == 0xCEFA_EDFE {
        Some((false, false))
    } else if magic == 0xFEED_FACF {
        Some((true, true))
    } else if magic == 0xFEED_FACE {
        Some((false, true))
    } else {
        None
    }
}

/// The length of a thin Mach-O file at the beginning of `f`: up to the furthest end
/// of what its load commands place. Their number and the size of their region are
/// at offsets 16 and 20; neither is zero, and they are a million and 16 MiB at
/// most.
pub open spec fn macho_len(f: Seq<u8>, avail: int) -> Option<int> {
    match macho_kind(be32(f.subrange(0, 4), 0)) {
        Some((wide, be)) if f.len() >= 4 => {
            let head: int = if wide {
                32
            } else {
                28
            };
            let h = f.subrange(0, head);
            let n = ord32(h, 16, be);
            let size = ord32(h, 20, be);
            if f.len() < head || n == 0 || size == 0 || size > 0x100_0000 || n > 1_000_000 || head
                + size > avail {
                None
            } else {
                match macho_commands(
                    f.subrange(head, head + size),
                    wide,
                    be,
                    0,
                    n as nat,
                    head + size,
                ) {
                    None => None,
                    Some(end) => fit(end, avail),
                }
            }
        },
        _ => None,
    }
}

/// The furthest end of what one load command places in the file.
fn macho_command(c: &[u8], wide: bool, be: bool, off: usize, size: usize) -> (r: u64)
    requires
        8 <= size,
        off + size <= c.len(),
        c.len() <= 0x100_0000,
    ensures
        r == macho_command_end(c@, wide, be, off as int, size as int),
{
    let cmd: u32 = rd_ord32(c, off, be);
    if cmd == 0x1 && size >= 56 {
        rd_ord32(c, off + 32, be) as u64 + rd_ord32(c, off + 36, be) as u64
    } else if cmd == 0x19 && size >= 72 {
        rd_ord64(c, off + 40, be).saturating_add(rd_ord64(c, off + 48, be))
    } else if cmd == 0x2 && size >= 24 {
        let entry: u64 = if wide {
            rd_ord32(c, off + 12, be) as u64 * 16
        } else {
            rd_ord32(c, off + 12, be) as u64 * 12
        };
        max_u64(
            rd_ord32(c, off + 8, be) as u64 + entry,
            rd_ord32(c, off + 16, be) as u64 + rd_ord32(c, off + 20, be) as u64,
        )
    } else if (cmd == 0x1D || cmd == 0x1E || cmd == 0x26 || cmd == 0x29 || cmd == 0x2B || cmd == 0x2E
        || cmd == 0x8000_0033 || cmd == 0x8000_0034) && size >= 16 {
        rd_ord32(c, off + 8, be) as u64 + rd_ord32(c, off + 12, be) as u64
    } else {
        0
    }
}

/// Walk the load commands of a Mach-O file.
fn macho_walk(c: &[u8], wide: bool, be: bool, n: u64, first: u64) -> (r: Option<u64>)
    requires
        c.len() <= 0x100_0000,
    ensures
        match r {
            Some(end) => macho_commands(c@, wide, be, 0, n as nat, first as int) == Some(end as int)
                && end >= first,
            None => macho_commands(c@, wide, be, 0, n as nat, first as int) is None,
        },
{
    let mut end: u64 = first;
    let mut off: usize = 0;
    let mut left: u64 = n;
    while left > 0
        invariant
            c.len() <= 0x100_0000,
            off <= c.len(),
            end >= first,
            macho_commands(c@, wide, be, 0, n as nat, first as int) == macho_commands(
                c@,
                wide,
                be,
                off as int,
                left as nat,
                end as int,
            ),
        decreases left,
    {
        if off + 8 > c.len() {
            return Some(end);
        }
        let size: usize = rd_ord32(c, off + 4, be) as usize;
        if size < 8 || size % 4 != 0 || size > c.len() - off {
            return None;
        }
        end = max_u64(end, macho_command(c, wide, be, off, size));
        off = off + size;
        left = left - 1;
    }
    Some(end)
}

/// One of the bytes of a Mach-O file that are looked at could not be read.
pub open spec fn macho_fails(src: Source, start: int, avail: int) -> bool {
    let f = src.tail(start);
    src.faulty(start, 4) || match macho_kind(be32(f.subrange(0, 4), 0)) {
        Some((wide, be)) => {
            let head: int = if wide {
                32
            } else {
                28
            };
            let h = f.subrange(0, head);
            let n = ord32(h, 16, be);
            let size = ord32(h, 20, be);
            f.len() >= 4 && (src.faulty(start, head) || (f.len() >= head && 0 < n <= 1_000_000 && 0 < size
                <= 0x100_0000 && head + size <= avail && src.faulty(start + head, size as int)))
        },
        None => false,
    }
}

/// Mach-O (thin) length. Handles 32/64-bit and either byte order; fat/universal
/// binaries are not handled here.
pub fn macho_length(source: &Source, file_start: u64, limit: u64) -> (r: Length)
    requires
        source.spans(file_start, limit),
    ensures
        source.sizes(
            file_start,
            r,
            macho_len(source.tail(file_start as int), limit - file_start),
            limit - file_start,
        ),
        r is Err <==> macho_fails(*source, file_start as int, limit - file_start),
{
    let avail: u64 = limit - file_start;
    let ghost f = source.tail(file_start as int);
    let m = match source.part(file_start, 0, 4)? {
        Some(m) => m,
        None => return Ok(None),
    };
    let magic: u32 = rd_be32(&m, 0);
    if !(magic == 0xCFFA_EDFE || magic == 0xCEFA_EDFE || magic == 0xFEED_FACF || magic
        == 0xFEED_FACE) {
        return Ok(None);
    }
    let wide = magic == 0xCFFA_EDFE || magic == 0xFEED_FACF;
    let be = magic == 0xFEED_FACF || magic == 0xFEED_FACE;
    let head: u64 = if wide {
        32
    } else {
        28
    };
    let h = match source.part(file_start, 0, head as usize)? {
        Some(h) => h,
        None => return Ok(None),
    };
    let n: u64 = rd_ord32(&h, 16, be) as u64;
    let size: u64 = rd_ord32(&h, 20, be) as u64;
    // Bounds on the load-command region, so that a coincidental magic cannot
    // make megabytes of junk be read.
    if n == 0 || size == 0 || size > 0x100_0000 || n > 1_000_000 || head + size > avail {
        return Ok(None);
    }
    let c = match source.part(file_start, head, size as usize)? {
        Some(c) => c,
        None => return Ok(None),
    };
    match macho_walk(&c, wide, be, n, head + size) {
        Some(end) => Ok(within(end, avail)),
        None => Ok(None),
    }
}

/// The length of an Android Dalvik executable at the beginning of `f`: what its
/// header gives, of 0x70 bytes and with the standard endian tag.
pub open spec fn dex_len(f: Seq<u8>, avail: int) -> Option<int> {
    let h = f.subrange(0, 0x2C);
    if f.len() < 0x2C || !text_at(h, 0, "dex\n"@) || le32(h, 0x24) != 0x70 || le32(h, 0x28)
        != 0x1234_5678 || le32(h, 0x20) < 0x70 {
        None
    } else {
        fit(le32(h, 0x20) as int, avail)
    }
}

/// Android Dalvik executable (DEX) length.
pub fn dex_length(source: &Source, file_start: u64, limit: u64) -> (r: Length)
    requires
        source.spans(file_start, limit),
    ensures
        source.sizes(
            file_start,
            r,
            dex_len(source.tail(file_start as int), limit - file_start),
            limit - file_start,
        ),
        r is Err <==> source.faulty(file_start as int, 44),
{
    let h = match source.part(file_start, 0, 44)? {
        Some(h) => h,
        None => return Ok(None),
    };
    let size: u64 = rd_le32(&h, 0x20) as u64;
    if !is_text(&h, 0, "dex\n") || rd_le32(&h, 0x24) != 0x70 || rd_le32(&h, 0x28) != 0x1234_5678
        || size < 0x70 {
        return Ok(None);
    }
    Ok(within(size, limit - file_start))
}

} // verus!
