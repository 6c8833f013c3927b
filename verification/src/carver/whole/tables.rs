//! Files that end with the last of the parts that a table gives.

use crate::bytes::{be16, be32, larger, le16, le32, ord32, text_at};
use crate::carver::archives::{applesingle_end, applesingle_len};
use crate::carver::executables::{
    elf_len, macho_command_end, macho_commands, pe_cert, pe_len, pe_sections,
};
use crate::carver::fonts::{
    pcf_len, pcf_tables, sfnt_end, sfnt_len, sfnt_tables, ttc_fonts, ttc_len,
};
use crate::source::window;
use vstd::prelude::*;

verus! {

/// Where the data of the `i`-th section of a PE file end; a section that has no place in the file has none.
pub open spec fn pe_section_end(f: Seq<u8>, table: int, i: int) -> int {
    let at = table + 40 * i;
    if le32(f, at + 20) == 0 {
        0
    } else {
        le32(f, at + 20) + le32(f, at + 16)
    }
}

proof fn lemma_pe_sections(f: Seq<u8>, table: int, n: int, i: int, end: int)
    requires
        0 <= table,
        0 <= i <= n,
        table + n * 40 <= f.len(),
        0 <= end,
    ensures
        ({
            let r = pe_sections(f, table, n, i, end);
            &&& r >= end
            &&& forall|k: int| i <= k < n ==> #[trigger] pe_section_end(f, table, k) <= r
            &&& r == end || exists|k: int| i <= k < n && #[trigger] pe_section_end(f, table, k) == r
        }),
    decreases n - i,
{
    if i < n {
        let at = table + i * 40;
        let h = f.subrange(at, at + 40);
        assert(le32(h, 20) == le32(f, at + 20) && le32(h, 16) == le32(f, at + 16));
        let here = pe_section_end(f, table, i);
        assert(here == if le32(h, 20) != 0 {
            le32(h, 20) + le32(h, 16)
        } else {
            0
        });
        if le32(h, 20) != 0 {
            lemma_pe_sections(f, table, n, i + 1, larger(end, le32(h, 20) + le32(h, 16)));
        } else {
            lemma_pe_sections(f, table, n, i + 1, end);
        }
    }
}

/// A PE file ends with the last of what it has: the headers with the table of sections, the data of each of its sections,
/// and its certificates. It is no shorter than any of these, and no longer than the longest.
pub proof fn law_pe(f: Seq<u8>, avail: int, pe: int, n: int, table: int, len: int)
    requires
        64 <= f.len(),
        avail <= f.len(),
        pe == le32(f, 0x3C),
        n == le16(f, pe + 6),
        table == pe + 24 + le16(f, pe + 20),
        table + n * 40 <= avail,
        f[0] == 0x4D && f[1] == 0x5A,
        64 <= pe,
        f[pe] == 0x50 && f[pe + 1] == 0x45 && f[pe + 2] == 0 && f[pe + 3] == 0,
        1 <= n <= 96,
    ensures
        pe_len(f, avail) == Some(len) ==> {
            &&& table + n * 40 <= len
            &&& forall|k: int| 0 <= k < n ==> #[trigger] pe_section_end(f, table, k) <= len
            &&& pe_cert(f, pe + 24, le16(f, pe + 20) as int) <= len <= avail
            &&& len == table + n * 40 || len == pe_cert(f, pe + 24, le16(f, pe + 20) as int)
                || exists|k: int| 0 <= k < n && #[trigger] pe_section_end(f, table, k) == len
        },
        (forall|k: int| 0 <= k < n ==> #[trigger] pe_section_end(f, table, k) <= avail) && pe_cert(
            f,
            pe + 24,
            le16(f, pe + 20) as int,
        ) <= avail ==> pe_len(f, avail) is Some,
{
    reveal_strlit("MZ");
    reveal_strlit("PE\0\0");
    let dos = f.subrange(0, 64);
    let coff = f.subrange(pe, pe + 24);
    assert(le32(dos, 0x3C) == le32(f, 0x3C));
    assert(le16(coff, 6) == le16(f, pe + 6) && le16(coff, 20) == le16(f, pe + 20));
    assert(text_at(dos, 0, "MZ"@));
    assert(text_at(coff, 0, "PE\0\0"@));
    lemma_pe_sections(f, table, n, 0, table + n * 40);
}

/// An ELF file ends with its table of sections: as many entries as it says, each as long as it says, from where it says;
/// the fields are of four or eight bytes, in either byte order.
pub proof fn law_elf(f: Seq<u8>, avail: int, at: int, size: int, n: int)
    requires
        64 <= f.len(),
        f[4] == 1 || f[4] == 2,
        f[5] == 1 || f[5] == 2,
        f[4] == 1 && f[5] == 1 ==> at == f[0x20] + 0x100 * f[0x21] + 0x1_0000 * f[0x22] + 0x100_0000
            * f[0x23] && size == f[0x2E] + 0x100 * f[0x2F] && n == f[0x30] + 0x100 * f[0x31],
        f[4] == 1 && f[5] == 2 ==> at == f[0x23] + 0x100 * f[0x22] + 0x1_0000 * f[0x21] + 0x100_0000
            * f[0x20] && size == f[0x2F] + 0x100 * f[0x2E] && n == f[0x31] + 0x100 * f[0x30],
        f[4] == 2 && f[5] == 1 ==> at == f[0x28] + 0x100 * f[0x29] + 0x1_0000 * f[0x2A] + 0x100_0000
            * f[0x2B] + 0x1_0000_0000 * (f[0x2C] + 0x100 * f[0x2D] + 0x1_0000 * f[0x2E] + 0x100_0000
            * f[0x2F]) && size == f[0x3A] + 0x100 * f[0x3B] && n == f[0x3C] + 0x100 * f[0x3D],
        f[4] == 2 && f[5] == 2 ==> at == f[0x2F] + 0x100 * f[0x2E] + 0x1_0000 * f[0x2D] + 0x100_0000
            * f[0x2C] + 0x1_0000_0000 * (f[0x2B] + 0x100 * f[0x2A] + 0x1_0000 * f[0x29] + 0x100_0000
            * f[0x28]) && size == f[0x3B] + 0x100 * f[0x3A] && n == f[0x3D] + 0x100 * f[0x3C],
        at > 0,
        size > 0,
        n > 0,
    ensures
        elf_len(f, avail) == if at + n * size <= avail {
            Some(at + n * size)
        } else {
            None
        },
{
    let h = crate::bytes::padded(window(f, 0, 64), 64);
    assert(h =~= f.subrange(0, 64));
    assert(n * size > 0) by (nonlinear_arith)
        requires
            n > 0,
            size > 0,
    ;
}

/// `offs` are where the load commands of a Mach-O file begin, one after another.
pub open spec fn macho_offsets(c: Seq<u8>, be: bool, offs: Seq<int>) -> bool {
    &&& offs.len() > 0
    &&& offs[0] == 0
    &&& forall|i: int|
        0 <= i < offs.len() - 1 ==> {
            &&& 8 <= ord32(c, #[trigger] offs[i] + 4, be)
            &&& ord32(c, offs[i] + 4, be) % 4 == 0
        }
    &&& forall|i: int, j: int|
        #![trigger offs[i], offs[j]]
        0 <= i && j == i + 1 && j < offs.len() ==> offs[j] == offs[i] + ord32(c, offs[i] + 4, be)
    &&& offs.last() <= c.len()
}

/// Where what a load command gives ends.
pub open spec fn macho_end(c: Seq<u8>, wide: bool, be: bool, off: int) -> int {
    macho_command_end(c, wide, be, off, ord32(c, off + 4, be) as int)
}

proof fn lemma_macho(c: Seq<u8>, wide: bool, be: bool, offs: Seq<int>, i: int, end: int)
    requires
        macho_offsets(c, be, offs),
        0 <= i < offs.len(),
    ensures
        offs[i] <= offs.last(),
        macho_commands(c, wide, be, offs[i], (offs.len() - 1 - i) as nat, end) matches Some(r) && {
            &&& r >= end
            &&& forall|k: int| i <= k < offs.len() - 1 ==> macho_end(c, wide, be, #[trigger] offs[k]) <= r
            &&& r == end || exists|k: int|
                i <= k < offs.len() - 1 && macho_end(c, wide, be, #[trigger] offs[k]) == r
        },
    decreases offs.len() - i,
{
    if i + 1 < offs.len() {
        let size = ord32(c, offs[i] + 4, be) as int;
        assert(offs[i + 1] == offs[i] + size);
        lemma_macho(c, wide, be, offs, i + 1, larger(end, macho_end(c, wide, be, offs[i])));
    }
}

/// The load commands of a Mach-O file reach as far as the one that reaches furthest: every one of them counts, and nothing
/// else but the end of the commands themselves.
pub proof fn law_macho_commands(c: Seq<u8>, wide: bool, be: bool, offs: Seq<int>, end: int)
    requires
        macho_offsets(c, be, offs),
    ensures
        macho_commands(c, wide, be, 0, (offs.len() - 1) as nat, end) matches Some(r) && {
            &&& r >= end
            &&& forall|k: int| 0 <= k < offs.len() - 1 ==> macho_end(c, wide, be, #[trigger] offs[k]) <= r
            &&& r == end || exists|k: int|
                0 <= k < offs.len() - 1 && macho_end(c, wide, be, #[trigger] offs[k]) == r
        },
{
    lemma_macho(c, wide, be, offs, 0, end);
}

/// Where the `i`-th table of a font ends, filled up to a multiple of four.
pub open spec fn font_table_end(f: Seq<u8>, dir: int, i: int) -> int {
    let at = dir + 12 + 16 * i;
    (be32(f, at + 8) + be32(f, at + 12) + 3) / 4 * 4
}

proof fn lemma_sfnt(f: Seq<u8>, avail: int, dir: int, dir_end: int, n: nat, r: int)
    requires
        0 <= dir,
        dir + 12 + n * 16 <= f.len(),
        sfnt_tables(f, avail, dir, dir_end, n) == Some(r),
    ensures
        r >= dir_end,
        forall|k: int| 0 <= k < n ==> #[trigger] font_table_end(f, dir, k) <= r,
        r == dir_end || exists|k: int| 0 <= k < n && #[trigger] font_table_end(f, dir, k) == r,
    decreases n,
{
    if n > 0 {
        let m = (n - 1) as nat;
        let at = dir + 12 + m * 16;
        let e = f.subrange(at, at + 16);
        assert(be32(e, 8) == be32(f, at + 8) && be32(e, 12) == be32(f, at + 12));
        let a = sfnt_tables(f, avail, dir, dir_end, m)->Some_0;
        lemma_sfnt(f, avail, dir, dir_end, m, a);
        assert(font_table_end(f, dir, m as int) <= r);
    }
}

/// A font ends with the last of its tables: it is no shorter than any of them, nor than the directory of as many tables as
/// it says, and no longer than the longest.
pub proof fn law_sfnt(f: Seq<u8>, avail: int, dir: int, n: int, r: int)
    requires
        0 <= dir,
        avail <= f.len(),
        n == 0x100 * f[dir + 4] + f[dir + 5],
        sfnt_end(f, avail, dir) == Some(r),
    ensures
        r >= dir + 12 + 16 * n,
        forall|k: int| 0 <= k < n ==> #[trigger] font_table_end(f, dir, k) <= r,
        r == dir + 12 + 16 * n || exists|k: int| 0 <= k < n && #[trigger] font_table_end(f, dir, k) == r,
        dir == 0 ==> sfnt_len(f, avail) == Some(r),
{
    let h = f.subrange(dir, dir + 12);
    assert(be16(h, 4) == n);
    lemma_sfnt(f, avail, dir, dir + 12 + n * 16, n as nat, r);
}

proof fn lemma_ttc(f: Seq<u8>, avail: int, list_end: int, n: nat, r: int)
    requires
        12 + n * 4 <= f.len(),
        ttc_fonts(f, avail, list_end, n) == Some(r),
    ensures
        r >= list_end,
        forall|k: int|
            0 <= k < n ==> (sfnt_end(f, avail, #[trigger] be32(f, 12 + 4 * k) as int) matches Some(e) && e
                <= r),
        r == list_end || exists|k: int|
            0 <= k < n && sfnt_end(f, avail, #[trigger] be32(f, 12 + 4 * k) as int) == Some(r),
    decreases n,
{
    if n > 0 {
        let m = (n - 1) as nat;
        let at = 12 + 4 * m as int;
        assert(be32(f.subrange(at, at + 4), 0) == be32(f, at));
        let a = ttc_fonts(f, avail, list_end, m)->Some_0;
        lemma_ttc(f, avail, list_end, m, a);
        let last = be32(f, 12 + 4 * m as int);
        assert(sfnt_end(f, avail, last as int) is Some);
    }
}

/// A collection of fonts ends with the last of its fonts: it is no shorter than any of them, and no longer than the longest.
pub proof fn law_ttc(f: Seq<u8>, avail: int, n: int, r: int)
    requires
        12 <= f.len(),
        avail <= f.len(),
        n == be32(f, 8),
        ttc_len(f, avail) == Some(r),
    ensures
        r >= 12 + 4 * n,
        forall|k: int|
            0 <= k < n ==> (sfnt_end(f, avail, #[trigger] be32(f, 12 + 4 * k) as int) matches Some(e) && e
                <= r),
        r == 12 + 4 * n || exists|k: int|
            0 <= k < n && sfnt_end(f, avail, #[trigger] be32(f, 12 + 4 * k) as int) == Some(r),
{
    assert(be32(f.subrange(0, 12), 8) == be32(f, 8));
    lemma_ttc(f, avail, 12 + n * 4, n as nat, r);
}

/// Where the `i`-th table of a PCF font ends.
pub open spec fn pcf_table_end(f: Seq<u8>, i: int) -> int {
    le32(f, 8 + 16 * i + 12) + le32(f, 8 + 16 * i + 8)
}

proof fn lemma_pcf(f: Seq<u8>, n: int, i: int, end: int, r: int)
    requires
        0 <= i <= n,
        8 + n * 16 <= f.len(),
        pcf_tables(f, n, i, end) == Some(r),
    ensures
        r >= end,
        forall|k: int| i <= k < n ==> #[trigger] pcf_table_end(f, k) <= r,
        r == end || exists|k: int| i <= k < n && #[trigger] pcf_table_end(f, k) == r,
    decreases n - i,
{
    if i < n {
        let at = 8 + i * 16;
        let e = f.subrange(at, at + 16);
        assert(le32(e, 12) == le32(f, at + 12) && le32(e, 8) == le32(f, at + 8));
        lemma_pcf(f, n, i + 1, larger(end, pcf_table_end(f, i)), r);
    }
}

/// A PCF font ends with the last of its tables.
pub proof fn law_pcf(f: Seq<u8>, avail: int, n: int, r: int)
    requires
        8 <= f.len(),
        avail <= f.len(),
        n == le32(f, 4),
        f[0] == 1 && f[1] == 0x66 && f[2] == 0x63 && f[3] == 0x70,
        1 <= n <= 64,
        8 + 16 * n <= avail,
    ensures
        pcf_len(f, avail) == Some(r) ==> {
            &&& r >= 8 + 16 * n
            &&& forall|k: int| 0 <= k < n ==> #[trigger] pcf_table_end(f, k) <= r
            &&& r == 8 + 16 * n || exists|k: int| 0 <= k < n && #[trigger] pcf_table_end(f, k) == r
        },
        (forall|k: int|
            0 <= k < n ==> #[trigger] pcf_table_end(f, k) <= avail && le32(f, 8 + 16 * k + 12) >= 8 + 16
                * n) ==> pcf_len(f, avail) is Some,
{
    reveal_strlit("\x01fcp");
    assert(le32(f.subrange(0, 8), 4) == le32(f, 4));
    assert(text_at(f.subrange(0, 8), 0, "\x01fcp"@));
    if pcf_tables(f, n, 0, 8 + n * 16) is Some {
        lemma_pcf(f, n, 0, 8 + n * 16, pcf_tables(f, n, 0, 8 + n * 16)->Some_0);
    } else {
        lemma_pcf_none(f, n, 0, 8 + n * 16);
    }
}

proof fn lemma_pcf_none(f: Seq<u8>, n: int, i: int, end: int)
    requires
        0 <= i <= n,
        8 + n * 16 <= f.len(),
        pcf_tables(f, n, i, end) is None,
    ensures
        exists|k: int| i <= k < n && #[trigger] pcf_table_end(f, k) >= 0 && le32(f, 8 + 16 * k + 12) < 8 + 16
            * n,
    decreases n - i,
{
    let at = 8 + i * 16;
    let e = f.subrange(at, at + 16);
    assert(le32(e, 12) == le32(f, at + 12) && le32(e, 8) == le32(f, at + 8));
    assert(pcf_table_end(f, i) >= 0);
    if le32(e, 12) >= 8 + n * 16 {
        lemma_pcf_none(f, n, i + 1, larger(end, pcf_table_end(f, i)));
    }
}

/// Where the `i`-th entry of an AppleSingle file ends.
pub open spec fn apple_entry_end(f: Seq<u8>, i: int) -> int {
    be32(f, 26 + 12 * i + 4) + be32(f, 26 + 12 * i + 8)
}

proof fn lemma_applesingle(f: Seq<u8>, n: int, i: int, end: int)
    requires
        0 <= i <= n,
        0x1A + n * 12 <= f.len(),
    ensures
        ({
            let r = applesingle_end(f, n, i, end);
            &&& r >= end
            &&& forall|k: int| i <= k < n ==> #[trigger] apple_entry_end(f, k) <= r
            &&& r == end || exists|k: int| i <= k < n && #[trigger] apple_entry_end(f, k) == r
        }),
    decreases n - i,
{
    if i < n {
        let at = 0x1A + i * 12;
        let e = f.subrange(at, at + 12);
        assert(be32(e, 4) == be32(f, at + 4) && be32(e, 8) == be32(f, at + 8));
        lemma_applesingle(f, n, i + 1, larger(end, apple_entry_end(f, i)));
    }
}

/// An AppleSingle file ends with the last of its entries.
pub proof fn law_applesingle(f: Seq<u8>, avail: int, n: int, r: int)
    requires
        26 <= f.len(),
        avail <= f.len(),
        n == 0x100 * f[24] + f[25],
        f[0] == 0 && f[1] == 5 && f[2] == 0x16 && (f[3] == 0 || f[3] == 7),
        f[4] == 0 && (f[5] == 1 || f[5] == 2) && f[6] == 0 && f[7] == 0,
        1 <= n <= 256,
        26 + 12 * n <= avail,
    ensures
        applesingle_len(f, avail) == Some(r) ==> {
            &&& r >= 26 + 12 * n
            &&& forall|k: int| 0 <= k < n ==> #[trigger] apple_entry_end(f, k) <= r
            &&& r == 26 + 12 * n || exists|k: int| 0 <= k < n && #[trigger] apple_entry_end(f, k) == r
        },
        (forall|k: int| 0 <= k < n ==> #[trigger] apple_entry_end(f, k) <= avail) ==> applesingle_len(
            f,
            avail,
        ) is Some,
{
    let h = f.subrange(0, 0x1A);
    assert(h[0] == f[0] && h[1] == f[1] && h[2] == f[2] && h[3] == f[3] && h[4] == f[4] && h[5] == f[5]
        && h[6] == f[6] && h[7] == f[7]);
    assert(be16(f.subrange(0, 0x1A), 0x18) == n);
    lemma_applesingle(f, n, 0, 0x1A + n * 12);
}

} // verus!
