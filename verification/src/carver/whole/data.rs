//! Captures, models and other data that are made as their formats say.

use crate::bytes::{be64, larger, le32, le64, ord32, rounded, text_at};
use crate::carver::data::{
    blend_from, blend_len, glb_chunks, glb_len, gguf_entries, gguf_entry, gguf_len, gguf_tensor,
    gguf_tensors, grib2_end, grib2_len, grib2_message, mcap_from, mcap_len, pcap_from, pcap_len,
    pcap_snap, pcapng_from, pcapng_len,
};
use crate::carver::executables::{wasm_from, wasm_len};
use crate::carver::whole::stepwise;
use crate::varint::{vint_at, vint_from};
use vstd::prelude::*;

verus! {

/// From `a` to `b` there is a packet of a capture: sixteen bytes, which say how many were captured and how many there were,
/// and as many as were captured.
pub open spec fn pcap_step(f: Seq<u8>, be: bool, snap: int, a: int, b: int) -> bool {
    &&& 0 <= a
    &&& a + 16 <= f.len()
    &&& 0 < ord32(f, a + 8, be) <= snap
    &&& ord32(f, a + 8, be) <= ord32(f, a + 12, be)
    &&& b == a + 16 + ord32(f, a + 8, be)
}

proof fn lemma_pcap(f: Seq<u8>, avail: int, be: bool, snap: int, marks: Seq<int>, i: int)
    requires
        0 <= i < marks.len() <= 0x1000_0000,
        stepwise(marks, |a: int, b: int| pcap_step(f, be, snap, a, b)),
        0 <= marks.last() <= avail <= f.len(),
        avail < marks.last() + 16 || ord32(f, marks.last() + 8, be) == 0,
        marks.len() > 1,
    ensures
        pcap_from(f, avail, be, snap, marks[i], i) == Some(marks.last()),
        marks[i] <= marks.last(),
    decreases marks.len() - i,
{
    let a = marks[i];
    let h = f.subrange(a, a + 16);
    if i + 1 < marks.len() {
        let step = |a: int, b: int| pcap_step(f, be, snap, a, b);
        assert(step(marks[i], marks[i + 1]));
        lemma_pcap(f, avail, be, snap, marks, i + 1);
        assert(ord32(h, 8, be) == ord32(f, a + 8, be) && ord32(h, 12, be) == ord32(f, a + 12, be));
    } else if marks.last() + 16 <= avail {
        assert(ord32(h, 8, be) == ord32(f, a + 8, be));
    }
}

/// A capture is found whole: behind its header of 24 bytes there are packets, one after another, which begin at `marks`, in
/// the byte order that the header is in, and none longer than it says, nor than 256 KiB; what follows them is none.
pub proof fn law_pcap(f: Seq<u8>, avail: int, be: bool, snap: int, marks: Seq<int>)
    requires
        24 <= f.len(),
        be ==> f[0] == 0xA1 && f[1] == 0xB2 && (f[2] == 0xC3 && f[3] == 0xD4 || f[2] == 0x3C && f[3]
            == 0x4D),
        !be ==> f[3] == 0xA1 && f[2] == 0xB2 && (f[1] == 0xC3 && f[0] == 0xD4 || f[1] == 0x3C && f[0]
            == 0x4D),
        ord32(f, 16, be) > 0,
        snap == ord32(f, 16, be) || snap == 0x4_0000,
        snap <= ord32(f, 16, be),
        snap <= 0x4_0000,
        2 <= marks.len() <= 0x1000_0000,
        marks[0] == 24,
        stepwise(marks, |a: int, b: int| pcap_step(f, be, snap, a, b)),
        0 <= marks.last() <= avail <= f.len(),
        avail < marks.last() + 16 || ord32(f, marks.last() + 8, be) == 0,
    ensures
        pcap_len(f, avail) == Some(marks.last()),
{
    let h = f.subrange(0, 24);
    assert(h[0] == f[0] && h[1] == f[1] && h[2] == f[2] && h[3] == f[3]);
    assert(ord32(h, 16, be) == ord32(f, 16, be));
    assert(pcap_snap(h, be) == snap);
    lemma_pcap(f, avail, be, snap, marks, 0);
}

/// From `a` to `b` there is a block of a pcapng capture: it has its length, a multiple of four, behind its type, and again
/// at its end.
pub open spec fn pcapng_step(f: Seq<u8>, be: bool, a: int, b: int) -> bool {
    &&& 0 <= a
    &&& b - a >= 12
    &&& (b - a) % 4 == 0
    &&& b <= f.len()
    &&& ord32(f, a + 4, be) == b - a
    &&& ord32(f, b - 4, be) == b - a
}

proof fn lemma_pcapng(f: Seq<u8>, avail: int, be: bool, marks: Seq<int>, i: int)
    requires
        0 <= i < marks.len() <= 0x100_0000,
        stepwise(marks, |a: int, b: int| pcapng_step(f, be, a, b)),
        0 <= marks.last() <= avail <= f.len(),
        avail < marks.last() + 12 || ord32(f, marks.last() + 4, be) < 12,
        marks.len() > 1,
    ensures
        pcapng_from(f, avail, be, marks[i], i) == Some(marks.last()),
        marks[i] <= marks.last(),
    decreases marks.len() - i,
{
    let a = marks[i];
    if i + 1 < marks.len() {
        let step = |a: int, b: int| pcapng_step(f, be, a, b);
        let b = marks[i + 1];
        assert(step(a, b));
        lemma_pcapng(f, avail, be, marks, i + 1);
        assert(ord32(f.subrange(a, a + 8), 4, be) == ord32(f, a + 4, be));
        assert(ord32(f.subrange(b - 4, b), 0, be) == ord32(f, b - 4, be));
    } else if marks.last() + 12 <= avail {
        assert(ord32(f.subrange(a, a + 8), 4, be) == ord32(f, a + 4, be));
    }
}

/// A pcapng capture is found whole: blocks, one after another, which begin at `marks`, in the byte order that the first of
/// them gives; what follows them is none.
pub proof fn law_pcapng(f: Seq<u8>, avail: int, be: bool, marks: Seq<int>)
    requires
        12 <= f.len(),
        f[0] == 0x0A && f[1] == 0x0D && f[2] == 0x0D && f[3] == 0x0A,
        be ==> f[8] == 0x1A && f[9] == 0x2B && f[10] == 0x3C && f[11] == 0x4D,
        !be ==> f[11] == 0x1A && f[10] == 0x2B && f[9] == 0x3C && f[8] == 0x4D,
        2 <= marks.len() <= 0x100_0000,
        marks[0] == 0,
        stepwise(marks, |a: int, b: int| pcapng_step(f, be, a, b)),
        0 <= marks.last() <= avail <= f.len(),
        avail < marks.last() + 12 || ord32(f, marks.last() + 4, be) < 12,
    ensures
        pcapng_len(f, avail) == Some(marks.last()),
{
    let h = f.subrange(0, 12);
    assert(h[0] == f[0] && h[1] == f[1] && h[2] == f[2] && h[3] == f[3] && h[8] == f[8] && h[9] == f[9]
        && h[10] == f[10] && h[11] == f[11]);
    lemma_pcapng(f, avail, be, marks, 0);
}

/// From `a` to `b` there is a record of an MCAP log: what it is, and how many bytes follow its nine.
pub open spec fn mcap_step(f: Seq<u8>, a: int, b: int) -> bool {
    &&& 0 <= a
    &&& a + 9 <= f.len()
    &&& b == a + 9 + le64(f, a + 1)
}

proof fn lemma_mcap(f: Seq<u8>, avail: int, marks: Seq<int>, i: int, left: nat)
    requires
        0 <= i < marks.len() - 1,
        stepwise(marks, |a: int, b: int| mcap_step(f, a, b)),
        forall|k: int| 0 <= k < marks.len() - 2 ==> f[#[trigger] marks[k]] != 0 && f[marks[k]] != 2,
        f[marks[marks.len() - 2]] == 2,
        marks.last() + 8 <= avail <= f.len(),
        marks.len() - 1 - i <= left,
    ensures
        mcap_from(f, avail, marks[i], left) == Some(marks.last() + 8),
        marks[i] < marks.last(),
    decreases marks.len() - i,
{
    let step = |a: int, b: int| mcap_step(f, a, b);
    let a = marks[i];
    assert(step(a, marks[i + 1]));
    let h = f.subrange(a, a + 9);
    assert(h[0] == f[a] && le64(h, 1) == le64(f, a + 1));
    if i + 1 < marks.len() - 1 {
        lemma_mcap(f, avail, marks, i + 1, (left - 1) as nat);
    }
}

/// An MCAP log is found whole: behind eight bytes there are records, one after another, which begin at `marks`, the last of
/// which, and no other, is a footer (2), and eight bytes more.
pub proof fn law_mcap(f: Seq<u8>, avail: int, marks: Seq<int>)
    requires
        2 <= marks.len() <= 100_000_000,
        marks[0] == 8,
        stepwise(marks, |a: int, b: int| mcap_step(f, a, b)),
        forall|k: int| 0 <= k < marks.len() - 2 ==> f[#[trigger] marks[k]] != 0 && f[marks[k]] != 2,
        f[marks[marks.len() - 2]] == 2,
        marks.last() + 8 <= avail <= f.len(),
    ensures
        mcap_len(f, avail) == Some(marks.last() + 8),
{
    lemma_mcap(f, avail, marks, 0, 100_000_000);
}

/// From `a` to `b` there is a GRIB message of the second edition: it gives its length in eight bytes, and ends with four
/// sevens.
pub open spec fn grib2_step(f: Seq<u8>, a: int, b: int) -> bool {
    &&& 0 <= a
    &&& b >= a + 16
    &&& b <= f.len()
    &&& f[a] == 0x47 && f[a + 1] == 0x52 && f[a + 2] == 0x49 && f[a + 3] == 0x42 && f[a + 7] == 2
    &&& be64(f, a + 8) == b - a
    &&& f[b - 4] == 0x37 && f[b - 3] == 0x37 && f[b - 2] == 0x37 && f[b - 1] == 0x37
}

proof fn lemma_grib2(f: Seq<u8>, avail: int, marks: Seq<int>, i: int, left: nat)
    requires
        0 <= i < marks.len(),
        stepwise(marks, |a: int, b: int| grib2_step(f, a, b)),
        0 <= marks.last() <= avail <= f.len(),
        avail < marks.last() + 16 || f[marks.last()] != 0x47,
        marks.len() - 1 - i <= left,
    ensures
        grib2_end(f, avail, marks[i], left) == marks.last(),
        marks[i] <= marks.last(),
    decreases marks.len() - i,
{
    reveal_strlit("GRIB");
    reveal_strlit("7777");
    let a = marks[i];
    let h = f.subrange(a, a + 16);
    if i + 1 < marks.len() {
        let step = |a: int, b: int| grib2_step(f, a, b);
        let b = marks[i + 1];
        assert(step(a, b));
        lemma_grib2(f, avail, marks, i + 1, (left - 1) as nat);
        assert(text_at(h, 0, "GRIB"@));
        assert(text_at(f.subrange(b - 4, b), 0, "7777"@));
        assert(be64(h, 8) == be64(f, a + 8));
        assert(grib2_message(f, avail, a) == Some(b - a));
    } else if marks.last() + 16 <= avail {
        assert(h[0] == f[a]);
        if text_at(h, 0, "GRIB"@) {
            assert(h[0int] == "GRIB"@[0] as u32);
        }
    }
}

/// GRIB data are found whole: messages, one after another, which begin at `marks`, with something else behind them.
pub proof fn law_grib2(f: Seq<u8>, avail: int, marks: Seq<int>)
    requires
        2 <= marks.len() <= 10_000_000,
        marks[0] == 0,
        stepwise(marks, |a: int, b: int| grib2_step(f, a, b)),
        0 < marks.last() <= avail <= f.len(),
        avail < marks.last() + 16 || f[marks.last()] != 0x47,
    ensures
        grib2_len(f, avail) == Some(marks.last()),
{
    lemma_grib2(f, avail, marks, 0, 10_000_000);
}

/// From `a` to `b` there is a chunk of a binary glTF model: how many bytes it has, a multiple of four, behind its eight.
pub open spec fn glb_step(f: Seq<u8>, a: int, b: int) -> bool {
    &&& 0 <= a
    &&& a + 8 <= f.len()
    &&& le32(f, a) % 4 == 0
    &&& b == a + 8 + le32(f, a)
}

proof fn lemma_glb(f: Seq<u8>, marks: Seq<int>, i: int)
    requires
        0 <= i < marks.len(),
        marks[0] == 12,
        stepwise(marks, |a: int, b: int| glb_step(f, a, b)),
        marks.last() <= f.len(),
        f[16] == 0x4A && f[17] == 0x53 && f[18] == 0x4F && f[19] == 0x4E,
        i == 0 || marks[i] > 12,
    ensures
        glb_chunks(f, marks.last(), marks[i]),
        marks[i] <= marks.last(),
    decreases marks.len() - i,
{
    reveal_strlit("JSON");
    if i + 1 < marks.len() {
        let step = |a: int, b: int| glb_step(f, a, b);
        let a = marks[i];
        assert(step(a, marks[i + 1]));
        lemma_glb(f, marks, i + 1);
        let h = f.subrange(a, a + 8);
        assert(le32(h, 0) == le32(f, a));
        if a == 12 {
            assert(text_at(h, 4, "JSON"@));
        }
    }
}

/// A binary glTF model is found whole: behind its header of twelve bytes there are chunks, one after another, which begin at
/// `marks` and make up the length that the header gives; the first is JSON.
pub proof fn law_glb(f: Seq<u8>, avail: int, marks: Seq<int>)
    requires
        20 <= f.len(),
        f[0] == 0x67 && f[1] == 0x6C && f[2] == 0x54 && f[3] == 0x46,
        f[4] == 2 && f[5] == 0 && f[6] == 0 && f[7] == 0,
        2 <= marks.len(),
        marks[0] == 12,
        stepwise(marks, |a: int, b: int| glb_step(f, a, b)),
        le32(f, 8) == marks.last(),
        marks.last() % 4 == 0,
        20 <= marks.last() <= avail <= f.len(),
        f[16] == 0x4A && f[17] == 0x53 && f[18] == 0x4F && f[19] == 0x4E,
    ensures
        glb_len(f, avail) == Some(marks.last()),
{
    reveal_strlit("glTF");
    let h = f.subrange(0, 12);
    assert(text_at(h, 0, "glTF"@));
    assert(le32(h, 8) == le32(f, 8) && le32(h, 4) == 2);
    lemma_glb(f, marks, 0);
}

/// From `a` to `b` there is a block of a Blender file: four letters, how many bytes it has, and `head` bytes with them.
pub open spec fn blend_step(f: Seq<u8>, be: bool, head: int, a: int, b: int) -> bool {
    &&& 0 <= a
    &&& a + head <= f.len()
    &&& b == a + head + ord32(f, a + 4, be)
}

/// The four letters of the last block.
pub open spec fn is_endb(f: Seq<u8>, a: int) -> bool {
    f[a] == 0x45 && f[a + 1] == 0x4E && f[a + 2] == 0x44 && f[a + 3] == 0x42
}

proof fn lemma_blend(f: Seq<u8>, avail: int, be: bool, wide: bool, head: int, marks: Seq<int>, i: int)
    requires
        0 <= i < marks.len() - 1,
        head == if wide {
            24int
        } else {
            20
        },
        stepwise(marks, |a: int, b: int| blend_step(f, be, head, a, b)),
        forall|k: int| 0 <= k < marks.len() - 2 ==> !is_endb(f, #[trigger] marks[k]),
        is_endb(f, marks[marks.len() - 2]),
        marks.last() <= avail <= f.len(),
    ensures
        blend_from(f, avail, be, wide, marks[i]) == Some(marks.last()),
        marks[i] < marks.last(),
    decreases marks.len() - i,
{
    reveal_strlit("ENDB");
    let step = |a: int, b: int| blend_step(f, be, head, a, b);
    let a = marks[i];
    assert(step(a, marks[i + 1]));
    let h = f.subrange(a, a + head);
    assert(ord32(h, 4, be) == ord32(f, a + 4, be));
    assert(h[0] == f[a] && h[1] == f[a + 1] && h[2] == f[a + 2] && h[3] == f[a + 3]);
    if i + 1 < marks.len() - 1 {
        lemma_blend(f, avail, be, wide, head, marks, i + 1);
        assert(!is_endb(f, marks[i]));
        if text_at(h, 0, "ENDB"@) {
            assert(h[0int] == "ENDB"@[0] as u32 && h[1int] == "ENDB"@[1] as u32 && h[2int]
                == "ENDB"@[2] as u32 && h[3int] == "ENDB"@[3] as u32);
        }
    } else {
        assert(text_at(h, 0, "ENDB"@));
    }
}

/// A Blender file is found whole: behind twelve bytes, of which the eighth says how wide its pointers are and the ninth in
/// which order its bytes, there are blocks, one after another, which begin at `marks`; the last is `ENDB`, and no other.
pub proof fn law_blend(f: Seq<u8>, avail: int, head: int, marks: Seq<int>)
    requires
        12 <= f.len(),
        text_at(f.subrange(0, 12), 0, "BLENDER"@),
        f[7] == 0x5F && head == 20 || f[7] == 0x2D && head == 24,
        f[8] == 0x76 || f[8] == 0x56,
        2 <= marks.len(),
        marks[0] == 12,
        stepwise(marks, |a: int, b: int| blend_step(f, f[8] == 0x56, head, a, b)),
        forall|k: int| 0 <= k < marks.len() - 2 ==> !is_endb(f, #[trigger] marks[k]),
        is_endb(f, marks[marks.len() - 2]),
        marks.last() <= avail <= f.len(),
    ensures
        blend_len(f, avail) == Some(marks.last()),
{
    let be = f[8] == 0x56;
    let h = f.subrange(0, 12);
    assert(h[7] == f[7] && h[8] == f[8]);
    assert forall|i: int|
        #![trigger blend_step(f, be, head, marks[i], marks[i + 1])]
        0 <= i < marks.len() - 1 implies blend_step(f, be, head, marks[i], marks[i + 1]) by {
        let step = |a: int, b: int| blend_step(f, f[8] == 0x56, head, a, b);
        assert(step(marks[i], marks[i + 1]));
    }
    lemma_blend(f, avail, be, f[7] == 0x2D, head, marks, 0);
}

proof fn lemma_wasm(f: Seq<u8>, avail: int, marks: Seq<int>, i: int)
    requires
        0 <= i < marks.len() <= 0x1_0000,
        stepwise(marks, |a: int, b: int| wasm_step(f, avail, a, b)),
        0 <= marks.last() <= avail <= f.len(),
        avail == marks.last() || f[marks.last()] > 12,
        marks.len() > 1,
    ensures
        wasm_from(f, avail, marks[i], i) == Some(marks.last()),
        marks[i] <= marks.last(),
    decreases marks.len() - i,
{
    if i + 1 < marks.len() {
        let step = |a: int, b: int| wasm_step(f, avail, a, b);
        assert(step(marks[i], marks[i + 1]));
        lemma_wasm(f, avail, marks, i + 1);
        crate::varint::lemma_vint_width(f, avail, marks[i] + 1, 5, 0, 0);
    }
}

/// From `a` to `b` there is a section of a WebAssembly module: what it is, how many bytes it has, which is not none, and the
/// bytes.
pub open spec fn wasm_step(f: Seq<u8>, avail: int, a: int, b: int) -> bool {
    &&& 0 <= a < avail
    &&& f[a] <= 12
    &&& vint_at(f, avail, a + 1, 5) matches Some((size, n)) && size > 0 && b == a + 1 + n + size
}

/// A WebAssembly module is found whole: behind eight bytes there are sections, one after another, which begin at `marks`,
/// with something else behind them.
pub proof fn law_wasm(f: Seq<u8>, avail: int, marks: Seq<int>)
    requires
        8 <= f.len(),
        f[0] == 0 && f[1] == 0x61 && f[2] == 0x73 && f[3] == 0x6D,
        f[4] == 1 && f[5] == 0 && f[6] == 0 && f[7] == 0,
        2 <= marks.len() <= 0x1_0000,
        marks[0] == 8,
        stepwise(marks, |a: int, b: int| wasm_step(f, avail, a, b)),
        0 <= marks.last() <= avail <= f.len(),
        avail == marks.last() || f[marks.last()] > 12,
    ensures
        wasm_len(f, avail) == Some(marks.last()),
{
    reveal_strlit("\0asm");
    let h = f.subrange(0, 8);
    assert(text_at(h, 0, "\0asm"@));
    assert(le32(h, 4) == 1);
    lemma_wasm(f, avail, marks, 0);
}

/// A base-128 integer of one byte is that byte; one of two bytes has the low seven bits in the first, and one of three in
/// the first and second.
pub proof fn law_vint(f: Seq<u8>, end: int, pos: int, max: int)
    requires
        0 <= pos,
        3 <= max,
        pos + 3 <= end,
    ensures
        f[pos] < 128 ==> vint_at(f, end, pos, max) == Some((f[pos] as u64, 1int)),
        f[pos] >= 128 && f[pos + 1] < 128 ==> vint_at(f, end, pos, max) == Some(
            ((f[pos] - 128 + 128 * f[pos + 1]) as u64, 2int),
        ),
        f[pos] >= 128 && f[pos + 1] >= 128 && f[pos + 2] < 128 ==> vint_at(f, end, pos, max) == Some(
            ((f[pos] - 128 + 128 * (f[pos + 1] - 128) + 16384 * f[pos + 2]) as u64, 3int),
        ),
{
    reveal_with_fuel(vint_from, 4);
    let a = f[pos] % 128;
    let b = f[pos + 1] % 128;
    let c = f[pos + 2] % 128;
    assert(f[pos + 0] == f[pos]);
    let x = a as u64;
    let y = b as u64;
    let z = c as u64;
    let w = (x | (y << 7u64)) as u64;
    assert(0u64 | (x << 0u64) == x && w == x + 128 * y && w | (z << 14u64) == x + 128 * y + 16384 * z) by (
    bit_vector)
        requires
            x < 128,
            y < 128,
            z < 128,
            w == x | (y << 7u64),
    ;
}

proof fn lemma_gguf_entries(f: Seq<u8>, avail: int, marks: Seq<int>, aligns: Seq<int>, i: int)
    requires
        0 <= i < marks.len() == aligns.len(),
        forall|k: int|
            #![trigger gguf_entry(f, avail, marks[k], aligns[k])]
            0 <= k < marks.len() - 1 ==> gguf_entry(f, avail, marks[k], aligns[k]) == Some(
                (marks[k + 1], aligns[k + 1]),
            ),
    ensures
        gguf_entries(f, avail, marks[i], aligns[i], (marks.len() - 1 - i) as nat) == Some(
            (marks.last(), aligns.last()),
        ),
    decreases marks.len() - i,
{
    if i + 1 < marks.len() {
        assert(gguf_entry(f, avail, marks[i], aligns[i]) == Some((marks[i + 1], aligns[i + 1])));
        lemma_gguf_entries(f, avail, marks, aligns, i + 1);
    }
}

proof fn lemma_gguf_tensors(f: Seq<u8>, avail: int, marks: Seq<int>, ends: Seq<int>, i: int, end: int)
    requires
        0 <= i < marks.len() == ends.len() + 1,
        forall|k: int|
            #![trigger gguf_tensor(f, avail, marks[k])]
            0 <= k < ends.len() ==> gguf_tensor(f, avail, marks[k]) == Some((marks[k + 1], ends[k])),
    ensures
        gguf_tensors(f, avail, marks[i], end, (ends.len() - i) as nat) matches Some((p, r)) && {
            &&& p == marks.last()
            &&& r >= end
            &&& forall|k: int| i <= k < ends.len() ==> #[trigger] ends[k] <= r
            &&& r == end || exists|k: int| i <= k < ends.len() && #[trigger] ends[k] == r
        },
    decreases marks.len() - i,
{
    if i < ends.len() {
        assert(gguf_tensor(f, avail, marks[i]) == Some((marks[i + 1], ends[i])));
        lemma_gguf_tensors(f, avail, marks, ends, i + 1, larger(end, ends[i]));
    }
}

/// A GGUF file is found whole: behind its header of 24 bytes there are as many entries and then as many tensor descriptions
/// as it says, one after another; from the next multiple of the alignment on, 32 unless an entry sets another, there are
/// the data, which end with the last of the tensors.
pub proof fn law_gguf(
    f: Seq<u8>,
    avail: int,
    marks: Seq<int>,
    aligns: Seq<int>,
    tensors: Seq<int>,
    ends: Seq<int>,
    data: int,
    len: int,
)
    requires
        24 <= f.len(),
        f[0] == 0x47 && f[1] == 0x47 && f[2] == 0x55 && f[3] == 0x46,
        f[4] == 2 || f[4] == 3,
        f[5] == 0 && f[6] == 0 && f[7] == 0,
        le64(f, 8) == ends.len() <= 0x10_0000,
        le64(f, 16) + 1 == marks.len() <= 0x10_0001,
        aligns.len() == marks.len(),
        tensors.len() == ends.len() + 1,
        marks[0] == 24,
        aligns[0] == 32,
        forall|k: int|
            #![trigger gguf_entry(f, avail, marks[k], aligns[k])]
            0 <= k < marks.len() - 1 ==> gguf_entry(f, avail, marks[k], aligns[k]) == Some(
                (marks[k + 1], aligns[k + 1]),
            ),
        tensors[0] == marks.last(),
        forall|k: int|
            #![trigger gguf_tensor(f, avail, tensors[k])]
            0 <= k < ends.len() ==> gguf_tensor(f, avail, tensors[k]) == Some(
                (tensors[k + 1], ends[k]),
            ),
        aligns.last() > 0,
        data % aligns.last() == 0,
        tensors.last() <= data < tensors.last() + aligns.last(),
        0 <= tensors.last(),
        gguf_len(f, avail) == Some(len),
    ensures
        len >= data,
        forall|k: int| 0 <= k < ends.len() ==> data + #[trigger] ends[k] <= len,
        len == data || exists|k: int| 0 <= k < ends.len() && data + #[trigger] ends[k] == len,
{
    let h = f.subrange(0, 24);
    assert(le64(h, 8) == le64(f, 8) && le64(h, 16) == le64(f, 16));
    lemma_gguf_entries(f, avail, marks, aligns, 0);
    lemma_gguf_tensors(f, avail, tensors, ends, 0, 0);
    lemma_rounded(tensors.last(), aligns.last(), data);
}

proof fn lemma_rounded(n: int, to: int, data: int)
    requires
        to > 0,
        0 <= n,
        data % to == 0,
        n <= data < n + to,
    ensures
        rounded(n, to) == data,
{
    assert((n + to - 1) / to * to == data) by (nonlinear_arith)
        requires
            to > 0,
            data % to == 0,
            n <= data < n + to,
    ;
}

} // verus!
