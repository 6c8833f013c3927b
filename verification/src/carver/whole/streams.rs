//! Further files that are found whole: archives, recordings, containers and documents made of parts.

use crate::bytes::{be64, larger, le16, le32, le64, text_at};
use crate::carver::archives::{ar_from, ar_len, rar5_block, rar5_from, rar_len};
use crate::carver::audio::{amr_frame, amr_from, amr_len};
use crate::carver::data::{
    avro_blocks_end, avro_items_end, avro_len, avro_meta_end, usdc_len, usdc_sections,
};
use crate::carver::documents::{
    cfbf_chain, cfbf_len, cfbf_pointers, cfbf_sector, cfbf_top, cfbf_used,
};
use crate::carver::firmware::{android_sparse_len, sparse_from};
use crate::carver::whole::data::law_vint;
use crate::carver::whole::stepwise;
use crate::source::window;
use crate::text::padded_number_in;
use crate::varint::vint_at;
use vstd::prelude::*;

verus! {

/// From `a` to `b` there is a member of an ar archive: a header of 60 bytes, which gives its size at 48 and ends with a grave
/// accent and a line feed, and its content, filled up to an even number of bytes.
pub open spec fn ar_step(f: Seq<u8>, a: int, b: int) -> bool {
    &&& 0 <= a
    &&& a + 60 <= f.len()
    &&& f[a + 58] == 0x60
    &&& f[a + 59] == 0x0A
    &&& padded_number_in(f.subrange(a + 48, a + 58), 10) matches Some(n) && 0 <= n <= b - a - 60 <= n + 1
    &&& (b - a) % 2 == 0
}

proof fn lemma_ar(f: Seq<u8>, avail: int, marks: Seq<int>, i: int, members: int)
    requires
        stepwise(marks, |a: int, b: int| ar_step(f, a, b)),
        0 <= i < marks.len(),
        marks.last() <= avail <= f.len(),
        marks.last() + 60 > avail,
        members > 0 || i + 1 < marks.len(),
        members >= 0,
    ensures
        ar_from(f, avail, marks[i], members) == Some(marks.last()),
        marks[i] <= marks.last(),
    decreases marks.len() - i,
{
    let step = |a: int, b: int| ar_step(f, a, b);
    if i + 1 < marks.len() {
        assert(step(marks[i], marks[i + 1]));
        lemma_ar(f, avail, marks, i + 1, members + 1);
        let a = marks[i];
        let h = f.subrange(a, a + 60);
        reveal_strlit("`\n");
        assert(text_at(h, 58, "`\n"@));
        assert(h.subrange(48, 58) =~= f.subrange(a + 48, a + 58));
    }
}

/// An ar archive is found whole: eight bytes, and members one after another, which begin at `marks`, with no room for
/// another behind them.
pub proof fn law_ar(f: Seq<u8>, avail: int, marks: Seq<int>)
    requires
        8 <= f.len(),
        f[0] == 0x21 && f[1] == 0x3C && f[2] == 0x61 && f[3] == 0x72 && f[4] == 0x63 && f[5] == 0x68 && f[6] == 0x3E
            && f[7] == 0x0A,
        2 <= marks.len(),
        marks[0] == 8,
        stepwise(marks, |a: int, b: int| ar_step(f, a, b)),
        marks.last() <= avail <= f.len(),
        marks.last() + 60 > avail,
    ensures
        ar_len(f, avail) == Some(marks.last()),
{
    reveal_strlit("!<arch>\n");
    assert(text_at(f.subrange(0, 8), 0, "!<arch>\n"@));
    lemma_ar(f, avail, marks, 0, 0);
}

/// The base-128 integer of three bytes at most at `p`, and how many it has.
pub open spec fn short(f: Seq<u8>, p: int) -> (int, int) {
    if f[p] < 128 {
        (f[p] as int, 1)
    } else if f[p + 1] < 128 {
        (f[p] - 128 + 128 * f[p + 1], 2)
    } else {
        (f[p] - 128 + 128 * (f[p + 1] - 128) + 16384 * f[p + 2], 3)
    }
}

/// There is such an integer at `p`, and three bytes at least before `end`.
pub open spec fn is_short(f: Seq<u8>, end: int, p: int) -> bool {
    &&& 0 <= p
    &&& p + 3 <= end
    &&& f[p] < 128 || f[p + 1] < 128 || f[p + 2] < 128
}

/// From `a` to `b` there is a block of a RAR archive of version 5: four bytes of checksum, and then integers: the size of
/// what follows of its header, its type, its flags, and, if the lowest two of these say so, the size of an extra area, and
/// that of the data behind the header.
pub open spec fn rar5_step(f: Seq<u8>, a: int, b: int) -> bool {
    let size = short(f, a + 4);
    let kind = a + 4 + size.1;
    let flags = kind + short(f, kind).1;
    let extra = flags + short(f, flags).1;
    let data = if short(f, flags).0 % 2 == 1 {
        extra + short(f, extra).1
    } else {
        extra
    };
    &&& is_short(f, f.len() as int, a + 4)
    &&& is_short(f, f.len() as int, kind)
    &&& is_short(f, f.len() as int, flags)
    &&& short(f, flags).0 % 2 == 1 ==> is_short(f, f.len() as int, extra)
    &&& short(f, flags).0 / 2 % 2 == 1 ==> is_short(f, f.len() as int, data)
    &&& b == a + 4 + size.1 + size.0 + if short(f, flags).0 / 2 % 2 == 1 {
        short(f, data).0
    } else {
        0
    }
}

/// The type of the block at `a`.
pub open spec fn rar5_kind(f: Seq<u8>, a: int) -> int {
    short(f, a + 4 + short(f, a + 4).1).0
}

proof fn lemma_short(f: Seq<u8>, end: int, p: int)
    requires
        is_short(f, end, p),
    ensures
        vint_at(f, end, p, 10) == Some((short(f, p).0 as u64, short(f, p).1)),
        0 <= short(f, p).0 < 0x20_0000,
        1 <= short(f, p).1 <= 3,
{
    law_vint(f, end, p, 10);
}

proof fn lemma_rar5_block(f: Seq<u8>, a: int, b: int)
    requires
        rar5_step(f, a, b),
    ensures
        rar5_block(f, a) == Some((rar5_kind(f, a) as u64, b - a)),
        0 <= rar5_kind(f, a) < 0x20_0000,
        a < b,
{
    let n = f.len() as int;
    let kind = a + 4 + short(f, a + 4).1;
    let flags = kind + short(f, kind).1;
    let extra = flags + short(f, flags).1;
    lemma_short(f, n, a + 4);
    lemma_short(f, n, kind);
    lemma_short(f, n, flags);
    if short(f, flags).0 % 2 == 1 {
        lemma_short(f, n, extra);
        if short(f, flags).0 / 2 % 2 == 1 {
            lemma_short(f, n, extra + short(f, extra).1);
        }
    } else if short(f, flags).0 / 2 % 2 == 1 {
        lemma_short(f, n, extra);
    }
}

proof fn lemma_rar5(f: Seq<u8>, avail: int, marks: Seq<int>, i: int, left: nat)
    requires
        stepwise(marks, |a: int, b: int| rar5_step(f, a, b)),
        0 <= i < marks.len() - 1,
        forall|k: int| 0 <= k < marks.len() - 2 ==> rar5_kind(f, #[trigger] marks[k]) != 5,
        rar5_kind(f, marks[marks.len() - 2]) == 5,
        marks.last() <= avail <= f.len(),
        marks.len() - 1 - i <= left,
    ensures
        rar5_from(f, avail, marks[i], left) == Some(marks.last()),
        marks[i] < marks.last(),
    decreases marks.len() - i,
{
    let step = |a: int, b: int| rar5_step(f, a, b);
    assert(step(marks[i], marks[i + 1]));
    lemma_rar5_block(f, marks[i], marks[i + 1]);
    if i + 1 < marks.len() - 1 {
        lemma_rar5(f, avail, marks, i + 1, (left - 1) as nat);
        assert(rar5_kind(f, marks[i]) != 5);
    }
}

/// A RAR archive of version 5 is found whole: behind eight bytes there are blocks, one after another, which begin at `marks`,
/// and the last of them, and no other, has the type 5.
pub proof fn law_rar5(f: Seq<u8>, avail: int, marks: Seq<int>)
    requires
        8 <= f.len(),
        f[0] == 0x52 && f[1] == 0x61 && f[2] == 0x72 && f[3] == 0x21 && f[4] == 0x1A && f[5] == 0x07 && f[6] == 1
            && f[7] == 0,
        2 <= marks.len() <= 0x100_0001,
        marks[0] == 8,
        stepwise(marks, |a: int, b: int| rar5_step(f, a, b)),
        forall|k: int| 0 <= k < marks.len() - 2 ==> rar5_kind(f, #[trigger] marks[k]) != 5,
        rar5_kind(f, marks[marks.len() - 2]) == 5,
        marks.last() <= avail <= f.len(),
    ensures
        rar_len(f, avail) == Some(marks.last()),
{
    reveal_strlit("Rar!\x1a\x07");
    assert(text_at(window(f, 0, 8), 0, "Rar!\x1a\x07"@));
    lemma_rar5(f, avail, marks, 0, 0x100_0000);
}

/// How many bits a frame of AMR has, by its mode: eight rates of speech, and comfort noise.
pub open spec fn amr_bits(mode: int) -> int {
    seq![95int, 103, 118, 134, 148, 159, 204, 244, 39][mode]
}

/// A frame of AMR has one byte, and as many more as its bits need; one without data (15) has no more; the other modes are
/// not used.
pub proof fn law_amr_frame(mode: int)
    requires
        0 <= mode < 16,
    ensures
        mode <= 8 ==> 8 * (amr_frame(mode) - 2) < amr_bits(mode) <= 8 * (amr_frame(mode) - 1),
        mode == 15 ==> amr_frame(mode) == 1,
        8 < mode < 15 ==> amr_frame(mode) == 0,
{
    assert(mode == 0 || mode == 1 || mode == 2 || mode == 3 || mode == 4 || mode == 5 || mode == 6 || mode == 7
        || mode == 8 || mode == 9 || mode == 10 || mode == 11 || mode == 12 || mode == 13 || mode == 14 || mode
        == 15);
}

/// From `a` to `b` there is a frame of AMR: its mode is in four bits of the first byte, of which the highest is zero.
pub open spec fn amr_step(f: Seq<u8>, a: int, b: int) -> bool {
    let mode = f[a] as int / 8;
    &&& 0 <= a
    &&& f[a] < 128
    &&& mode <= 8 || mode == 15
    &&& mode <= 8 ==> 8 * (b - a - 2) < amr_bits(mode) <= 8 * (b - a - 1)
    &&& mode == 15 ==> b == a + 1
}

proof fn lemma_amr(f: Seq<u8>, avail: int, marks: Seq<int>, i: int, frames: int)
    requires
        stepwise(marks, |a: int, b: int| amr_step(f, a, b)),
        0 <= i < marks.len(),
        marks.last() <= avail <= f.len(),
        marks.last() == f.len() || f[marks.last()] >= 128,
        frames > 0 || frames == 0 && i + 1 < marks.len(),
    ensures
        amr_from(f, avail, marks[i], frames) == Some(marks.last()),
        marks[i] <= marks.last(),
    decreases marks.len() - i,
{
    let step = |a: int, b: int| amr_step(f, a, b);
    if i + 1 < marks.len() {
        assert(step(marks[i], marks[i + 1]));
        law_amr_frame(f[marks[i]] as int / 8);
        lemma_amr(f, avail, marks, i + 1, frames + 1);
    }
}

/// An AMR recording is found whole: six bytes, and frames one after another, which begin at `marks`, up to the end or to what
/// is no frame.
pub proof fn law_amr(f: Seq<u8>, avail: int, marks: Seq<int>)
    requires
        2 <= marks.len(),
        marks[0] == 6,
        stepwise(marks, |a: int, b: int| amr_step(f, a, b)),
        marks.last() <= avail <= f.len(),
        marks.last() == f.len() || f[marks.last()] >= 128,
    ensures
        amr_len(f, avail) == Some(marks.last()),
{
    lemma_amr(f, avail, marks, 0, 0);
}

/// From `a` to `b` there is a chunk of an Android sparse image, with a header of `head` bytes: its whole size is at 8.
pub open spec fn sparse_step(f: Seq<u8>, head: int, a: int, b: int) -> bool {
    &&& 0 <= a
    &&& b == a + le32(f, a + 8)
    &&& b >= a + head
}

proof fn lemma_sparse(f: Seq<u8>, avail: int, head: int, marks: Seq<int>, i: int)
    requires
        stepwise(marks, |a: int, b: int| sparse_step(f, head, a, b)),
        0 <= i < marks.len(),
        12 <= head,
        marks.last() <= avail <= f.len(),
    ensures
        sparse_from(f, avail, head, marks[i], (marks.len() - 1 - i) as nat) == Some(marks.last()),
        marks[i] <= marks.last(),
    decreases marks.len() - i,
{
    let step = |a: int, b: int| sparse_step(f, head, a, b);
    if i + 1 < marks.len() {
        assert(step(marks[i], marks[i + 1]));
        lemma_sparse(f, avail, head, marks, i + 1);
        let a = marks[i];
        assert(le32(f.subrange(a, a + 12), 8) == le32(f, a + 8));
    }
}

/// An Android sparse image is found whole: a header of the length that it gives at 8, and as many chunks as it gives at 20,
/// which begin at `marks`.
pub proof fn law_android_sparse(f: Seq<u8>, avail: int, marks: Seq<int>)
    requires
        28 <= f.len(),
        f[0] == 0x3A && f[1] == 0xFF && f[2] == 0x26 && f[3] == 0xED,
        28 <= le16(f, 8) <= 256,
        12 <= le16(f, 10) <= 64,
        marks.len() == le32(f, 20) + 1,
        marks[0] == le16(f, 8),
        stepwise(marks, |a: int, b: int| sparse_step(f, le16(f, 10) as int, a, b)),
        marks.last() <= avail <= f.len(),
    ensures
        android_sparse_len(f, avail) == Some(marks.last()),
{
    let h = f.subrange(0, 28);
    assert(le32(h, 0) == 0xED26_FF3A && le16(h, 8) == le16(f, 8) && le16(h, 10) == le16(f, 10) && le32(h, 0x14)
        == le32(f, 20));
    lemma_sparse(f, avail, le16(f, 10) as int, marks, 0);
}

/// From `a` to `b` there is a string of an Avro file: its length, doubled, as a base-128 integer, and so many bytes.
pub open spec fn avro_item(f: Seq<u8>, end: int, a: int, b: int) -> bool {
    &&& is_short(f, end, a)
    &&& short(f, a).0 % 2 == 0
    &&& 2 * (b - a - short(f, a).1) == short(f, a).0
}

proof fn lemma_avro_strings(f: Seq<u8>, avail: int, marks: Seq<int>, i: int)
    requires
        stepwise(marks, |a: int, b: int| avro_item(f, avail, a, b)),
        0 <= i < marks.len(),
        marks.last() <= avail <= f.len(),
    ensures
        avro_items_end(f, avail, marks[i], (marks.len() - 1 - i) as nat) == Some(marks.last()),
        marks[i] <= marks.last(),
    decreases marks.len() - i,
{
    let step = |a: int, b: int| avro_item(f, avail, a, b);
    if i + 1 < marks.len() {
        assert(step(marks[i], marks[i + 1]));
        law_vint(f, avail, marks[i], 10);
        lemma_avro_strings(f, avail, marks, i + 1);
    }
}

/// From `a` to `b` there is a block of an Avro file: how many objects it has, how many bytes, these bytes, and the sixteen
/// bytes that stand at `sync` too.
pub open spec fn avro_block(f: Seq<u8>, end: int, sync: int, a: int, b: int) -> bool {
    &&& is_short(f, end, a)
    &&& avro_item(f, end, a + short(f, a).1, b - 16)
    &&& forall|i: int| 0 <= i < 16 ==> f[#[trigger] (sync + i)] == f[b - 16 + i]
}

proof fn lemma_avro_blocks(f: Seq<u8>, avail: int, sync: int, marks: Seq<int>, i: int)
    requires
        stepwise(marks, |a: int, b: int| avro_block(f, avail, sync, a, b)),
        0 <= i < marks.len(),
        marks.last() == avail <= f.len(),
        0 <= sync,
        sync + 16 <= avail,
    ensures
        avro_blocks_end(f, avail, f.subrange(sync, sync + 16), marks[i]) == avail,
        marks[i] <= marks.last(),
    decreases marks.len() - i,
{
    let step = |a: int, b: int| avro_block(f, avail, sync, a, b);
    if i + 1 < marks.len() {
        let a = marks[i];
        let b = marks[i + 1];
        assert(step(a, b));
        lemma_avro_blocks(f, avail, sync, marks, i + 1);
        law_vint(f, avail, a, 10);
        law_vint(f, avail, a + short(f, a).1, 10);
        assert(f.subrange(b - 16, b) =~= f.subrange(sync, sync + 16)) by {
            let x = f.subrange(b - 16, b);
            let y = f.subrange(sync, sync + 16);
            assert forall|k: int| 0 <= k < 16 implies x[k] == y[k] by {
                assert(f[sync + k] == f[b - 16 + k]);
            }
        }
        assert(f.subrange(b - 16, b - 16 + 16) =~= f.subrange(b - 16, b));
    }
}

/// An Avro file is found whole: four bytes, how many pairs of strings there are, doubled, these strings, which begin at
/// `items`, a zero, sixteen bytes, and blocks up to the end, which begin at `marks`.
pub proof fn law_avro(f: Seq<u8>, avail: int, items: Seq<int>, marks: Seq<int>)
    requires
        8 <= avail <= f.len(),
        f[0] == 0x4F && f[1] == 0x62 && f[2] == 0x6A && f[3] == 1,
        0 < f[4] < 128,
        f[4] % 2 == 0,
        items.len() == f[4] + 1,
        items[0] == 5,
        stepwise(items, |a: int, b: int| avro_item(f, avail, a, b)),
        f[items.last()] == 0,
        marks.len() > 0,
        marks[0] == items.last() + 17,
        items.last() + 17 <= avail,
        stepwise(marks, |a: int, b: int| avro_block(f, avail, items.last() + 1, a, b)),
        marks.last() == avail,
    ensures
        avro_len(f, avail) == Some(avail),
{
    reveal_strlit("Obj\x01");
    assert(text_at(f.subrange(0, 4), 0, "Obj\x01"@));
    law_vint(f, avail, 4, 10);
    lemma_avro_strings(f, avail, items, 0);
    let p = items.last();
    law_vint(f, avail, p, 10);
    reveal_with_fuel(avro_meta_end, 3);
    assert(avro_meta_end(f, avail, p) == Some(p + 1));
    assert(avro_meta_end(f, avail, 4) == Some(p + 1));
    lemma_avro_blocks(f, avail, p + 1, marks, 0);
}

/// Where the `i`-th section of a USD crate file ends.
pub open spec fn usdc_past(f: Seq<u8>, toc: int, i: int) -> int {
    le64(f, toc + 8 + 32 * i + 16) + le64(f, toc + 8 + 32 * i + 24)
}

proof fn lemma_usdc(f: Seq<u8>, avail: int, toc: int, n: int, i: int, end: int)
    requires
        0 <= i <= n,
        0 <= toc,
        toc + 8 + 32 * n <= avail <= f.len(),
        avail < u64::MAX,
    ensures
        usdc_sections(f, avail, toc, n, i, end) matches Some(r) && {
            &&& r >= end
            &&& forall|k: int| i <= k < n ==> r >= #[trigger] usdc_past(f, toc, k) || r > avail
            &&& r == end || r > avail || exists|k: int| i <= k < n && r == #[trigger] usdc_past(f, toc, k)
        },
    decreases n - i,
{
    if i < n {
        let at = toc + 8 + i * 32;
        let e = f.subrange(at, at + 32);
        assert(le64(e, 16) == le64(f, at + 16) && le64(e, 24) == le64(f, at + 24));
        lemma_usdc(f, avail, toc, n, i + 1, larger(end, crate::bytes::capped(usdc_past(f, toc, i))));
    }
}

/// A USD crate file reaches to the end of its table of contents and of each of the sections there, and ends with one of
/// these.
pub proof fn law_usdc(f: Seq<u8>, avail: int, toc: int, n: int, r: int)
    requires
        0x18 <= f.len(),
        toc == le64(f, 0x10),
        toc + 8 + 32 * n <= avail <= f.len(),
        n == le64(f, toc),
        avail < u64::MAX,
        usdc_len(f, avail) == Some(r),
    ensures
        r >= toc + 8 + 32 * n,
        forall|k: int| 0 <= k < n ==> r >= #[trigger] usdc_past(f, toc, k),
        r == toc + 8 + 32 * n || exists|k: int| 0 <= k < n && r == #[trigger] usdc_past(f, toc, k),
{
    let h = f.subrange(0, 0x18);
    assert(le64(h, 0x10) == le64(f, 0x10));
    assert(le64(f.subrange(toc, toc + 8), 0) == le64(f, toc));
    lemma_usdc(f, avail, toc, n, 0, toc + 8 + n * 32);
}

/// What the allocation table of a compound file, which is in the sectors `fat`, says of the sector `s`; there are `per` entries
/// in each sector.
pub open spec fn cfbf_entry(f: Seq<u8>, per: int, fat: Seq<u32>, s: int) -> u32 {
    le32(f, (fat[s / per] + 1) * (4 * per) + 4 * (s % per))
}

proof fn lemma_cfbf_pointers(f: Seq<u8>, h: Seq<u8>, fat: Seq<u32>, n: nat)
    requires
        512 <= f.len(),
        h == f.subrange(0, 512),
        fat.len() <= 109,
        n <= 109,
        forall|i: int| 0 <= i < fat.len() ==> #[trigger] fat[i] == le32(f, 76 + 4 * i) && fat[i] < 0xFFFF_FFFE,
        forall|i: int| fat.len() <= i < 109 ==> #[trigger] le32(f, 76 + 4 * i) == 0xFFFF_FFFF,
    ensures
        cfbf_pointers(h, 76, n) == if n <= fat.len() {
            fat.take(n as int)
        } else {
            fat
        },
    decreases n,
{
    if n > 0 {
        let i = n - 1;
        lemma_cfbf_pointers(f, h, fat, i as nat);
        assert(le32(h, 76 + i * 4) == le32(f, 76 + 4 * i));
        if n <= fat.len() {
            assert(fat[i] == le32(f, 76 + 4 * i));
            assert(fat.take(i).push(fat[i]) =~= fat.take(n as int));
        } else {
            assert(le32(f, 76 + 4 * i) == 0xFFFF_FFFF);
            if i == fat.len() {
                assert(fat.take(i) =~= fat);
            }
        }
    } else {
        assert(fat.take(0) =~= Seq::<u32>::empty());
    }
}

proof fn lemma_cfbf_top(s: Seq<u8>, base: int, n: nat, top: int, j: int)
    requires
        -1 <= j < n,
        forall|i: int| j < i < n ==> #[trigger] le32(s, 4 * i) == 0xFFFF_FFFF,
        j >= 0 ==> le32(s, 4 * j) != 0xFFFF_FFFF,
    ensures
        cfbf_top(s, base, n, top) == if j >= 0 {
            base + j
        } else {
            top
        },
    decreases n,
{
    if n > 0 {
        if j < n - 1 {
            assert(le32(s, 4 * (n - 1)) == 0xFFFF_FFFF);
            lemma_cfbf_top(s, base, (n - 1) as nat, top, j);
        }
    } else {
        assert(j == -1);
    }
}

proof fn lemma_cfbf_used(f: Seq<u8>, per: int, fat: Seq<u32>, top: int, k: nat)
    requires
        0 < per,
        k <= fat.len(),
        0 <= top < per * fat.len(),
        forall|i: int|
            0 <= i < fat.len() ==> (#[trigger] fat[i] + 1) * (4 * per) + 4 * per <= f.len(),
        cfbf_entry(f, per, fat, top) != 0xFFFF_FFFF,
        forall|s: int| top < s < per * fat.len() ==> #[trigger] cfbf_entry(f, per, fat, s) == 0xFFFF_FFFF,
    ensures
        cfbf_used(f, 4 * per, fat, k) is Some,
        k * per > top ==> cfbf_used(f, 4 * per, fat, k) == Some(top),
    decreases k,
{
    if k > 0 {
        let b = k - 1;
        lemma_cfbf_used(f, per, fat, top, b as nat);
        assert((fat[b] + 1) * (4 * per) + 4 * per <= f.len());
        assert(0 <= (fat[b] + 1) * (4 * per)) by (nonlinear_arith)
            requires
                per > 0,
                fat[b] >= 0,
        ;
        let sector = cfbf_sector(f, 4 * per, fat[b]);
        let at = (fat[b] + 1) * (4 * per);
        assert((4 * per) / 4 == per);
        assert(k * per == b * per + per) by (nonlinear_arith)
            requires
                k == b + 1,
        ;
        assert(k * per <= per * fat.len()) by (nonlinear_arith)
            requires
                k <= fat.len(),
                per > 0,
        ;
        assert(b * per >= 0) by (nonlinear_arith)
            requires
                b >= 0,
                per > 0,
        ;
        if k * per > top {
            let j = if top >= b * per {
                top - b * per
            } else {
                -1
            };
            assert forall|i: int| j < i < per && i >= 0 implies #[trigger] le32(sector, 4 * i) == 0xFFFF_FFFF by {
                let s = b * per + i;
                assert(s / per == b && s % per == i) by (nonlinear_arith)
                    requires
                        s == b * per + i,
                        0 <= i < per,
                ;
                assert(cfbf_entry(f, per, fat, s) == 0xFFFF_FFFF);
                assert(le32(sector, 4 * i) == le32(f, at + 4 * i));
            }
            if j >= 0 {
                assert(top / per == b && top % per == j) by (nonlinear_arith)
                    requires
                        top == b * per + j,
                        0 <= j < per,
                ;
                assert(le32(sector, 4 * j) == le32(f, at + 4 * j));
            }
            let was = cfbf_used(f, 4 * per, fat, b as nat)->Some_0;
            lemma_cfbf_top(sector, b * per, per as nat, was, j);
        }
    }
}

/// A compound file reaches to the end of the last sector that its allocation table does not call free: behind the header, which
/// has the place of a sector, come the sectors 0, 1 and so on. The table is in the sectors that the header lists.
pub proof fn law_cfbf(f: Seq<u8>, avail: int, per: int, fat: Seq<u32>, top: int)
    requires
        512 <= f.len(),
        f[0] == 0xD0 && f[1] == 0xCF && f[2] == 0x11 && f[3] == 0xE0 && f[4] == 0xA1 && f[5] == 0xB1 && f[6] == 0x1A
            && f[7] == 0xE1,
        le16(f, 28) == 0xFFFE,
        le16(f, 30) == 9 && 4 * per == 512 || le16(f, 30) == 12 && 4 * per == 4096,
        0 < fat.len() <= 109,
        fat.len() == le32(f, 44),
        fat.len() <= avail / (4 * per) + 2,
        le32(f, 68) == 0xFFFF_FFFE,
        forall|i: int| 0 <= i < fat.len() ==> #[trigger] fat[i] == le32(f, 76 + 4 * i) && fat[i] < 0xFFFF_FFFE,
        forall|i: int| fat.len() <= i < 109 ==> #[trigger] le32(f, 76 + 4 * i) == 0xFFFF_FFFF,
        forall|i: int|
            0 <= i < fat.len() ==> (#[trigger] fat[i] + 1) * (4 * per) + 4 * per <= f.len(),
        0 <= top < per * fat.len(),
        cfbf_entry(f, per, fat, top) != 0xFFFF_FFFF,
        forall|s: int| top < s < per * fat.len() ==> #[trigger] cfbf_entry(f, per, fat, s) == 0xFFFF_FFFF,
        4 * per + 4 * per * (top + 1) <= avail,
    ensures
        cfbf_len(f, avail) == Some(4 * per + 4 * per * (top + 1)),
{
    let h = f.subrange(0, 512);
    assert(be64(h, 0) == 0xD0CF_11E0_A1B1_1AE1) by {
        assert(h[0] == 0xD0 && h[1] == 0xCF && h[2] == 0x11 && h[3] == 0xE0 && h[4] == 0xA1 && h[5] == 0xB1 && h[6]
            == 0x1A && h[7] == 0xE1);
    }
    assert(le16(h, 28) == le16(f, 28) && le16(h, 30) == le16(f, 30) && le32(h, 44) == le32(f, 44) && le32(h, 68)
        == le32(f, 68));
    lemma_cfbf_pointers(f, h, fat, 109);
    assert(fat.take(fat.len() as int) =~= fat);
    let table = cfbf_pointers(h, 76, 109);
    assert(table == fat);
    assert(cfbf_chain(f, 4 * per, le32(h, 68), le32(h, 72) as nat, fat) == Some(fat));
    assert(fat.len() * per == per * fat.len()) by (nonlinear_arith);
    lemma_cfbf_used(f, per, fat, top, fat.len());
    assert((top + 2) * (4 * per) == 4 * per + 4 * per * (top + 1)) by (nonlinear_arith);
}

} // verus!
