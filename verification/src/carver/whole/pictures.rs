//! Pictures and textures that are found whole.

use crate::bytes::{be16, be32, be64, ceil, larger, le16, le32, le64, ord32, text_at};
use crate::carver::images::{
    ico_image, ico_images, icocur_len, psd_counts, psd_data_at, psd_data_end, psd_len,
};
use crate::carver::textures::{
    blp_len, blp_levels, dds_len, ktx1_from, ktx1_len, ktx2_levels, ktx2_len, mip_chain, qoi_from,
    qoi_len,
};
use crate::carver::whole::stepwise;
use vstd::prelude::*;

verus! {

/// The picture that the `k`-th entry of an icon file gives: a bitmap, or a PNG, that begins behind the entries.
pub open spec fn ico_part(f: Seq<u8>, avail: int, n: int, k: int) -> bool {
    let at = 6 + 16 * k;
    let bits = le16(f, at + 6);
    let from = le32(f, at + 12) as int;
    &&& f[at + 3] == 0
    &&& le16(f, at + 4) <= 1
    &&& bits == 0 || bits == 1 || bits == 4 || bits == 8 || bits == 16 || bits == 24 || bits == 32
    &&& le32(f, at + 8) > 0
    &&& from >= 6 + 16 * n
    &&& from + 8 <= avail
    &&& {
        let size = le32(f, from);
        ||| size == 12 || size == 40 || size == 52 || size == 56 || size == 108 || size == 124
        ||| f[from] == 0x89 && f[from + 1] == 0x50 && f[from + 2] == 0x4E && f[from + 3] == 0x47 && f[from + 4]
            == 0x0D && f[from + 5] == 0x0A && f[from + 6] == 0x1A && f[from + 7] == 0x0A
    }
}

/// Where the picture of the `k`-th entry of an icon file ends.
pub open spec fn ico_past(f: Seq<u8>, k: int) -> int {
    le32(f, 6 + 16 * k + 12) + le32(f, 6 + 16 * k + 8)
}

proof fn lemma_ico(f: Seq<u8>, avail: int, n: int, k: nat)
    requires
        avail <= f.len(),
        6 + 16 * n <= avail,
        k <= n,
        forall|i: int| 0 <= i < n ==> #[trigger] ico_part(f, avail, n, i),
    ensures
        ico_images(f, avail, 6 + n * 16, k) matches Some(r) && {
            &&& r >= 6 + 16 * n
            &&& forall|i: int| 0 <= i < k ==> r >= #[trigger] ico_past(f, i)
            &&& r == 6 + 16 * n || exists|i: int| 0 <= i < k && r == #[trigger] ico_past(f, i)
        },
    decreases k,
{
    if k > 0 {
        let i = k - 1;
        lemma_ico(f, avail, n, (k - 1) as nat);
        assert(ico_part(f, avail, n, i));
        let at = 6 + i * 16;
        let e = f.subrange(at, at + 16);
        assert(le16(e, 4) == le16(f, at + 4) && le16(e, 6) == le16(f, at + 6) && le32(e, 8) == le32(f, at + 8)
            && le32(e, 12) == le32(f, at + 12) && e[3] == f[at + 3]);
        let from = le32(e, 12) as int;
        let d = f.subrange(from, from + 8);
        assert(le32(d, 0) == le32(f, from));
        reveal_strlit("\u{89}PNG\r\n\u{1a}\n");
        assert(ico_image(d)) by {
            if f[from] == 0x89 && f[from + 1] == 0x50 {
                if !ico_image(d) {
                    let t = "\u{89}PNG\r\n\u{1a}\n"@;
                    assert(d[0] == t[0] as u32 && d[1] == t[1] as u32 && d[2] == t[2] as u32 && d[3] == t[3] as u32
                        && d[4] == t[4] as u32 && d[5] == t[5] as u32 && d[6] == t[6] as u32 && d[7]
                        == t[7] as u32);
                    assert(text_at(d, 0, t));
                }
            }
        }
        let r0 = ico_images(f, avail, 6 + n * 16, (k - 1) as nat)->Some_0;
        let r = ico_images(f, avail, 6 + n * 16, k)->Some_0;
        assert(ico_past(f, i) == le32(e, 12) + le32(e, 8));
        assert(r == larger(r0, ico_past(f, i)));
    }
}

/// An icon or a cursor file reaches to the end of the last of its pictures; it is no shorter than any of them ends.
pub proof fn law_ico(f: Seq<u8>, avail: int, n: int, end: int)
    requires
        6 <= f.len(),
        f[0] == 0 && f[1] == 0 && (f[2] == 1 || f[2] == 2) && f[3] == 0,
        n == f[4] + 0x100 * f[5],
        1 <= n <= 1024,
        6 + 16 * n <= avail <= f.len(),
        forall|i: int| 0 <= i < n ==> #[trigger] ico_part(f, avail, n, i),
        forall|i: int| 0 <= i < n ==> end >= #[trigger] ico_past(f, i),
        exists|i: int| 0 <= i < n && end == #[trigger] ico_past(f, i),
        end <= avail,
    ensures
        icocur_len(f, avail) == Some(end),
{
    let h = f.subrange(0, 6);
    assert(le16(h, 0) == 0 && (le16(h, 2) == 1 || le16(h, 2) == 2) && le16(h, 4) == n);
    lemma_ico(f, avail, n, n as nat);
    let i = choose|i: int| 0 <= i < n && end == #[trigger] ico_past(f, i);
    assert(ico_part(f, avail, n, i));
}

/// The sections of a Photoshop document: from `a` on the image resources, from `b` the layers, and from `c` the picture. Each
/// of them, like the colours before them, begins with its length, in four bytes, or in eight in the case of the layers
/// of a large document.
pub open spec fn psd_sections(f: Seq<u8>, a: int, b: int, c: int) -> bool {
    &&& a == 30 + be32(f, 26)
    &&& b == a + 4 + be32(f, a)
    &&& c == b + if be16(f, 4) == 2 {
        8 + be64(f, b)
    } else {
        4 + be32(f, b)
    }
}

/// A Photoshop document of `channels` channels with `rows` rows each of `width` pixels.
pub open spec fn is_psd(f: Seq<u8>, channels: int, rows: int, width: int) -> bool {
    &&& f[0] == 0x38 && f[1] == 0x42 && f[2] == 0x50 && f[3] == 0x53
    &&& be16(f, 4) == 1 || be16(f, 4) == 2
    &&& channels == be16(f, 12)
    &&& 1 <= channels <= 56
    &&& rows == be32(f, 14)
    &&& rows > 0
    &&& width == be32(f, 18)
    &&& width > 0
}

proof fn lemma_psd(f: Seq<u8>, avail: int, a: int, b: int, c: int, channels: int, rows: int, width: int)
    requires
        psd_sections(f, a, b, c),
        is_psd(f, channels, rows, width),
        c + 2 <= avail <= f.len(),
        be16(f, 22) == 1 || be16(f, 22) == 8 || be16(f, 22) == 16 || be16(f, 22) == 32,
    ensures
        psd_data_at(f, avail, be16(f, 4)) == Some(c),
        psd_len(f, avail) == match psd_data_end(f, f.subrange(0, 26), c) {
            None => None,
            Some(end) => crate::bytes::fit(end, avail),
        },
        be16(f.subrange(0, 26), 4) == be16(f, 4),
        be16(f.subrange(0, 26), 12) == channels,
        be32(f.subrange(0, 26), 14) == rows,
        be32(f.subrange(0, 26), 18) == width,
        be16(f.subrange(0, 26), 22) == be16(f, 22),
{
    let h = f.subrange(0, 26);
    reveal_strlit("8BPS");
    assert(text_at(h, 0, "8BPS"@));
    assert(be32(f.subrange(26, 30), 0) == be32(f, 26));
    assert(be32(f.subrange(a, a + 4), 0) == be32(f, a));
    assert(be32(f.subrange(b, b + 4), 0) == be32(f, b));
    if be16(f, 4) == 2 {
        assert(be64(f.subrange(b, b + 8), 0) == be64(f, b));
    }
}

/// A document whose picture is stored as it is (0) has two bytes before it, and then all rows of all its channels: a bit, or
/// one, two or four bytes for each pixel, and each row in whole bytes.
pub proof fn law_psd_raw(
    f: Seq<u8>,
    avail: int,
    a: int,
    b: int,
    c: int,
    channels: int,
    rows: int,
    width: int,
    row: int,
)
    requires
        psd_sections(f, a, b, c),
        is_psd(f, channels, rows, width),
        c + 2 <= avail <= f.len(),
        f[c] == 0 && f[c + 1] == 0,
        ({
            ||| be16(f, 22) == 1 && 8 * (row - 1) < width <= 8 * row
            ||| be16(f, 22) == 8 && row == width
            ||| be16(f, 22) == 16 && row == 2 * width
            ||| be16(f, 22) == 32 && row == 4 * width
        }),
    ensures
        ({
            let end = c + 2 + row * (rows * channels);
            &&& end <= avail ==> psd_len(f, avail) == Some(end)
            &&& end > avail ==> psd_len(f, avail) is None
        }),
{
    lemma_psd(f, avail, a, b, c, channels, rows, width);
    assert(be16(f.subrange(c, c + 2), 0) == 0);
    let h = f.subrange(0, 26);
    assert(crate::carver::images::psd_row(width, be16(f, 22) as int) == row);
    assert(psd_data_end(f, h, c) == Some(c + 2 + row * (rows * channels)));
}

/// The packed rows of a picture, which begin at `marks`, are as long as the table before them says.
pub open spec fn psd_packed(f: Seq<u8>, table: int, wide: bool, marks: Seq<int>) -> bool {
    forall|k: int, j: int|
        #![trigger marks[k], marks[j]]
        0 <= k && j == k + 1 && j < marks.len() ==> marks[j] == marks[k] + if wide {
            be32(f, table + 4 * k) as int
        } else {
            be16(f, table + 2 * k) as int
        }
}

proof fn lemma_psd_counts(f: Seq<u8>, table: int, wide: bool, marks: Seq<int>, n: nat, size: int)
    requires
        psd_packed(f, table, wide, marks),
        n < marks.len(),
        0 <= table,
        size == (marks.len() - 1) * if wide {
            4int
        } else {
            2int
        },
        table + size <= f.len(),
    ensures
        psd_counts(f.subrange(table, table + size), wide, n) == marks[n as int] - marks[0],
    decreases n,
{
    if n > 0 {
        let k = n - 1;
        lemma_psd_counts(f, table, wide, marks, (n - 1) as nat, size);
        let c = f.subrange(table, table + size);
        if wide {
            assert(be32(c, 4 * k) == be32(f, table + 4 * k));
        } else {
            assert(be16(c, 2 * k) == be16(f, table + 2 * k));
        }
        assert(marks[k + 1] - marks[k] == if wide {
            be32(f, table + 4 * k) as int
        } else {
            be16(f, table + 2 * k) as int
        });
    }
}

/// A document whose picture is packed row by row (1) has, behind two bytes, a table of the lengths of all rows, and then the
/// rows, one after another.
pub proof fn law_psd_packed(
    f: Seq<u8>,
    avail: int,
    a: int,
    b: int,
    c: int,
    channels: int,
    rows: int,
    width: int,
    marks: Seq<int>,
)
    requires
        psd_sections(f, a, b, c),
        is_psd(f, channels, rows, width),
        be16(f, 22) == 1 || be16(f, 22) == 8 || be16(f, 22) == 16 || be16(f, 22) == 32,
        f[c] == 0 && f[c + 1] == 1,
        marks.len() == rows * channels + 1,
        marks.len() <= 0x100_0000,
        marks[0] == c + 2 + (rows * channels) * if be16(f, 4) == 2 {
            4int
        } else {
            2int
        },
        marks[0] <= avail,
        psd_packed(f, c + 2, be16(f, 4) == 2, marks),
        marks.last() <= avail <= f.len(),
    ensures
        psd_len(f, avail) == Some(marks.last()),
{
    let n = rows * channels;
    assert(n >= 1) by (nonlinear_arith)
        requires
            rows >= 1,
            channels >= 1,
            n == rows * channels,
    ;
    lemma_psd(f, avail, a, b, c, channels, rows, width);
    assert(be16(f.subrange(c, c + 2), 0) == 1);
    let size = n * if be16(f, 4) == 2 {
        4int
    } else {
        2int
    };
    lemma_psd_counts(f, c + 2, be16(f, 4) == 2, marks, n as nat, size);
}

/// The levels of a texture, `ws[k]` wide and `hs[k]` high: both sides are halved from level to level, but none is less than
/// one. They begin at `marks`, one behind the other: a level has `unit` bytes for each pixel, or for each square of four
/// by four of them if it is compressed.
pub open spec fn are_levels(ws: Seq<int>, hs: Seq<int>, unit: int, blocked: bool, marks: Seq<int>) -> bool {
    &&& ws.len() == hs.len() == marks.len()
    &&& forall|k: int, j: int|
        #![trigger marks[k], marks[j]]
        0 <= k && j == k + 1 && j < marks.len() ==> {
            &&& ws[j] == larger(ws[k] / 2, 1)
            &&& hs[j] == larger(hs[k] / 2, 1)
            &&& marks[j] == marks[k] + if blocked {
                ((ws[k] + 3) / 4) * ((hs[k] + 3) / 4) * unit
            } else {
                ws[k] * hs[k] * unit
            }
        }
}

proof fn lemma_mips(
    w: int,
    h: int,
    unit: int,
    blocked: bool,
    ws: Seq<int>,
    hs: Seq<int>,
    marks: Seq<int>,
    k: int,
)
    requires
        are_levels(ws, hs, unit, blocked, marks),
        0 <= k < marks.len(),
        0 <= w,
        0 <= h,
        ws[k] == larger(w, 1),
        hs[k] == larger(h, 1),
    ensures
        mip_chain(w, h, unit, blocked, (marks.len() - 1 - k) as nat) == marks.last() - marks[k],
    decreases marks.len() - k,
{
    if k + 1 < marks.len() {
        let j = k + 1;
        assert(marks[j] - marks[k] == if blocked {
            ((ws[k] + 3) / 4) * ((hs[k] + 3) / 4) * unit
        } else {
            ws[k] * hs[k] * unit
        });
        assert(ws[j] == larger(w / 2, 1) && hs[j] == larger(h / 2, 1));
        lemma_mips(w / 2, h / 2, unit, blocked, ws, hs, marks, j);
    }
}

/// A texture with all its levels is as long as they are together.
pub proof fn law_mips(unit: int, blocked: bool, ws: Seq<int>, hs: Seq<int>, marks: Seq<int>)
    requires
        are_levels(ws, hs, unit, blocked, marks),
        0 < marks.len(),
        1 <= ws[0],
        1 <= hs[0],
    ensures
        mip_chain(ws[0], hs[0], unit, blocked, (marks.len() - 1) as nat) == marks.last() - marks[0],
{
    lemma_mips(ws[0], hs[0], unit, blocked, ws, hs, marks, 0);
}

/// A DDS texture is found whole: a header of 128 bytes, and behind it as many levels as it says, of which the first has the
/// width and the height that it says. They are compressed, with eight or sixteen bytes for a block, or have as many
/// bytes for each pixel as it says in bits.
pub proof fn law_dds(
    f: Seq<u8>,
    avail: int,
    unit: int,
    blocked: bool,
    ws: Seq<int>,
    hs: Seq<int>,
    marks: Seq<int>,
)
    requires
        128 <= f.len(),
        f[0] == 0x44 && f[1] == 0x44 && f[2] == 0x53 && f[3] == 0x20,
        le32(f, 4) == 124,
        le32(f, 76) == 32,
        le32(f, 112) / 0x200 % 2 == 0,
        le32(f, 112) / 0x20_0000 % 2 == 0,
        are_levels(ws, hs, unit, blocked, marks),
        marks.len() - 1 == le32(f, 28) && 1 <= le32(f, 28) <= 20 || marks.len() == 2 && le32(f, 28) == 0,
        1 <= ws[0] <= 65536,
        1 <= hs[0] <= 65536,
        ws[0] == le32(f, 16),
        hs[0] == le32(f, 12),
        ({
            ||| f[80] / 4 % 2 == 1 && blocked && f[84] == 0x44 && f[85] == 0x58 && f[86] == 0x54 && (f[87] == 0x31
                && unit == 8 || (f[87] == 0x33 || f[87] == 0x35) && unit == 16)
            ||| f[80] / 4 % 2 == 0 && f[80] / 64 % 2 == 1 && !blocked && 1 <= unit <= 16 && le32(f, 88) == 8 * unit
        }),
        marks[0] == 128,
        marks.last() <= avail,
    ensures
        dds_len(f, avail) == Some(marks.last()),
{
    let h = f.subrange(0, 128);
    reveal_strlit("DDS ");
    reveal_strlit("DXT1");
    reveal_strlit("ATI1");
    reveal_strlit("BC4U");
    reveal_strlit("BC4S");
    reveal_strlit("DXT3");
    reveal_strlit("DXT5");
    assert(text_at(h, 0, "DDS "@));
    assert(le32(h, 4) == le32(f, 4) && le32(h, 76) == le32(f, 76) && le32(h, 16) == le32(f, 16) && le32(h, 12)
        == le32(f, 12) && le32(h, 28) == le32(f, 28) && le32(h, 112) == le32(f, 112) && le32(h, 88) == le32(
        f,
        88,
    ));
    assert(le32(h, 80) / 4 % 2 == f[80] / 4 % 2);
    assert(le32(h, 80) / 64 % 2 == f[80] / 64 % 2);
    if blocked {
        if unit == 8 {
            assert(text_at(h, 84, "DXT1"@));
        } else {
            if text_at(h, 84, "DXT1"@) {
                assert(h[84int + 3] == "DXT1"@[3] as u32);
            }
            if text_at(h, 84, "ATI1"@) {
                assert(h[84int + 0] == "ATI1"@[0] as u32);
            }
            if text_at(h, 84, "BC4U"@) {
                assert(h[84int + 0] == "BC4U"@[0] as u32);
            }
            if text_at(h, 84, "BC4S"@) {
                assert(h[84int + 0] == "BC4S"@[0] as u32);
            }
            assert(text_at(h, 84, "DXT3"@) || text_at(h, 84, "DXT5"@));
        }
    }
    law_mips(unit, blocked, ws, hs, marks);
}

/// From `a` to `b` there is a chunk of a QOI picture that stands for `n` pixels: three or four colours behind 0xFE and 0xFF,
/// otherwise by the two highest bits an index or a small difference (one byte), a larger difference (two bytes) or a
/// run of pixels.
pub open spec fn qoi_step(f: Seq<u8>, a: int, b: int, n: int) -> bool {
    ||| f[a] == 0xFE && b == a + 4 && n == 1
    ||| f[a] == 0xFF && b == a + 5 && n == 1
    ||| f[a] / 64 <= 1 && b == a + 1 && n == 1
    ||| f[a] / 64 == 2 && b == a + 2 && n == 1
    ||| f[a] / 64 == 3 && f[a] % 64 < 62 && b == a + 1 && n == f[a] % 64 + 1
}

/// The chunks of a QOI picture begin at `marks`, and before each of them there were as many pixels as `counts` says, fewer
/// than `all`.
pub open spec fn qoi_chunks(f: Seq<u8>, all: int, marks: Seq<int>, counts: Seq<int>) -> bool {
    &&& 0 < marks.len() == counts.len()
    &&& counts[0] == 0
    &&& forall|k: int, j: int|
        #![trigger marks[k], marks[j]]
        0 <= k && j == k + 1 && j < marks.len() ==> counts[k] < all && qoi_step(
            f,
            marks[k],
            marks[j],
            counts[j] - counts[k],
        )
    &&& counts.last() >= all
}

proof fn lemma_qoi(f: Seq<u8>, avail: int, all: int, marks: Seq<int>, counts: Seq<int>, k: int)
    requires
        qoi_chunks(f, all, marks, counts),
        0 <= k < marks.len(),
        marks.last() + 8 <= avail <= f.len(),
        0 <= marks.last(),
        forall|i: int| 0 <= i < 7 ==> f[#[trigger] (marks.last() + i)] == 0,
        f[marks.last() + 7] == 1,
    ensures
        qoi_from(f, avail, marks[k], all - counts[k]) == Some(marks.last() + 8),
        marks[k] <= marks.last(),
    decreases marks.len() - k,
{
    if k + 1 < marks.len() {
        let j = k + 1;
        assert(qoi_step(f, marks[k], marks[j], counts[j] - counts[k]));
        lemma_qoi(f, avail, all, marks, counts, j);
    } else {
        let p = marks.last();
        let t = f.subrange(p, p + 8);
        assert(t[0] == f[p + 0] && t[1] == f[p + 1] && t[2] == f[p + 2] && t[3] == f[p + 3] && t[4] == f[p + 4]
            && t[5] == f[p + 5] && t[6] == f[p + 6] && t[7] == f[p + 7]);
        assert(be64(t, 0) == 1);
    }
}

/// A QOI picture is found whole: a header of 14 bytes, chunks until there are as many pixels as it is wide times high, and
/// seven zeros and a one.
pub proof fn law_qoi(f: Seq<u8>, avail: int, marks: Seq<int>, counts: Seq<int>)
    requires
        14 <= f.len(),
        f[0] == 0x71 && f[1] == 0x6F && f[2] == 0x69 && f[3] == 0x66,
        be32(f, 4) > 0,
        be32(f, 8) > 0,
        f[12] == 3 || f[12] == 4,
        f[13] <= 1,
        qoi_chunks(f, be32(f, 4) * be32(f, 8), marks, counts),
        marks[0] == 14,
        0 <= marks.last(),
        marks.last() + 8 <= avail <= f.len(),
        forall|i: int| 0 <= i < 7 ==> f[#[trigger] (marks.last() + i)] == 0,
        f[marks.last() + 7] == 1,
    ensures
        qoi_len(f, avail) == Some(marks.last() + 8),
{
    let h = f.subrange(0, 14);
    reveal_strlit("qoif");
    assert(text_at(h, 0, "qoif"@));
    assert(be32(h, 4) == be32(f, 4) && be32(h, 8) == be32(f, 8));
    lemma_qoi(f, avail, be32(f, 4) * be32(f, 8), marks, counts, 0);
}

/// From `a` to `b` there is a level of a KTX texture: its size in four bytes, and so many bytes, filled up to a multiple of
/// four.
pub open spec fn ktx1_step(f: Seq<u8>, be: bool, a: int, b: int) -> bool {
    let n = ord32(f, a, be);
    &&& 0 <= a
    &&& n <= b - a - 4 < n + 4
    &&& (b - a) % 4 == 0
}

proof fn lemma_ktx1(f: Seq<u8>, avail: int, be: bool, marks: Seq<int>, i: int)
    requires
        stepwise(marks, |a: int, b: int| ktx1_step(f, be, a, b)),
        0 <= i < marks.len(),
        marks.last() <= avail <= f.len(),
    ensures
        ktx1_from(f, avail, be, marks[i], (marks.len() - 1 - i) as nat) == Some(marks.last()),
        marks[i] <= marks.last(),
    decreases marks.len() - i,
{
    let step = |a: int, b: int| ktx1_step(f, be, a, b);
    if i + 1 < marks.len() {
        assert(step(marks[i], marks[i + 1]));
        lemma_ktx1(f, avail, be, marks, i + 1);
        let a = marks[i];
        assert(ord32(f.subrange(a, a + 4), 0, be) == ord32(f, a, be));
        let n = ord32(f, a, be) as int;
        assert(ceil(n, 4) * 4 == marks[i + 1] - a - 4);
    }
}

/// A KTX texture is found whole: a header of 64 bytes, as many bytes of further data as it says at 60, and its levels, which
/// begin at `marks`, as many as it says at 56.
pub proof fn law_ktx1(f: Seq<u8>, avail: int, be: bool, marks: Seq<int>)
    requires
        64 <= f.len(),
        f[0] == 0xAB && f[1] == 0x4B && f[2] == 0x54 && f[3] == 0x58 && f[4] == 0x20 && f[5] == 0x31 && f[6] == 0x31
            && f[7] == 0xBB && f[8] == 0x0D && f[9] == 0x0A && f[10] == 0x1A && f[11] == 0x0A,
        be && f[12] == 4 && f[13] == 3 && f[14] == 2 && f[15] == 1 || !be && f[12] == 1 && f[13] == 2 && f[14] == 3
            && f[15] == 4,
        ord32(f, 48, be) == 0,
        ord32(f, 52, be) == 1,
        1 <= ord32(f, 56, be) <= 32,
        marks.len() == ord32(f, 56, be) + 1,
        marks[0] == 64 + ord32(f, 60, be),
        stepwise(marks, |a: int, b: int| ktx1_step(f, be, a, b)),
        marks.last() <= avail <= f.len(),
    ensures
        ktx1_len(f, avail) == Some(marks.last()),
{
    let h = f.subrange(0, 64);
    let t = "\u{AB}KTX 11\u{BB}\r\n\u{1a}\n"@;
    reveal_strlit("\u{AB}KTX 11\u{BB}\r\n\u{1a}\n");
    assert(text_at(h, 0, t));
    assert(ord32(h, 48, be) == ord32(f, 48, be) && ord32(h, 52, be) == ord32(f, 52, be) && ord32(h, 56, be) == ord32(
        f,
        56,
        be,
    ) && ord32(h, 60, be) == ord32(f, 60, be));
    assert(be == (le32(h, 12) == 0x0102_0304) && (be || le32(h, 12) == 0x0403_0201));
    lemma_ktx1(f, avail, be, marks, 0);
}

/// Where the `i`-th level of a KTX 2 texture ends.
pub open spec fn ktx2_past(f: Seq<u8>, i: int) -> int {
    le64(f, 0x50 + 24 * i) + le64(f, 0x50 + 24 * i + 8)
}

proof fn lemma_ktx2(f: Seq<u8>, avail: int, n: int, i: int, end: int)
    requires
        0 <= i <= n,
        0x50 + 24 * n <= avail <= f.len(),
        avail < u64::MAX,
    ensures
        ktx2_levels(f, avail, n, i, end) matches Some(r) && {
            &&& r >= end
            &&& forall|k: int| i <= k < n ==> r >= #[trigger] ktx2_past(f, k) || r > avail
            &&& r == end || r > avail || exists|k: int| i <= k < n && r == #[trigger] ktx2_past(f, k)
        },
    decreases n - i,
{
    if i < n {
        let at = 0x50 + i * 24;
        let e = f.subrange(at, at + 24);
        assert(le64(e, 0) == le64(f, at) && le64(e, 8) == le64(f, at + 8));
        lemma_ktx2(f, avail, n, i + 1, larger(end, crate::bytes::capped(ktx2_past(f, i))));
    }
}

/// A KTX 2 texture is no shorter than its table of levels, the three parts that its header gives and any of its levels reach,
/// and ends with one of these.
pub proof fn law_ktx2(f: Seq<u8>, avail: int, n: int, r: int)
    requires
        0x50 <= f.len(),
        n == le32(f, 0x28) && n > 0 || n == 1 && le32(f, 0x28) == 0,
        0x50 + 24 * n <= avail <= f.len(),
        avail < u64::MAX,
        ktx2_len(f, avail) == Some(r),
    ensures
        r >= 0x50 + 24 * n,
        r >= le32(f, 0x30) + le32(f, 0x34),
        r >= le32(f, 0x38) + le32(f, 0x3C),
        r >= le64(f, 0x40) + le64(f, 0x48),
        forall|k: int| 0 <= k < n ==> r >= #[trigger] ktx2_past(f, k),
        r == 0x50 + 24 * n || r == le32(f, 0x30) + le32(f, 0x34) || r == le32(f, 0x38) + le32(f, 0x3C) || r == le64(
            f,
            0x40,
        ) + le64(f, 0x48) || exists|k: int| 0 <= k < n && r == #[trigger] ktx2_past(f, k),
{
    let h = f.subrange(0, 0x50);
    assert(le32(h, 0x28) == le32(f, 0x28) && le32(h, 0x30) == le32(f, 0x30) && le32(h, 0x34) == le32(f, 0x34)
        && le32(h, 0x38) == le32(f, 0x38) && le32(h, 0x3C) == le32(f, 0x3C) && le64(h, 0x40) == le64(f, 0x40)
        && le64(h, 0x48) == le64(f, 0x48));
    lemma_ktx2(f, avail, n, 0, crate::carver::textures::ktx2_header_end(h, n));
}

/// Where the `i`-th level of a BLP texture ends; one without bytes ends nowhere.
pub open spec fn blp_past(f: Seq<u8>, i: int) -> int {
    if le32(f, 0x54 + 4 * i) == 0 {
        0
    } else {
        le32(f, 0x14 + 4 * i) + le32(f, 0x54 + 4 * i)
    }
}

proof fn lemma_blp(f: Seq<u8>, h: Seq<u8>, i: int, end: int)
    requires
        0x94 <= f.len(),
        h == f.subrange(0, 0x94),
        0 <= i <= 16,
        0 <= end,
    ensures
        ({
            let r = blp_levels(h, i, end);
            &&& r >= end
            &&& forall|k: int| i <= k < 16 ==> r >= #[trigger] blp_past(f, k)
            &&& r == end || exists|k: int| i <= k < 16 && r == #[trigger] blp_past(f, k)
        }),
    decreases 16 - i,
{
    if i < 16 {
        assert(le32(h, 0x54 + i * 4) == le32(f, 0x54 + 4 * i) && le32(h, 0x14 + i * 4) == le32(f, 0x14 + 4 * i));
        lemma_blp(f, h, i + 1, larger(end, blp_past(f, i)));
    }
}

/// A BLP texture reaches to the end of its header and of each of its sixteen levels, and ends with one of these.
pub proof fn law_blp(f: Seq<u8>, avail: int, r: int)
    requires
        0x94 <= f.len(),
        blp_len(f, avail) == Some(r),
    ensures
        r >= 0x94,
        forall|k: int| 0 <= k < 16 ==> r >= #[trigger] blp_past(f, k),
        r == 0x94 || exists|k: int| 0 <= k < 16 && r == #[trigger] blp_past(f, k),
{
    lemma_blp(f, f.subrange(0, 0x94), 0, 0x94);
}

} // verus!
