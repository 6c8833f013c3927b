//! Archives that are made as their formats say.

use crate::bytes::{le16, le24, le32, text_at};
use crate::carver::archives::{
    all_zero, cpio_from, cpio_len, lz4_blocks_end, lz4_len, rar4_from, rar_len, tar_from, tar_header,
    tar_len, tar_number, tar_sum, zip_from, zip_len, zstd_blocks_end, zstd_len,
};
use crate::carver::whole::stepwise;
use crate::source::window;
use crate::text::plain_number_in;
use vstd::prelude::*;

verus! {

/// At `p` there is the record that ends a ZIP of which the central directory is where the record says, with a comment
/// behind it.
pub open spec fn zip_end(f: Seq<u8>, avail: int, p: int) -> bool {
    &&& p + 22 <= f.len()
    &&& f[p] == 0x50 && f[p + 1] == 0x4B && f[p + 2] == 0x05 && f[p + 3] == 0x06
    &&& le32(f, p + 12) != 0xFFFF_FFFF
    &&& le32(f, p + 16) != 0xFFFF_FFFF
    &&& le32(f, p + 16) + le32(f, p + 12) == p
    &&& p + 22 + le16(f, p + 20) <= avail
}

proof fn lemma_zip_end(f: Seq<u8>, avail: int, p: int)
    requires
        0 <= p,
        p + 4 <= avail <= f.len(),
    ensures
        zip_end(f, avail, p) == (crate::carver::archives::zip_record(f, avail, p)
            && crate::carver::archives::zip_record_is_own(f, p)),
        zip_end(f, avail, p) ==> crate::carver::archives::zip_record_end(f, p) == p + 22 + le16(
            f,
            p + 20,
        ),
{
    let m = f.subrange(p, p + 4);
    let t = seq![0x50u8, 0x4B, 0x05, 0x06];
    assert(m[0] == f[p] && m[1] == f[p + 1] && m[2] == f[p + 2] && m[3] == f[p + 3]);
    if f[p] == 0x50 && f[p + 1] == 0x4B && f[p + 2] == 0x05 && f[p + 3] == 0x06 {
        assert(m =~= t);
    } else {
        assert(t[0] == 0x50 && t[1] == 0x4B && t[2] == 0x05 && t[3] == 0x06);
        assert(m != t);
    }
}

proof fn lemma_zip_from(f: Seq<u8>, avail: int, q: int, best: Option<int>, p: int)
    requires
        0 <= q <= p,
        avail <= f.len(),
        zip_end(f, avail, p),
        forall|k: int| q <= k < p ==> !#[trigger] zip_end(f, avail, k),
    ensures
        zip_from(f, avail, q, best) == Some(p + 22 + le16(f, p + 20)),
    decreases p - q,
{
    lemma_zip_end(f, avail, q);
    if q < p {
        assert(!zip_end(f, avail, q));
        if crate::carver::archives::zip_record(f, avail, q)
            && crate::carver::archives::zip_record_is_64(f, q) {
            lemma_zip_from(
                f,
                avail,
                q + 1,
                Some(crate::carver::archives::zip_record_end(f, q)),
                p,
            );
        } else {
            lemma_zip_from(f, avail, q + 1, best, p);
        }
    }
}

/// A ZIP ends with the first record whose central directory ends where the record begins, and with the comment of as many
/// bytes as the record says.
pub proof fn law_zip(f: Seq<u8>, avail: int, p: int)
    requires
        0 <= p,
        avail <= f.len(),
        zip_end(f, avail, p),
        forall|k: int| 0 <= k < p ==> !#[trigger] zip_end(f, avail, k),
    ensures
        zip_len(f, avail) == Some(p + 22 + le16(f, p + 20)),
{
    lemma_zip_from(f, avail, 0, None, p);
}

/// From `a` to `b` there is a block of a RAR archive of version 4: it says how long its header is, and, where its top
/// flag is set, how long the data behind it are.
pub open spec fn rar4_block(f: Seq<u8>, a: int, b: int) -> bool {
    &&& 0 <= a
    &&& a + 11 <= f.len()
    &&& le16(f, a + 5) >= 7
    &&& b == a + le16(f, a + 5) + if f[a + 4] >= 0x80 {
        le32(f, a + 7) as int
    } else {
        0
    }
}

proof fn lemma_rar4(f: Seq<u8>, avail: int, marks: Seq<int>, i: int, left: nat)
    requires
        0 <= i < marks.len() - 1,
        stepwise(marks, |a: int, b: int| rar4_block(f, a, b)),
        forall|k: int| 0 <= k < marks.len() - 2 ==> f[#[trigger] marks[k] + 2] != 0x7B,
        f[marks[marks.len() - 2] + 2] == 0x7B,
        marks.last() <= avail <= f.len(),
        marks.len() - 1 - i <= left,
    ensures
        rar4_from(f, avail, marks[i], left) == Some(marks.last()),
        marks[i] < marks.last(),
    decreases marks.len() - i,
{
    let step = |a: int, b: int| rar4_block(f, a, b);
    assert(step(marks[i], marks[i + 1]));
    let h = window(f, marks[i], 11);
    assert(h[2] == f[marks[i] + 2] && h[4] == f[marks[i] + 4]);
    assert(le16(h, 3) >= 0x8000 <==> f[marks[i] + 4] >= 0x80);
    if i + 1 < marks.len() - 1 {
        lemma_rar4(f, avail, marks, i + 1, (left - 1) as nat);
        assert(f[marks[i] + 2] != 0x7B);
    }
}

/// A RAR archive of version 4 is found whole: behind seven bytes there are blocks, one after another, which begin at
/// `marks`, and the last of them, and no other, has the type 0x7B.
pub proof fn law_rar4(f: Seq<u8>, avail: int, marks: Seq<int>)
    requires
        8 <= f.len(),
        f[0] == 0x52 && f[1] == 0x61 && f[2] == 0x72 && f[3] == 0x21 && f[4] == 0x1A && f[5] == 0x07
            && f[6] == 0,
        2 <= marks.len() <= 0x100_0001,
        marks[0] == 7,
        stepwise(marks, |a: int, b: int| rar4_block(f, a, b)),
        forall|k: int| 0 <= k < marks.len() - 2 ==> f[#[trigger] marks[k] + 2] != 0x7B,
        f[marks[marks.len() - 2] + 2] == 0x7B,
        marks.last() <= avail <= f.len(),
    ensures
        rar_len(f, avail) == Some(marks.last()),
{
    reveal_strlit("Rar!\x1a\x07");
    assert(text_at(window(f, 0, 8), 0, "Rar!\x1a\x07"@));
    lemma_rar4(f, avail, marks, 0, 0x100_0000);
}

/// From `a` to `b` there is a block of a Zstandard frame: three bytes, of which the lowest bit says whether it is the last
/// and the next two what it is, a byte that is repeated (1) or as many bytes as the others say.
pub open spec fn zstd_block(f: Seq<u8>, a: int, b: int, last: bool) -> bool {
    let kind = f[a] / 2 % 4;
    &&& 0 <= a
    &&& a + 3 <= f.len()
    &&& last == (f[a] % 2 == 1)
    &&& kind != 3
    &&& b == a + 3 + if kind == 1 {
        1
    } else {
        f[a] / 8 + 32 * f[a + 1] + 0x2000 * f[a + 2]
    }
}

/// From the `k`-th place to the next there is a block, the last one where no further place follows.
pub open spec fn zstd_block_of(f: Seq<u8>, marks: Seq<int>, k: int) -> bool {
    zstd_block(f, marks[k], marks[k + 1], k == marks.len() - 2)
}

proof fn lemma_zstd(f: Seq<u8>, avail: int, marks: Seq<int>, i: int, left: nat)
    requires
        0 <= i < marks.len() - 1,
        forall|k: int|
            0 <= k < marks.len() - 1 ==> #[trigger] zstd_block_of(f, marks, k),
        marks.last() <= avail <= f.len(),
        marks.len() - 1 - i <= left,
    ensures
        zstd_blocks_end(f, avail, marks[i], left) == Some(marks.last()),
        marks[i] < marks.last(),
    decreases marks.len() - i,
{
    assert(zstd_block_of(f, marks, i));
    let a = marks[i];
    let raw = le24(f.subrange(a, a + 3), 0);
    assert(raw == f[a] + 0x100 * f[a + 1] + 0x1_0000 * f[a + 2]);
    assert(raw % 2 == f[a] % 2);
    assert(raw / 2 % 4 == f[a] / 2 % 4);
    assert(raw / 8 == f[a] / 8 + 32 * f[a + 1] + 0x2000 * f[a + 2]);
    if i + 1 < marks.len() - 1 {
        lemma_zstd(f, avail, marks, i + 1, (left - 1) as nat);
    }
}

/// A Zstandard frame is found whole: behind its header there are blocks, one after another, which begin at `marks` and of
/// which the last says so, and a checksum of four bytes where the header announces one. The header is five bytes, one for
/// a window where there is more than one segment, 0, 1, 2 or 4 for a dictionary, and 1, 2, 4 or 8 for the size of the
/// content, or none.
pub proof fn law_zstd(f: Seq<u8>, avail: int, marks: Seq<int>, window: int, dict: int, content: int)
    requires
        5 <= f.len(),
        f[0] == 0x28 && f[1] == 0xB5 && f[2] == 0x2F && f[3] == 0xFD,
        2 <= marks.len() <= 0x100_0001,
        window == if f[4] / 32 % 2 == 1 {
            0int
        } else {
            1
        },
        f[4] % 4 == 0 && dict == 0 || f[4] % 4 == 1 && dict == 1 || f[4] % 4 == 2 && dict == 2 || f[4] % 4
            == 3 && dict == 4,
        f[4] / 64 == 0 && content == 1 - window || f[4] / 64 == 1 && content == 2 || f[4] / 64 == 2
            && content == 4 || f[4] / 64 == 3 && content == 8,
        marks[0] == 5 + window + dict + content,
        forall|k: int|
            0 <= k < marks.len() - 1 ==> #[trigger] zstd_block_of(f, marks, k),
        marks.last() + 4 <= avail <= f.len(),
    ensures
        zstd_len(f, avail) == Some(
            marks.last() + if f[4] / 4 % 2 == 1 {
                4
            } else {
                0int
            },
        ),
{
    lemma_zstd(f, avail, marks, 0, 0x100_0000);
}

/// From `a` to `b` there is a block of an LZ4 frame: four bytes that say how long it is, but for the top bit, and a
/// checksum of `check` bytes behind it.
pub open spec fn lz4_block(f: Seq<u8>, check: int, a: int, b: int) -> bool {
    &&& 0 <= a
    &&& a + 4 <= f.len()
    &&& le32(f, a) != 0
    &&& b == a + 4 + f[a] + 0x100 * f[a + 1] + 0x1_0000 * f[a + 2] + 0x100_0000 * (f[a + 3] % 128)
        + check
}

proof fn lemma_lz4(f: Seq<u8>, avail: int, check: int, marks: Seq<int>, i: int, left: nat)
    requires
        0 <= i < marks.len(),
        0 <= check,
        stepwise(marks, |a: int, b: int| lz4_block(f, check, a, b)),
        0 <= marks.last(),
        marks.last() + 4 <= avail <= f.len(),
        le32(f, marks.last()) == 0,
        marks.len() - i <= left,
    ensures
        lz4_blocks_end(f, avail, check, marks[i], left) == Some(marks.last() + 4),
        marks[i] <= marks.last(),
    decreases marks.len() - i,
{
    if i + 1 < marks.len() {
        let step = |a: int, b: int| lz4_block(f, check, a, b);
        assert(step(marks[i], marks[i + 1]));
        lemma_lz4(f, avail, check, marks, i + 1, (left - 1) as nat);
    }
}

/// An LZ4 frame is found whole: behind its header there are blocks, one after another, which begin at `marks`, then four
/// zeros, and a checksum of four bytes where the header announces one. The header is seven bytes, eight more for the size
/// of the content and four for a dictionary, where it announces them.
pub proof fn law_lz4(f: Seq<u8>, avail: int, marks: Seq<int>, check: int)
    requires
        5 <= f.len(),
        f[0] == 0x04 && f[1] == 0x22 && f[2] == 0x4D && f[3] == 0x18,
        0x40 <= f[4] < 0x80,
        check == if f[4] / 16 % 2 == 1 {
            4int
        } else {
            0
        },
        1 <= marks.len() <= 0x100_0000,
        marks[0] == 7 + (if f[4] / 8 % 2 == 1 {
            8int
        } else {
            0
        }) + (if f[4] % 2 == 1 {
            4int
        } else {
            0
        }),
        stepwise(marks, |a: int, b: int| lz4_block(f, check, a, b)),
        marks.last() + 8 <= avail <= f.len(),
        le32(f, marks.last()) == 0,
    ensures
        lz4_len(f, avail) == Some(
            marks.last() + 4 + if f[4] / 4 % 2 == 1 {
                4
            } else {
                0int
            },
        ),
{
    lemma_lz4_start(f, avail, check, marks, 0);
    lemma_lz4(f, avail, check, marks, 0, 0x100_0000);
}

proof fn lemma_lz4_start(f: Seq<u8>, avail: int, check: int, marks: Seq<int>, i: int)
    requires
        0 <= i < marks.len(),
        0 <= check,
        0 <= marks[i],
        stepwise(marks, |a: int, b: int| lz4_block(f, check, a, b)),
    ensures
        0 <= marks.last(),
    decreases marks.len() - i,
{
    if i + 1 < marks.len() {
        let step = |a: int, b: int| lz4_block(f, check, a, b);
        assert(step(marks[i], marks[i + 1]));
        lemma_lz4_start(f, avail, check, marks, i + 1);
    }
}

/// From `a` to `b` there is a member of a tar: a header of 512 bytes, and the data, which fill whole blocks of 512.
pub open spec fn tar_member(f: Seq<u8>, a: int, b: int) -> bool {
    let h = f.subrange(a, a + 512);
    &&& 0 <= a
    &&& a + 512 <= f.len()
    &&& !all_zero(h)
    &&& tar_header(h)
    &&& tar_number(f.subrange(a + 124, a + 136)) matches Some(size) && {
        &&& (b - a) % 512 == 0
        &&& size <= b - a - 512 < size + 512
    }
}

proof fn lemma_tar(f: Seq<u8>, avail: int, marks: Seq<int>, i: int)
    requires
        0 <= i < marks.len() <= 1_000_000,
        stepwise(marks, |a: int, b: int| tar_member(f, a, b)),
        0 <= marks.last(),
        marks.last() + 1024 <= avail <= f.len(),
        all_zero(f.subrange(marks.last(), marks.last() + 512)),
        marks.len() > 1,
    ensures
        tar_from(f, avail, marks[i], i) == Some(marks.last() + 1024),
        marks[i] <= marks.last(),
    decreases marks.len() - i,
{
    if i + 1 < marks.len() {
        let step = |a: int, b: int| tar_member(f, a, b);
        let a = marks[i];
        let b = marks[i + 1];
        assert(step(a, b));
        lemma_tar(f, avail, marks, i + 1);
        assert(f.subrange(a, a + 512).subrange(124, 136) =~= f.subrange(a + 124, a + 136));
        crate::carver::archives::lemma_tar_number_sign(f.subrange(a + 124, a + 136));
        let size = tar_number(f.subrange(a + 124, a + 136))->Some_0;
        assert(a + 512 + (size + 511) / 512 * 512 == b);
    }
}

/// A tar is found whole: members, one after another, which begin at `marks`, and two blocks of zeros.
pub proof fn law_tar(f: Seq<u8>, avail: int, marks: Seq<int>)
    requires
        2 <= marks.len() <= 1_000_000,
        marks[0] == 0,
        stepwise(marks, |a: int, b: int| tar_member(f, a, b)),
        0 <= marks.last(),
        marks.last() + 1024 <= avail <= f.len(),
        all_zero(f.subrange(marks.last(), marks.last() + 512)),
    ensures
        tar_len(f, avail) == Some(marks.last() + 1024),
{
    lemma_tar(f, avail, marks, 0);
}

/// A header whose checksum is right is not that of a member with another byte in its place, but for the bytes of the
/// checksum itself: the sum of the bytes changes as the byte does.
pub proof fn law_tar_sum(b: Seq<u8>, i: int, x: u8, n: nat)
    requires
        0 <= i < b.len(),
        n <= b.len(),
    ensures
        tar_sum(b.update(i, x), n) - tar_sum(b, n) == if i < n && !(148 <= i < 156) {
            x - b[i]
        } else {
            0
        },
    decreases n,
{
    if n > 0 {
        law_tar_sum(b, i, x, (n - 1) as nat);
    }
}

/// A multiple of four.
pub open spec fn fourfold(m: int) -> bool {
    m % 4 == 0
}

/// From `a` to `b` there is an entry of a cpio that is not the last: a header of 110 bytes, the name and the data, each
/// filled up to a multiple of 4.
pub open spec fn cpio_entry(f: Seq<u8>, a: int, b: int, last: bool) -> bool {
    &&& 0 <= a
    &&& a + 110 <= f.len()
    &&& text_at(f.subrange(a, a + 110), 0, "070701"@)
    &&& plain_number_in(f.subrange(a + 54, a + 62), 16) is Some
    &&& plain_number_in(f.subrange(a + 94, a + 102), 16) is Some
    &&& {
        let size = plain_number_in(f.subrange(a + 54, a + 62), 16)->Some_0;
        let name = plain_number_in(f.subrange(a + 94, a + 102), 16)->Some_0;
        &&& 0 < name <= 8192
        &&& a + 110 + name <= f.len()
        &&& last == (f.subrange(a + 110, a + 110 + name) == seq![
            0x54u8,
            0x52,
            0x41,
            0x49,
            0x4C,
            0x45,
            0x52,
            0x21,
            0x21,
            0x21,
            0,
        ])
        &&& !last ==> !crate::carver::archives::cpio_trailer(f.subrange(a + 110, a + 110 + name))
        &&& exists|m: int|
            {
                &&& #[trigger] fourfold(m)
                &&& 110 + name <= m < 110 + name + 4
                &&& if last {
                    b == a + m
                } else {
                    (b - a) % 4 == 0 && m + size <= b - a < m + size + 4
                }
            }
    }
}

/// From the `k`-th place to the next there is an entry, the last one where no further place follows.
pub open spec fn cpio_entry_of(f: Seq<u8>, marks: Seq<int>, k: int) -> bool {
    cpio_entry(f, marks[k], marks[k + 1], k == marks.len() - 2)
}

proof fn lemma_cpio(f: Seq<u8>, avail: int, marks: Seq<int>, i: int)
    requires
        0 <= i < marks.len() - 1,
        marks.len() <= 5_000_000,
        forall|k: int|
            0 <= k < marks.len() - 1 ==> #[trigger] cpio_entry_of(f, marks, k),
        marks.last() <= avail <= f.len(),
        marks.len() > 2,
    ensures
        cpio_from(f, avail, marks[i], i) == Some(marks.last()),
        marks[i] < marks.last(),
    decreases marks.len() - i,
{
    reveal_strlit("070701");
    reveal_strlit("TRAILER!!!");
    let a = marks[i];
    let b = marks[i + 1];
    let last = i == marks.len() - 2;
    assert(cpio_entry_of(f, marks, i));
    let h = f.subrange(a, a + 110);
    assert(h.subrange(54, 62) =~= f.subrange(a + 54, a + 62));
    assert(h.subrange(94, 102) =~= f.subrange(a + 94, a + 102));
    crate::text::lemma_number_sign(f.subrange(a + 54, a + 62), 16);
    crate::text::lemma_number_sign(f.subrange(a + 94, a + 102), 16);
    let size = plain_number_in(f.subrange(a + 54, a + 62), 16)->Some_0;
    let name = plain_number_in(f.subrange(a + 94, a + 102), 16)->Some_0;
    let m = choose|m: int|
        {
            &&& #[trigger] fourfold(m)
            &&& 110 + name <= m < 110 + name + 4
            &&& if last {
                b == a + m
            } else {
                (b - a) % 4 == 0 && m + size <= b - a < m + size + 4
            }
        };
    assert((110 + name + 3) / 4 * 4 == m);
    if last {
        assert(crate::carver::archives::cpio_trailer(f.subrange(a + 110, a + 110 + name)));
    } else {
        lemma_cpio(f, avail, marks, i + 1);
        assert(a + m + (size + 3) / 4 * 4 == b);
    }
}

/// A cpio is found whole: entries, one after another, which begin at `marks`, and one that is named `TRAILER!!!`.
pub proof fn law_cpio(f: Seq<u8>, avail: int, marks: Seq<int>)
    requires
        3 <= marks.len() <= 5_000_000,
        marks[0] == 0,
        forall|k: int|
            0 <= k < marks.len() - 1 ==> #[trigger] cpio_entry_of(f, marks, k),
        marks.last() <= avail <= f.len(),
    ensures
        cpio_len(f, avail) == Some(marks.last()),
{
    lemma_cpio(f, avail, marks, 0);
}

} // verus!
