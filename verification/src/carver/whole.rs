//! What is made as its format says is found whole.

use crate::bytes::text_at;
use crate::carver::images::{gif_chain, gif_chain_at, gif_colors, gif_from, gif_len};
use vstd::arithmetic::power2::{lemma2_to64, pow2};
use vstd::prelude::*;

pub mod archives;
pub mod data;
pub mod fields;
pub mod finds;
pub mod generic;
pub mod headers;
pub mod markup;
pub mod media;
pub mod pictures;
pub mod streams;
pub mod tables;
pub mod tiff;

verus! {

/// Each of the places but the last stands as `step` says to the one behind it.
pub open spec fn stepwise(marks: Seq<int>, step: spec_fn(int, int) -> bool) -> bool {
    &&& marks.len() > 0
    &&& forall|i: int|
        #![trigger step(marks[i], marks[i + 1])]
        0 <= i < marks.len() - 1 ==> step(marks[i], marks[i + 1])
}

/// A colour table of a GIF has three bytes for each colour, and there are 2, 4, 8 and so on up to 256 colours: with each
/// step of the low three bits of its packed field it doubles.
pub proof fn law_gif_colors(packed: u8)
    ensures
        packed < 0x80 ==> gif_colors(packed) == 0,
        packed >= 0x80 && packed % 8 == 0 ==> gif_colors(packed) == 3 * 2,
        packed >= 0x80 && packed % 8 > 0 ==> gif_colors(packed) == 2 * gif_colors((packed - 1) as u8),
        packed >= 0x80 ==> gif_colors(packed) == 3 * pow2((packed % 8 + 1) as nat),
        packed >= 0x80 ==> 6 <= gif_colors(packed) <= 768,
{
    lemma2_to64();
    if packed >= 0x80 {
        let n = packed % 8;
        assert(n == 0 || n == 1 || n == 2 || n == 3 || n == 4 || n == 5 || n == 6 || n == 7);
        if n > 0 {
            assert((packed - 1) % 8 == n - 1);
        }
    }
}

/// `subs` are where the sub-blocks of a GIF begin, the last of which is the empty one: each begins with its length.
pub open spec fn gif_subs(f: Seq<u8>, subs: Seq<int>) -> bool {
    &&& subs.len() > 0
    &&& f[subs.last()] == 0
    &&& forall|i: int, j: int|
        #![trigger subs[i], subs[j]]
        0 <= i && j == i + 1 && j < subs.len() ==> f[subs[i]] > 0 && subs[j] == subs[i] + 1
            + f[subs[i]]
}

proof fn lemma_gif_subs(f: Seq<u8>, avail: int, subs: Seq<int>, i: int)
    requires
        gif_subs(f, subs),
        0 <= i < subs.len(),
        subs.last() < avail,
    ensures
        gif_chain(f, avail, subs[i]) == Some(subs.last() + 1),
        subs[i] <= subs.last(),
    decreases subs.len() - i,
{
    if i + 1 < subs.len() {
        lemma_gif_subs(f, avail, subs, i + 1);
        assert(subs[i + 1] == subs[i] + 1 + f[subs[i]]);
    }
}

/// From `a` to `b` there is a block of a GIF, of which the sub-blocks begin at `subs`: an image, which is a 0x2C, 9 bytes,
/// a table of the colours that the last of them announces, and a code size before its sub-blocks; or an extension,
/// which is a 0x21 and a label before them.
pub open spec fn gif_block(f: Seq<u8>, a: int, b: int, subs: Seq<int>) -> bool {
    &&& gif_subs(f, subs)
    &&& b == subs.last() + 1
    &&& {
        ||| f[a] == 0x21 && subs[0] == a + 2
        ||| f[a] == 0x2C && f[a + 9] < 0x80 && subs[0] == a + 11
        ||| f[a] == 0x2C && f[a + 9] >= 0x80 && subs[0] == a + 11 + 3 * pow2(
            (f[a + 9] % 8 + 1) as nat,
        )
    }
}

proof fn lemma_gif_blocks(f: Seq<u8>, avail: int, marks: Seq<int>, subs: Seq<Seq<int>>, i: int)
    requires
        0 <= i < marks.len() == subs.len() + 1,
        marks.last() < avail,
        f[marks.last()] == 0x3B,
        forall|k: int|
            #![trigger subs[k]]
            0 <= k < subs.len() ==> gif_block(f, marks[k], marks[k + 1], subs[k]),
    ensures
        gif_from(f, avail, marks[i]) == Some(marks.last() + 1),
        marks[i] <= marks.last(),
    decreases marks.len() - i,
{
    if i < subs.len() {
        lemma_gif_blocks(f, avail, marks, subs, i + 1);
        assert(gif_block(f, marks[i], marks[i + 1], subs[i]));
        law_gif_colors(f[marks[i] + 9]);
        let a = marks[i];
        lemma_gif_subs(f, avail, subs[i], 0);
        lemma_gif_subs(f, avail, subs[i], subs[i].len() - 1);
        assert(gif_chain_at(f, avail, a) == Some(subs[i][0]));
        crate::carver::images::lemma_gif_chain(f, avail, subs[i][0]);
    }
}

/// A GIF is found whole: a header of 13 bytes, a table of the colours that its packed field announces, blocks one after
/// another, which begin at `marks`, and the trailer.
pub proof fn law_gif(f: Seq<u8>, avail: int, marks: Seq<int>, subs: Seq<Seq<int>>)
    requires
        13 <= f.len(),
        f[0] == 0x47 && f[1] == 0x49 && f[2] == 0x46,
        marks.len() == subs.len() + 1,
        marks[0] == 13 + if f[10] < 0x80 {
            0
        } else {
            3 * pow2((f[10] % 8 + 1) as nat) as int
        },
        forall|k: int|
            #![trigger subs[k]]
            0 <= k < subs.len() ==> gif_block(f, marks[k], marks[k + 1], subs[k]),
        f[marks.last()] == 0x3B,
        marks.last() < avail <= f.len(),
    ensures
        gif_len(f, avail) == Some(marks.last() + 1),
{
    reveal_strlit("GIF");
    let h = f.subrange(0, 13);
    assert(text_at(h, 0, "GIF"@));
    law_gif_colors(f[10]);
    lemma_gif_blocks(f, avail, marks, subs, 0);
}

} // verus!
