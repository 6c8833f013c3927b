//! Sound and pictures in motion that are made as their formats say.

use crate::bytes::{be16, be32, be64, le16, le32, le64, padded, text_at};
use crate::carver::audio::{
    aac_frame_len, aac_len, aac_rate, aac_run, midi_from, midi_len, mp3_len, mp3_raw_len, mp3_run,
    mpeg_bitrate, mpeg_frame_len, mpeg_samplerate, qoa_from, qoa_len, voc_from, voc_len,
    wavpack_from, wavpack_len,
};
use crate::carver::video::{
    asf_from, asf_guid, asf_len, byte_sum, ebml_len, flv_from, flv_len, ivf_from, ivf_len, mp4_from,
    mp4_len, mpegps_from, mpegps_len, mpegts_len, mpegts_packets, ogg_from, ogg_len,
};
use crate::carver::whole::stepwise;
use crate::source::window;
use crate::varint::{be_uint, ebml_value, ebml_width, le_uint};
use vstd::arithmetic::power2::{lemma2_to64, pow2};
use vstd::prelude::*;

verus! {

/// From `a` to `b` there is a tag of a Flash video, behind the length of the one before it: sound, picture or script, and how
/// many bytes of it follow its eleven.
pub open spec fn flv_step(f: Seq<u8>, a: int, b: int) -> bool {
    &&& 0 <= a
    &&& a + 15 <= f.len()
    &&& f[a + 4] == 8 || f[a + 4] == 9 || f[a + 4] == 18
    &&& b == a + 15 + 0x1_0000 * f[a + 5] + 0x100 * f[a + 6] + f[a + 7]
}

proof fn lemma_flv(f: Seq<u8>, avail: int, marks: Seq<int>, i: int)
    requires
        0 <= i < marks.len(),
        1 < marks.len() <= 0x100_0000,
        stepwise(marks, |a: int, b: int| flv_step(f, a, b)),
        f[marks[0]] == 0 && f[marks[0] + 1] == 0 && f[marks[0] + 2] == 0 && f[marks[0] + 3] == 0,
        marks[0] == 9,
        0 <= marks.last(),
        marks.last() + 4 <= avail,
        avail < marks.last() + 15 || !(f[marks.last() + 4] == 8 || f[marks.last() + 4] == 9 || f[marks.last()
            + 4] == 18),
        marks.last() <= avail <= f.len(),
    ensures
        flv_from(f, avail, marks[i], i as nat) == Some(marks.last() + 4),
        marks[i] <= marks.last(),
    decreases marks.len() - i,
{
    reveal_strlit("FLV");
    if i + 1 < marks.len() {
        let step = |a: int, b: int| flv_step(f, a, b);
        assert(step(marks[i], marks[i + 1]));
        lemma_flv(f, avail, marks, i + 1);
    }
}

/// A Flash video is found whole: behind its header of nine bytes there are tags, one after another, of which `marks` gives
/// where the lengths before them begin, and then the length of the last.
pub proof fn law_flv(f: Seq<u8>, avail: int, marks: Seq<int>)
    requires
        9 <= f.len(),
        f[0] == 0x46 && f[1] == 0x4C && f[2] == 0x56,
        f[5] == 0 && f[6] == 0 && f[7] == 0 && f[8] == 9,
        f[9] == 0 && f[10] == 0 && f[11] == 0 && f[12] == 0,
        1 < marks.len() <= 0x100_0000,
        marks[0] == 9,
        stepwise(marks, |a: int, b: int| flv_step(f, a, b)),
        f[marks[0]] == 0 && f[marks[0] + 1] == 0 && f[marks[0] + 2] == 0 && f[marks[0] + 3] == 0,
        marks[0] == 9,
        0 <= marks.last(),
        marks.last() + 4 <= avail,
        avail < marks.last() + 15 || !(f[marks.last() + 4] == 8 || f[marks.last() + 4] == 9 || f[marks.last()
            + 4] == 18),
        marks.last() <= avail <= f.len(),
    ensures
        flv_len(f, avail) == Some(marks.last() + 4),
{
    reveal_strlit("FLV");
    lemma_flv(f, avail, marks, 0);
}

/// From `a` to `b` there is a box: its length, or a one and the length behind the four letters that name it.
pub open spec fn mp4_step(f: Seq<u8>, a: int, b: int) -> bool {
    let n = be32(f, a) as int;
    &&& 0 <= a
    &&& a + 16 <= f.len()
    &&& 0x20 <= f[a + 4] <= 0x7E && 0x20 <= f[a + 5] <= 0x7E && 0x20 <= f[a + 6] <= 0x7E && 0x20 <= f[a
        + 7] <= 0x7E
    &&& if n == 1 {
        b == a + be64(f, a + 8)
    } else {
        b == a + n
    }
    &&& b >= a + 8
}

proof fn lemma_mp4(f: Seq<u8>, avail: int, marks: Seq<int>, i: int)
    requires
        0 <= i < marks.len(),
        1 < marks.len() <= 0x7FFF_FFFF_FFFF_FFFF,
        stepwise(marks, |a: int, b: int| mp4_step(f, a, b)),
        marks[0] == 0,
        f[4] == 0x66 && f[5] == 0x74 && f[6] == 0x79 && f[7] == 0x70,
        8 <= marks.last(),
        avail < marks.last() + 8 || f[marks.last() + 4] < 0x20,
        marks.last() <= avail <= f.len(),
    ensures
        mp4_from(f, avail, marks[i], i > 0) == Some(marks.last()),
        marks[i] <= marks.last(),
    decreases marks.len() - i,
{
    reveal_strlit("ftyp");
    if i + 1 < marks.len() {
        let step = |a: int, b: int| mp4_step(f, a, b);
        assert(step(marks[i], marks[i + 1]));
        lemma_mp4(f, avail, marks, i + 1);
    }
    if i + 1 < marks.len() {
        let a = marks[i];
        let h = window(f, a, 16);
        assert(be32(h, 0) == be32(f, a) && be64(h, 8) == be64(f, a + 8));
        if i == 0 {
            assert(h[4] == f[4] && h[5] == f[5] && h[6] == f[6] && h[7] == f[7]);
            assert(text_at(h, 4, "ftyp"@));
        }
        if marks[i + 1] == avail {
            assert(marks.last() == avail);
        }
    } else if marks.last() + 8 <= avail {
        let h = window(f, marks.last(), 16);
        assert(h[4] == f[marks.last() + 4]);
    }
}

/// An ISO media file is found whole: boxes, one after another, which begin at `marks`, the first of which is `ftyp`; what
/// follows them is no box.
pub proof fn law_mp4(f: Seq<u8>, avail: int, marks: Seq<int>)
    requires
        f[4] == 0x66 && f[5] == 0x74 && f[6] == 0x79 && f[7] == 0x70,
        1 < marks.len() <= 0x7FFF_FFFF_FFFF_FFFF,
        marks[0] == 0,
        stepwise(marks, |a: int, b: int| mp4_step(f, a, b)),
        marks[0] == 0,
        f[4] == 0x66 && f[5] == 0x74 && f[6] == 0x79 && f[7] == 0x70,
        8 <= marks.last(),
        avail < marks.last() + 8 || f[marks.last() + 4] < 0x20,
        marks.last() <= avail <= f.len(),
    ensures
        mp4_len(f, avail) == Some(marks.last()),
{
    reveal_strlit("ftyp");
    lemma_mp4(f, avail, marks, 0);
}

/// From `a` to `b` there is an object of an ASF file: the sixteen bytes that say what it is, and its length in eight.
pub open spec fn asf_step(f: Seq<u8>, a: int, b: int) -> bool {
    &&& 0 <= a
    &&& a + 24 <= f.len()
    &&& asf_guid(f.subrange(a, a + 24))
    &&& le64(f, a + 16) >= 24
    &&& b == a + le64(f, a + 16)
}

proof fn lemma_asf(f: Seq<u8>, avail: int, marks: Seq<int>, i: int)
    requires
        0 <= i < marks.len(),
        1 < marks.len() <= 4096,
        stepwise(marks, |a: int, b: int| asf_step(f, a, b)),
        0 <= marks.last(),
        avail < marks.last() + 24 || !asf_guid(f.subrange(marks.last(), marks.last() + 24)),
        marks.last() <= avail <= f.len(),
    ensures
        asf_from(f, avail, marks[i], i) == Some(marks.last()),
        marks[i] <= marks.last(),
    decreases marks.len() - i,
{
    if i + 1 < marks.len() {
        let step = |a: int, b: int| asf_step(f, a, b);
        assert(step(marks[i], marks[i + 1]));
        lemma_asf(f, avail, marks, i + 1);
    }
    if i + 1 < marks.len() {
        let h = f.subrange(marks[i], marks[i] + 24);
        assert(le64(h, 16) == le64(f, marks[i] + 16));
    }
}

/// An ASF file is found whole: objects, one after another, which begin at `marks`, with something else behind them.
pub proof fn law_asf(f: Seq<u8>, avail: int, marks: Seq<int>)
    requires
        1 < marks.len() <= 4096,
        marks[0] == 0,
        stepwise(marks, |a: int, b: int| asf_step(f, a, b)),
        0 <= marks.last(),
        avail < marks.last() + 24 || !asf_guid(f.subrange(marks.last(), marks.last() + 24)),
        marks.last() <= avail <= f.len(),
    ensures
        asf_len(f, avail) == Some(marks.last()),
{
    lemma_asf(f, avail, marks, 0);
}

/// From `a` to `b` there is a page of an Ogg stream: how many segments it has, the length of each, and the segments.
pub open spec fn ogg_step(f: Seq<u8>, a: int, b: int) -> bool {
    &&& 0 <= a
    &&& a + 27 <= f.len()
    &&& f[a] == 0x4F && f[a + 1] == 0x67 && f[a + 2] == 0x67 && f[a + 3] == 0x53 && f[a + 4] == 0
    &&& b == a + 27 + f[a + 26] + byte_sum(f.subrange(a + 27, a + 27 + f[a + 26]))
    &&& b >= a + 27 + f[a + 26]
}

proof fn lemma_ogg(f: Seq<u8>, avail: int, marks: Seq<int>, i: int)
    requires
        0 <= i < marks.len(),
        1 < marks.len() <= 0x100_0000,
        stepwise(marks, |a: int, b: int| ogg_step(f, a, b)),
        0 <= marks.last(),
        avail < marks.last() + 27 || f[marks.last()] != 0x4F,
        marks.last() <= avail <= f.len(),
    ensures
        ogg_from(f, avail, marks[i], i as nat) == Some(marks.last()),
        marks[i] <= marks.last(),
    decreases marks.len() - i,
{
    reveal_strlit("OggS");
    if i + 1 < marks.len() {
        let step = |a: int, b: int| ogg_step(f, a, b);
        assert(step(marks[i], marks[i + 1]));
        lemma_ogg(f, avail, marks, i + 1);
    }
    if i + 1 < marks.len() {
        let a = marks[i];
        let h = f.subrange(a, a + 27);
        assert(h[26] == f[a + 26]);
        assert(text_at(h, 0, "OggS"@));
    } else if marks.last() + 27 <= avail {
        let h = f.subrange(marks.last(), marks.last() + 27);
        assert(h[0] == f[marks.last()]);
        assert("OggS"@[0] == 'O');
        if text_at(h, 0, "OggS"@) {
            assert(h[0int] == "OggS"@[0] as u32);
        }
    }
}

/// An Ogg stream is found whole: pages, one after another, which begin at `marks`, with something else behind them.
pub proof fn law_ogg(f: Seq<u8>, avail: int, marks: Seq<int>)
    requires
        1 < marks.len() <= 0x100_0000,
        marks[0] == 0,
        stepwise(marks, |a: int, b: int| ogg_step(f, a, b)),
        0 <= marks.last(),
        avail < marks.last() + 27 || f[marks.last()] != 0x4F,
        marks.last() <= avail <= f.len(),
    ensures
        ogg_len(f, avail) == Some(marks.last()),
{
    reveal_strlit("OggS");
    lemma_ogg(f, avail, marks, 0);
}

/// From `a` to `b` there is an element of a program stream: a pack header of the second version, of 14 bytes and stuffing, or
/// of the first, of 12; or something else that says how many bytes follow its six.
pub open spec fn mpegps_step(f: Seq<u8>, a: int, b: int) -> bool {
    &&& 0 <= a
    &&& a + 14 <= f.len()
    &&& f[a] == 0 && f[a + 1] == 0 && f[a + 2] == 1
    &&& if f[a + 3] == 0xBA {
        ||| 0x40 <= f[a + 4] < 0x80 && b == a + 14 + f[a + 13] % 8
        ||| 0x20 <= f[a + 4] < 0x30 && b == a + 12
    } else {
        f[a + 3] >= 0xBB && b == a + 6 + 0x100 * f[a + 4] + f[a + 5]
    }
}

proof fn lemma_mpegps(f: Seq<u8>, avail: int, marks: Seq<int>, i: int)
    requires
        0 <= i < marks.len(),
        3 < marks.len() <= 0x7FFF_FFFF_FFFF_FFFF,
        stepwise(marks, |a: int, b: int| mpegps_step(f, a, b)),
        0 <= marks.last(),
        marks.last() + 4 <= avail,
        f[marks.last()] == 0 && f[marks.last() + 1] == 0 && f[marks.last() + 2] == 1 && f[marks.last() + 3]
            == 0xB9,
        marks.last() <= avail <= f.len(),
    ensures
        mpegps_from(f, avail, marks[i], i) == Some(marks.last() + 4),
        marks[i] <= marks.last(),
    decreases marks.len() - i,
{
    if i + 1 < marks.len() {
        let step = |a: int, b: int| mpegps_step(f, a, b);
        assert(step(marks[i], marks[i + 1]));
        lemma_mpegps(f, avail, marks, i + 1);
    }
    let a = marks[i];
    let h = f.subrange(a, a + 4);
    assert(h[0] == f[a] && h[1] == f[a + 1] && h[2] == f[a + 2] && h[3] == f[a + 3]);
    if i + 1 < marks.len() {
        let g = f.subrange(a + 4, a + 6);
        assert(g[0] == f[a + 4] && g[1] == f[a + 5]);
    }
}

/// A program stream is found whole: elements, one after another, which begin at `marks`, and the code that ends it.
pub proof fn law_mpegps(f: Seq<u8>, avail: int, marks: Seq<int>)
    requires
        3 < marks.len() <= 0x7FFF_FFFF_FFFF_FFFF,
        marks[0] == 0,
        stepwise(marks, |a: int, b: int| mpegps_step(f, a, b)),
        0 <= marks.last(),
        marks.last() + 4 <= avail,
        f[marks.last()] == 0 && f[marks.last() + 1] == 0 && f[marks.last() + 2] == 1 && f[marks.last() + 3]
            == 0xB9,
        marks.last() <= avail <= f.len(),
    ensures
        mpegps_len(f, avail) == Some(marks.last() + 4),
{
    lemma_mpegps(f, avail, marks, 0);
}

/// From `a` to `b` there is a track of a MIDI file: four letters and how many bytes follow them.
pub open spec fn midi_step(f: Seq<u8>, a: int, b: int) -> bool {
    &&& 0 <= a
    &&& a + 8 <= f.len()
    &&& f[a] == 0x4D && f[a + 1] == 0x54 && f[a + 2] == 0x72 && f[a + 3] == 0x6B
    &&& b == a + 8 + be32(f, a + 4)
}

proof fn lemma_midi(f: Seq<u8>, avail: int, marks: Seq<int>, i: int)
    requires
        0 <= i < marks.len(),
        1 < marks.len() <= 0x10_0000,
        stepwise(marks, |a: int, b: int| midi_step(f, a, b)),
        0 <= marks.last(),
        avail < marks.last() + 8 || f[marks.last()] != 0x4D,
        marks.last() <= avail <= f.len(),
    ensures
        midi_from(f, avail, marks[i], i) == Some(marks.last()),
        marks[i] <= marks.last(),
    decreases marks.len() - i,
{
    reveal_strlit("MTrk");
    reveal_strlit("MThd");
    if i + 1 < marks.len() {
        let step = |a: int, b: int| midi_step(f, a, b);
        assert(step(marks[i], marks[i + 1]));
        lemma_midi(f, avail, marks, i + 1);
    }
    if i + 1 < marks.len() {
        let a = marks[i];
        assert(text_at(f.subrange(a, a + 8), 0, "MTrk"@));
    } else if marks.last() + 8 <= avail {
        let h = f.subrange(marks.last(), marks.last() + 8);
        assert(h[0] == f[marks.last()]);
        if text_at(h, 0, "MTrk"@) {
            assert(h[0int] == "MTrk"@[0] as u32);
        }
    }
}

/// A MIDI file is found whole: behind its header of 14 bytes there are tracks, one after another, which begin at `marks`,
/// with something else behind them.
pub proof fn law_midi(f: Seq<u8>, avail: int, marks: Seq<int>)
    requires
        f[0] == 0x4D && f[1] == 0x54 && f[2] == 0x68 && f[3] == 0x64,
        f[4] == 0 && f[5] == 0 && f[6] == 0 && f[7] == 6,
        1 < marks.len() <= 0x10_0000,
        marks[0] == 14,
        stepwise(marks, |a: int, b: int| midi_step(f, a, b)),
        0 <= marks.last(),
        avail < marks.last() + 8 || f[marks.last()] != 0x4D,
        marks.last() <= avail <= f.len(),
    ensures
        midi_len(f, avail) == Some(marks.last()),
{
    reveal_strlit("MTrk");
    reveal_strlit("MThd");
    lemma_midi(f, avail, marks, 0);
    assert(text_at(f.subrange(0, 8), 0, "MThd"@));
}

/// From `a` to `b` there is a block of a WavPack file: four letters and how many bytes follow the eight.
pub open spec fn wavpack_step(f: Seq<u8>, a: int, b: int) -> bool {
    &&& 0 <= a
    &&& a + 12 <= f.len()
    &&& f[a] == 0x77 && f[a + 1] == 0x76 && f[a + 2] == 0x70 && f[a + 3] == 0x6B
    &&& le32(f, a + 4) >= 24
    &&& b == a + 8 + le32(f, a + 4)
}

proof fn lemma_wavpack(f: Seq<u8>, avail: int, marks: Seq<int>, i: int)
    requires
        0 <= i < marks.len(),
        1 < marks.len() <= 0x7FFF_FFFF_FFFF_FFFF,
        stepwise(marks, |a: int, b: int| wavpack_step(f, a, b)),
        marks[0] == 0,
        0x0402 <= le16(f, 8) <= 0x0410,
        0 <= marks.last(),
        avail == marks.last() || f.len() < marks.last() + 12 || f[marks.last()] != 0x77,
        marks.last() <= avail <= f.len(),
    ensures
        wavpack_from(f, avail, marks[i], i) == Some(marks.last()),
        marks[i] <= marks.last(),
    decreases marks.len() - i,
{
    reveal_strlit("wvpk");
    if i + 1 < marks.len() {
        let step = |a: int, b: int| wavpack_step(f, a, b);
        assert(step(marks[i], marks[i + 1]));
        lemma_wavpack(f, avail, marks, i + 1);
    }
    if i + 1 < marks.len() {
        let a = marks[i];
        let h = f.subrange(a, a + 12);
        assert(text_at(h, 0, "wvpk"@));
        assert(le16(h, 8) == le16(f, a + 8) && le32(h, 4) == le32(f, a + 4));
    } else if marks.last() + 12 <= f.len() {
        let h = f.subrange(marks.last(), marks.last() + 12);
        assert(h[0] == f[marks.last()]);
        if text_at(h, 0, "wvpk"@) {
            assert(h[0int] == "wvpk"@[0] as u32);
        }
    }
}

/// A WavPack file is found whole: blocks, one after another, which begin at `marks`, with something else behind them.
pub proof fn law_wavpack(f: Seq<u8>, avail: int, marks: Seq<int>)
    requires
        0x0402 <= le16(f, 8) <= 0x0410,
        1 < marks.len() <= 0x7FFF_FFFF_FFFF_FFFF,
        marks[0] == 0,
        stepwise(marks, |a: int, b: int| wavpack_step(f, a, b)),
        marks[0] == 0,
        0x0402 <= le16(f, 8) <= 0x0410,
        0 <= marks.last(),
        avail == marks.last() || f.len() < marks.last() + 12 || f[marks.last()] != 0x77,
        marks.last() <= avail <= f.len(),
    ensures
        wavpack_len(f, avail) == Some(marks.last()),
{
    reveal_strlit("wvpk");
    lemma_wavpack(f, avail, marks, 0);
}

/// The segments of an Ogg page are as long together as each is: one more adds its own length.
pub proof fn law_byte_sum(s: Seq<u8>, x: u8)
    ensures
        byte_sum(Seq::empty()) == 0,
        byte_sum(s.push(x)) == byte_sum(s) + x,
{
    assert(s.push(x).drop_last() =~= s);
}

proof fn lemma_mpegts(f: Seq<u8>, avail: int, n: int, k: int)
    requires
        0 <= k <= n,
        n * 188 <= avail <= f.len(),
        forall|i: int| 0 <= i < n ==> #[trigger] f[i * 188] == 0x47,
        (n + 1) * 188 > avail || f[n * 188] != 0x47,
    ensures
        mpegts_packets(f, avail, k) == n,
    decreases n - k,
{
    if k < n {
        assert(f[k * 188] == 0x47);
        lemma_mpegts(f, avail, n, k + 1);
    }
}

/// A transport stream is found whole: as many packets of 188 bytes as begin with 0x47, one after another, of which there
/// are eight at least.
pub proof fn law_mpegts(f: Seq<u8>, avail: int, n: int)
    requires
        8 <= n,
        n * 188 <= avail <= f.len(),
        forall|i: int| 0 <= i < n ==> #[trigger] f[i * 188] == 0x47,
        (n + 1) * 188 > avail || f[n * 188] != 0x47,
    ensures
        mpegts_len(f, avail) == Some(n * 188),
{
    lemma_mpegts(f, avail, n, 0);
}

/// From `a` to `b` there is a frame of an IVF file: its length, and as many bytes behind its header of twelve.
pub open spec fn ivf_step(f: Seq<u8>, a: int, b: int) -> bool {
    &&& 0 <= a
    &&& a + 12 <= f.len()
    &&& b == a + 12 + le32(f, a)
}

proof fn lemma_ivf(f: Seq<u8>, avail: int, marks: Seq<int>, i: int)
    requires
        0 <= i < marks.len(),
        stepwise(marks, |a: int, b: int| ivf_step(f, a, b)),
        marks.last() <= avail <= f.len(),
    ensures
        ivf_from(f, avail, marks[i], (marks.len() - 1 - i) as nat) == Some(marks.last()),
        marks[i] <= marks.last(),
    decreases marks.len() - i,
{
    if i + 1 < marks.len() {
        let step = |a: int, b: int| ivf_step(f, a, b);
        assert(step(marks[i], marks[i + 1]));
        lemma_ivf(f, avail, marks, i + 1);
        assert(le32(f.subrange(marks[i], marks[i] + 12), 0) == le32(f, marks[i]));
    }
}

/// An IVF file is found whole: behind its header of 32 bytes there are as many frames as it says, one after another.
pub proof fn law_ivf(f: Seq<u8>, avail: int, marks: Seq<int>)
    requires
        32 <= f.len(),
        f[0] == 0x44 && f[1] == 0x4B && f[2] == 0x49 && f[3] == 0x46,
        f[4] == 0 && f[5] == 0 && f[6] == 32 && f[7] == 0,
        marks.len() >= 2,
        le32(f, 0x18) == marks.len() - 1,
        marks[0] == 32,
        stepwise(marks, |a: int, b: int| ivf_step(f, a, b)),
        marks.last() <= avail <= f.len(),
    ensures
        ivf_len(f, avail) == Some(marks.last()),
{
    reveal_strlit("DKIF");
    let h = f.subrange(0, 32);
    assert(text_at(h, 0, "DKIF"@));
    assert(le32(h, 0x18) == le32(f, 0x18) && le16(h, 4) == 0 && le16(h, 6) == 32);
    lemma_ivf(f, avail, marks, 0);
}

/// From `a` to `b` there is a frame of a QOA file: it says in its last two bytes of eight how long it is.
pub open spec fn qoa_step(f: Seq<u8>, a: int, b: int) -> bool {
    &&& 0 <= a
    &&& a + 8 <= f.len()
    &&& be16(f, a + 6) >= 8
    &&& b == a + be16(f, a + 6)
}

proof fn lemma_qoa(f: Seq<u8>, avail: int, marks: Seq<int>, i: int)
    requires
        0 <= i < marks.len(),
        stepwise(marks, |a: int, b: int| qoa_step(f, a, b)),
        marks.last() <= avail <= f.len(),
    ensures
        qoa_from(f, avail, marks[i], (marks.len() - 1 - i) as nat) == Some(marks.last()),
        marks[i] <= marks.last(),
    decreases marks.len() - i,
{
    if i + 1 < marks.len() {
        let step = |a: int, b: int| qoa_step(f, a, b);
        assert(step(marks[i], marks[i + 1]));
        lemma_qoa(f, avail, marks, i + 1);
        assert(be16(f.subrange(marks[i], marks[i] + 8), 6) == be16(f, marks[i] + 6));
    }
}

/// A QOA file is found whole: behind eight bytes there are frames, one after another, which begin at `marks`, each of 5120
/// samples but for the last.
pub proof fn law_qoa(f: Seq<u8>, avail: int, marks: Seq<int>)
    requires
        16 <= f.len(),
        f[0] == 0x71 && f[1] == 0x6F && f[2] == 0x61 && f[3] == 0x66,
        marks.len() >= 2,
        (marks.len() - 2) * 5120 < be32(f, 4) <= (marks.len() - 1) * 5120,
        f[8] > 0,
        f[9] > 0 || f[10] > 0 || f[11] > 0,
        marks[0] == 8,
        stepwise(marks, |a: int, b: int| qoa_step(f, a, b)),
        marks.last() <= avail <= f.len(),
        16 <= avail,
    ensures
        qoa_len(f, avail) == Some(marks.last()),
{
    reveal_strlit("qoaf");
    let h = f.subrange(0, 8);
    let g = f.subrange(8, 16);
    assert(text_at(h, 0, "qoaf"@));
    assert(be32(h, 4) == be32(f, 4) && g[0] == f[8] && g[1] == f[9] && g[2] == f[10] && g[3] == f[11]);
    lemma_qoa(f, avail, marks, 0);
}

/// From `a` to `b` there is a block of a Creative Voice file that is not the last: a type that is not zero, and in three
/// bytes how many follow.
pub open spec fn voc_step(f: Seq<u8>, a: int, b: int) -> bool {
    &&& 0 <= a
    &&& a + 4 <= f.len()
    &&& f[a] != 0
    &&& b == a + 4 + f[a + 1] + 0x100 * f[a + 2] + 0x1_0000 * f[a + 3]
}

proof fn lemma_voc(f: Seq<u8>, avail: int, marks: Seq<int>, i: int, left: nat)
    requires
        0 <= i < marks.len(),
        stepwise(marks, |a: int, b: int| voc_step(f, a, b)),
        0 <= marks.last() < avail <= f.len(),
        f[marks.last()] == 0,
        marks.len() - i <= left,
    ensures
        voc_from(f, avail, marks[i], left) == Some(marks.last() + 1),
        marks[i] <= marks.last(),
    decreases marks.len() - i,
{
    if i + 1 < marks.len() {
        let step = |a: int, b: int| voc_step(f, a, b);
        assert(step(marks[i], marks[i + 1]));
        lemma_voc(f, avail, marks, i + 1, (left - 1) as nat);
    }
    let b = padded(window(f, marks[i], 4), 4);
    assert(b[0] == f[marks[i]]);
}

/// A Creative Voice file is found whole: behind a header as long as it says there are blocks, one after another, which
/// begin at `marks`, and a zero.
pub proof fn law_voc(f: Seq<u8>, avail: int, marks: Seq<int>)
    requires
        22 <= f.len(),
        text_at(f.subrange(0, 22), 0, "Creative Voice File\x1a"@),
        1 <= marks.len() <= 1_000_000,
        marks[0] == f[20] + 0x100 * f[21],
        0x14 <= marks[0] <= 0x100,
        stepwise(marks, |a: int, b: int| voc_step(f, a, b)),
        0 <= marks.last() < avail <= f.len(),
        f[marks.last()] == 0,
    ensures
        voc_len(f, avail) == Some(marks.last() + 1),
{
    assert(le16(f.subrange(0, 22), 0x14) == f[20] + 0x100 * f[21]);
    lemma_voc(f, avail, marks, 0, 1_000_000);
}

/// From `a` to `b` there is a frame of an AAC stream: a sync mark, and its length in 13 bits. All frames have the rate
/// `rate`.
pub open spec fn aac_step(f: Seq<u8>, rate: int, a: int, b: int) -> bool {
    &&& 0 <= a
    &&& a + 7 <= f.len()
    &&& f[a] == 0xFF && f[a + 1] >= 0xF0 && f[a + 1] / 2 % 4 == 0
    &&& f[a + 2] / 4 % 16 == rate
    &&& rate <= 12
    &&& b == a + 2048 * (f[a + 3] % 4) + 8 * f[a + 4] + f[a + 5] / 32
    &&& b >= a + 7
}

proof fn lemma_aac(f: Seq<u8>, avail: int, rate: int, marks: Seq<int>, i: int)
    requires
        0 <= i < marks.len(),
        stepwise(marks, |a: int, b: int| aac_step(f, rate, a, b)),
        0 <= marks.last() <= avail <= f.len(),
        f.len() < marks.last() + 7 || f[marks.last()] != 0xFF,
    ensures
        aac_run(
            f,
            avail,
            marks[i],
            i,
            if i == 0 {
                0
            } else {
                rate
            },
        ) == (marks.last(), marks.len() - 1),
        marks[i] <= marks.last(),
    decreases marks.len() - i,
{
    let a = marks[i];
    let h = f.subrange(a, a + 7);
    if i + 1 < marks.len() {
        let step = |a: int, b: int| aac_step(f, rate, a, b);
        assert(step(marks[i], marks[i + 1]));
        lemma_aac(f, avail, rate, marks, i + 1);
        assert(h[0] == f[a] && h[1] == f[a + 1] && h[2] == f[a + 2] && h[3] == f[a + 3] && h[4] == f[a + 4]
            && h[5] == f[a + 5]);
        assert(aac_rate(h) == rate);
        assert(aac_frame_len(h) == Some(marks[i + 1] - a));
    } else if a + 7 <= f.len() {
        assert(h[0] == f[a]);
    }
}

/// An AAC stream is found whole: frames of one rate, one after another, which begin at `marks`, four at least, with
/// something else behind them.
pub proof fn law_aac(f: Seq<u8>, avail: int, rate: int, marks: Seq<int>)
    requires
        5 <= marks.len(),
        marks[0] == 0,
        stepwise(marks, |a: int, b: int| aac_step(f, rate, a, b)),
        0 <= marks.last() <= avail <= f.len(),
        f.len() < marks.last() + 7 || f[marks.last()] != 0xFF,
    ensures
        aac_len(f, avail) == Some(marks.last()),
{
    lemma_aac(f, avail, rate, marks, 0);
}

/// From `a` to `b` there is a frame of MPEG sound.
pub open spec fn mp3_step(f: Seq<u8>, a: int, b: int) -> bool {
    &&& 0 <= a
    &&& a + 4 <= f.len()
    &&& f[a] == 0xFF
    &&& mpeg_frame_len(f.subrange(a, a + 4)) == Some(b - a)
}

proof fn lemma_mp3(f: Seq<u8>, avail: int, marks: Seq<int>, i: int)
    requires
        0 <= i < marks.len(),
        stepwise(marks, |a: int, b: int| mp3_step(f, a, b)),
        0 <= marks.last() <= avail <= f.len(),
        marks.last() + 4 <= f.len(),
        f[marks.last()] != 0xFF,
    ensures
        mp3_run(f, avail, marks[i], i) == (
            marks.last() + if f[marks.last()] == 0x54 && f[marks.last() + 1] == 0x41 && f[marks.last() + 2]
                == 0x47 {
                128
            } else {
                0int
            },
            marks.len() - 1,
        ),
        marks[i] <= marks.last(),
    decreases marks.len() - i,
{
    reveal_strlit("TAG");
    let a = marks[i];
    let h = f.subrange(a, a + 4);
    if i + 1 < marks.len() {
        let step = |a: int, b: int| mp3_step(f, a, b);
        assert(step(marks[i], marks[i + 1]));
        lemma_mp3(f, avail, marks, i + 1);
        if text_at(h, 0, "TAG"@) {
            assert(h[0int] == "TAG"@[0] as u32);
        }
    } else {
        assert(h[0] == f[a] && h[1] == f[a + 1] && h[2] == f[a + 2]);
        if text_at(h, 0, "TAG"@) {
            assert(h[0int] == "TAG"@[0] as u32 && h[1int] == "TAG"@[1] as u32 && h[2int]
                == "TAG"@[2] as u32);
        }
    }
}

/// MPEG sound is found whole: behind a tag as long as it says there are frames, one after another, which begin at `marks`,
/// three at least, and a tag of 128 bytes at the end, where there is one; and so it is without the first tag where there
/// are eight frames at least.
pub proof fn law_mp3(f: Seq<u8>, avail: int, marks: Seq<int>, end: int)
    requires
        10 <= f.len(),
        marks.len() >= 1,
        stepwise(marks, |a: int, b: int| mp3_step(f, a, b)),
        0 <= marks.last() <= avail <= f.len(),
        marks.last() + 4 <= f.len(),
        f[marks.last()] != 0xFF,
        end == marks.last() + if f[marks.last()] == 0x54 && f[marks.last() + 1] == 0x41 && f[marks.last()
            + 2] == 0x47 {
            128
        } else {
            0int
        },
        end <= avail,
    ensures
        f[0] == 0x49 && f[1] == 0x44 && f[2] == 0x33 && f[6] < 128 && f[7] < 128 && f[8] < 128 && f[9]
            < 128 && marks.len() >= 4 && marks[0] == 10 + 0x20_0000 * f[6] + 0x4000 * f[7] + 0x80 * f[8]
            + f[9] + (if f[5] / 16 % 2 == 1 {
            10int
        } else {
            0
        }) ==> mp3_len(f, avail) == Some(end),
        marks.len() >= 9 && marks[0] == 0 ==> mp3_raw_len(f, avail) == Some(end),
{
    reveal_strlit("ID3");
    lemma_mp3(f, avail, marks, 0);
    let h = f.subrange(0, 10);
    assert(h[0] == f[0] && h[1] == f[1] && h[2] == f[2] && h[5] == f[5] && h[6] == f[6] && h[7] == f[7]
        && h[8] == f[8] && h[9] == f[9]);
}

/// A frame of MPEG sound lasts as long as its samples: of the third and second layer of the first version, 1152 at eight
/// bits to the byte, of the first layer 384 in words of four bytes, and of the third layer of the others 576. The length
/// is what the bit rate needs for that, rounded down, and one slot more where the frame is padded.
pub proof fn law_mpeg_frame(h: Seq<u8>, len: int, bits: int, rate: int)
    requires
        mpeg_frame_len(h) == Some(len),
        bits == 1000 * mpeg_bitrate(h[1] / 8 % 4 == 3, 3 - h[1] / 2 % 4, h[2] as int / 16),
        rate == mpeg_samplerate(h[1] / 8 % 4, h[2] as int / 4 % 4),
        rate > 0,
    ensures
        ({
            let pad = h[2] as int / 2 % 2;
            let layer = h[1] / 2 % 4;
            &&& layer == 3 ==> len % 4 == 0 && (len / 4 - pad) * rate * 8 * 4 <= 384 * bits < (len / 4 - pad
                + 1) * rate * 8 * 4
            &&& layer == 2 || layer == 1 && h[1] / 8 % 4 == 3 ==> (len - pad) * rate * 8 <= 1152 * bits < (
            len - pad + 1) * rate * 8
            &&& layer == 1 && h[1] / 8 % 4 != 3 ==> (len - pad) * rate * 8 <= 576 * bits < (len - pad + 1)
                * rate * 8
        }),
{
    let pad = h[2] as int / 2 % 2;
    let layer = h[1] / 2 % 4;
    let n: int = if layer == 3 {
        12
    } else if layer == 1 && h[1] / 8 % 4 != 3 {
        72
    } else {
        144
    };
    let q = n * bits / rate;
    assert(q * rate <= n * bits < (q + 1) * rate) by (nonlinear_arith)
        requires
            q == n * bits / rate,
            rate > 0,
    ;
    assert(layer == 1 || layer == 2 || layer == 3);
}

/// The bit rates rise with their index, and each sample rate of the second version is half that of the first, and of the
/// one below a quarter.
pub proof fn law_mpeg_rates(v1: bool, layer: int, i: int, j: int)
    requires
        1 <= i < j <= 14,
        0 <= layer <= 2,
    ensures
        0 < mpeg_bitrate(v1, layer, i) < mpeg_bitrate(v1, layer, j),
        v1 ==> mpeg_bitrate(v1, layer, i) >= mpeg_bitrate(false, layer, i),
        forall|k: int|
            0 <= k < 3 ==> #[trigger] mpeg_samplerate(3, k) == 2 * mpeg_samplerate(2, k) && mpeg_samplerate(
                2,
                k,
            ) == 2 * mpeg_samplerate(0, k),
{
    assert(i == 1 || i == 2 || i == 3 || i == 4 || i == 5 || i == 6 || i == 7 || i == 8 || i == 9 || i == 10
        || i == 11 || i == 12 || i == 13);
    assert(j == 14 || j == 2 || j == 3 || j == 4 || j == 5 || j == 6 || j == 7 || j == 8 || j == 9 || j == 10
        || j == 11 || j == 12 || j == 13);
    assert(layer == 0 || layer == 1 || layer == 2);
    assert forall|k: int| 0 <= k < 3 implies #[trigger] mpeg_samplerate(3, k) == 2 * mpeg_samplerate(2, k)
        && mpeg_samplerate(2, k) == 2 * mpeg_samplerate(0, k) by {
        assert(k == 0 || k == 1 || k == 2);
    }
}

/// Integers are read byte by byte: with one byte more at the less significant end, what there was counts 256 times.
pub proof fn law_uint(s: Seq<u8>, x: u8)
    ensures
        be_uint(Seq::empty()) == 0,
        le_uint(Seq::empty()) == 0,
        be_uint(s.push(x)) == 256 * be_uint(s) + x,
        le_uint(seq![x] + s) == 256 * le_uint(s) + x,
{
    assert(s.push(x).drop_last() =~= s);
    lemma_le_uint(s, x);
}

/// The same from the other end.
proof fn lemma_le_uint(s: Seq<u8>, x: u8)
    ensures
        le_uint(seq![x] + s) == 256 * le_uint(s) + x,
    decreases s.len(),
{
    let t = seq![x] + s;
    assert(t.drop_first() =~= s);
    assert(t[0] == x);
}

/// An EBML integer of `n` bytes begins with `n - 1` zero bits and a one, and the other bits are its value: of one byte it
/// is what is left without the top bit.
pub proof fn law_ebml_width(first: u8)
    requires
        first > 0,
    ensures
        1 <= ebml_width(first) <= 8,
        pow2((8 - ebml_width(first)) as nat) <= first < 2 * pow2((8 - ebml_width(first)) as nat),
{
    lemma2_to64();
}

/// A Matroska file whose segment says how long it is ends where that is.
pub proof fn law_ebml(f: Seq<u8>, avail: int, n: int, size: int, p: int, m: int, len: int)
    requires
        f[0] == 0x1A && f[1] == 0x45 && f[2] == 0xDF && f[3] == 0xA3,
        f[4] > 0,
        n == ebml_width(f[4]),
        size == be_uint(f.subrange(4, 4 + n)) - pow2((7 * n) as nat),
        0 <= size < pow2((7 * n) as nat) - 1,
        p == 4 + n + size,
        p + 4 < avail <= f.len(),
        f[p] == 0x18 && f[p + 1] == 0x53 && f[p + 2] == 0x80 && f[p + 3] == 0x67,
        f[p + 4] > 0,
        m == ebml_width(f[p + 4]),
        len == be_uint(f.subrange(p + 4, p + 4 + m)) - pow2((7 * m) as nat),
        0 < len < pow2((7 * m) as nat) - 1,
        p + 4 + m + len <= avail,
    ensures
        ebml_len(f, avail) == Some(p + 4 + m + len),
{
    law_ebml_width(f[4]);
    law_ebml_width(f[p + 4]);
    let a = f.subrange(0, 4);
    let b = f.subrange(p, p + 4);
    assert(a[0] == f[0] && a[1] == f[1] && a[2] == f[2] && a[3] == f[3]);
    assert(b[0] == f[p] && b[1] == f[p + 1] && b[2] == f[p + 2] && b[3] == f[p + 3]);
    lemma_mod_once(size, pow2((7 * n) as nat) as int);
    lemma_mod_once(len, pow2((7 * m) as nat) as int);
    assert(ebml_value(f, 4, n) == size);
    assert(ebml_value(f, p + 4, m) == len);
}

proof fn lemma_mod_once(x: int, m: int)
    requires
        0 <= x < m,
    ensures
        (x + m) % m == x,
{
    vstd::arithmetic::div_mod::lemma_mod_add_multiples_vanish(x, m);
    vstd::arithmetic::div_mod::lemma_small_mod(x as nat, m as nat);
}

} // verus!
