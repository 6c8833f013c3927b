//! Audio.

use crate::bytes::{
    be16, be24, be32, be64, fit, is_text, larger, le16, le24, le32, le64, pad, padded, rd_be16, rd_be24,
    rd_be32, rd_be64, rd_le16, rd_le24, rd_le32, rd_le64, text_at, within,
};
use crate::source::{window, Length, ReadError, Source};
use vstd::prelude::*;

verus! {

/// The bitrate in kbit/s of MPEG audio with the 4-bit index `i`, of MPEG 1 where
/// `v1` and of MPEG 2 and 2.5 where not; `layer` is 0 for Layer I, 1 for II, 2
/// for III.
pub open spec fn mpeg_bitrate(v1: bool, layer: int, i: int) -> u64 {
    if v1 && layer == 0 {
        seq![0u64, 32, 64, 96, 128, 160, 192, 224, 256, 288, 320, 352, 384, 416, 448, 0][i]
    } else if v1 && layer == 1 {
        seq![0u64, 32, 48, 56, 64, 80, 96, 112, 128, 160, 192, 224, 256, 320, 384, 0][i]
    } else if v1 {
        seq![0u64, 32, 40, 48, 56, 64, 80, 96, 112, 128, 160, 192, 224, 256, 320, 0][i]
    } else if layer == 0 {
        seq![0u64, 32, 48, 56, 64, 80, 96, 112, 128, 144, 160, 176, 192, 224, 256, 0][i]
    } else {
        seq![0u64, 8, 16, 24, 32, 40, 48, 56, 64, 80, 96, 112, 128, 144, 160, 0][i]
    }
}

/// The sample rate in Hz with the 2-bit index `i`, not 3; `version` is 0 for MPEG
/// 2.5, 2 for MPEG 2, 3 for MPEG 1.
pub open spec fn mpeg_samplerate(version: u8, i: int) -> u64 {
    if version == 0 {
        seq![11025u64, 12000, 8000][i]
    } else if version == 2 {
        seq![22050u64, 24000, 16000][i]
    } else {
        seq![44100u64, 48000, 32000][i]
    }
}

/// The length of an MPEG audio frame from its 4-byte header: an 11-bit sync,
/// version, layer, checksum flag, bitrate, sample rate, padding. Reserved values
/// and the free format are not frames.
pub open spec fn mpeg_frame_len(h: Seq<u8>) -> Option<int> {
    let version = h[1] / 8 % 4;
    let layer = h[1] / 2 % 4;  // 1 is Layer III, 2 is II, 3 is I
    let rate_index = h[2] / 16;
    let sample_index = h[2] / 4 % 4;
    let pad = h[2] / 2 % 2;
    let bits = mpeg_bitrate(version == 3, 3 - layer, rate_index as int) * 1000;
    let samples: int = mpeg_samplerate(version, sample_index as int) as int;
    if h[0] != 0xFF || h[1] / 32 != 7 || version == 1 || layer == 0 || rate_index == 0 || rate_index
        == 15 || sample_index == 3 {
        None
    } else {
        let len = if layer == 3 {
            (12 * bits / samples + pad) * 4
        } else if layer == 1 && version != 3 {
            72 * bits / samples + pad
        } else {
            144 * bits / samples + pad
        };
        if len < 4 {
            None
        } else {
            Some(len)
        }
    }
}

fn bitrate(v1: bool, layer: u8, i: u8) -> (r: u64)
    requires
        layer <= 2,
        i < 16,
    ensures
        r == mpeg_bitrate(v1, layer as int, i as int),
        r <= 448,
{
    let t: [u64; 16] = if v1 && layer == 0 {
        [0, 32, 64, 96, 128, 160, 192, 224, 256, 288, 320, 352, 384, 416, 448, 0]
    } else if v1 && layer == 1 {
        [0, 32, 48, 56, 64, 80, 96, 112, 128, 160, 192, 224, 256, 320, 384, 0]
    } else if v1 {
        [0, 32, 40, 48, 56, 64, 80, 96, 112, 128, 160, 192, 224, 256, 320, 0]
    } else if layer == 0 {
        [0, 32, 48, 56, 64, 80, 96, 112, 128, 144, 160, 176, 192, 224, 256, 0]
    } else {
        [0, 8, 16, 24, 32, 40, 48, 56, 64, 80, 96, 112, 128, 144, 160, 0]
    };
    t[i as usize]
}

fn samplerate(version: u8, i: u8) -> (r: u64)
    requires
        i < 3,
    ensures
        r == mpeg_samplerate(version, i as int),
        8000 <= r <= 48000,
{
    let t: [u64; 3] = if version == 0 {
        [11025, 12000, 8000]
    } else if version == 2 {
        [22050, 24000, 16000]
    } else {
        [44100, 48000, 32000]
    };
    t[i as usize]
}

/// Decode the length in bytes of a single MPEG audio frame from its 4-byte
/// header, or `None` if the header is not a valid MPEG-1/2/2.5 Layer I/II/III
/// frame sync.
pub fn frame_length(h: &[u8]) -> (r: Option<u64>)
    requires
        h.len() == 4,
    ensures
        match r {
            Some(n) => mpeg_frame_len(h@) == Some(n as int) && 4 <= n < 0x1000_0000,
            None => mpeg_frame_len(h@) is None,
        },
{
    let version: u8 = h[1] / 8 % 4;
    let layer: u8 = h[1] / 2 % 4;
    let rate_index: u8 = h[2] / 16;
    let sample_index: u8 = h[2] / 4 % 4;
    let pad: u64 = (h[2] / 2 % 2) as u64;
    if h[0] != 0xFF || h[1] / 32 != 7 || version == 1 || layer == 0 || rate_index == 0 || rate_index
        == 15 || sample_index == 3 {
        return None;
    }
    let bits: u64 = bitrate(version == 3, 3 - layer, rate_index) * 1000;
    let samples: u64 = samplerate(version, sample_index);
    let factor: u64 = if layer == 3 {
        12
    } else if layer == 1 && version != 3 {
        72
    } else {
        144
    };
    assert(factor * bits <= 144 * 448000) by (nonlinear_arith)
        requires
            factor <= 144,
            bits <= 448000,
    ;
    let whole: u64 = factor * bits / samples;
    assert(whole <= 144 * 448000) by {
        vstd::arithmetic::div_mod::lemma_div_is_ordered_by_denominator(
            factor * bits,
            1,
            samples as int,
        );
    }
    let len: u64 = if layer == 3 {
        (whole + pad) * 4
    } else {
        whole + pad
    };
    if len < 4 {
        return None;
    }
    Some(len)
}

/// Where a run of MPEG audio frames ends that has reached `pos`, and how many
/// frames it has, `frames` of them before `pos`. A trailing ID3v1 tag, of 128
/// bytes, is taken in.
pub open spec fn mp3_run(f: Seq<u8>, avail: int, pos: int, frames: int) -> (int, int)
    decreases avail - pos,
{
    let h = f.subrange(pos, pos + 4);
    if pos + 4 > f.len() {
        (pos, frames)
    } else if text_at(h, 0, "TAG"@) {
        (pos + 128, frames)
    } else {
        match mpeg_frame_len(h) {
            None => (pos, frames),
            Some(len) => if pos + len > avail {
                (pos, frames)
            } else {
                mp3_run(f, avail, pos + len, frames + 1)
            },
        }
    }
}

/// Where the audio begins behind the ID3v2 header `h`: its size is in four bytes
/// of seven bits each, and a footer of 10 bytes may follow.
pub open spec fn id3_end(h: Seq<u8>) -> int {
    10 + h[6] * 0x20_0000 + h[7] * 0x4000 + h[8] * 0x80 + h[9] + if h[5] / 16 % 2 == 1 {
        10int
    } else {
        0int
    }
}

/// The length of an MP3 at the beginning of `f` that starts with an ID3v2 tag: at
/// least three frames must follow the tag.
pub open spec fn mp3_len(f: Seq<u8>, avail: int) -> Option<int> {
    let h = f.subrange(0, 10);
    let (end, frames) = mp3_run(f, avail, id3_end(h), 0);
    if f.len() < 10 || !text_at(h, 0, "ID3"@) || h[6] >= 128 || h[7] >= 128 || h[8] >= 128 || h[9]
        >= 128 || id3_end(h) >= avail || frames < 3 {
        None
    } else {
        fit(end, avail)
    }
}

/// The length of an MP3 at the beginning of `f` that starts with a frame: at least
/// eight frames must follow one another.
pub open spec fn mp3_raw_len(f: Seq<u8>, avail: int) -> Option<int> {
    let (end, frames) = mp3_run(f, avail, 0, 0);
    if frames < 8 {
        None
    } else {
        fit(end, avail)
    }
}

/// One of the frame headers of MPEG audio that are looked at from `pos` on could not be read.
pub open spec fn mp3_run_fails(src: Source, start: int, avail: int, pos: int) -> bool
    decreases avail - pos,
{
    let f = src.tail(start);
    let h = f.subrange(pos, pos + 4);
    src.faulty(start + pos, 4) || (pos + 4 <= f.len() && !text_at(h, 0, "TAG"@) && match mpeg_frame_len(
        h,
    ) {
        None => false,
        Some(len) => pos + len <= avail && mp3_run_fails(src, start, avail, pos + len),
    })
}

/// Walk MPEG audio frames from `audio_start` on: where they end, and how many
/// they are.
pub fn walk_mp3_frames(source: &Source, file_start: u64, audio_start: u64, avail: u64) -> (r:
    Result<(u64, u64), ReadError>)
    requires
        source.wf(),
        file_start + avail <= source@.len(),
        audio_start <= u64::MAX - 128,
    ensures
        match r {
            Ok(x) => mp3_run(
                source.tail(file_start as int),
                avail as int,
                audio_start as int,
                0,
            ) == (x.0 as int, x.1 as int) && x.1 <= x.0,
            Err(e) => source.blames(file_start, larger(avail as int, audio_start as int), e),
        },
        r is Err <==> mp3_run_fails(*source, file_start as int, avail as int, audio_start as int),
{
    let ghost f = source.tail(file_start as int);
    let mut pos: u64 = audio_start;
    let mut frames: u64 = 0;
    loop
        invariant
            source.wf(),
            file_start + avail <= source@.len(),
            f == source.tail(file_start as int),
            frames <= pos <= u64::MAX - 128,
            pos <= larger(avail as int, audio_start as int),
            mp3_run(f, avail as int, audio_start as int, 0) == mp3_run(
                f,
                avail as int,
                pos as int,
                frames as int,
            ),
            mp3_run_fails(*source, file_start as int, avail as int, audio_start as int) == mp3_run_fails(*source, file_start as int, avail as int, pos as int),
        decreases avail - pos,
    {
        let h = match source.part(file_start, pos, 4)? {
            Some(h) => h,
            None => return Ok((pos, frames)),
        };
        if is_text(&h, 0, "TAG") {
            return Ok((pos + 128, frames));
        }
        let len: u64 = match frame_length(&h) {
            Some(len) => len,
            None => return Ok((pos, frames)),
        };
        if pos > avail || len > avail - pos {
            return Ok((pos, frames));
        }
        pos = pos + len;
        frames = frames + 1;
    }
}

/// One of the bytes of a tagged MP3 that are looked at could not be read.
pub open spec fn mp3_fails(src: Source, start: int, avail: int) -> bool {
    let f = src.tail(start);
    let h = f.subrange(0, 10);
    src.faulty(start, 10) || (f.len() >= 10 && text_at(h, 0, "ID3"@) && h[6] < 128 && h[7] < 128
        && h[8] < 128 && h[9] < 128 && id3_end(h) < avail && mp3_run_fails(
        src,
        start,
        avail,
        id3_end(h),
    ))
}

/// MP3 length, of a file that an ID3v2 tag starts. Some frames are asked for, so
/// that the 3-byte magic alone cannot trigger a false carve.
pub fn mp3_length(source: &Source, file_start: u64, limit: u64) -> (r: Length)
    requires
        source.spans(file_start, limit),
    ensures
        source.sizes(
            file_start,
            r,
            mp3_len(source.tail(file_start as int), limit - file_start),
            limit - file_start,
        ),
        r is Err <==> mp3_fails(*source, file_start as int, limit - file_start),
{
    let avail: u64 = limit - file_start;
    let h = match source.part(file_start, 0, 10)? {
        Some(h) => h,
        None => return Ok(None),
    };
    if !is_text(&h, 0, "ID3") || h[6] >= 128 || h[7] >= 128 || h[8] >= 128 || h[9] >= 128 {
        return Ok(None);
    }
    let tag: u64 = h[6] as u64 * 0x20_0000 + h[7] as u64 * 0x4000 + h[8] as u64 * 0x80 + h[9]
        as u64;
    let footer: u64 = if h[5] / 16 % 2 == 1 {
        10
    } else {
        0
    };
    let audio_start: u64 = 10 + tag + footer;
    if audio_start >= avail {
        return Ok(None);
    }
    let (pos, frames) = walk_mp3_frames(source, file_start, audio_start, avail)?;
    if frames < 3 {
        return Ok(None);
    }
    Ok(within(pos, avail))
}

/// MP3 length, of a file that a frame starts. The frame sync is only 11 bits, so a
/// longer run of frames is asked for than behind a tag.
pub fn mp3_raw_length(source: &Source, file_start: u64, limit: u64) -> (r: Length)
    requires
        source.spans(file_start, limit),
    ensures
        source.sizes(
            file_start,
            r,
            mp3_raw_len(source.tail(file_start as int), limit - file_start),
            limit - file_start,
        ),
        r is Err <==> mp3_run_fails(*source, file_start as int, limit - file_start, 0),
{
    let avail: u64 = limit - file_start;
    let (pos, frames) = walk_mp3_frames(source, file_start, 0, avail)?;
    if frames < 8 {
        return Ok(None);
    }
    Ok(within(pos, avail))
}

/// The number of MIDI tracks that are looked at.
pub const MAX_MIDI_TRACKS: u64 = 0x10_0000;

/// The length of a Standard MIDI file of which `tracks` tracks have been passed,
/// the next being at `pos`: up to the last whole track.
pub open spec fn midi_from(f: Seq<u8>, avail: int, pos: int, tracks: int) -> Option<int>
    decreases avail - pos,
{
    let h = f.subrange(pos, pos + 8);
    if tracks >= MAX_MIDI_TRACKS || pos + 8 > avail || !text_at(h, 0, "MTrk"@) || pos + 8 + be32(
        h,
        4,
    ) > avail {
        if tracks == 0 {
            None
        } else {
            Some(pos)
        }
    } else {
        midi_from(f, avail, pos + 8 + be32(h, 4), tracks + 1)
    }
}

/// The length of a Standard MIDI file at the beginning of `f`: a header chunk of 6
/// bytes, then track chunks.
pub open spec fn midi_len(f: Seq<u8>, avail: int) -> Option<int> {
    let h = f.subrange(0, 8);
    if f.len() < 8 || !text_at(h, 0, "MThd"@) || be32(h, 4) != 6 || avail < 14 {
        None
    } else {
        midi_from(f, avail, 14, 0)
    }
}

/// One of the track headers of a MIDI file that are looked at could not be read, `tracks` tracks having been passed
/// and the next being at `pos`.
pub open spec fn midi_walk_fails(src: Source, start: int, avail: int, pos: int, tracks: int) -> bool
    decreases avail - pos,
{
    let h = src.tail(start).subrange(pos, pos + 8);
    tracks < MAX_MIDI_TRACKS && pos + 8 <= avail && (src.faulty(start + pos, 8) || (text_at(
        h,
        0,
        "MTrk"@,
    ) && pos + 8 + be32(h, 4) <= avail && midi_walk_fails(
        src,
        start,
        avail,
        pos + 8 + be32(h, 4),
        tracks + 1,
    )))
}

/// Walk the track chunks of a Standard MIDI file.
fn midi_walk(source: &Source, file_start: u64, limit: u64) -> (r: Length)
    requires
        source.spans(file_start, limit),
        limit - file_start >= 14,
    ensures
        source.sizes(
            file_start,
            r,
            midi_from(source.tail(file_start as int), limit - file_start, 14, 0),
            limit - file_start,
        ),
        r is Err <==> midi_walk_fails(*source, file_start as int, limit - file_start, 14, 0),
{
    let avail: u64 = limit - file_start;
    let ghost f = source.tail(file_start as int);
    let mut pos: u64 = 14;
    let mut tracks: u64 = 0;
    loop
        invariant
            source.spans(file_start, limit),
            avail == limit - file_start,
            f == source.tail(file_start as int),
            14 <= pos <= avail,
            tracks <= MAX_MIDI_TRACKS,
            midi_from(f, avail as int, 14, 0) == midi_from(
                f,
                avail as int,
                pos as int,
                tracks as int,
            ),
            midi_walk_fails(*source, file_start as int, avail as int, 14, 0) == midi_walk_fails(*source, file_start as int, avail as int, pos as int, tracks as int),
        decreases avail - pos,
    {
        if tracks >= MAX_MIDI_TRACKS || pos + 8 > avail {
            return Ok(if tracks == 0 { None } else { Some(pos) });
        }
        let h = match source.part(file_start, pos, 8)? {
            Some(h) => h,
            None => return Ok(None),
        };
        let next: u64 = pos + 8 + rd_be32(&h, 4) as u64;
        if !is_text(&h, 0, "MTrk") || next > avail {
            return Ok(if tracks == 0 { None } else { Some(pos) });
        }
        pos = next;
        tracks = tracks + 1;
    }
}

/// One of the bytes of a MIDI file that are looked at could not be read.
pub open spec fn midi_fails(src: Source, start: int, avail: int) -> bool {
    let f = src.tail(start);
    let h = f.subrange(0, 8);
    src.faulty(start, 8) || (f.len() >= 8 && text_at(h, 0, "MThd"@) && be32(h, 4) == 6 && avail >= 14
        && midi_walk_fails(src, start, avail, 14, 0))
}

/// Standard MIDI file length.
pub fn midi_length(source: &Source, file_start: u64, limit: u64) -> (r: Length)
    requires
        source.spans(file_start, limit),
    ensures
        source.sizes(
            file_start,
            r,
            midi_len(source.tail(file_start as int), limit - file_start),
            limit - file_start,
        ),
        r is Err <==> midi_fails(*source, file_start as int, limit - file_start),
{
    let h = match source.part(file_start, 0, 8)? {
        Some(h) => h,
        None => return Ok(None),
    };
    if !is_text(&h, 0, "MThd") || rd_be32(&h, 4) != 6 || limit - file_start < 14 {
        return Ok(None);
    }
    midi_walk(source, file_start, limit)
}

/// The length of an ADTS frame from its 7-byte header: the sync word, the layer
/// bits, which are zero, and a length of 13 bits that covers the header.
pub open spec fn aac_frame_len(h: Seq<u8>) -> Option<int> {
    let len = (h[3] % 4) * 2048 + h[4] * 8 + h[5] / 32;
    if h[0] != 0xFF || h[1] / 16 != 15 || h[1] / 2 % 4 != 0 || aac_rate(h) > 12 || len < 7 {
        None
    } else {
        Some(len)
    }
}

/// The sample rate index in an ADTS header.
pub open spec fn aac_rate(h: Seq<u8>) -> int {
    (h[2] / 4 % 16) as int
}

/// Where a run of ADTS frames ends that has reached `pos`, and how many frames it
/// has, `frames` of them before `pos`. All have the sample rate of the first,
/// `rate`.
pub open spec fn aac_run(f: Seq<u8>, avail: int, pos: int, frames: int, rate: int) -> (int, int)
    decreases avail - pos,
{
    let h = f.subrange(pos, pos + 7);
    match aac_frame_len(h) {
        Some(len) if pos + 7 <= f.len() && (frames == 0 || aac_rate(h) == rate) && pos + len
            <= avail => aac_run(f, avail, pos + len, frames + 1, aac_rate(h)),
        _ => (pos, frames),
    }
}

/// The length of an ADTS AAC stream at the beginning of `f`, of four frames at
/// least.
pub open spec fn aac_len(f: Seq<u8>, avail: int) -> Option<int> {
    let (end, frames) = aac_run(f, avail, 0, 0, 0);
    if frames < 4 {
        None
    } else {
        Some(end)
    }
}

/// One of the frame headers of an AAC stream that are looked at could not be read, `frames` frames of the given rate
/// having been passed and the next being at `pos`.
pub open spec fn aac_fails(
    src: Source,
    start: int,
    avail: int,
    pos: int,
    frames: int,
    rate: int,
) -> bool
    decreases avail - pos,
{
    let f = src.tail(start);
    let h = f.subrange(pos, pos + 7);
    src.faulty(start + pos, 7) || match aac_frame_len(h) {
        Some(len) => pos + 7 <= f.len() && (frames == 0 || aac_rate(h) == rate) && pos + len <= avail
            && aac_fails(src, start, avail, pos + len, frames + 1, aac_rate(h)),
        None => false,
    }
}

/// ADTS AAC length. Several consecutive valid frames are asked for, so that the
/// short sync word cannot trigger a false carve.
pub fn aac_length(source: &Source, file_start: u64, limit: u64) -> (r: Length)
    requires
        source.spans(file_start, limit),
    ensures
        source.sizes(
            file_start,
            r,
            aac_len(source.tail(file_start as int), limit - file_start),
            limit - file_start,
        ),
        r is Err <==> aac_fails(*source, file_start as int, limit - file_start, 0, 0, 0),
{
    let avail: u64 = limit - file_start;
    let ghost f = source.tail(file_start as int);
    let mut pos: u64 = 0;
    let mut frames: u64 = 0;
    let mut rate: u8 = 0;
    loop
        invariant
            source.spans(file_start, limit),
            avail == limit - file_start,
            f == source.tail(file_start as int),
            frames <= pos <= avail,
            aac_run(f, avail as int, 0, 0, 0) == aac_run(
                f,
                avail as int,
                pos as int,
                frames as int,
                rate as int,
            ),
            aac_fails(*source, file_start as int, avail as int, 0, 0, 0) == aac_fails(
                *source,
                file_start as int,
                avail as int,
                pos as int,
                frames as int,
                rate as int,
            ),
        decreases avail - pos,
    {
        let stop: Option<u64> = if frames < 4 {
            None
        } else {
            Some(pos)
        };
        let h = match source.part(file_start, pos, 7)? {
            Some(h) => h,
            None => return Ok(stop),
        };
        let index: u8 = h[2] / 4 % 16;
        let len: u64 = (h[3] % 4) as u64 * 2048 + h[4] as u64 * 8 + (h[5] / 32) as u64;
        if h[0] != 0xFF || h[1] / 16 != 15 || h[1] / 2 % 4 != 0 || index > 12 || frames > 0 && index
            != rate || len < 7 || pos + len > avail {
            return Ok(stop);
        }
        rate = index;
        pos = pos + len;
        frames = frames + 1;
    }
}

/// The length of a Quite OK Audio file from the frame at `pos` on, of which `left`
/// follow: each gives its own size, header included, at offset 6.
pub open spec fn qoa_from(f: Seq<u8>, avail: int, pos: int, left: nat) -> Option<int>
    decreases left,
{
    let size = be16(f.subrange(pos, pos + 8), 6);
    if left == 0 {
        Some(pos)
    } else if pos + 8 > avail || size < 8 || pos + size > avail {
        None
    } else {
        qoa_from(f, avail, pos + size, (left - 1) as nat)
    }
}

/// The length of a Quite OK Audio file at the beginning of `f`: a header with the
/// number of samples, of which a frame holds 5120; the first frame has channels and
/// a sample rate.
pub open spec fn qoa_len(f: Seq<u8>, avail: int) -> Option<int> {
    let h = f.subrange(0, 8);
    let first = f.subrange(8, 16);
    if f.len() < 8 || !text_at(h, 0, "qoaf"@) || be32(h, 4) == 0 || avail < 16 || first[0] == 0
        || be24(first, 1) == 0 {
        None
    } else {
        qoa_from(f, avail, 8, ((be32(h, 4) + 5119) / 5120) as nat)
    }
}

/// One of the frame headers of a QOA file from `pos` on, of which `left` are looked at, could not be read.
pub open spec fn qoa_walk_fails(src: Source, start: int, avail: int, pos: int, left: nat) -> bool
    decreases left,
{
    let size = be16(src.tail(start).subrange(pos, pos + 8), 6);
    left > 0 && pos + 8 <= avail && (src.faulty(start + pos, 8) || (size >= 8 && pos + size <= avail
        && qoa_walk_fails(src, start, avail, pos + size, (left - 1) as nat)))
}

/// Walk the frames of a Quite OK Audio file.
fn qoa_walk(source: &Source, file_start: u64, limit: u64, n: u64) -> (r: Length)
    requires
        source.spans(file_start, limit),
        16 <= limit - file_start,
    ensures
        source.sizes(
            file_start,
            r,
            qoa_from(source.tail(file_start as int), limit - file_start, 8, n as nat),
            limit - file_start,
        ),
        r is Err <==> qoa_walk_fails(*source, file_start as int, limit - file_start, 8, n as nat),
{
    let avail: u64 = limit - file_start;
    let ghost f = source.tail(file_start as int);
    let mut pos: u64 = 8;
    let mut left: u64 = n;
    while left > 0
        invariant
            source.spans(file_start, limit),
            avail == limit - file_start,
            f == source.tail(file_start as int),
            8 <= pos <= avail,
            qoa_from(f, avail as int, 8, n as nat) == qoa_from(
                f,
                avail as int,
                pos as int,
                left as nat,
            ),
            qoa_walk_fails(*source, file_start as int, avail as int, 8, n as nat) == qoa_walk_fails(*source, file_start as int, avail as int, pos as int, left as nat),
        decreases left,
    {
        if pos + 8 > avail {
            return Ok(None);
        }
        let h = match source.part(file_start, pos, 8)? {
            Some(h) => h,
            None => return Ok(None),
        };
        let size: u64 = rd_be16(&h, 6) as u64;
        if size < 8 || pos + size > avail {
            return Ok(None);
        }
        pos = pos + size;
        left = left - 1;
    }
    Ok(Some(pos))
}

/// One of the bytes of a QOA file that are looked at could not be read.
pub open spec fn qoa_fails(src: Source, start: int, avail: int) -> bool {
    let f = src.tail(start);
    let h = f.subrange(0, 8);
    let first = f.subrange(8, 16);
    src.faulty(start, 8) || (f.len() >= 8 && text_at(h, 0, "qoaf"@) && be32(h, 4) != 0 && avail >= 16
        && (src.faulty(start + 8, 8) || (first[0] != 0 && be24(first, 1) != 0 && qoa_walk_fails(
        src,
        start,
        avail,
        8,
        ((be32(h, 4) + 5119) / 5120) as nat,
    ))))
}

/// QOA audio (`.qoa`) length.
pub fn qoa_length(source: &Source, file_start: u64, limit: u64) -> (r: Length)
    requires
        source.spans(file_start, limit),
    ensures
        source.sizes(
            file_start,
            r,
            qoa_len(source.tail(file_start as int), limit - file_start),
            limit - file_start,
        ),
        r is Err <==> qoa_fails(*source, file_start as int, limit - file_start),
{
    let h = match source.part(file_start, 0, 8)? {
        Some(h) => h,
        None => return Ok(None),
    };
    let samples: u64 = rd_be32(&h, 4) as u64;
    if !is_text(&h, 0, "qoaf") || samples == 0 || limit - file_start < 16 {
        return Ok(None);
    }
    let first = match source.part(file_start, 8, 8)? {
        Some(first) => first,
        None => return Ok(None),
    };
    if first[0] == 0 || rd_be24(&first, 1) == 0 {
        return Ok(None);
    }
    qoa_walk(source, file_start, limit, (samples + 5119) / 5120)
}

/// The length of a DSDIFF file at the beginning of `f`: the outer chunk, whose size
/// covers the form type and the chunks in it.
pub open spec fn dsdiff_len(f: Seq<u8>, avail: int) -> Option<int> {
    let h = f.subrange(0, 16);
    if f.len() < 16 || !text_at(h, 0, "FRM8"@) || !text_at(h, 12, "DSD "@) || be64(h, 4) < 4 {
        None
    } else {
        fit(12 + be64(h, 4), avail)
    }
}

/// DSDIFF (`.dff`) length.
pub fn dsdiff_length(source: &Source, file_start: u64, limit: u64) -> (r: Length)
    requires
        source.spans(file_start, limit),
    ensures
        source.sizes(
            file_start,
            r,
            dsdiff_len(source.tail(file_start as int), limit - file_start),
            limit - file_start,
        ),
        r is Err <==> source.faulty(file_start as int, 16),
{
    let h = match source.part(file_start, 0, 16)? {
        Some(h) => h,
        None => return Ok(None),
    };
    let size: u64 = rd_be64(&h, 4);
    if !is_text(&h, 0, "FRM8") || !is_text(&h, 12, "DSD ") || size < 4 {
        return Ok(None);
    }
    Ok(within(size.saturating_add(12), limit - file_start))
}

/// The length of a DSD stream file at the beginning of `f`: what its first chunk
/// gives, of 28 bytes, behind which the format chunk follows.
pub open spec fn dsf_len(f: Seq<u8>, avail: int) -> Option<int> {
    let h = f.subrange(0, 0x20);
    if f.len() < 0x20 || !text_at(h, 0, "DSD "@) || le64(h, 4) != 28 || !text_at(h, 0x1C, "fmt "@)
        || le64(h, 0x0C) < 92 {
        None
    } else {
        fit(le64(h, 0x0C) as int, avail)
    }
}

/// DSF (`.dsf`) length.
pub fn dsf_length(source: &Source, file_start: u64, limit: u64) -> (r: Length)
    requires
        source.spans(file_start, limit),
    ensures
        source.sizes(
            file_start,
            r,
            dsf_len(source.tail(file_start as int), limit - file_start),
            limit - file_start,
        ),
        r is Err <==> source.faulty(file_start as int, 32),
{
    let h = match source.part(file_start, 0, 32)? {
        Some(h) => h,
        None => return Ok(None),
    };
    let total: u64 = rd_le64(&h, 0x0C);
    if !is_text(&h, 0, "DSD ") || rd_le64(&h, 4) != 28 || !is_text(&h, 0x1C, "fmt ") || total < 92 {
        return Ok(None);
    }
    Ok(within(total, limit - file_start))
}

/// The length of a Monkey's Audio file at the beginning of `f`, from version 3.98 on:
/// the descriptor, the header, the seek table, the WAV header, the frames, of which
/// there are some, and the terminating data.
pub open spec fn ape_len(f: Seq<u8>, avail: int) -> Option<int> {
    let d = f.subrange(0, 0x24);
    let frames = le64(d, 0x18);
    if f.len() < 0x24 || !text_at(d, 0, "MAC "@) || le16(d, 4) < 3980 || !(52 <= le32(d, 0x08)
        <= 4096) || le32(d, 0x0C) < 24 || frames == 0 {
        None
    } else {
        fit(
            le32(d, 0x08) + le32(d, 0x0C) + le32(d, 0x10) + le32(d, 0x14) + frames + le32(d, 0x20),
            avail,
        )
    }
}

/// Monkey's Audio (`.ape`) length.
pub fn ape_length(source: &Source, file_start: u64, limit: u64) -> (r: Length)
    requires
        source.spans(file_start, limit),
    ensures
        source.sizes(
            file_start,
            r,
            ape_len(source.tail(file_start as int), limit - file_start),
            limit - file_start,
        ),
        r is Err <==> source.faulty(file_start as int, 36),
{
    let d = match source.part(file_start, 0, 36)? {
        Some(d) => d,
        None => return Ok(None),
    };
    let descriptor: u64 = rd_le32(&d, 0x08) as u64;
    let header: u64 = rd_le32(&d, 0x0C) as u64;
    let frames: u64 = rd_le64(&d, 0x18);
    if !is_text(&d, 0, "MAC ") || rd_le16(&d, 4) < 3980 || !(52 <= descriptor && descriptor <= 4096)
        || header < 24 || frames == 0 {
        return Ok(None);
    }
    let rest: u64 = descriptor + header + rd_le32(&d, 0x10) as u64 + rd_le32(&d, 0x14) as u64
        + rd_le32(&d, 0x20) as u64;
    Ok(within(rest.saturating_add(frames), limit - file_start))
}

/// The length of a WavPack stream of which `blocks` blocks have been passed, the next
/// being at `pos`: up to the last whole block. A block gives its size less 8, 24 at
/// least; the first has a version of the 4.x bitstream.
pub open spec fn wavpack_from(f: Seq<u8>, avail: int, pos: int, blocks: int) -> Option<int>
    decreases avail - pos,
{
    let h = f.subrange(pos, pos + 12);
    let stop = if blocks == 0 {
        None
    } else {
        Some(pos)
    };
    if pos >= avail || pos + 12 > f.len() || !text_at(h, 0, "wvpk"@) || (blocks == 0 && !(0x0402
        <= le16(h, 8) <= 0x0410)) || le32(h, 4) < 24 || pos + 8 + le32(h, 4) > avail {
        stop
    } else {
        wavpack_from(f, avail, pos + 8 + le32(h, 4), blocks + 1)
    }
}

/// The length of a WavPack stream at the beginning of `f`.
pub open spec fn wavpack_len(f: Seq<u8>, avail: int) -> Option<int> {
    wavpack_from(f, avail, 0, 0)
}

/// One of the block headers of a WavPack file that are looked at could not be read, `blocks` blocks having been passed
/// and the next being at `pos`.
pub open spec fn wavpack_fails(src: Source, start: int, avail: int, pos: int, blocks: int) -> bool
    decreases avail - pos,
{
    let f = src.tail(start);
    let h = f.subrange(pos, pos + 12);
    pos < avail && (src.faulty(start + pos, 12) || (pos + 12 <= f.len() && text_at(h, 0, "wvpk"@) && (
    blocks != 0 || 0x0402 <= le16(h, 8) <= 0x0410) && le32(h, 4) >= 24 && pos + 8 + le32(h, 4) <= avail
        && wavpack_fails(src, start, avail, pos + 8 + le32(h, 4), blocks + 1)))
}

/// WavPack (`.wv`) lossless-audio length.
pub fn wavpack_length(source: &Source, file_start: u64, limit: u64) -> (r: Length)
    requires
        source.spans(file_start, limit),
    ensures
        source.sizes(
            file_start,
            r,
            wavpack_len(source.tail(file_start as int), limit - file_start),
            limit - file_start,
        ),
        r is Err <==> wavpack_fails(*source, file_start as int, limit - file_start, 0, 0),
{
    let avail: u64 = limit - file_start;
    let ghost f = source.tail(file_start as int);
    let mut pos: u64 = 0;
    let mut blocks: u64 = 0;
    loop
        invariant
            source.spans(file_start, limit),
            avail == limit - file_start,
            f == source.tail(file_start as int),
            blocks <= pos <= avail,
            wavpack_len(f, avail as int) == wavpack_from(
                f,
                avail as int,
                pos as int,
                blocks as int,
            ),
            wavpack_fails(*source, file_start as int, avail as int, 0, 0) == wavpack_fails(*source, file_start as int, avail as int, pos as int, blocks as int),
        decreases avail - pos,
    {
        let stop: Option<u64> = if blocks == 0 {
            None
        } else {
            Some(pos)
        };
        if pos >= avail {
            return Ok(stop);
        }
        let h = match source.part(file_start, pos, 12)? {
            Some(h) => h,
            None => return Ok(stop),
        };
        let version: u16 = rd_le16(&h, 8);
        let size: u64 = rd_le32(&h, 4) as u64;
        if !is_text(&h, 0, "wvpk") || blocks == 0 && !(0x0402 <= version && version <= 0x0410) || size
            < 24 || pos + 8 + size > avail {
            return Ok(stop);
        }
        pos = pos + 8 + size;
        blocks = blocks + 1;
    }
}

/// The length of a Sun or NeXT audio file at the beginning of `f`: the data, of a size that is known,
/// at the place that the header gives, which is behind the header.
pub open spec fn au_len(f: Seq<u8>, avail: int) -> Option<int> {
    let h = f.subrange(0, 16);
    if f.len() < 16 || !text_at(h, 0, ".snd"@) || !(24 <= be32(h, 4) <= 0x10_0000) || !(1 <= be32(
        h,
        12,
    ) <= 27) || be32(h, 8) == 0xFFFF_FFFF {
        None
    } else {
        fit(be32(h, 4) + be32(h, 8), avail)
    }
}

/// Sun/NeXT `.au` audio file length.
pub fn au_length(source: &Source, file_start: u64, limit: u64) -> (r: Length)
    requires
        source.spans(file_start, limit),
    ensures
        source.sizes(
            file_start,
            r,
            au_len(source.tail(file_start as int), limit - file_start),
            limit - file_start,
        ),
        r is Err <==> source.faulty(file_start as int, 16),
{
    let h = match source.part(file_start, 0, 16)? {
        Some(h) => h,
        None => return Ok(None),
    };
    let at: u64 = rd_be32(&h, 4) as u64;
    let size: u64 = rd_be32(&h, 8) as u64;
    let encoding: u32 = rd_be32(&h, 12);
    if !is_text(&h, 0, ".snd") || !(24 <= at && at <= 0x10_0000) || !(1 <= encoding && encoding
        <= 27) || size == 0xFFFF_FFFF {
        return Ok(None);
    }
    Ok(within(at + size, limit - file_start))
}

/// The number of blocks of a Creative voice file that are looked at.
pub const MAX_VOC_BLOCKS: u64 = 1_000_000;

/// The length of a Creative voice file from the block at `pos` on, no more than `left` blocks being
/// looked at: up to the block of type zero, which has one byte. Other blocks have a
/// length of 3 bytes behind their type; where the image ends in it, zeros follow.
pub open spec fn voc_from(f: Seq<u8>, avail: int, pos: int, left: nat) -> Option<int>
    decreases left,
{
    let b = padded(window(f, pos, 4), 4);
    if left == 0 || pos >= avail {
        None
    } else if b[0] == 0 {
        Some(pos + 1)
    } else {
        voc_from(f, avail, pos + 4 + le24(b, 1), (left - 1) as nat)
    }
}

/// The length of a Creative voice file at the beginning of `f`, whose header gives its own size.
pub open spec fn voc_len(f: Seq<u8>, avail: int) -> Option<int> {
    let h = f.subrange(0, 22);
    if f.len() < 22 || !text_at(h, 0, "Creative Voice File\x1a"@) || !(0x14 <= le16(h, 0x14)
        <= 0x100) {
        None
    } else {
        voc_from(f, avail, le16(h, 0x14) as int, MAX_VOC_BLOCKS as nat)
    }
}

/// One of the block headers of a Creative Voice file from `pos` on, of which `left` are looked at, could not be read.
pub open spec fn voc_walk_fails(src: Source, start: int, avail: int, pos: int, left: nat) -> bool
    decreases left,
{
    let b = padded(window(src.tail(start), pos, 4), 4);
    left > 0 && pos < avail && (src.faulty(start + pos, 4) || (b[0] != 0 && voc_walk_fails(
        src,
        start,
        avail,
        pos + 4 + le24(b, 1),
        (left - 1) as nat,
    )))
}

/// Walk the blocks of a Creative voice file.
fn voc_walk(source: &Source, file_start: u64, limit: u64, first: u64) -> (r: Length)
    requires
        source.spans(file_start, limit),
        first < 1000,
    ensures
        source.sizes(
            file_start,
            r,
            voc_from(
                source.tail(file_start as int),
                limit - file_start,
                first as int,
                MAX_VOC_BLOCKS as nat,
            ),
            limit - file_start,
        ),
        r is Err <==> voc_walk_fails(
            *source,
            file_start as int,
            limit - file_start,
            first as int,
            MAX_VOC_BLOCKS as nat,
        ),
{
    let avail: u64 = limit - file_start;
    let ghost f = source.tail(file_start as int);
    let mut pos: u64 = first;
    let mut left: u64 = MAX_VOC_BLOCKS;
    while left > 0
        invariant
            source.spans(file_start, limit),
            avail == limit - file_start,
            f == source.tail(file_start as int),
            voc_from(f, avail as int, first as int, MAX_VOC_BLOCKS as nat) == voc_from(
                f,
                avail as int,
                pos as int,
                left as nat,
            ),
            voc_walk_fails(
                *source,
                file_start as int,
                avail as int,
                first as int,
                MAX_VOC_BLOCKS as nat,
            ) == voc_walk_fails(*source, file_start as int, avail as int, pos as int, left as nat),
        decreases left,
    {
        if pos >= avail {
            return Ok(None);
        }
        let b = pad(source.part_upto(file_start, pos, 4)?, 4);
        if b[0] == 0 {
            return Ok(Some(pos + 1));
        }
        pos = pos + 4 + rd_le24(&b, 1) as u64;
        left = left - 1;
    }
    Ok(None)
}

/// One of the bytes of a Creative Voice file that are looked at could not be read.
pub open spec fn voc_fails(src: Source, start: int, avail: int) -> bool {
    let f = src.tail(start);
    let h = f.subrange(0, 22);
    src.faulty(start, 22) || (f.len() >= 22 && text_at(h, 0, "Creative Voice File\x1a"@) && 0x14 <= le16(
        h,
        0x14,
    ) <= 0x100 && voc_walk_fails(src, start, avail, le16(h, 0x14) as int, MAX_VOC_BLOCKS as nat))
}

/// Creative Voice File length.
pub fn voc_length(source: &Source, file_start: u64, limit: u64) -> (r: Length)
    requires
        source.spans(file_start, limit),
    ensures
        source.sizes(
            file_start,
            r,
            voc_len(source.tail(file_start as int), limit - file_start),
            limit - file_start,
        ),
        r is Err <==> voc_fails(*source, file_start as int, limit - file_start),
{
    let h = match source.part(file_start, 0, 22)? {
        Some(h) => h,
        None => return Ok(None),
    };
    let first: u64 = rd_le16(&h, 0x14) as u64;
    if !is_text(&h, 0, "Creative Voice File\x1a") || !(0x14 <= first && first <= 0x100) {
        return Ok(None);
    }
    voc_walk(source, file_start, limit, first)
}

/// The bytes of an AMR frame by its type, zero for the types that there are not.
pub open spec fn amr_frame(kind: int) -> u64 {
    seq![13u64, 14, 16, 18, 20, 21, 27, 32, 6, 0, 0, 0, 0, 0, 0, 1][kind]
}

/// The length of an AMR file of which `frames` frames have been passed, the next being at `pos`: up to
/// the last whole frame. The first byte of a frame has the top bit clear and the type in
/// the four bits after it.
pub open spec fn amr_from(f: Seq<u8>, avail: int, pos: int, frames: int) -> Option<int>
    decreases avail - pos,
{
    let size = amr_frame(f[pos] as int / 8);
    if pos >= f.len() || f[pos] >= 128 || size == 0 || pos + size > avail {
        if frames == 0 {
            None
        } else {
            Some(pos)
        }
    } else {
        amr_from(f, avail, pos + size, frames + 1)
    }
}

/// The length of an AMR (narrowband) file at the beginning of `f`: the frames follow the magic.
pub open spec fn amr_len(f: Seq<u8>, avail: int) -> Option<int> {
    amr_from(f, avail, 6, 0)
}

/// One of the frame headers of an AMR file that are looked at from `pos` on could not be read.
pub open spec fn amr_fails(src: Source, start: int, avail: int, pos: int) -> bool
    decreases avail - pos,
{
    let f = src.tail(start);
    let size = amr_frame(f[pos] as int / 8);
    src.faulty(start + pos, 1) || (pos < f.len() && f[pos] < 128 && size != 0 && pos + size <= avail
        && amr_fails(src, start, avail, pos + size))
}

/// AMR (narrowband) audio file length.
pub fn amr_length(source: &Source, file_start: u64, limit: u64) -> (r: Length)
    requires
        source.spans(file_start, limit),
    ensures
        source.sizes(
            file_start,
            r,
            amr_len(source.tail(file_start as int), limit - file_start),
            limit - file_start,
        ),
        r is Err <==> amr_fails(*source, file_start as int, limit - file_start, 6),
{
    let avail: u64 = limit - file_start;
    let ghost f = source.tail(file_start as int);
    let sizes: [u64; 16] = [13, 14, 16, 18, 20, 21, 27, 32, 6, 0, 0, 0, 0, 0, 0, 1];
    let mut pos: u64 = 6;
    let mut frames: u64 = 0;
    loop
        invariant
            source.spans(file_start, limit),
            avail == limit - file_start,
            f == source.tail(file_start as int),
            pos <= avail || frames == 0 && pos == 6,
            pos >= 6,
            frames <= pos,
            sizes@ == seq![13u64, 14, 16, 18, 20, 21, 27, 32, 6, 0, 0, 0, 0, 0, 0, 1],
            amr_len(f, avail as int) == amr_from(f, avail as int, pos as int, frames as int),
            amr_fails(*source, file_start as int, avail as int, 6) == amr_fails(*source, file_start as int, avail as int, pos as int),
        decreases avail + 6 - pos,
    {
        let stop: Option<u64> = if frames == 0 {
            None
        } else {
            Some(pos)
        };
        let b: u8 = match source.byte(file_start, pos)? {
            Some(b) => b,
            None => return Ok(stop),
        };
        if b >= 128 {
            return Ok(stop);
        }
        let size: u64 = sizes[(b / 8) as usize];
        if size == 0 || size > avail || pos > avail - size {
            return Ok(stop);
        }
        pos = pos + size;
        frames = frames + 1;
    }
}

/// The length of an RF64 file at the beginning of `f`: the size in its first chunk, and the 8 bytes
/// before what that covers.
pub open spec fn rf64_len(f: Seq<u8>, avail: int) -> Option<int> {
    let h = f.subrange(0, 0x1C);
    if f.len() < 0x1C || !text_at(h, 0, "RF64"@) || !text_at(h, 8, "WAVE"@) || !text_at(
        h,
        12,
        "ds64"@,
    ) || le64(h, 0x14) < 0x14 {
        None
    } else {
        fit(le64(h, 0x14) + 8, avail)
    }
}

/// RF64 / BW64 (`.rf64`) length.
pub fn rf64_length(source: &Source, file_start: u64, limit: u64) -> (r: Length)
    requires
        source.spans(file_start, limit),
    ensures
        source.sizes(
            file_start,
            r,
            rf64_len(source.tail(file_start as int), limit - file_start),
            limit - file_start,
        ),
        r is Err <==> source.faulty(file_start as int, 28),
{
    let h = match source.part(file_start, 0, 28)? {
        Some(h) => h,
        None => return Ok(None),
    };
    let size: u64 = rd_le64(&h, 0x14);
    if !is_text(&h, 0, "RF64") || !is_text(&h, 8, "WAVE") || !is_text(&h, 12, "ds64") || size < 0x14 {
        return Ok(None);
    }
    Ok(within(size.saturating_add(8), limit - file_start))
}

} // verus!
