//! Network captures and data sets.

use crate::bytes::{
    be32, be64, byte_at_or_after, capped, find_byte, find_text, fit, is_bytes, is_text, larger, le16,
    le32, le64, lemma_byte_at, max_u64, mul_capped, mul_wide, ord32, pad, padded, pow2_u64,
    power_of_two, rd_be32, rd_be64, rd_le16, rd_le32, rd_le64, rd_ord32, round_up, rounded, smaller,
    text_at, text_from, token_end, within,
};
use crate::source::{window, Length, ReadError, Source};
use crate::text::{
    blank, number_in, padded_number_in, parse_number, parse_padded_number, pass_space, skip_space,
};
use crate::utf8::is_utf8;
use crate::varint::{lemma_vint_width, read_base128, vint_at, vint_fails};
use vstd::arithmetic::power2::{is_pow2, pow2};
use vstd::prelude::*;
use vstd::string::*;
use vstd::utf8::valid_utf8;

verus! {

/// Whether the integers of a libpcap capture are big-endian, by its magic, which
/// also tells micro- from nanoseconds.
pub open spec fn pcap_order(h: Seq<u8>) -> Option<bool> {
    if be32(h, 0) == 0xA1B2_C3D4 || be32(h, 0) == 0xA1B2_3C4D {
        Some(true)
    } else if be32(h, 0) == 0xD4C3_B2A1 || be32(h, 0) == 0x4D3C_B2A1 {
        Some(false)
    } else {
        None
    }
}

/// The number of packet records that are looked at.
pub const MAX_PCAP_RECORDS: u64 = 0x1000_0000;

/// The length of a libpcap capture of which `recs` records have been passed, the
/// next being at `pos`: up to the last whole record that captures at least one
/// byte and no more than was on the wire nor than `snap` bytes.
pub open spec fn pcap_from(
    f: Seq<u8>,
    avail: int,
    be: bool,
    snap: int,
    pos: int,
    recs: int,
) -> Option<int>
    decreases avail - pos,
{
    let h = f.subrange(pos, pos + 16);
    let len = ord32(h, 8, be);
    if recs >= MAX_PCAP_RECORDS || pos + 16 > avail || len == 0 || len > snap || len > ord32(
        h,
        12,
        be,
    ) || pos + 16 + len > avail {
        if recs == 0 {
            None
        } else {
            Some(pos)
        }
    } else {
        pcap_from(f, avail, be, snap, pos + 16 + len, recs + 1)
    }
}

/// The snap length of a capture, which bounds what a record captures: 1 byte at
/// least, 256 KiB at most.
pub open spec fn pcap_snap(h: Seq<u8>, be: bool) -> int {
    if ord32(h, 16, be) == 0 {
        1
    } else {
        smaller(ord32(h, 16, be) as int, 0x4_0000)
    }
}

/// The length of a libpcap capture at the beginning of `f`.
pub open spec fn pcap_len(f: Seq<u8>, avail: int) -> Option<int> {
    let h = f.subrange(0, 24);
    match pcap_order(h) {
        Some(be) if f.len() >= 24 => pcap_from(f, avail, be, pcap_snap(h, be), 24, 0),
        _ => None,
    }
}

/// One of the record headers of a packet capture that are looked at could not be read, `recs` records having been
/// passed and the next being at `pos`.
pub open spec fn pcap_walk_fails(
    src: Source,
    start: int,
    avail: int,
    be: bool,
    snap: int,
    pos: int,
    recs: int,
) -> bool
    decreases avail - pos,
{
    let h = src.tail(start).subrange(pos, pos + 16);
    let len = ord32(h, 8, be);
    recs < MAX_PCAP_RECORDS && pos + 16 <= avail && (src.faulty(start + pos, 16) || (0 < len <= snap && len
        <= ord32(h, 12, be) && pos + 16 + len <= avail && pcap_walk_fails(
        src,
        start,
        avail,
        be,
        snap,
        pos + 16 + len,
        recs + 1,
    )))
}

/// Walk the records of a libpcap capture.
fn pcap_walk(source: &Source, file_start: u64, limit: u64, be: bool, snap: u64) -> (r: Length)
    requires
        source.spans(file_start, limit),
    ensures
        source.sizes(
            file_start,
            r,
            pcap_from(source.tail(file_start as int), limit - file_start, be, snap as int, 24, 0),
            limit - file_start,
        ),
        r is Err <==> pcap_walk_fails(*source, file_start as int, limit - file_start, be, snap as int, 24, 0),
{
    let avail: u64 = limit - file_start;
    let ghost f = source.tail(file_start as int);
    let mut pos: u64 = 24;
    let mut recs: u64 = 0;
    loop
        invariant
            source.spans(file_start, limit),
            avail == limit - file_start,
            f == source.tail(file_start as int),
            pos <= avail || recs == 0 && pos == 24,
            recs <= MAX_PCAP_RECORDS,
            pos >= 24,
            pcap_from(f, avail as int, be, snap as int, 24, 0) == pcap_from(
                f,
                avail as int,
                be,
                snap as int,
                pos as int,
                recs as int,
            ),
            pcap_walk_fails(*source, file_start as int, avail as int, be, snap as int, 24, 0) == pcap_walk_fails(
                *source,
                file_start as int,
                avail as int,
                be,
                snap as int,
                pos as int,
                recs as int,
            ),
        decreases avail + 24 - pos,
    {
        if recs >= MAX_PCAP_RECORDS || pos + 16 > avail {
            return Ok(if recs == 0 { None } else { Some(pos) });
        }
        let h = match source.part(file_start, pos, 16)? {
            Some(h) => h,
            None => return Ok(None),
        };
        let len: u64 = rd_ord32(&h, 8, be) as u64;
        let wire: u64 = rd_ord32(&h, 12, be) as u64;
        if len == 0 || len > snap || len > wire || pos + 16 + len > avail {
            return Ok(if recs == 0 { None } else { Some(pos) });
        }
        pos = pos + 16 + len;
        recs = recs + 1;
    }
}

/// One of the bytes of a packet capture that are looked at could not be read.
pub open spec fn pcap_fails(src: Source, start: int, avail: int) -> bool {
    let f = src.tail(start);
    let h = f.subrange(0, 24);
    src.faulty(start, 24) || match pcap_order(h) {
        Some(be) => f.len() >= 24 && pcap_walk_fails(src, start, avail, be, pcap_snap(h, be), 24, 0),
        None => false,
    }
}

/// libpcap capture length. The file ends at the first bytes that are not a
/// plausible record.
pub fn pcap_length(source: &Source, file_start: u64, limit: u64) -> (r: Length)
    requires
        source.spans(file_start, limit),
    ensures
        source.sizes(
            file_start,
            r,
            pcap_len(source.tail(file_start as int), limit - file_start),
            limit - file_start,
        ),
        r is Err <==> pcap_fails(*source, file_start as int, limit - file_start),
{
    let h = match source.part(file_start, 0, 24)? {
        Some(h) => h,
        None => return Ok(None),
    };
    let magic: u32 = rd_be32(&h, 0);
    let be = if magic == 0xA1B2_C3D4 || magic == 0xA1B2_3C4D {
        true
    } else if magic == 0xD4C3_B2A1 || magic == 0x4D3C_B2A1 {
        false
    } else {
        return Ok(None);
    };
    let raw: u64 = rd_ord32(&h, 16, be) as u64;
    let snap: u64 = if raw == 0 {
        1
    } else if raw <= 0x4_0000 {
        raw
    } else {
        0x4_0000
    };
    pcap_walk(source, file_start, limit, be, snap)
}

/// The number of pcapng blocks that are looked at.
pub const MAX_PCAPNG_BLOCKS: u64 = 0x100_0000;

/// The length of a pcapng capture of which `blocks` blocks have been passed, the
/// next being at `pos`: up to the last whole block. A block gives its length, a
/// multiple of 4 that is 12 at least, behind its type and once more at its end.
pub open spec fn pcapng_from(f: Seq<u8>, avail: int, be: bool, pos: int, blocks: int) -> Option<int>
    decreases avail - pos,
{
    let len = ord32(f.subrange(pos, pos + 8), 4, be);
    if blocks >= MAX_PCAPNG_BLOCKS || pos + 12 > avail || len < 12 || len % 4 != 0 || pos + len
        > avail || ord32(f.subrange(pos + len - 4, pos + len), 0, be) != len {
        if blocks == 0 {
            None
        } else {
            Some(pos)
        }
    } else {
        pcapng_from(f, avail, be, pos + len, blocks + 1)
    }
}

/// The length of a pcapng capture at the beginning of `f`. Its first block is a
/// section header, whose magic tells the byte order.
pub open spec fn pcapng_len(f: Seq<u8>, avail: int) -> Option<int> {
    let h = f.subrange(0, 12);
    if f.len() < 12 || be32(h, 0) != 0x0A0D_0D0A {
        None
    } else if be32(h, 8) == 0x1A2B_3C4D {
        pcapng_from(f, avail, true, 0, 0)
    } else if le32(h, 8) == 0x1A2B_3C4D {
        pcapng_from(f, avail, false, 0, 0)
    } else {
        None
    }
}

/// One of the heads and tails of the blocks of a pcapng file that are looked at could not be read, `blocks` blocks
/// having been passed and the next being at `pos`.
pub open spec fn pcapng_walk_fails(
    src: Source,
    start: int,
    avail: int,
    be: bool,
    pos: int,
    blocks: int,
) -> bool
    decreases avail - pos,
{
    let f = src.tail(start);
    let len = ord32(f.subrange(pos, pos + 8), 4, be);
    blocks < MAX_PCAPNG_BLOCKS && pos + 12 <= avail && (src.faulty(start + pos, 8) || (len >= 12 && len % 4
        == 0 && pos + len <= avail && (src.faulty(start + pos + len - 4, 4) || (ord32(
        f.subrange(pos + len - 4, pos + len),
        0,
        be,
    ) == len && pcapng_walk_fails(src, start, avail, be, pos + len, blocks + 1)))))
}

/// Walk the blocks of a pcapng capture.
fn pcapng_walk(source: &Source, file_start: u64, limit: u64, be: bool) -> (r: Length)
    requires
        source.spans(file_start, limit),
    ensures
        source.sizes(
            file_start,
            r,
            pcapng_from(source.tail(file_start as int), limit - file_start, be, 0, 0),
            limit - file_start,
        ),
        r is Err <==> pcapng_walk_fails(*source, file_start as int, limit - file_start, be, 0, 0),
{
    let avail: u64 = limit - file_start;
    let ghost f = source.tail(file_start as int);
    let mut pos: u64 = 0;
    let mut blocks: u64 = 0;
    loop
        invariant
            source.spans(file_start, limit),
            avail == limit - file_start,
            f == source.tail(file_start as int),
            pos <= avail,
            blocks <= MAX_PCAPNG_BLOCKS,
            blocks > 0 ==> pos > 0,
            pcapng_from(f, avail as int, be, 0, 0) == pcapng_from(
                f,
                avail as int,
                be,
                pos as int,
                blocks as int,
            ),
            pcapng_walk_fails(*source, file_start as int, avail as int, be, 0, 0) == pcapng_walk_fails(
                *source,
                file_start as int,
                avail as int,
                be,
                pos as int,
                blocks as int,
            ),
        decreases avail - pos,
    {
        if blocks >= MAX_PCAPNG_BLOCKS || pos + 12 > avail {
            return Ok(if blocks == 0 { None } else { Some(pos) });
        }
        let h = match source.part(file_start, pos, 8)? {
            Some(h) => h,
            None => return Ok(None),
        };
        let len: u64 = rd_ord32(&h, 4, be) as u64;
        if len < 12 || len % 4 != 0 || pos + len > avail {
            return Ok(if blocks == 0 { None } else { Some(pos) });
        }
        let t = match source.part(file_start, pos + len - 4, 4)? {
            Some(t) => t,
            None => return Ok(None),
        };
        if rd_ord32(&t, 0, be) as u64 != len {
            return Ok(if blocks == 0 { None } else { Some(pos) });
        }
        pos = pos + len;
        blocks = blocks + 1;
    }
}

/// One of the bytes of a pcapng file that are looked at could not be read.
pub open spec fn pcapng_fails(src: Source, start: int, avail: int) -> bool {
    let f = src.tail(start);
    let h = f.subrange(0, 12);
    src.faulty(start, 12) || (f.len() >= 12 && be32(h, 0) == 0x0A0D_0D0A && if be32(h, 8) == 0x1A2B_3C4D {
        pcapng_walk_fails(src, start, avail, true, 0, 0)
    } else {
        le32(h, 8) == 0x1A2B_3C4D && pcapng_walk_fails(src, start, avail, false, 0, 0)
    })
}

/// pcapng capture length. A section header alone is a valid, if empty, capture.
pub fn pcapng_length(source: &Source, file_start: u64, limit: u64) -> (r: Length)
    requires
        source.spans(file_start, limit),
    ensures
        source.sizes(
            file_start,
            r,
            pcapng_len(source.tail(file_start as int), limit - file_start),
            limit - file_start,
        ),
        r is Err <==> pcapng_fails(*source, file_start as int, limit - file_start),
{
    let h = match source.part(file_start, 0, 12)? {
        Some(h) => h,
        None => return Ok(None),
    };
    if rd_be32(&h, 0) != 0x0A0D_0D0A {
        return Ok(None);
    }
    if rd_be32(&h, 8) == 0x1A2B_3C4D {
        pcapng_walk(source, file_start, limit, true)
    } else if rd_le32(&h, 8) == 0x1A2B_3C4D {
        pcapng_walk(source, file_start, limit, false)
    } else {
        Ok(None)
    }
}

/// The number of bytes in a GGUF value of a type of fixed width.
pub open spec fn gguf_scalar(t: u32) -> Option<int> {
    if t == 0 || t == 1 || t == 7 {
        Some(1)
    } else if t == 2 || t == 3 {
        Some(2)
    } else if 4 <= t <= 6 {
        Some(4)
    } else if 10 <= t <= 12 {
        Some(8)
    } else {
        None
    }
}

/// The number of elements in a block of a ggml tensor type, and the number of bytes
/// in it; `None` for types whose layout is not known here.
pub open spec fn ggml_block(t: u32) -> Option<(int, int)> {
    if t == 0 {
        Some((1, 4))  // F32
    } else if t == 1 {
        Some((1, 2))  // F16
    } else if t == 2 {
        Some((32, 18))  // Q4_0
    } else if t == 3 {
        Some((32, 20))  // Q4_1
    } else if t == 6 {
        Some((32, 22))  // Q5_0
    } else if t == 7 {
        Some((32, 24))  // Q5_1
    } else if t == 8 {
        Some((32, 34))  // Q8_0
    } else if t == 9 {
        Some((32, 36))  // Q8_1
    } else if t == 10 {
        Some((256, 84))  // Q2_K
    } else if t == 11 {
        Some((256, 110))  // Q3_K
    } else if t == 12 {
        Some((256, 144))  // Q4_K
    } else if t == 13 {
        Some((256, 176))  // Q5_K
    } else if t == 14 {
        Some((256, 210))  // Q6_K
    } else if t == 15 {
        Some((256, 292))  // Q8_K
    } else if t == 24 {
        Some((1, 1))  // I8
    } else if t == 25 {
        Some((1, 2))  // I16
    } else if t == 26 {
        Some((1, 4))  // I32
    } else if t == 27 || t == 28 {
        Some((1, 8))  // I64, F64
    } else if t == 30 {
        Some((1, 2))  // BF16
    } else {
        None
    }
}

/// The 32-bit integer at `pos`, where it lies in the room.
pub open spec fn u32_in(f: Seq<u8>, avail: int, pos: int) -> Option<u32> {
    if pos + 4 > avail {
        None
    } else {
        Some(le32(f.subrange(pos, pos + 4), 0))
    }
}

/// The 64-bit integer at `pos`, where it lies in the room.
pub open spec fn u64_in(f: Seq<u8>, avail: int, pos: int) -> Option<u64> {
    if pos + 8 > avail {
        None
    } else {
        Some(le64(f.subrange(pos, pos + 8), 0))
    }
}

/// Where a GGUF string at `pos` ends: a 64-bit length, and as many bytes.
pub open spec fn gguf_string_end(f: Seq<u8>, avail: int, pos: int) -> Option<int> {
    match u64_in(f, avail, pos) {
        None => None,
        Some(len) => fit(pos + 8 + len, avail),
    }
}

/// Where `n` GGUF strings at `pos` end.
pub open spec fn gguf_strings_end(f: Seq<u8>, avail: int, pos: int, n: nat) -> Option<int>
    decreases n,
{
    if n == 0 {
        Some(pos)
    } else {
        match gguf_string_end(f, avail, pos) {
            None => None,
            Some(p) => gguf_strings_end(f, avail, p, (n - 1) as nat),
        }
    }
}

/// Where a GGUF value of type `t` at `pos` ends: a scalar, a string (8), or an array
/// (9), which has a type and a count before its elements, scalars or strings.
pub open spec fn gguf_value_end(f: Seq<u8>, avail: int, pos: int, t: u32) -> Option<int> {
    match gguf_scalar(t) {
        Some(size) => fit(pos + size, avail),
        None => if t == 8 {
            gguf_string_end(f, avail, pos)
        } else if t == 9 {
            match (u32_in(f, avail, pos), u64_in(f, avail, pos + 4)) {
                (Some(et), Some(count)) => match gguf_scalar(et) {
                    Some(size) => fit(pos + 12 + count * size, avail),
                    None => if et == 8 && pos + 12 + count * 8 <= avail {
                        gguf_strings_end(f, avail, pos + 12, count as nat)
                    } else {
                        None
                    },
                },
                _ => None,
            }
        } else {
            None
        },
    }
}

/// Where the entry of the metadata table at `pos` ends, and the alignment it leaves
/// for the data. An entry is a key, a string of up to a MiB, a type and a value; the
/// one of `general.alignment` that is a 32-bit integer (4) sets the alignment,
/// which has to be a power of two up to 4096.
pub open spec fn gguf_entry(f: Seq<u8>, avail: int, pos: int, align: int) -> Option<(int, int)> {
    match gguf_string_end(f, avail, pos) {
        Some(p) if p - pos - 8 <= 0x10_0000 => match u32_in(f, avail, p) {
            None => None,
            Some(t) => if t == 4 && p - pos == 25 && text_at(
                f.subrange(pos + 8, pos + 25),
                0,
                "general.alignment"@,
            ) {
                match u32_in(f, avail, p + 4) {
                    Some(a) if is_pow2(a as int) && a <= 4096 => Some((p + 8, a as int)),
                    _ => None,
                }
            } else {
                match gguf_value_end(f, avail, p + 4, t) {
                    Some(q) => Some((q, align)),
                    None => None,
                }
            },
        },
        _ => None,
    }
}

/// Where `n` entries of the metadata table at `pos` end, and the alignment they
/// leave.
pub open spec fn gguf_entries(f: Seq<u8>, avail: int, pos: int, align: int, n: nat) -> Option<
    (int, int),
>
    decreases n,
{
    if n == 0 {
        Some((pos, align))
    } else {
        match gguf_entry(f, avail, pos, align) {
            None => None,
            Some((p, a)) => gguf_entries(f, avail, p, a, (n - 1) as nat),
        }
    }
}

/// The number of elements of a tensor whose `n` dimensions are at `pos`, times
/// `elems`, as far as 64 bits hold it.
pub open spec fn gguf_elements(f: Seq<u8>, avail: int, pos: int, n: nat, elems: int) -> Option<int>
    decreases n,
{
    if n == 0 {
        Some(elems)
    } else {
        match u64_in(f, avail, pos) {
            None => None,
            Some(d) => gguf_elements(f, avail, pos + 8, (n - 1) as nat, capped(elems * d)),
        }
    }
}

/// Where the tensor description at `pos` ends, and where the tensor does, counted
/// from the start of the data. A description is a name of up to a MiB, up to four
/// dimensions, a type and an offset; a tensor is made of whole blocks.
pub open spec fn gguf_tensor(f: Seq<u8>, avail: int, pos: int) -> Option<(int, int)> {
    match gguf_string_end(f, avail, pos) {
        Some(p) if p - pos - 8 <= 0x10_0000 => match u32_in(f, avail, p) {
            Some(dims) if dims <= 4 => {
                let q = p + 4 + 8 * dims;
                match (
                    gguf_elements(f, avail, p + 4, dims as nat, 1),
                    u32_in(f, avail, q),
                    u64_in(f, avail, q + 4),
                ) {
                    (Some(elems), Some(t), Some(off)) => match ggml_block(t) {
                        Some((block, size)) if elems % block == 0 => Some(
                            (q + 12, capped(off + capped(elems / block * size))),
                        ),
                        _ => None,
                    },
                    _ => None,
                }
            },
            _ => None,
        },
        _ => None,
    }
}

/// Where `n` tensor descriptions at `pos` end, and the furthest end of their
/// tensors, `end` being the furthest so far.
pub open spec fn gguf_tensors(f: Seq<u8>, avail: int, pos: int, end: int, n: nat) -> Option<
    (int, int),
>
    decreases n,
{
    if n == 0 {
        Some((pos, end))
    } else {
        match gguf_tensor(f, avail, pos) {
            None => None,
            Some((p, e)) => gguf_tensors(f, avail, p, larger(end, e), (n - 1) as nat),
        }
    }
}

/// The length of a GGUF file at the beginning of `f`, of version 2 or 3: a metadata
/// table, the descriptions of the tensors, up to a million each, and the data, which
/// begins at the next multiple of the alignment, 32 unless the metadata says
/// otherwise.
pub open spec fn gguf_len(f: Seq<u8>, avail: int) -> Option<int> {
    let h = f.subrange(0, 24);
    let tensors = le64(h, 8);
    let entries = le64(h, 16);
    if f.len() < 24 || !text_at(h, 0, "GGUF"@) || !(le32(h, 4) == 2 || le32(h, 4) == 3) || tensors
        > 0x10_0000 || entries > 0x10_0000 {
        None
    } else {
        match gguf_entries(f, avail, 24, 32, entries as nat) {
            None => None,
            Some((p, align)) => match gguf_tensors(f, avail, p, 0, tensors as nat) {
                None => None,
                Some((q, end)) => fit(rounded(q, align) + end, avail),
            },
        }
    }
}

/// Without room for the header there is no room for what follows it.
proof fn lemma_gguf_short(f: Seq<u8>, avail: int, entries: nat, tensors: nat)
    requires
        avail < 24,
    ensures
        match gguf_entries(f, avail, 24, 32, entries) {
            None => true,
            Some((p, align)) => match gguf_tensors(f, avail, p, 0, tensors) {
                None => true,
                Some((q, end)) => fit(rounded(q, align) + end, avail) is None,
            },
        },
{
    assert(gguf_entry(f, avail, 24, 32) is None);
    if entries == 0 {
        assert(gguf_tensor(f, avail, 24) is None);
        assert(rounded(24, 32) == 32);
    }
}

/// Byte size of a fixed-width GGUF metadata scalar value type, if it is one.
pub fn gguf_scalar_size(t: u32) -> (r: Option<u64>)
    ensures
        match r {
            Some(n) => gguf_scalar(t) == Some(n as int) && n <= 8,
            None => gguf_scalar(t) is None,
        },
{
    match t {
        0 | 1 | 7 => Some(1),  // uint8, int8, bool
        2 | 3 => Some(2),  // uint16, int16
        4 | 5 | 6 => Some(4),  // uint32, int32, float32
        10 | 11 | 12 => Some(8),  // uint64, int64, float64
        _ => None,
    }
}

/// (elements per block, bytes per block) for a ggml tensor type. A file with a
/// type that is not known here is skipped rather than mis-sized.
pub fn ggml_type_block(t: u32) -> (r: Option<(u64, u64)>)
    ensures
        match r {
            Some(x) => ggml_block(t) == Some((x.0 as int, x.1 as int)) && 1 <= x.0 <= 256 && x.1
                <= 292,
            None => ggml_block(t) is None,
        },
{
    match t {
        0 => Some((1, 4)),
        1 => Some((1, 2)),
        2 => Some((32, 18)),
        3 => Some((32, 20)),
        6 => Some((32, 22)),
        7 => Some((32, 24)),
        8 => Some((32, 34)),
        9 => Some((32, 36)),
        10 => Some((256, 84)),
        11 => Some((256, 110)),
        12 => Some((256, 144)),
        13 => Some((256, 176)),
        14 => Some((256, 210)),
        15 => Some((256, 292)),
        24 => Some((1, 1)),
        25 => Some((1, 2)),
        26 => Some((1, 4)),
        27 | 28 => Some((1, 8)),
        30 => Some((1, 2)),
        _ => None,
    }
}

/// The 32-bit integer at `pos` lies in the room, and could not be read.
pub open spec fn u32_fails(src: Source, start: int, avail: int, pos: int) -> bool {
    pos + 4 <= avail && src.faulty(start + pos, 4)
}

/// Read the 32-bit integer at `pos`.
pub fn gguf_u32(source: &Source, file_start: u64, limit: u64, pos: u64) -> (r: Result<
    Option<u32>,
    ReadError,
>)
    requires
        source.spans(file_start, limit),
    ensures
        source.yields(
            file_start,
            limit - file_start,
            r,
            u32_in(source.tail(file_start as int), limit - file_start, pos as int),
        ),
        r is Err <==> u32_fails(*source, file_start as int, limit - file_start, pos as int),
{
    if pos.saturating_add(4) > limit - file_start {
        return Ok(None);
    }
    let b = match source.part(file_start, pos, 4)? {
        Some(b) => b,
        None => return Ok(None),
    };
    Ok(Some(rd_le32(&b, 0)))
}

/// The 64-bit integer at `pos` lies in the room, and could not be read.
pub open spec fn u64_fails(src: Source, start: int, avail: int, pos: int) -> bool {
    pos + 8 <= avail && src.faulty(start + pos, 8)
}

/// Read the 64-bit integer at `pos`.
pub fn gguf_u64(source: &Source, file_start: u64, limit: u64, pos: u64) -> (r: Result<
    Option<u64>,
    ReadError,
>)
    requires
        source.spans(file_start, limit),
    ensures
        source.yields(
            file_start,
            limit - file_start,
            r,
            u64_in(source.tail(file_start as int), limit - file_start, pos as int),
        ),
        r is Err <==> u64_fails(*source, file_start as int, limit - file_start, pos as int),
{
    if pos.saturating_add(8) > limit - file_start {
        return Ok(None);
    }
    let b = match source.part(file_start, pos, 8)? {
        Some(b) => b,
        None => return Ok(None),
    };
    Ok(Some(rd_le64(&b, 0)))
}

/// Pass the string at `pos`.
fn gguf_skip_string(source: &Source, file_start: u64, limit: u64, pos: u64) -> (r: Length)
    requires
        source.spans(file_start, limit),
    ensures
        match r {
            Ok(Some(p)) => gguf_string_end(
                source.tail(file_start as int),
                limit - file_start,
                pos as int,
            ) == Some(p as int) && pos + 8 <= p <= limit - file_start,
            Ok(None) => gguf_string_end(
                source.tail(file_start as int),
                limit - file_start,
                pos as int,
            ) is None,
            Err(e) => source.blames(file_start, limit - file_start, e),
        },
        r is Err <==> u64_fails(*source, file_start as int, limit - file_start, pos as int),
{
    let len: u64 = match gguf_u64(source, file_start, limit, pos)? {
        Some(len) => len,
        None => return Ok(None),
    };
    Ok(within((pos + 8).saturating_add(len), limit - file_start))
}

/// The length of one of the `n` GGUF strings at `pos` that are looked at could not be read.
pub open spec fn gguf_strings_fails(src: Source, start: int, avail: int, pos: int, n: nat) -> bool
    decreases n,
{
    n > 0 && (u64_fails(src, start, avail, pos) || match gguf_string_end(src.tail(start), avail, pos) {
        None => false,
        Some(p) => gguf_strings_fails(src, start, avail, p, (n - 1) as nat),
    })
}

/// Pass `n` strings at `first`.
fn gguf_skip_strings(source: &Source, file_start: u64, limit: u64, first: u64, n: u64) -> (r: Length)
    requires
        source.spans(file_start, limit),
        first <= limit - file_start,
    ensures
        match r {
            Ok(Some(p)) => gguf_strings_end(
                source.tail(file_start as int),
                limit - file_start,
                first as int,
                n as nat,
            ) == Some(p as int) && first <= p <= limit - file_start,
            Ok(None) => gguf_strings_end(
                source.tail(file_start as int),
                limit - file_start,
                first as int,
                n as nat,
            ) is None,
            Err(e) => source.blames(file_start, limit - file_start, e),
        },
        r is Err <==> gguf_strings_fails(
            *source,
            file_start as int,
            limit - file_start,
            first as int,
            n as nat,
        ),
{
    let avail: u64 = limit - file_start;
    let ghost f = source.tail(file_start as int);
    let mut pos: u64 = first;
    let mut left: u64 = n;
    while left > 0
        invariant
            source.spans(file_start, limit),
            avail == limit - file_start,
            f == source.tail(file_start as int),
            first <= pos <= avail,
            gguf_strings_end(f, avail as int, first as int, n as nat) == gguf_strings_end(
                f,
                avail as int,
                pos as int,
                left as nat,
            ),
            gguf_strings_fails(*source, file_start as int, avail as int, first as int, n as nat) == gguf_strings_fails(
                *source,
                file_start as int,
                avail as int,
                pos as int,
                left as nat,
            ),
        decreases left,
    {
        pos = match gguf_skip_string(source, file_start, limit, pos)? {
            Some(p) => p,
            None => return Ok(None),
        };
        left = left - 1;
    }
    Ok(Some(pos))
}

/// One of the integers of the GGUF value of type `t` at `pos` that are looked at could not be read.
pub open spec fn gguf_value_fails(src: Source, start: int, avail: int, pos: int, t: u32) -> bool {
    let f = src.tail(start);
    gguf_scalar(t) is None && if t == 8 {
        u64_fails(src, start, avail, pos)
    } else {
        t == 9 && (u32_fails(src, start, avail, pos) || (u32_in(f, avail, pos) is Some && (u64_fails(
            src,
            start,
            avail,
            pos + 4,
        ) || match (u32_in(f, avail, pos), u64_in(f, avail, pos + 4)) {
            (Some(et), Some(count)) => gguf_scalar(et) is None && et == 8 && pos + 12 + count * 8 <= avail
                && gguf_strings_fails(src, start, avail, pos + 12, count as nat),
            _ => false,
        })))
    }
}

/// Pass a GGUF metadata value of type `vtype`. `None` on malformed or overrunning
/// data or an unsupported nested type.
pub fn gguf_skip_value(source: &Source, file_start: u64, limit: u64, pos: u64, vtype: u32) -> (r:
    Length)
    requires
        source.spans(file_start, limit),
    ensures
        match r {
            Ok(Some(p)) => gguf_value_end(
                source.tail(file_start as int),
                limit - file_start,
                pos as int,
                vtype,
            ) == Some(p as int) && pos <= p <= limit - file_start,
            Ok(None) => gguf_value_end(
                source.tail(file_start as int),
                limit - file_start,
                pos as int,
                vtype,
            ) is None,
            Err(e) => source.blames(file_start, limit - file_start, e),
        },
        r is Err <==> gguf_value_fails(*source, file_start as int, limit - file_start, pos as int, vtype),
{
    let avail: u64 = limit - file_start;
    if pos > avail {
        return Ok(None);
    }
    if let Some(size) = gguf_scalar_size(vtype) {
        return Ok(within(pos + size, avail));
    }
    if vtype == 8 {
        return gguf_skip_string(source, file_start, limit, pos);
    }
    if vtype != 9 {
        return Ok(None);
    }
    let et: u32 = match gguf_u32(source, file_start, limit, pos)? {
        Some(t) => t,
        None => return Ok(None),
    };
    let count: u64 = match gguf_u64(source, file_start, limit, pos + 4)? {
        Some(n) => n,
        None => return Ok(None),
    };
    if let Some(size) = gguf_scalar_size(et) {
        let end: u128 = (pos + 12) as u128 + mul_wide(count, size);
        return Ok(
            if end > avail as u128 {
                None
            } else {
                Some(end as u64)
            },
        );
    }
    // Each string takes at least 8 bytes, which bounds the walk by the room.
    if et != 8 || (pos + 12) as u128 + count as u128 * 8 > avail as u128 {
        return Ok(None);
    }
    gguf_skip_strings(source, file_start, limit, pos + 12, count)
}

/// One of the parts of the GGUF metadata entry at `pos` that are looked at could not be read.
pub open spec fn gguf_entry_fails(src: Source, start: int, avail: int, pos: int) -> bool {
    let f = src.tail(start);
    u64_fails(src, start, avail, pos) || match gguf_string_end(f, avail, pos) {
        Some(p) if p - pos - 8 <= 0x10_0000 => (p - pos == 25 && src.faulty(start + pos + 8, 17))
            || u32_fails(src, start, avail, p) || match u32_in(f, avail, p) {
            None => false,
            Some(t) => if t == 4 && p - pos == 25 && text_at(
                f.subrange(pos + 8, pos + 25),
                0,
                "general.alignment"@,
            ) {
                u32_fails(src, start, avail, p + 4)
            } else {
                gguf_value_fails(src, start, avail, p + 4, t)
            },
        },
        _ => false,
    }
}

/// Pass one entry of the metadata table.
fn gguf_skip_entry(source: &Source, file_start: u64, limit: u64, pos: u64, align: u64) -> (r:
    Result<Option<(u64, u64)>, ReadError>)
    requires
        source.spans(file_start, limit),
        pos <= limit - file_start,
        1 <= align <= 4096,
    ensures
        match r {
            Ok(Some(x)) => gguf_entry(
                source.tail(file_start as int),
                limit - file_start,
                pos as int,
                align as int,
            ) == Some((x.0 as int, x.1 as int)) && pos <= x.0 <= limit - file_start && 1 <= x.1
                <= 4096,
            Ok(None) => gguf_entry(
                source.tail(file_start as int),
                limit - file_start,
                pos as int,
                align as int,
            ) is None,
            Err(e) => source.blames(file_start, limit - file_start, e),
        },
        r is Err <==> gguf_entry_fails(*source, file_start as int, limit - file_start, pos as int),
{
    let p: u64 = match gguf_skip_string(source, file_start, limit, pos)? {
        Some(p) => p,
        None => return Ok(None),
    };
    if p - pos - 8 > 0x10_0000 {
        return Ok(None);
    }
    let mut is_align = false;
    if p - pos == 25 {
        let key = match source.part(file_start, pos + 8, 17)? {
            Some(key) => key,
            None => return Ok(None),
        };
        is_align = is_text(&key, 0, "general.alignment");
    }
    let t: u32 = match gguf_u32(source, file_start, limit, p)? {
        Some(t) => t,
        None => return Ok(None),
    };
    if is_align && t == 4 {
        let a: u64 = match gguf_u32(source, file_start, limit, p + 4)? {
            Some(a) => a as u64,
            None => return Ok(None),
        };
        proof {
            reveal(is_pow2);
        }
        if !power_of_two(a) || a > 4096 {
            return Ok(None);
        }
        return Ok(Some((p + 8, a)));
    }
    match gguf_skip_value(source, file_start, limit, p + 4, t)? {
        Some(q) => Ok(Some((q, align))),
        None => Ok(None),
    }
}

/// One of the `n` GGUF metadata entries at `pos`, as far as they are looked at, could not be read.
pub open spec fn gguf_entries_fails(
    src: Source,
    start: int,
    avail: int,
    pos: int,
    align: int,
    n: nat,
) -> bool
    decreases n,
{
    n > 0 && (gguf_entry_fails(src, start, avail, pos) || match gguf_entry(
        src.tail(start),
        avail,
        pos,
        align,
    ) {
        None => false,
        Some((p, a)) => gguf_entries_fails(src, start, avail, p, a, (n - 1) as nat),
    })
}

/// Pass the metadata table: where it ends, and the alignment it leaves.
fn gguf_skip_entries(source: &Source, file_start: u64, limit: u64, n: u64) -> (r: Result<
    Option<(u64, u64)>,
    ReadError,
>)
    requires
        source.spans(file_start, limit),
        24 <= limit - file_start,
    ensures
        match r {
            Ok(Some(x)) => gguf_entries(
                source.tail(file_start as int),
                limit - file_start,
                24,
                32,
                n as nat,
            ) == Some((x.0 as int, x.1 as int)) && 24 <= x.0 <= limit - file_start && 1 <= x.1
                <= 4096,
            Ok(None) => gguf_entries(
                source.tail(file_start as int),
                limit - file_start,
                24,
                32,
                n as nat,
            ) is None,
            Err(e) => source.blames(file_start, limit - file_start, e),
        },
        r is Err <==> gguf_entries_fails(*source, file_start as int, limit - file_start, 24, 32, n as nat),
{
    let avail: u64 = limit - file_start;
    let ghost f = source.tail(file_start as int);
    let mut pos: u64 = 24;
    let mut align: u64 = 32;
    let mut left: u64 = n;
    while left > 0
        invariant
            source.spans(file_start, limit),
            avail == limit - file_start,
            f == source.tail(file_start as int),
            24 <= pos <= avail,
            1 <= align <= 4096,
            gguf_entries(f, avail as int, 24, 32, n as nat) == gguf_entries(
                f,
                avail as int,
                pos as int,
                align as int,
                left as nat,
            ),
            gguf_entries_fails(*source, file_start as int, avail as int, 24, 32, n as nat) == gguf_entries_fails(
                *source,
                file_start as int,
                avail as int,
                pos as int,
                align as int,
                left as nat,
            ),
        decreases left,
    {
        let (p, a) = match gguf_skip_entry(source, file_start, limit, pos, align)? {
            Some(x) => x,
            None => return Ok(None),
        };
        pos = p;
        align = a;
        left = left - 1;
    }
    Ok(Some((pos, align)))
}

/// One of the `n` dimensions at `pos` that are looked at could not be read.
pub open spec fn gguf_elements_fails(src: Source, start: int, avail: int, pos: int, n: nat) -> bool
    decreases n,
{
    n > 0 && (u64_fails(src, start, avail, pos) || (u64_in(src.tail(start), avail, pos) is Some
        && gguf_elements_fails(src, start, avail, pos + 8, (n - 1) as nat)))
}

/// The number of elements of a tensor.
fn gguf_count(source: &Source, file_start: u64, limit: u64, first: u64, n: u64) -> (r: Result<
    Option<u64>,
    ReadError,
>)
    requires
        source.spans(file_start, limit),
        first <= limit - file_start,
        n <= 4,
    ensures
        match r {
            Ok(Some(v)) => gguf_elements(
                source.tail(file_start as int),
                limit - file_start,
                first as int,
                n as nat,
                1,
            ) == Some(v as int) && first + n * 8 <= limit - file_start,
            Ok(None) => gguf_elements(
                source.tail(file_start as int),
                limit - file_start,
                first as int,
                n as nat,
                1,
            ) is None,
            Err(e) => source.blames(file_start, limit - file_start, e),
        },
        r is Err <==> gguf_elements_fails(
            *source,
            file_start as int,
            limit - file_start,
            first as int,
            n as nat,
        ),
{
    let avail: u64 = limit - file_start;
    let ghost f = source.tail(file_start as int);
    let mut elems: u64 = 1;
    let mut pos: u64 = first;
    let mut left: u64 = n;
    while left > 0
        invariant
            source.spans(file_start, limit),
            avail == limit - file_start,
            f == source.tail(file_start as int),
            pos <= avail,
            left <= n <= 4,
            pos == first + (n - left) * 8,
            gguf_elements(f, avail as int, first as int, n as nat, 1) == gguf_elements(
                f,
                avail as int,
                pos as int,
                left as nat,
                elems as int,
            ),
            gguf_elements_fails(
                *source,
                file_start as int,
                avail as int,
                first as int,
                n as nat,
            ) == gguf_elements_fails(
                *source,
                file_start as int,
                avail as int,
                pos as int,
                left as nat,
            ),
        decreases left,
    {
        let d: u64 = match gguf_u64(source, file_start, limit, pos)? {
            Some(d) => d,
            None => return Ok(None),
        };
        let wide: u128 = mul_wide(elems, d);
        elems = if wide > u64::MAX as u128 {
            u64::MAX
        } else {
            wide as u64
        };
        pos = pos + 8;
        left = left - 1;
    }
    Ok(Some(elems))
}

/// One of the parts of the GGUF tensor description at `pos` that are looked at could not be read.
pub open spec fn gguf_tensor_fails(src: Source, start: int, avail: int, pos: int) -> bool {
    let f = src.tail(start);
    u64_fails(src, start, avail, pos) || match gguf_string_end(f, avail, pos) {
        Some(p) if p - pos - 8 <= 0x10_0000 => u32_fails(src, start, avail, p) || match u32_in(f, avail, p) {
            Some(dims) if dims <= 4 => {
                let q = p + 4 + 8 * dims;
                gguf_elements_fails(src, start, avail, p + 4, dims as nat) || (gguf_elements(
                    f,
                    avail,
                    p + 4,
                    dims as nat,
                    1,
                ) is Some && (u32_fails(src, start, avail, q) || (u32_in(f, avail, q) is Some && u64_fails(
                    src,
                    start,
                    avail,
                    q + 4,
                ))))
            },
            _ => false,
        },
        _ => false,
    }
}

/// Pass one tensor description: where it ends, and where the tensor does.
fn gguf_skip_tensor(source: &Source, file_start: u64, limit: u64, pos: u64) -> (r: Result<
    Option<(u64, u64)>,
    ReadError,
>)
    requires
        source.spans(file_start, limit),
        pos <= limit - file_start,
    ensures
        match r {
            Ok(Some(x)) => gguf_tensor(
                source.tail(file_start as int),
                limit - file_start,
                pos as int,
            ) == Some((x.0 as int, x.1 as int)) && pos <= x.0 <= limit - file_start,
            Ok(None) => gguf_tensor(
                source.tail(file_start as int),
                limit - file_start,
                pos as int,
            ) is None,
            Err(e) => source.blames(file_start, limit - file_start, e),
        },
        r is Err <==> gguf_tensor_fails(*source, file_start as int, limit - file_start, pos as int),
{
    let p: u64 = match gguf_skip_string(source, file_start, limit, pos)? {
        Some(p) => p,
        None => return Ok(None),
    };
    if p - pos - 8 > 0x10_0000 {
        return Ok(None);
    }
    let dims: u64 = match gguf_u32(source, file_start, limit, p)? {
        Some(n) => n as u64,
        None => return Ok(None),
    };
    if dims > 4 {
        return Ok(None);
    }
    let elems: u64 = match gguf_count(source, file_start, limit, p + 4, dims)? {
        Some(n) => n,
        None => return Ok(None),
    };
    let q: u64 = p + 4 + 8 * dims;
    let t: u32 = match gguf_u32(source, file_start, limit, q)? {
        Some(t) => t,
        None => return Ok(None),
    };
    let off: u64 = match gguf_u64(source, file_start, limit, q + 4)? {
        Some(o) => o,
        None => return Ok(None),
    };
    let (block, size) = match ggml_type_block(t) {
        Some(x) => x,
        None => return Ok(None),  // unknown type: do not guess a size
    };
    if elems % block != 0 {
        return Ok(None);
    }
    let wide: u128 = mul_wide(elems / block, size);
    let bytes: u64 = if wide > u64::MAX as u128 {
        u64::MAX
    } else {
        wide as u64
    };
    Ok(Some((q + 12, off.saturating_add(bytes))))
}

/// One of the `n` GGUF tensor descriptions at `pos`, as far as they are looked at, could not be read.
pub open spec fn gguf_tensors_fails(src: Source, start: int, avail: int, pos: int, n: nat) -> bool
    decreases n,
{
    n > 0 && (gguf_tensor_fails(src, start, avail, pos) || match gguf_tensor(src.tail(start), avail, pos) {
        None => false,
        Some((p, _)) => gguf_tensors_fails(src, start, avail, p, (n - 1) as nat),
    })
}

/// Pass the tensor descriptions: where they end, and the furthest end of a tensor.
fn gguf_skip_tensors(source: &Source, file_start: u64, limit: u64, first: u64, n: u64) -> (r:
    Result<Option<(u64, u64)>, ReadError>)
    requires
        source.spans(file_start, limit),
        24 <= first <= limit - file_start,
    ensures
        match r {
            Ok(Some(x)) => gguf_tensors(
                source.tail(file_start as int),
                limit - file_start,
                first as int,
                0,
                n as nat,
            ) == Some((x.0 as int, x.1 as int)) && 24 <= x.0 <= limit - file_start,
            Ok(None) => gguf_tensors(
                source.tail(file_start as int),
                limit - file_start,
                first as int,
                0,
                n as nat,
            ) is None,
            Err(e) => source.blames(file_start, limit - file_start, e),
        },
        r is Err <==> gguf_tensors_fails(
            *source,
            file_start as int,
            limit - file_start,
            first as int,
            n as nat,
        ),
{
    let avail: u64 = limit - file_start;
    let ghost f = source.tail(file_start as int);
    let mut pos: u64 = first;
    let mut end: u64 = 0;
    let mut left: u64 = n;
    while left > 0
        invariant
            source.spans(file_start, limit),
            avail == limit - file_start,
            f == source.tail(file_start as int),
            24 <= pos <= avail,
            gguf_tensors(f, avail as int, first as int, 0, n as nat) == gguf_tensors(
                f,
                avail as int,
                pos as int,
                end as int,
                left as nat,
            ),
            gguf_tensors_fails(*source, file_start as int, avail as int, first as int, n as nat) == gguf_tensors_fails(
                *source,
                file_start as int,
                avail as int,
                pos as int,
                left as nat,
            ),
        decreases left,
    {
        let (p, e) = match gguf_skip_tensor(source, file_start, limit, pos)? {
            Some(x) => x,
            None => return Ok(None),
        };
        pos = p;
        end = max_u64(end, e);
        left = left - 1;
    }
    Ok(Some((pos, end)))
}

/// One of the bytes of a GGUF file that are looked at could not be read.
pub open spec fn gguf_fails(src: Source, start: int, avail: int) -> bool {
    let f = src.tail(start);
    let h = f.subrange(0, 24);
    let tensors = le64(h, 8);
    let entries = le64(h, 16);
    src.faulty(start, 24) || (f.len() >= 24 && text_at(h, 0, "GGUF"@) && (le32(h, 4) == 2 || le32(h, 4)
        == 3) && tensors <= 0x10_0000 && entries <= 0x10_0000 && avail >= 24 && (gguf_entries_fails(
        src,
        start,
        avail,
        24,
        32,
        entries as nat,
    ) || match gguf_entries(f, avail, 24, 32, entries as nat) {
        None => false,
        Some((p, _)) => gguf_tensors_fails(src, start, avail, p, tensors as nat),
    }))
}

/// GGUF (`.gguf`) length: the container for llama.cpp / ggml model weights.
pub fn gguf_length(source: &Source, file_start: u64, limit: u64) -> (r: Length)
    requires
        source.spans(file_start, limit),
    ensures
        source.sizes(
            file_start,
            r,
            gguf_len(source.tail(file_start as int), limit - file_start),
            limit - file_start,
        ),
        r is Err <==> gguf_fails(*source, file_start as int, limit - file_start),
{
    let avail: u64 = limit - file_start;
    let h = match source.part(file_start, 0, 24)? {
        Some(h) => h,
        None => return Ok(None),
    };
    let version: u32 = rd_le32(&h, 4);
    let tensors: u64 = rd_le64(&h, 8);
    let entries: u64 = rd_le64(&h, 16);
    if !is_text(&h, 0, "GGUF") || !(version == 2 || version == 3) || tensors > 0x10_0000 || entries
        > 0x10_0000 {
        return Ok(None);
    }
    if avail < 24 {
        proof {
            lemma_gguf_short(source.tail(file_start as int), avail as int, entries as nat, tensors as nat);
        }
        return Ok(None);
    }
    let (p, align) = match gguf_skip_entries(source, file_start, limit, entries)? {
        Some(x) => x,
        None => return Ok(None),
    };
    let (q, end) = match gguf_skip_tensors(source, file_start, limit, p, tensors)? {
        Some(x) => x,
        None => return Ok(None),
    };
    let data: u64 = round_up(q, align);
    Ok(within(data.saturating_add(end), avail))
}

/// The number of MCAP records that are looked at.
pub const MAX_MCAP_RECORDS: u64 = 100_000_000;

/// The length of an MCAP log from the record at `pos` on, no more than `left` of them
/// being looked at: up to the footer record (2) and the magic behind it. A record is
/// an opcode, which is not zero, a length, and as many bytes.
pub open spec fn mcap_from(f: Seq<u8>, avail: int, pos: int, left: nat) -> Option<int>
    decreases left,
{
    let h = f.subrange(pos, pos + 9);
    let next = pos + 9 + le64(h, 1);
    if left == 0 || pos + 9 > avail || h[0] == 0 {
        None
    } else if h[0] == 2 {
        fit(next + 8, avail)
    } else {
        mcap_from(f, avail, next, (left - 1) as nat)
    }
}

/// The length of an MCAP log at the beginning of `f`.
pub open spec fn mcap_len(f: Seq<u8>, avail: int) -> Option<int> {
    mcap_from(f, avail, 8, MAX_MCAP_RECORDS as nat)
}

/// One of the record headers of an MCAP file from `pos` on, of which `left` are looked at, could not be read. A header
/// is read wherever it ends no further behind the start of the file than the room ends behind that of the image.
pub open spec fn mcap_fails(src: Source, start: int, avail: int, pos: int, left: nat) -> bool
    decreases left,
{
    let h = src.tail(start).subrange(pos, pos + 9);
    left > 0 && pos + 9 <= start + avail && (src.faulty(start + pos, 9) || (start + pos + 9 <= src@.len()
        && h[0] != 0 && h[0] != 2 && mcap_fails(
        src,
        start,
        avail,
        pos + 9 + le64(h, 1),
        (left - 1) as nat,
    )))
}

/// MCAP log (`.mcap`) length. Detection never relies on the trailing magic, which is
/// the same as the leading one.
pub fn mcap_length(source: &Source, file_start: u64, limit: u64) -> (r: Length)
    requires
        source.spans(file_start, limit),
    ensures
        source.sizes_afar(
            file_start,
            r,
            mcap_len(source.tail(file_start as int), limit - file_start),
            limit - file_start,
        ),
        r is Err <==> mcap_fails(
            *source,
            file_start as int,
            limit - file_start,
            8,
            MAX_MCAP_RECORDS as nat,
        ),
{
    let avail: u64 = limit - file_start;
    let ghost f = source.tail(file_start as int);
    let mut pos: u64 = 8;
    let mut left: u64 = MAX_MCAP_RECORDS;
    while left > 0
        invariant
            source.spans(file_start, limit),
            avail == limit - file_start,
            f == source.tail(file_start as int),
            mcap_len(f, avail as int) == mcap_from(f, avail as int, pos as int, left as nat),
            mcap_fails(*source, file_start as int, avail as int, 8, MAX_MCAP_RECORDS as nat)
                == mcap_fails(*source, file_start as int, avail as int, pos as int, left as nat),
        decreases left,
    {
        if pos.saturating_add(9) > limit {
            return Ok(None);
        }
        let h = match source.part(file_start, pos, 9)? {
            Some(h) => h,
            None => return Ok(None),
        };
        if h[0] == 0 {
            return Ok(None);
        }
        let next: u64 = (pos + 9).saturating_add(rd_le64(&h, 1));
        if h[0] == 2 {
            return Ok(within(next.saturating_add(8), avail));
        }
        if next > limit {
            assert(mcap_from(f, avail as int, pos + 9 + le64(h@, 1), (left - 1) as nat) is None);
            assert(!mcap_fails(
                *source,
                file_start as int,
                avail as int,
                pos + 9 + le64(h@, 1),
                (left - 1) as nat,
            ));
            return Ok(None);
        }
        pos = next;
        left = left - 1;
    }
    Ok(None)
}

/// The number of GRIB messages that are looked at.
pub const MAX_GRIB_MESSAGES: u64 = 10_000_000;

/// The length of a GRIB message at `pos`, of edition 2, where there is one in the room:
/// it gives its length behind the magic, and ends with a mark.
pub open spec fn grib2_message(f: Seq<u8>, avail: int, pos: int) -> Option<int> {
    let h = f.subrange(pos, pos + 16);
    let len = be64(h, 8);
    if pos + 16 > avail || !text_at(h, 0, "GRIB"@) || h[7] != 2 || len < 16 || pos + len > avail
        || !text_at(f.subrange(pos + len - 4, pos + len), 0, "7777"@) {
        None
    } else {
        Some(len as int)
    }
}

/// Where a run of GRIB messages ends that has reached `pos`, no more than `left` more
/// being looked at.
pub open spec fn grib2_end(f: Seq<u8>, avail: int, pos: int, left: nat) -> int
    decreases left,
{
    match grib2_message(f, avail, pos) {
        Some(len) if left > 0 => grib2_end(f, avail, pos + len, (left - 1) as nat),
        _ => pos,
    }
}

/// The length of GRIB2 weather data at the beginning of `f`, of one message at least.
pub open spec fn grib2_len(f: Seq<u8>, avail: int) -> Option<int> {
    let end = grib2_end(f, avail, 0, MAX_GRIB_MESSAGES as nat);
    if end == 0 {
        None
    } else {
        Some(end)
    }
}

/// One of the heads and tails of the messages of a GRIB file from `pos` on, of which `left` are looked at, could not
/// be read. A head is read wherever it ends no further behind the start of the file than the room ends behind that of
/// the image.
pub open spec fn grib2_fails(src: Source, start: int, avail: int, pos: int, left: nat) -> bool
    decreases left,
{
    let f = src.tail(start);
    let h = f.subrange(pos, pos + 16);
    let len = be64(h, 8);
    left > 0 && pos + 16 <= start + avail && (src.faulty(start + pos, 16) || (text_at(h, 0, "GRIB"@) && h[7] == 2
        && len >= 16 && pos + len <= avail && (src.faulty(start + pos + len - 4, 4) || match grib2_message(
        f,
        avail,
        pos,
    ) {
        Some(n) => grib2_fails(src, start, avail, pos + n, (left - 1) as nat),
        None => false,
    })))
}

/// GRIB2 weather data (`.grib2`) length.
pub fn grib2_length(source: &Source, file_start: u64, limit: u64) -> (r: Length)
    requires
        source.spans(file_start, limit),
    ensures
        source.sizes(
            file_start,
            r,
            grib2_len(source.tail(file_start as int), limit - file_start),
            limit - file_start,
        ),
        r is Err <==> grib2_fails(*source, file_start as int, limit - file_start, 0, MAX_GRIB_MESSAGES as nat),
{
    let avail: u64 = limit - file_start;
    let ghost f = source.tail(file_start as int);
    let mut pos: u64 = 0;
    let mut left: u64 = MAX_GRIB_MESSAGES;
    loop
        invariant
            source.spans(file_start, limit),
            avail == limit - file_start,
            f == source.tail(file_start as int),
            pos <= avail,
            grib2_end(f, avail as int, 0, MAX_GRIB_MESSAGES as nat) == grib2_end(
                f,
                avail as int,
                pos as int,
                left as nat,
            ),
            grib2_fails(*source, file_start as int, avail as int, 0, MAX_GRIB_MESSAGES as nat) == grib2_fails(*source, file_start as int, avail as int, pos as int, left as nat),
        decreases left,
    {
        let stop: Option<u64> = if pos == 0 {
            None
        } else {
            Some(pos)
        };
        if left == 0 || pos + 16 > limit {
            return Ok(stop);
        }
        let h = match source.part(file_start, pos, 16)? {
            Some(h) => h,
            None => return Ok(stop),
        };
        let len: u64 = rd_be64(&h, 8);
        if !is_text(&h, 0, "GRIB") || h[7] != 2 || len < 16 || len > avail - pos {
            return Ok(stop);
        }
        let t = match source.part(file_start, pos + len - 4, 4)? {
            Some(t) => t,
            None => return Ok(None),
        };
        if !is_text(&t, 0, "7777") {
            return Ok(stop);
        }
        pos = pos + len;
        left = left - 1;
    }
}

/// The chunks of a binary glTF model of `total` bytes from the one at `pos` on end where
/// the model does. A chunk is a length, a multiple of 4, a type, and as many bytes;
/// the first is of the type `JSON`.
pub open spec fn glb_chunks(f: Seq<u8>, total: int, pos: int) -> bool
    decreases larger(total - pos, 0),
{
    let h = f.subrange(pos, pos + 8);
    if pos >= total {
        pos == total
    } else {
        &&& pos + 8 <= total
        &&& le32(h, 0) % 4 == 0
        &&& pos == 12 ==> text_at(h, 4, "JSON"@)
        &&& glb_chunks(f, total, pos + 8 + le32(h, 0))
    }
}

/// The length of a binary glTF model at the beginning of `f`, of version 2: what its
/// header gives, a multiple of 4 that covers a chunk, and which the chunks make up.
pub open spec fn glb_len(f: Seq<u8>, avail: int) -> Option<int> {
    let h = f.subrange(0, 12);
    let total = le32(h, 8) as int;
    if f.len() < 12 || !text_at(h, 0, "glTF"@) || le32(h, 4) != 2 || total < 20 || total % 4 != 0
        || total > avail || !glb_chunks(f, total, 12) {
        None
    } else {
        Some(total)
    }
}

/// One of the chunk headers of a binary glTF file of `total` bytes that are looked at from `pos` on could not be read.
pub open spec fn glb_chunks_fails(src: Source, start: int, total: int, pos: int) -> bool
    decreases larger(total - pos, 0),
{
    let h = src.tail(start).subrange(pos, pos + 8);
    pos + 8 <= total && (src.faulty(start + pos, 8) || (le32(h, 0) % 4 == 0 && (pos == 12 ==> text_at(
        h,
        4,
        "JSON"@,
    )) && glb_chunks_fails(src, start, total, pos + 8 + le32(h, 0))))
}

/// Walk the chunks of a binary glTF model.
fn glb_walk(source: &Source, file_start: u64, limit: u64, total: u64) -> (r: Result<
    bool,
    ReadError,
>)
    requires
        source.spans(file_start, limit),
        total <= limit - file_start,
        total <= 0xFFFF_FFFF,
    ensures
        source.yields(
            file_start,
            limit - file_start,
            r,
            glb_chunks(source.tail(file_start as int), total as int, 12),
        ),
        r is Err <==> glb_chunks_fails(*source, file_start as int, total as int, 12),
{
    let avail: u64 = limit - file_start;
    let ghost f = source.tail(file_start as int);
    let mut pos: u64 = 12;
    while pos < total
        invariant
            source.spans(file_start, limit),
            avail == limit - file_start,
            f == source.tail(file_start as int),
            total <= avail,
            total <= 0xFFFF_FFFF,
            12 <= pos < 0x2_0000_0000,
            glb_chunks(f, total as int, 12) == glb_chunks(f, total as int, pos as int),
            glb_chunks_fails(*source, file_start as int, total as int, 12) == glb_chunks_fails(
                *source,
                file_start as int,
                total as int,
                pos as int,
            ),
        decreases larger(total - pos, 0),
    {
        if pos + 8 > total {
            return Ok(false);
        }
        let h = match source.part(file_start, pos, 8)? {
            Some(h) => h,
            None => return Ok(false),
        };
        let len: u64 = rd_le32(&h, 0) as u64;
        if len % 4 != 0 || pos == 12 && !is_text(&h, 4, "JSON") {
            return Ok(false);
        }
        pos = pos + 8 + len;
    }
    Ok(pos == total)
}

/// One of the bytes of a binary glTF file that are looked at could not be read.
pub open spec fn glb_fails(src: Source, start: int, avail: int) -> bool {
    let f = src.tail(start);
    let h = f.subrange(0, 12);
    let total = le32(h, 8) as int;
    src.faulty(start, 12) || (f.len() >= 12 && text_at(h, 0, "glTF"@) && le32(h, 4) == 2 && total >= 20
        && total % 4 == 0 && total <= avail && glb_chunks_fails(src, start, total, 12))
}

/// glTF binary 3D model (`.glb`) length. The declared length is the answer, but to reject
/// a coincidental match the chunks must begin with a JSON chunk and add up to it.
pub fn glb_length(source: &Source, file_start: u64, limit: u64) -> (r: Length)
    requires
        source.spans(file_start, limit),
    ensures
        source.sizes(
            file_start,
            r,
            glb_len(source.tail(file_start as int), limit - file_start),
            limit - file_start,
        ),
        r is Err <==> glb_fails(*source, file_start as int, limit - file_start),
{
    let h = match source.part(file_start, 0, 12)? {
        Some(h) => h,
        None => return Ok(None),
    };
    let total: u64 = rd_le32(&h, 8) as u64;
    if !is_text(&h, 0, "glTF") || rd_le32(&h, 4) != 2 || total < 20 || total % 4 != 0 || total
        > limit - file_start {
        return Ok(None);
    }
    if !glb_walk(source, file_start, limit, total)? {
        return Ok(None);
    }
    Ok(Some(total))
}

/// Where the end-of-file address of an HDF5 superblock is, by its version, where
/// addresses have 8 bytes.
pub open spec fn hdf5_eof_at(h: Seq<u8>) -> Option<int> {
    if h[8] == 0 && h[0x0D] == 8 {
        Some(0x28)
    } else if h[8] == 1 && h[0x0D] == 8 {
        Some(0x2C)
    } else if (h[8] == 2 || h[8] == 3) && h[9] == 8 {
        Some(0x1C)
    } else {
        None
    }
}

/// The length of an HDF5 file at the beginning of `f`: the end-of-file address.
pub open spec fn hdf5_len(f: Seq<u8>, avail: int) -> Option<int> {
    let h = window(f, 0, 56);
    match hdf5_eof_at(h) {
        Some(at) if h.len() >= 36 && text_at(h, 0, "\u{89}HDF\r\n\u{1a}\n"@) && h.len() >= at + 8
            && le64(h, at) >= 36 => fit(le64(h, at) as int, avail),
        _ => None,
    }
}

/// HDF5 data file (`.h5`) length.
pub fn hdf5_length(source: &Source, file_start: u64, limit: u64) -> (r: Length)
    requires
        source.spans(file_start, limit),
    ensures
        source.sizes(
            file_start,
            r,
            hdf5_len(source.tail(file_start as int), limit - file_start),
            limit - file_start,
        ),
        r is Err <==> source.faulty(file_start as int, 56),
{
    let h = source.part_upto(file_start, 0, 56)?;
    if h.len() < 36 || !is_text(&h, 0, "\u{89}HDF\r\n\u{1a}\n") {
        return Ok(None);
    }
    let at: usize = if h[8] == 0 && h[0x0D] == 8 {
        0x28
    } else if h[8] == 1 && h[0x0D] == 8 {
        0x2C
    } else if (h[8] == 2 || h[8] == 3) && h[9] == 8 {
        0x1C
    } else {
        return Ok(None);
    };
    if h.len() < at + 8 {
        return Ok(None);
    }
    let total: u64 = rd_le64(&h, at);
    if total < 36 {
        return Ok(None);
    }
    Ok(within(total, limit - file_start))
}

/// Where `n` Avro items at `pos` end: each is a length, which is not negative, and as many
/// bytes. A length is a base-128 integer whose lowest bit is the sign.
pub open spec fn avro_items_end(f: Seq<u8>, avail: int, pos: int, n: nat) -> Option<int>
    decreases n,
{
    if n == 0 {
        Some(pos)
    } else {
        match avro_item_end(f, avail, pos) {
            None => None,
            Some(p) => avro_items_end(f, avail, p, (n - 1) as nat),
        }
    }
}

/// Where an Avro item at `pos` ends.
pub open spec fn avro_item_end(f: Seq<u8>, avail: int, pos: int) -> Option<int> {
    match vint_at(f, avail, pos, 10) {
        Some((v, k)) if v % 2 == 0 && pos + k + v / 2 <= avail => Some(pos + k + v / 2),
        _ => None,
    }
}

/// Where the metadata of an Avro container ends, behind the zero count that ends it. A
/// block has a count of up to a million, and so many keys and values; where the count
/// is negative, it has its size in bytes instead.
pub open spec fn avro_meta_end(f: Seq<u8>, avail: int, pos: int) -> Option<int>
    decreases avail - pos,
{
    proof {
        lemma_vint_width(f, avail, pos, 10, 0, 0);
        let (v, k) = vint_at(f, avail, pos, 10)->Some_0;
        lemma_avro_item(f, avail, pos + k);
        lemma_avro_items(f, avail, pos + k, v as nat);
    }
    match vint_at(f, avail, pos, 10) {
        None => None,
        Some((v, k)) => if v == 0 {
            Some(pos + k)
        } else if (v + 1) / 2 > 0x10_0000 {
            None
        } else {
            match if v % 2 == 1 {
                avro_item_end(f, avail, pos + k)
            } else {
                avro_items_end(f, avail, pos + k, v as nat)
            } {
                None => None,
                Some(p) => avro_meta_end(f, avail, p),
            }
        },
    }
}

/// An item ends past where it begins, in the room.
pub proof fn lemma_avro_item(f: Seq<u8>, avail: int, pos: int)
    ensures
        avro_item_end(f, avail, pos) matches Some(p) ==> pos < p <= avail,
{
    lemma_vint_width(f, avail, pos, 10, 0, 0);
}

/// Items do not end before they begin, and end in the room if they begin there.
pub proof fn lemma_avro_items(f: Seq<u8>, avail: int, pos: int, n: nat)
    ensures
        avro_items_end(f, avail, pos, n) matches Some(p) ==> pos <= p && (p <= avail || p == pos),
    decreases n,
{
    if n > 0 {
        lemma_avro_item(f, avail, pos);
        match avro_item_end(f, avail, pos) {
            Some(p) => lemma_avro_items(f, avail, p, (n - 1) as nat),
            None => {},
        }
    }
}

/// Where the data block of an Avro container at `pos` ends: a count, an item, and the
/// marker `sync`.
pub open spec fn avro_block_end(f: Seq<u8>, avail: int, sync: Seq<u8>, pos: int) -> Option<int> {
    match vint_at(f, avail, pos, 10) {
        None => None,
        Some((_, k)) => match avro_item_end(f, avail, pos + k) {
            Some(p) if p + 16 <= avail && f.subrange(p, p + 16) == sync => Some(p + 16),
            _ => None,
        },
    }
}

/// Where a run of data blocks ends that has reached `pos`.
pub open spec fn avro_blocks_end(f: Seq<u8>, avail: int, sync: Seq<u8>, pos: int) -> int
    decreases avail - pos,
{
    proof {
        lemma_vint_width(f, avail, pos, 10, 0, 0);
        lemma_avro_item(f, avail, pos + vint_at(f, avail, pos, 10)->Some_0.1);
    }
    match avro_block_end(f, avail, sync, pos) {
        None => pos,
        Some(p) => avro_blocks_end(f, avail, sync, p),
    }
}

/// The length of an Avro object container at the beginning of `f`: the metadata, a marker
/// of 16 bytes, and the data blocks, up to the last that ends with the marker.
pub open spec fn avro_len(f: Seq<u8>, avail: int) -> Option<int> {
    if f.len() < 4 || !text_at(f.subrange(0, 4), 0, "Obj\x01"@) {
        None
    } else {
        match avro_meta_end(f, avail, 4) {
            Some(p) if p + 16 <= avail => Some(
                avro_blocks_end(f, avail, f.subrange(p, p + 16), p + 16),
            ),
            _ => None,
        }
    }
}

/// Pass an Avro item.
fn avro_skip(source: &Source, file_start: u64, limit: u64, pos: u64) -> (r: Length)
    requires
        source.spans(file_start, limit),
    ensures
        match r {
            Ok(Some(p)) => avro_item_end(
                source.tail(file_start as int),
                limit - file_start,
                pos as int,
            ) == Some(p as int) && pos < p <= limit - file_start,
            Ok(None) => avro_item_end(
                source.tail(file_start as int),
                limit - file_start,
                pos as int,
            ) is None,
            Err(e) => source.blames(file_start, limit - file_start, e),
        },
        r is Err <==> vint_fails(
            *source,
            file_start as int,
            limit - file_start,
            pos as int,
            10,
            0,
        ),
{
    let avail: u64 = limit - file_start;
    let (v, k) = match read_base128(source, file_start, avail, pos, 10)? {
        Some(x) => x,
        None => return Ok(None),
    };
    if v % 2 != 0 {
        return Ok(None);
    }
    Ok(within((pos + k).saturating_add(v / 2), avail))
}

/// The length of one of the `n` Avro items at `pos` that are looked at could not be read.
pub open spec fn avro_items_fails(src: Source, start: int, avail: int, pos: int, n: nat) -> bool
    decreases n,
{
    n > 0 && (vint_fails(src, start, avail, pos, 10, 0) || match avro_item_end(src.tail(start), avail, pos) {
        None => false,
        Some(p) => avro_items_fails(src, start, avail, p, (n - 1) as nat),
    })
}

/// Pass `n` Avro items.
fn avro_skip_items(source: &Source, file_start: u64, limit: u64, first: u64, n: u64) -> (r: Length)
    requires
        source.spans(file_start, limit),
        first <= limit - file_start,
    ensures
        match r {
            Ok(Some(p)) => avro_items_end(
                source.tail(file_start as int),
                limit - file_start,
                first as int,
                n as nat,
            ) == Some(p as int) && first <= p <= limit - file_start,
            Ok(None) => avro_items_end(
                source.tail(file_start as int),
                limit - file_start,
                first as int,
                n as nat,
            ) is None,
            Err(e) => source.blames(file_start, limit - file_start, e),
        },
        r is Err <==> avro_items_fails(*source, file_start as int, limit - file_start, first as int, n as nat),
{
    let avail: u64 = limit - file_start;
    let ghost f = source.tail(file_start as int);
    let mut pos: u64 = first;
    let mut left: u64 = n;
    while left > 0
        invariant
            source.spans(file_start, limit),
            avail == limit - file_start,
            f == source.tail(file_start as int),
            first <= pos <= avail,
            avro_items_end(f, avail as int, first as int, n as nat) == avro_items_end(
                f,
                avail as int,
                pos as int,
                left as nat,
            ),
            avro_items_fails(*source, file_start as int, avail as int, first as int, n as nat) == avro_items_fails(*source, file_start as int, avail as int, pos as int, left as nat),
        decreases left,
    {
        pos = match avro_skip(source, file_start, limit, pos)? {
            Some(p) => p,
            None => return Ok(None),
        };
        left = left - 1;
    }
    Ok(Some(pos))
}

/// One of the integers of the Avro metadata that are looked at from `pos` on could not be read.
pub open spec fn avro_meta_fails(src: Source, start: int, avail: int, pos: int) -> bool
    decreases avail - pos,
{
    let f = src.tail(start);
    proof {
        lemma_vint_width(f, avail, pos, 10, 0, 0);
        let (v, k) = vint_at(f, avail, pos, 10)->Some_0;
        lemma_avro_item(f, avail, pos + k);
        lemma_avro_items(f, avail, pos + k, v as nat);
    }
    vint_fails(src, start, avail, pos, 10, 0) || match vint_at(f, avail, pos, 10) {
        None => false,
        Some((v, k)) => v != 0 && (v + 1) / 2 <= 0x10_0000 && if v % 2 == 1 {
            vint_fails(src, start, avail, pos + k, 10, 0) || match avro_item_end(f, avail, pos + k) {
                None => false,
                Some(p) => avro_meta_fails(src, start, avail, p),
            }
        } else {
            avro_items_fails(src, start, avail, pos + k, v as nat) || match avro_items_end(
                f,
                avail,
                pos + k,
                v as nat,
            ) {
                None => false,
                Some(p) => avro_meta_fails(src, start, avail, p),
            }
        },
    }
}

/// Pass the metadata of an Avro container.
fn avro_skip_meta(source: &Source, file_start: u64, limit: u64) -> (r: Length)
    requires
        source.spans(file_start, limit),
    ensures
        match r {
            Ok(Some(p)) => avro_meta_end(source.tail(file_start as int), limit - file_start, 4)
                == Some(p as int) && 4 < p <= limit - file_start,
            Ok(None) => avro_meta_end(
                source.tail(file_start as int),
                limit - file_start,
                4,
            ) is None,
            Err(e) => source.blames(file_start, limit - file_start, e),
        },
        r is Err <==> avro_meta_fails(*source, file_start as int, limit - file_start, 4),
{
    let avail: u64 = limit - file_start;
    let ghost f = source.tail(file_start as int);
    let mut pos: u64 = 4;
    loop
        invariant
            source.spans(file_start, limit),
            avail == limit - file_start,
            f == source.tail(file_start as int),
            4 <= pos,
            pos <= avail || pos == 4,
            avro_meta_end(f, avail as int, 4) == avro_meta_end(f, avail as int, pos as int),
            avro_meta_fails(*source, file_start as int, avail as int, 4) == avro_meta_fails(*source, file_start as int, avail as int, pos as int),
        decreases avail + 4 - pos,
    {
        let (v, k) = match read_base128(source, file_start, avail, pos, 10)? {
            Some(x) => x,
            None => return Ok(None),
        };
        if v == 0 {
            return Ok(Some(pos + k));
        }
        if v / 2 + v % 2 > 0x10_0000 {
            return Ok(None);
        }
        let next = if v % 2 == 1 {
            avro_skip(source, file_start, limit, pos + k)?
        } else {
            avro_skip_items(source, file_start, limit, pos + k, v)?
        };
        pos = match next {
            Some(p) => p,
            None => return Ok(None),
        };
    }
}

/// One of the parts of the Avro blocks that are looked at from `pos` on could not be read.
pub open spec fn avro_blocks_fails(src: Source, start: int, avail: int, sync: Seq<u8>, pos: int) -> bool
    decreases avail - pos,
{
    let f = src.tail(start);
    proof {
        lemma_vint_width(f, avail, pos, 10, 0, 0);
        lemma_avro_item(f, avail, pos + vint_at(f, avail, pos, 10)->Some_0.1);
    }
    vint_fails(src, start, avail, pos, 10, 0) || match vint_at(f, avail, pos, 10) {
        None => false,
        Some((_, k)) => vint_fails(src, start, avail, pos + k, 10, 0) || match avro_item_end(
            f,
            avail,
            pos + k,
        ) {
            None => false,
            Some(p) => p + 16 <= avail && (src.faulty(start + p, 16) || (f.subrange(p, p + 16) == sync
                && avro_blocks_fails(src, start, avail, sync, p + 16))),
        },
    }
}

/// One of the bytes of an Avro file that are looked at could not be read.
pub open spec fn avro_fails(src: Source, start: int, avail: int) -> bool {
    let f = src.tail(start);
    src.faulty(start, 4) || (f.len() >= 4 && text_at(f.subrange(0, 4), 0, "Obj\x01"@) && (avro_meta_fails(
        src,
        start,
        avail,
        4,
    ) || match avro_meta_end(f, avail, 4) {
        None => false,
        Some(p) => p + 16 <= avail && (src.faulty(start + p, 16) || avro_blocks_fails(
            src,
            start,
            avail,
            f.subrange(p, p + 16),
            p + 16,
        )),
    }))
}

/// Apache Avro object container (`.avro`) length.
pub fn avro_length(source: &Source, file_start: u64, limit: u64) -> (r: Length)
    requires
        source.spans(file_start, limit),
    ensures
        source.sizes(
            file_start,
            r,
            avro_len(source.tail(file_start as int), limit - file_start),
            limit - file_start,
        ),
        r is Err <==> avro_fails(*source, file_start as int, limit - file_start),
{
    let avail: u64 = limit - file_start;
    let ghost f = source.tail(file_start as int);
    let m = match source.part(file_start, 0, 4)? {
        Some(m) => m,
        None => return Ok(None),
    };
    if !is_text(&m, 0, "Obj\x01") {
        return Ok(None);
    }
    let p: u64 = match avro_skip_meta(source, file_start, limit)? {
        Some(p) => p,
        None => return Ok(None),
    };
    if p + 16 > avail {
        return Ok(None);
    }
    let sync = match source.part(file_start, p, 16)? {
        Some(sync) => sync,
        None => return Ok(None),
    };
    let mut pos: u64 = p + 16;
    loop
        invariant
            source.spans(file_start, limit),
            avail == limit - file_start,
            f == source.tail(file_start as int),
            16 < pos <= avail,
            sync@.len() == 16,
            avro_len(f, avail as int) == Some(
                avro_blocks_end(f, avail as int, sync@, pos as int),
            ),
            avro_fails(*source, file_start as int, avail as int) == avro_blocks_fails(
                *source,
                file_start as int,
                avail as int,
                sync@,
                pos as int,
            ),
        decreases avail - pos,
    {
        let k: u64 = match read_base128(source, file_start, avail, pos, 10)? {
            Some(x) => x.1,
            None => return Ok(Some(pos)),  // no more objects
        };
        let q: u64 = match avro_skip(source, file_start, limit, pos + k)? {
            Some(q) => q,
            None => return Ok(Some(pos)),
        };
        if q + 16 > avail {
            return Ok(Some(pos));
        }
        let mark = match source.part(file_start, q, 16)? {
            Some(m) => m,
            None => return Ok(Some(pos)),
        };
        let same = is_bytes(&mark, 0, &sync);
        assert(mark@.subrange(0, 16) =~= mark@);
        if !same {
            return Ok(Some(pos));
        }
        pos = q + 16;
    }
}

/// The furthest end of the sections of a USD crate from section `i` on, of `n`, in the table
/// at `toc`, which has to lie in the room; `end` is the furthest end before.
pub open spec fn usdc_sections(
    f: Seq<u8>,
    avail: int,
    toc: int,
    n: int,
    i: int,
    end: int,
) -> Option<int>
    decreases n - i,
{
    let at = toc + 8 + i * 32;
    let e = f.subrange(at, at + 32);
    if i >= n {
        Some(end)
    } else if at + 32 > avail {
        None
    } else {
        usdc_sections(f, avail, toc, n, i + 1, larger(end, capped(le64(e, 16) + le64(e, 24))))
    }
}

/// The length of a USD crate at the beginning of `f`: up to the furthest end of its table of
/// contents, with 1 to 4096 sections, and of those.
pub open spec fn usdc_len(f: Seq<u8>, avail: int) -> Option<int> {
    let h = f.subrange(0, 0x18);
    let toc = le64(h, 0x10) as int;
    let n = le64(f.subrange(toc, toc + 8), 0) as int;
    if f.len() < 0x18 || !text_at(h, 0, "PXR-USDC"@) || toc < 0x20 || toc + 8 > avail || n == 0 || n
        > 4096 {
        None
    } else {
        match usdc_sections(f, avail, toc, n, 0, toc + 8 + n * 32) {
            None => None,
            Some(end) => fit(end, avail),
        }
    }
}

/// One of the sections of the table at `toc` of a USD crate file, from section `i` on, of `n`, as far as they are
/// looked at, could not be read.
pub open spec fn usdc_sections_fails(src: Source, start: int, avail: int, toc: int, n: int, i: int) -> bool
    decreases n - i,
{
    let at = toc + 8 + i * 32;
    i < n && at + 32 <= avail && (src.faulty(start + at, 32) || usdc_sections_fails(
        src,
        start,
        avail,
        toc,
        n,
        i + 1,
    ))
}

/// One of the bytes of a USD crate file that are looked at could not be read.
pub open spec fn usdc_fails(src: Source, start: int, avail: int) -> bool {
    let f = src.tail(start);
    let h = f.subrange(0, 0x18);
    let toc = le64(h, 0x10) as int;
    let n = le64(f.subrange(toc, toc + 8), 0) as int;
    src.faulty(start, 24) || (f.len() >= 0x18 && text_at(h, 0, "PXR-USDC"@) && toc >= 0x20 && toc + 8
        <= avail && (src.faulty(start + toc, 8) || (0 < n <= 4096 && usdc_sections_fails(
        src,
        start,
        avail,
        toc,
        n,
        0,
    ))))
}

/// USD crate scene (`.usdc`) length.
pub fn usdc_length(source: &Source, file_start: u64, limit: u64) -> (r: Length)
    requires
        source.spans(file_start, limit),
    ensures
        source.sizes(
            file_start,
            r,
            usdc_len(source.tail(file_start as int), limit - file_start),
            limit - file_start,
        ),
        r is Err <==> usdc_fails(*source, file_start as int, limit - file_start),
{
    let avail: u64 = limit - file_start;
    let ghost f = source.tail(file_start as int);
    let h = match source.part(file_start, 0, 24)? {
        Some(h) => h,
        None => return Ok(None),
    };
    let toc: u64 = rd_le64(&h, 0x10);
    if !is_text(&h, 0, "PXR-USDC") || toc < 0x20 || toc.saturating_add(8) > avail {
        return Ok(None);
    }
    let c = match source.part(file_start, toc, 8)? {
        Some(c) => c,
        None => return Ok(None),
    };
    let n: u64 = rd_le64(&c, 0);
    if n == 0 || n > 4096 {
        return Ok(None);
    }
    let mut end: u64 = toc + 8 + n * 32;
    let mut i: u64 = 0;
    while i < n
        invariant
            source.spans(file_start, limit),
            avail == limit - file_start,
            f == source.tail(file_start as int),
            i <= n <= 4096,
            toc + 8 <= avail,
            0 < end,
            usdc_len(f, avail as int) == match usdc_sections(
                f,
                avail as int,
                toc as int,
                n as int,
                0,
                toc + 8 + n * 32,
            ) {
                None => None,
                Some(end) => fit(end, avail as int),
            },
            usdc_sections(f, avail as int, toc as int, n as int, 0, toc + 8 + n * 32)
                == usdc_sections(f, avail as int, toc as int, n as int, i as int, end as int),
            usdc_fails(*source, file_start as int, avail as int) == usdc_sections_fails(
                *source,
                file_start as int,
                avail as int,
                toc as int,
                n as int,
                i as int,
            ),
        decreases n - i,
    {
        let at: u64 = toc + 8 + i * 32;
        if at + 32 > avail {
            return Ok(None);
        }
        let e = match source.part(file_start, at, 32)? {
            Some(e) => e,
            None => return Ok(None),
        };
        end = max_u64(end, rd_le64(&e, 16).saturating_add(rd_le64(&e, 24)));
        i = i + 1;
    }
    Ok(within(end, avail))
}

/// The product of the first `n` dimensions of a NIfTI volume, each from 1 to 32767, as far
/// as 64 bits hold it.
pub open spec fn nifti_voxels(h: Seq<u8>, n: nat) -> Option<int>
    decreases n,
{
    if n == 0 {
        Some(1)
    } else {
        let d = le16(h, (40 + 2 * n) as int);
        match nifti_voxels(h, (n - 1) as nat) {
            Some(v) if 1 <= d <= 32767 => Some(capped(v * d)),
            _ => None,
        }
    }
}

/// The whole part of the binary floating-point number (of 32 bits: a sign, 8 bits of
/// exponent and 23 of fraction) with the bits `x`, where the number is from 348 to 2^30.
pub open spec fn nifti_offset(x: u32) -> Option<int> {
    let exponent = x / 0x80_0000;
    let fraction = 0x80_0000 + x % 0x80_0000;
    if exponent < 135 || exponent > 157 || (exponent == 157 && fraction != 0x80_0000) {
        None
    } else {
        let whole = if exponent <= 150 {
            fraction / (pow2((150 - exponent) as nat) as int)
        } else {
            fraction * (pow2((exponent - 150) as nat) as int)
        };
        if whole < 348 {
            None
        } else {
            Some(whole)
        }
    }
}

/// The length of a NIfTI volume at the beginning of `f`: the data, of up to 7 dimensions and
/// of whole bytes, at the place that the header gives.
pub open spec fn nifti_len(f: Seq<u8>, avail: int) -> Option<int> {
    let h = f.subrange(0, 352);
    let bits = le16(h, 72);
    if f.len() < 352 || le32(h, 0) != 348 || !text_at(h, 344, "n+1\0"@) || !(1 <= le16(h, 40) <= 7)
        || bits == 0 || bits % 8 != 0 || bits > 256 {
        None
    } else {
        match (nifti_voxels(h, le16(h, 40) as nat), nifti_offset(le32(h, 108))) {
            (Some(v), Some(at)) => fit(at + v * (bits / 8), avail),
            _ => None,
        }
    }
}

/// The number of voxels in a NIfTI volume.
fn nifti_count(h: &[u8], n: usize) -> (r: Option<u64>)
    requires
        h.len() == 352,
        n <= 7,
    ensures
        match r {
            Some(v) => nifti_voxels(h@, n as nat) == Some(v as int),
            None => nifti_voxels(h@, n as nat) is None,
        },
{
    let mut v: u64 = 1;
    let mut i: usize = 0;
    while i < n
        invariant
            h.len() == 352,
            i <= n <= 7,
            nifti_voxels(h@, i as nat) == Some(v as int),
        decreases n - i,
    {
        let d: u64 = rd_le16(h, 42 + 2 * i) as u64;
        if d < 1 || d > 32767 {
            proof {
                lemma_nifti_none(h@, (i + 1) as nat, n as nat);
            }
            return None;
        }
        v = mul_capped(v, d);
        i = i + 1;
    }
    Some(v)
}

/// A dimension that is out of range spoils the volume.
proof fn lemma_nifti_none(h: Seq<u8>, i: nat, n: nat)
    requires
        i <= n,
        nifti_voxels(h, i) is None,
    ensures
        nifti_voxels(h, n) is None,
    decreases n - i,
{
    if i < n {
        lemma_nifti_none(h, i + 1, n);
    }
}

/// The data offset of a NIfTI volume.
fn nifti_vox_offset(x: u32) -> (r: Option<u64>)
    ensures
        match r {
            Some(n) => nifti_offset(x) == Some(n as int) && 348 <= n <= 0x4000_0000,
            None => nifti_offset(x) is None,
        },
{
    let exponent: u32 = x / 0x80_0000;
    let fraction: u64 = 0x80_0000 + (x % 0x80_0000) as u64;
    if exponent < 135 || exponent > 157 || exponent == 157 && fraction != 0x80_0000 {
        return None;
    }
    proof {
        vstd::arithmetic::power2::lemma2_to64();
    }
    let whole: u64 = if exponent <= 150 {
        let p: u64 = pow2_u64(150 - exponent);
        assert(fraction as int / p as int <= fraction) by (nonlinear_arith)
            requires
                p >= 1,
                fraction >= 0,
        ;
        fraction / p
    } else {
        let p: u64 = pow2_u64(exponent - 150);
        assert(fraction * p <= 0x4000_0000) by (nonlinear_arith)
            requires
                p <= 64 && fraction < 0x100_0000 || p == 128 && fraction == 0x80_0000,
        ;
        fraction * p
    };
    if whole < 348 {
        return None;
    }
    Some(whole)
}

/// NIfTI-1 neuroimaging volume (`.nii`) length. Big-endian volumes, whose header size reads
/// wrong here, are skipped.
pub fn nifti_length(source: &Source, file_start: u64, limit: u64) -> (r: Length)
    requires
        source.spans(file_start, limit),
    ensures
        source.sizes(
            file_start,
            r,
            nifti_len(source.tail(file_start as int), limit - file_start),
            limit - file_start,
        ),
        r is Err <==> source.faulty(file_start as int, 352),
{
    let h = match source.part(file_start, 0, 352)? {
        Some(h) => h,
        None => return Ok(None),
    };
    let dims: u16 = rd_le16(&h, 40);
    let bits: u16 = rd_le16(&h, 72);
    if rd_le32(&h, 0) != 348 || !is_text(&h, 344, "n+1\0") || !(1 <= dims && dims <= 7) || bits == 0
        || bits % 8 != 0 || bits > 256 {
        return Ok(None);
    }
    let voxels: u64 = match nifti_count(&h, dims as usize) {
        Some(v) => v,
        None => return Ok(None),
    };
    let at: u64 = match nifti_vox_offset(rd_le32(&h, 108)) {
        Some(n) => n,
        None => return Ok(None),
    };
    let total: u128 = at as u128 + mul_wide(voxels, (bits / 8) as u64);
    assert(voxels * (bits / 8) >= 0) by (nonlinear_arith);
    if total > (limit - file_start) as u128 {
        return Ok(None);
    }
    Ok(Some(total as u64))
}

/// The length of an E57 point cloud at the beginning of `f`: what its 48-byte header gives.
pub open spec fn e57_len(f: Seq<u8>, avail: int) -> Option<int> {
    let h = f.subrange(0, 0x18);
    if f.len() < 0x18 || !text_at(h, 0, "ASTM-E57"@) || le64(h, 0x10) < 0x30 {
        None
    } else {
        fit(le64(h, 0x10) as int, avail)
    }
}

/// E57 point cloud (`.e57`) length.
pub fn e57_length(source: &Source, file_start: u64, limit: u64) -> (r: Length)
    requires
        source.spans(file_start, limit),
    ensures
        source.sizes(
            file_start,
            r,
            e57_len(source.tail(file_start as int), limit - file_start),
            limit - file_start,
        ),
        r is Err <==> source.faulty(file_start as int, 24),
{
    let h = match source.part(file_start, 0, 24)? {
        Some(h) => h,
        None => return Ok(None),
    };
    let total: u64 = rd_le64(&h, 0x10);
    if !is_text(&h, 0, "ASTM-E57") || total < 0x30 {
        return Ok(None);
    }
    Ok(within(total, limit - file_start))
}

/// The number of points in a LAS point cloud: in 64 bits from version 1.4 on, which may have
/// no records behind the points.
pub open spec fn las_points(h: Seq<u8>) -> Option<int> {
    if h[0x19] < 4 {
        Some(le32(h, 0x6B) as int)
    } else if h.len() < 0x107 || le32(h, 0xFB) != 0 {
        None
    } else {
        Some(le64(h, 0xFF) as int)
    }
}

/// The length of a LAS point cloud at the beginning of `f`, of version 1.0 to 1.4: its points,
/// of 1 to 1024 bytes each, at the place that the header gives. Compressed formats and
/// those with waveforms are left out.
pub open spec fn las_len(f: Seq<u8>, avail: int) -> Option<int> {
    let h = window(f, 0, 0x110);
    let format = h[0x68];
    if h.len() < 0x6F || !text_at(h, 0, "LASF"@) || h[0x18] != 1 || h[0x19] > 4 || format == 4
        || format == 5 || format >= 9 || !(0x5E <= le16(h, 0x5E) <= 0x400) || le32(h, 0x60) < le16(
        h,
        0x5E,
    ) || !(1 <= le16(h, 0x69) <= 1024) {
        None
    } else {
        match las_points(h) {
            Some(n) if n > 0 => fit(le32(h, 0x60) + n * le16(h, 0x69), avail),
            _ => None,
        }
    }
}

/// LAS point cloud (`.las`) length.
pub fn las_length(source: &Source, file_start: u64, limit: u64) -> (r: Length)
    requires
        source.spans(file_start, limit),
    ensures
        source.sizes(
            file_start,
            r,
            las_len(source.tail(file_start as int), limit - file_start),
            limit - file_start,
        ),
        r is Err <==> source.faulty(file_start as int, 0x110),
{
    let h = source.part_upto(file_start, 0, 0x110)?;
    if h.len() < 0x6F || !is_text(&h, 0, "LASF") || h[0x18] != 1 || h[0x19] > 4 {
        return Ok(None);
    }
    let format: u8 = h[0x68];
    let header: u64 = rd_le16(&h, 0x5E) as u64;
    let at: u64 = rd_le32(&h, 0x60) as u64;
    let record: u64 = rd_le16(&h, 0x69) as u64;
    if format == 4 || format == 5 || format >= 9 || !(0x5E <= header && header <= 0x400) || at
        < header || !(1 <= record && record <= 1024) {
        return Ok(None);
    }
    let count: u64 = if h[0x19] < 4 {
        rd_le32(&h, 0x6B) as u64
    } else {
        if h.len() < 0x107 || rd_le32(&h, 0xFB) != 0 {
            return Ok(None);
        }
        rd_le64(&h, 0xFF)
    };
    if count == 0 {
        return Ok(None);
    }
    let total: u128 = at as u128 + mul_wide(count, record);
    assert(count * record > 0) by (nonlinear_arith)
        requires
            count > 0,
            record > 0,
    ;
    if total > (limit - file_start) as u128 {
        return Ok(None);
    }
    Ok(Some(total as u64))
}

/// The length of a systemd journal at the beginning of `f`: the header, of a sane size, and
/// the arena, which is not empty.
pub open spec fn journal_len(f: Seq<u8>, avail: int) -> Option<int> {
    let h = f.subrange(0, 0x68);
    if f.len() < 0x68 || !text_at(h, 0, "LPKSHHRH"@) || !(0xD0 <= le64(h, 0x58) <= 0x1_0000) || le64(
        h,
        0x60,
    ) == 0 {
        None
    } else {
        fit(le64(h, 0x58) + le64(h, 0x60), avail)
    }
}

/// systemd journal (`.journal`) length.
pub fn journal_length(source: &Source, file_start: u64, limit: u64) -> (r: Length)
    requires
        source.spans(file_start, limit),
    ensures
        source.sizes(
            file_start,
            r,
            journal_len(source.tail(file_start as int), limit - file_start),
            limit - file_start,
        ),
        r is Err <==> source.faulty(file_start as int, 104),
{
    let h = match source.part(file_start, 0, 104)? {
        Some(h) => h,
        None => return Ok(None),
    };
    let header: u64 = rd_le64(&h, 0x58);
    let arena: u64 = rd_le64(&h, 0x60);
    if !is_text(&h, 0, "LPKSHHRH") || !(0xD0 <= header && header <= 0x1_0000) || arena == 0 {
        return Ok(None);
    }
    Ok(within(header.saturating_add(arena), limit - file_start))
}

/// The length of an ESRI shapefile at the beginning of `f`: what its header gives in 16-bit
/// words, which covers the 100 bytes of it.
pub open spec fn shp_len(f: Seq<u8>, avail: int) -> Option<int> {
    let h = f.subrange(0, 32);
    if f.len() < 32 || be32(h, 0) != 9994 || le32(h, 28) != 1000 || be32(h, 24) < 50 {
        None
    } else {
        fit(be32(h, 24) * 2, avail)
    }
}

/// ESRI Shapefile (`.shp`/`.shx`) length.
pub fn shp_length(source: &Source, file_start: u64, limit: u64) -> (r: Length)
    requires
        source.spans(file_start, limit),
    ensures
        source.sizes(
            file_start,
            r,
            shp_len(source.tail(file_start as int), limit - file_start),
            limit - file_start,
        ),
        r is Err <==> source.faulty(file_start as int, 32),
{
    let h = match source.part(file_start, 0, 32)? {
        Some(h) => h,
        None => return Ok(None),
    };
    let words: u64 = rd_be32(&h, 24) as u64;
    if rd_be32(&h, 0) != 9994 || rd_le32(&h, 28) != 1000 || words < 50 {
        return Ok(None);
    }
    Ok(within(words * 2, limit - file_start))
}

/// The number of bytes in the header of a Blender file's block, with pointers of 8 bytes where
/// they are `wide`, and of 4 where not.
pub open spec fn blend_head(wide: bool) -> int {
    if wide {
        24
    } else {
        20
    }
}

/// The length of a Blender file from the block at `pos` on: up to the end of the block `ENDB`.
pub open spec fn blend_from(f: Seq<u8>, avail: int, be: bool, wide: bool, pos: int) -> Option<int>
    decreases avail - pos,
{
    let head = blend_head(wide);
    let h = f.subrange(pos, pos + head);
    let next = pos + head + ord32(h, 4, be);
    if pos + head > avail || next > avail {
        None
    } else if text_at(h, 0, "ENDB"@) {
        Some(next)
    } else {
        blend_from(f, avail, be, wide, next)
    }
}

/// The length of a Blender file at the beginning of `f`. Its header tells the size of
/// pointers, 4 (`_`) or 8 (`-`), and the byte order, little (`v`) or big (`V`).
pub open spec fn blend_len(f: Seq<u8>, avail: int) -> Option<int> {
    let h = f.subrange(0, 12);
    if f.len() < 12 || !text_at(h, 0, "BLENDER"@) || !(h[7] == 0x5F || h[7] == 0x2D) || !(h[8] == 0x76
        || h[8] == 0x56) {
        None
    } else {
        blend_from(
            f,
            avail,
            h[8] == 0x56,
            h[7] == 0x2D,
            12,
        )
    }
}

/// One of the block headers of a Blender file that are looked at from `pos` on could not be read.
pub open spec fn blend_walk_fails(
    src: Source,
    start: int,
    avail: int,
    be: bool,
    wide: bool,
    pos: int,
) -> bool
    decreases avail - pos,
{
    let head = blend_head(wide);
    let h = src.tail(start).subrange(pos, pos + head);
    let next = pos + head + ord32(h, 4, be);
    pos + head <= avail && (src.faulty(start + pos, head) || (next <= avail && !text_at(h, 0, "ENDB"@)
        && blend_walk_fails(src, start, avail, be, wide, next)))
}

/// Walk the blocks of a Blender file.
fn blend_walk(source: &Source, file_start: u64, limit: u64, be: bool, wide: bool) -> (r: Length)
    requires
        source.spans(file_start, limit),
    ensures
        source.sizes(
            file_start,
            r,
            blend_from(source.tail(file_start as int), limit - file_start, be, wide, 12),
            limit - file_start,
        ),
        r is Err <==> blend_walk_fails(*source, file_start as int, limit - file_start, be, wide, 12),
{
    let avail: u64 = limit - file_start;
    let ghost f = source.tail(file_start as int);
    let head: u64 = if wide {
        24
    } else {
        20
    };
    let mut pos: u64 = 12;
    loop
        invariant
            source.spans(file_start, limit),
            avail == limit - file_start,
            f == source.tail(file_start as int),
            head == blend_head(wide),
            pos <= avail || pos == 12,
            pos >= 12,
            blend_from(f, avail as int, be, wide, 12) == blend_from(
                f,
                avail as int,
                be,
                wide,
                pos as int,
            ),
            blend_walk_fails(*source, file_start as int, avail as int, be, wide, 12) == blend_walk_fails(*source, file_start as int, avail as int, be, wide, pos as int),
        decreases avail + 12 - pos,
    {
        if pos + head > avail {
            return Ok(None);
        }
        let h = match source.part(file_start, pos, head as usize)? {
            Some(h) => h,
            None => return Ok(None),
        };
        let next: u64 = pos + head + rd_ord32(&h, 4, be) as u64;
        if next > avail {
            return Ok(None);
        }
        if is_text(&h, 0, "ENDB") {
            return Ok(Some(next));
        }
        pos = next;
    }
}

/// One of the bytes of a Blender file that are looked at could not be read.
pub open spec fn blend_fails(src: Source, start: int, avail: int) -> bool {
    let f = src.tail(start);
    let h = f.subrange(0, 12);
    src.faulty(start, 12) || (f.len() >= 12 && text_at(h, 0, "BLENDER"@) && (h[7] == 0x5F || h[7] == 0x2D) && (
    h[8] == 0x76 || h[8] == 0x56) && blend_walk_fails(
        src,
        start,
        avail,
        h[8] == 0x56,
        h[7] == 0x2D,
        12,
    ))
}

/// Blender (`.blend`) length.
pub fn blend_length(source: &Source, file_start: u64, limit: u64) -> (r: Length)
    requires
        source.spans(file_start, limit),
    ensures
        source.sizes(
            file_start,
            r,
            blend_len(source.tail(file_start as int), limit - file_start),
            limit - file_start,
        ),
        r is Err <==> blend_fails(*source, file_start as int, limit - file_start),
{
    let h = match source.part(file_start, 0, 12)? {
        Some(h) => h,
        None => return Ok(None),
    };
    if !is_text(&h, 0, "BLENDER") || !(h[7] == 0x5F || h[7] == 0x2D) || !(h[8] == 0x76 || h[8]
        == 0x56) {
        return Ok(None);
    }
    blend_walk(source, file_start, limit, h[8] == 0x56, h[7] == 0x2D)
}

/// The text of a NumPy header's field: what follows the key and a colon, without the white space
/// before it.
pub open spec fn npy_value(h: Seq<u8>, key: Seq<char>) -> Option<Seq<u8>> {
    match text_from(h, 0, key) {
        None => None,
        Some(i) => {
            let after = h.skip(i + key.len());
            match byte_at_or_after(after, 0, 0x3A) {
                None => None,
                Some(c) => {
                    let v = after.skip(c + 1);
                    Some(v.skip(skip_space(v, 0)))
                },
            }
        },
    }
}

/// What stands in `s` between a first byte `open` and the next byte `close`.
pub open spec fn npy_between(s: Seq<u8>, open: u8, close: u8) -> Option<Seq<u8>> {
    if s.len() == 0 || s[0] != open {
        None
    } else {
        match byte_at_or_after(s.skip(1), 0, close) {
            None => None,
            Some(e) => Some(s.skip(1).subrange(0, e)),
        }
    }
}

/// The bytes of an item of a NumPy type of a fixed size, numbers or byte strings: a mark for the byte
/// order may come first, then the kind, then the size, up to a MiB.
pub open spec fn npy_item(d: Seq<u8>) -> Option<int> {
    let i: int = if d.len() > 0 && (d[0] == 0x3C || d[0] == 0x3E || d[0] == 0x7C || d[0] == 0x3D) {
        1
    } else {
        0
    };
    if i >= d.len() || !(d[i] == 0x62 || d[i] == 0x69 || d[i] == 0x75 || d[i] == 0x66 || d[i] == 0x63
        || d[i] == 0x53) {
        None
    } else {
        match number_in(d.skip(i + 1), 10) {
            Some(n) if 1 <= n <= 0x10_0000 => Some(n),
            _ => None,
        }
    }
}

/// The product of the numbers in `s`, which commas part, from `i` on, times `count`; it has to fit in 64
/// bits on the way. Blank parts do not count.
pub open spec fn npy_product(s: Seq<u8>, i: int, count: int) -> Option<int>
    decreases s.len() + 1 - i,
{
    proof {
        lemma_byte_at(s, i, 0x2C);
    }
    let e = token_end(s, i, 0x2C);
    let t = s.subrange(i, e);
    if i > s.len() {
        Some(count)
    } else if blank(t) {
        npy_product(s, e + 1, count)
    } else {
        match padded_number_in(t, 10) {
            Some(v) if count * v <= u64::MAX => npy_product(s, e + 1, count * v),
            _ => None,
        }
    }
}

/// The bytes of an item of a NumPy array and the number of its items, by the text of its header.
pub open spec fn npy_layout(h: Seq<u8>) -> Option<(int, int)> {
    match (npy_value(h, "'descr'"@), npy_value(h, "'shape'"@)) {
        (Some(d), Some(s)) => match (npy_between(d, 0x27, 0x27), npy_between(s, 0x28, 0x29)) {
            (Some(d), Some(s)) => match (npy_item(d), npy_product(s, 0, 1)) {
                (Some(item), Some(count)) => Some((item, count)),
                _ => None,
            },
            _ => None,
        },
        _ => None,
    }
}

/// The length of a NumPy array at the beginning of `f`, of version 1 to 3: a preamble with the length of
/// the header, up to 64 KiB, the header, in UTF-8, and the items. The preamble reads as
/// zeros where the image ends in it.
pub open spec fn npy_len(f: Seq<u8>, avail: int) -> Option<int> {
    let p = padded(window(f, 0, 12), 12);
    let start: int = if p[6] == 1 {
        10
    } else {
        12
    };
    let n: int = if p[6] == 1 {
        le16(p, 8) as int
    } else {
        le32(p, 8) as int
    };
    let h = f.subrange(start, start + n);
    if f.len() < 10 || !text_at(p, 0, "\u{93}NUMPY"@) || !(1 <= p[6] <= 3) || n == 0 || n > 65536
        || start + n > f.len() || !valid_utf8(h) {
        None
    } else {
        match npy_layout(h) {
            None => None,
            Some((item, count)) => fit(start + n + item * count, avail),
        }
    }
}

/// The text of a NumPy header dict field: what follows `key:`.
pub fn npy_field<'a>(hdr: &'a [u8], key: &str) -> (r: Option<&'a [u8]>)
    ensures
        match r {
            Some(v) => npy_value(hdr@, key@) == Some(v@) && v.len() <= hdr.len(),
            None => npy_value(hdr@, key@) is None,
        },
{
    let i: usize = match find_text(hdr, key) {
        Some(i) => i,
        None => return None,
    };
    let after = &hdr[i + key.unicode_len()..hdr.len()];
    let c: usize = match find_byte(after, 0, 0x3A) {
        Some(c) => c,
        None => return None,
    };
    let v = &after[c + 1..after.len()];
    Some(&v[pass_space(v, 0)..v.len()])
}

/// What stands between a first byte `open` and the next byte `close`.
fn npy_quoted<'a>(s: &'a [u8], open: u8, close: u8) -> (r: Option<&'a [u8]>)
    ensures
        match r {
            Some(v) => npy_between(s@, open, close) == Some(v@) && v.len() <= s.len(),
            None => npy_between(s@, open, close) is None,
        },
{
    if s.len() == 0 || s[0] != open {
        return None;
    }
    let t = &s[1..s.len()];
    match find_byte(t, 0, close) {
        Some(e) => Some(&t[0..e]),
        None => None,
    }
}

/// Byte size of a NumPy `descr` string, if it is a fixed-size numeric or byte dtype (e.g. `<f8`, `|u1`,
/// `<c16`). Object, unicode, datetime, void, and structured dtypes return `None`.
pub fn npy_itemsize(descr: &[u8]) -> (r: Option<u64>)
    ensures
        match r {
            Some(n) => npy_item(descr@) == Some(n as int) && 1 <= n <= 0x10_0000,
            None => npy_item(descr@) is None,
        },
{
    if descr.len() == 0 {
        return None;
    }
    let i: usize = if descr[0] == 0x3C || descr[0] == 0x3E || descr[0] == 0x7C || descr[0] == 0x3D {
        1
    } else {
        0
    };
    if i >= descr.len() {
        return None;
    }
    let k: u8 = descr[i];
    if !(k == 0x62 || k == 0x69 || k == 0x75 || k == 0x66 || k == 0x63 || k == 0x53) {
        return None;
    }
    match parse_number(&descr[i + 1..descr.len()], 10) {
        Some(n) => if 1 <= n && n <= 0x10_0000 {
            Some(n)
        } else {
            None
        },
        None => None,
    }
}

/// The number of items of a NumPy array, by its shape.
fn npy_count(s: &[u8]) -> (r: Option<u64>)
    requires
        s.len() < usize::MAX,
    ensures
        match r {
            Some(n) => npy_product(s@, 0, 1) == Some(n as int),
            None => npy_product(s@, 0, 1) is None,
        },
{
    let mut count: u64 = 1;
    let mut i: usize = 0;
    while i <= s.len()
        invariant
            s.len() < usize::MAX,
            i <= s.len() + 1,
            npy_product(s@, 0, 1) == npy_product(s@, i as int, count as int),
        decreases s.len() + 1 - i,
    {
        let e: usize = match find_byte(s, i, 0x2C) {
            Some(e) => e,
            None => s.len(),
        };
        let t = &s[i..e];
        if pass_space(t, 0) != t.len() {
            let v: u64 = match parse_padded_number(t, 10) {
                Some(v) => v,
                None => return None,
            };
            let wide: u128 = mul_wide(count, v);
            if wide > u64::MAX as u128 {
                return None;
            }
            count = wide as u64;
        }
        i = e + 1;
    }
    Some(count)
}

/// Parse a NumPy header dict for its `descr` (dtype) and `shape`, returning the item byte size and the
/// total element count.
pub fn npy_descr_and_count(hdr: &[u8]) -> (r: Option<(u64, u64)>)
    requires
        hdr.len() < usize::MAX,
    ensures
        match r {
            Some(x) => npy_layout(hdr@) == Some((x.0 as int, x.1 as int)) && 1 <= x.0 <= 0x10_0000,
            None => npy_layout(hdr@) is None,
        },
{
    let d = match npy_field(hdr, "'descr'") {
        Some(v) => v,
        None => return None,
    };
    let s = match npy_field(hdr, "'shape'") {
        Some(v) => v,
        None => return None,
    };
    let d = match npy_quoted(d, 0x27, 0x27) {
        Some(v) => v,
        None => return None,
    };
    let s = match npy_quoted(s, 0x28, 0x29) {
        Some(v) => v,
        None => return None,
    };
    let item: u64 = match npy_itemsize(d) {
        Some(n) => n,
        None => return None,
    };
    match npy_count(s) {
        Some(count) => Some((item, count)),
        None => None,
    }
}

/// One of the bytes of a NumPy array file that are looked at could not be read.
pub open spec fn npy_fails(src: Source, start: int) -> bool {
    let f = src.tail(start);
    let p = padded(window(f, 0, 12), 12);
    let at: int = if p[6] == 1 {
        10
    } else {
        12
    };
    let n: int = if p[6] == 1 {
        le16(p, 8) as int
    } else {
        le32(p, 8) as int
    };
    src.faulty(start, 12) || (f.len() >= 10 && text_at(p, 0, "\u{93}NUMPY"@) && 1 <= p[6] <= 3 && 0 < n
        <= 65536 && src.faulty(start + at, n))
}

/// NumPy array (`.npy`) length. Only fixed-size numeric and byte dtypes are sized.
pub fn npy_length(source: &Source, file_start: u64, limit: u64) -> (r: Length)
    requires
        source.spans(file_start, limit),
    ensures
        source.sizes(
            file_start,
            r,
            npy_len(source.tail(file_start as int), limit - file_start),
            limit - file_start,
        ),
        r is Err <==> npy_fails(*source, file_start as int),
{
    let avail: u64 = limit - file_start;
    let ghost f = source.tail(file_start as int);
    let head = source.part_upto(file_start, 0, 12)?;
    if head.len() < 10 {
        return Ok(None);
    }
    let p = pad(head, 12);
    if !is_text(&p, 0, "\u{93}NUMPY") || !(1 <= p[6] && p[6] <= 3) {
        return Ok(None);
    }
    let start: u64 = if p[6] == 1 {
        10
    } else {
        12
    };
    let n: u64 = if p[6] == 1 {
        rd_le16(&p, 8) as u64
    } else {
        rd_le32(&p, 8) as u64
    };
    if n == 0 || n > 65536 {
        return Ok(None);
    }
    let h = match source.part(file_start, start, n as usize)? {
        Some(h) => h,
        None => return Ok(None),
    };
    if !is_utf8(&h) {
        return Ok(None);
    }
    let (item, count) = match npy_descr_and_count(&h) {
        Some(x) => x,
        None => return Ok(None),
    };
    let total: u128 = (start + n) as u128 + mul_wide(item, count);
    if total > avail as u128 {
        return Ok(None);
    }
    assert(item * count >= 0) by (nonlinear_arith);
    Ok(Some(total as u64))
}

} // verus!
