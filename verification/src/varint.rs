//! Integers of variable length.

use crate::bytes::pow2_u64;
use crate::source::{ReadError, Source};
use vstd::arithmetic::power2::pow2;
use vstd::prelude::*;

verus! {

/// What a base-128 integer at `pos` of `f` comes to, low group first, with the
/// number of bytes it takes. Each byte but the last has its high bit set. It has
/// no more than `max` bytes and ends by `end`; of its value, 64 bits count.
pub open spec fn vint_at(f: Seq<u8>, end: int, pos: int, max: int) -> Option<(u64, int)> {
    vint_from(f, end, pos, max, 0, 0)
}

/// As `vint_at`, with `i` bytes read that came to `value`.
pub open spec fn vint_from(
    f: Seq<u8>,
    end: int,
    pos: int,
    max: int,
    i: int,
    value: u64,
) -> Option<(u64, int)>
    decreases max - i,
{
    if i >= max || pos + i >= end {
        None
    } else {
        let b = f[pos + i];
        let v = value | (((b % 128) as u64) << (7 * i) as u64);
        if b < 128 {
            Some((v, i + 1))
        } else {
            vint_from(f, end, pos, max, i + 1, v)
        }
    }
}

/// A base-128 integer has at least one byte.
pub proof fn lemma_vint_width(f: Seq<u8>, end: int, pos: int, max: int, i: int, value: u64)
    requires
        0 <= i,
    ensures
        vint_from(f, end, pos, max, i, value) matches Some(x) ==> i < x.1 <= max && pos + x.1 <= end,
    decreases max - i,
{
    if i < max && pos + i < end && f[pos + i] >= 128 {
        let b = f[pos + i];
        lemma_vint_width(
            f,
            end,
            pos,
            max,
            i + 1,
            value | (((b % 128) as u64) << (7 * i) as u64),
        );
    }
}

/// One of the bytes of the base-128 integer at `pos` that are looked at, of which `i` have been, could not be read.
pub open spec fn vint_fails(src: Source, start: int, end: int, pos: int, max: int, i: int) -> bool
    decreases max - i,
{
    i < max && pos + i < end && (src.faulty(start + pos + i, 1) || (src.tail(start)[pos + i] >= 128
        && vint_fails(src, start, end, pos, max, i + 1)))
}

/// Read a base-128 integer at `pos` of what follows `file_start`: the value, and
/// the number of bytes it takes.
pub fn read_base128(source: &Source, file_start: u64, end: u64, pos: u64, max: u64) -> (r: Result<
    Option<(u64, u64)>,
    ReadError,
>)
    requires
        source.wf(),
        file_start + end <= source@.len(),
        max <= 10,
    ensures
        match r {
            Ok(Some(x)) => vint_at(
                source.tail(file_start as int),
                end as int,
                pos as int,
                max as int,
            ) == Some((x.0, x.1 as int)) && 0 < x.1 <= max && pos + x.1 <= end,
            Ok(None) => vint_at(
                source.tail(file_start as int),
                end as int,
                pos as int,
                max as int,
            ) is None,
            Err(e) => file_start + pos <= e.offset < file_start + pos + max && e.offset < file_start + end
                && source.explains(e),
        },
        r is Err <==> vint_fails(
            *source,
            file_start as int,
            end as int,
            pos as int,
            max as int,
            0,
        ),
{
    let ghost f = source.tail(file_start as int);
    let mut value: u64 = 0;
    let mut i: u64 = 0;
    while i < max
        invariant
            source.wf(),
            file_start + end <= source@.len(),
            f == source.tail(file_start as int),
            i <= max <= 10,
            i > 0 ==> pos + i <= end,
            vint_at(f, end as int, pos as int, max as int) == vint_from(
                f,
                end as int,
                pos as int,
                max as int,
                i as int,
                value,
            ),
            vint_fails(*source, file_start as int, end as int, pos as int, max as int, 0) == vint_fails(
                *source,
                file_start as int,
                end as int,
                pos as int,
                max as int,
                i as int,
            ),
        decreases max - i,
    {
        if pos >= end || i >= end - pos {
            return Ok(None);
        }
        let b: u8 = match source.byte(file_start, pos + i)? {
            Some(b) => b,
            None => return Ok(None),
        };
        value = value | (((b % 128) as u64) << (7 * i));
        i = i + 1;
        if b < 128 {
            return Ok(Some((value, i)));
        }
    }
    Ok(None)
}

/// The integer that the bytes of `s` make up, most significant first.
pub open spec fn be_uint(s: Seq<u8>) -> int
    decreases s.len(),
{
    if s.len() == 0 {
        0
    } else {
        be_uint(s.drop_last()) * 256 + s.last()
    }
}

/// The integer that the bytes of `s` make up, least significant first.
pub open spec fn le_uint(s: Seq<u8>) -> int
    decreases s.len(),
{
    if s.len() == 0 {
        0
    } else {
        le_uint(s.drop_first()) * 256 + s.first()
    }
}

/// An integer made up of bytes is not negative.
pub proof fn lemma_be_uint_sign(s: Seq<u8>)
    ensures
        be_uint(s) >= 0,
    decreases s.len(),
{
    if s.len() > 0 {
        lemma_be_uint_sign(s.drop_last());
    }
}

/// 256 to the power `n`, for `n` up to 8.
spec fn p256(n: int) -> int {
    if n == 0 {
        1
    } else if n == 1 {
        0x100
    } else if n == 2 {
        0x1_0000
    } else if n == 3 {
        0x100_0000
    } else if n == 4 {
        0x1_0000_0000
    } else if n == 5 {
        0x100_0000_0000
    } else if n == 6 {
        0x1_0000_0000_0000
    } else if n == 7 {
        0x100_0000_0000_0000
    } else {
        0x1_0000_0000_0000_0000
    }
}

/// Read an unsigned little- or big-endian integer of up to 8 bytes.
pub fn read_uint(bytes: &[u8], big_endian: bool) -> (r: u64)
    requires
        bytes.len() <= 8,
    ensures
        big_endian ==> r == be_uint(bytes@),
        !big_endian ==> r == le_uint(bytes@),
{
    let n: usize = bytes.len();
    let mut v: u64 = 0;
    let mut i: usize = 0;
    if big_endian {
        assert(bytes@.subrange(0, 0) =~= Seq::empty());
        while i < n
            invariant
                i <= n <= 8,
                n == bytes@.len(),
                v == be_uint(bytes@.subrange(0, i as int)),
                v < p256(i as int),
            decreases n - i,
        {
            assert(bytes@.subrange(0, i + 1).drop_last() =~= bytes@.subrange(0, i as int));
            v = v * 256 + bytes[i] as u64;
            i = i + 1;
        }
        assert(bytes@.subrange(0, n as int) =~= bytes@);
    } else {
        assert(bytes@.subrange(n as int, n as int) =~= Seq::empty());
        while i < n
            invariant
                i <= n <= 8,
                n == bytes@.len(),
                v == le_uint(bytes@.subrange(n - i, n as int)),
                v < p256(i as int),
            decreases n - i,
        {
            assert(bytes@.subrange(n - i - 1, n as int).drop_first() =~= bytes@.subrange(
                n - i,
                n as int,
            ));
            v = v * 256 + bytes[n - 1 - i] as u64;
            i = i + 1;
        }
        assert(bytes@.subrange(0, n as int) =~= bytes@);
    }
    v
}

/// The number of bytes in an EBML integer that begins with `first`: one more than
/// the zero bits that lead it, of which there are less than 8.
pub open spec fn ebml_width(first: u8) -> int
    recommends
        first != 0,
{
    if first >= 0x80 {
        1
    } else if first >= 0x40 {
        2
    } else if first >= 0x20 {
        3
    } else if first >= 0x10 {
        4
    } else if first >= 0x08 {
        5
    } else if first >= 0x04 {
        6
    } else if first >= 0x02 {
        7
    } else {
        8
    }
}

/// The number of bytes in the EBML integer at `off`, where it ends by `avail`.
pub open spec fn ebml_width_at(f: Seq<u8>, avail: int, off: int) -> Option<int> {
    if off >= avail || f[off] == 0 || off + ebml_width(f[off]) > avail {
        None
    } else {
        Some(ebml_width(f[off]))
    }
}

/// What the EBML integer of `n` bytes at `off` comes to: 7 bits for each byte,
/// without the bit that marks its width.
pub open spec fn ebml_value(f: Seq<u8>, off: int, n: int) -> int {
    be_uint(f.subrange(off, off + n)) % (pow2((7 * n) as nat) as int)
}

/// The EBML integer of `n` bytes at `off` is all ones, which stands for an unknown
/// size.
pub open spec fn ebml_unknown(f: Seq<u8>, off: int, n: int) -> bool {
    ebml_value(f, off, n) == pow2((7 * n) as nat) - 1
}

/// The value of an EBML integer is not negative.
pub proof fn lemma_ebml_value(f: Seq<u8>, off: int, n: int)
    ensures
        ebml_value(f, off, n) >= 0,
{
    vstd::arithmetic::power2::lemma_pow2_pos((7 * n) as nat);
    vstd::arithmetic::div_mod::lemma_mod_bound(
        be_uint(f.subrange(off, off + n)),
        pow2((7 * n) as nat) as int,
    );
}

fn ebml_leading(first: u8) -> (r: u64)
    requires
        first != 0,
    ensures
        r == ebml_width(first),
        1 <= r <= 8,
{
    if first >= 0x80 {
        1
    } else if first >= 0x40 {
        2
    } else if first >= 0x20 {
        3
    } else if first >= 0x10 {
        4
    } else if first >= 0x08 {
        5
    } else if first >= 0x04 {
        6
    } else if first >= 0x02 {
        7
    } else {
        8
    }
}

/// Length of an EBML element ID at `off`, derived from its first byte.
pub fn ebml_id_len(source: &Source, base: u64, avail: u64, off: u64) -> (r: Result<
    Option<u64>,
    ReadError,
>)
    requires
        source.wf(),
        base + avail <= source@.len(),
    ensures
        match r {
            Ok(Some(n)) => ebml_width_at(source.tail(base as int), avail as int, off as int)
                == Some(n as int) && 1 <= n <= 8 && off + n <= avail,
            Ok(None) => ebml_width_at(source.tail(base as int), avail as int, off as int) is None,
            Err(e) => source.blames(base, avail as int, e),
        },
        r is Err <==> off < avail && source.faulty(base + off, 1),
{
    if off >= avail {
        return Ok(None);
    }
    let first: u8 = match source.byte(base, off)? {
        Some(b) => b,
        None => return Ok(None),
    };
    if first == 0 {
        return Ok(None);
    }
    let n: u64 = ebml_leading(first);
    if n > avail - off {
        return Ok(None);
    }
    Ok(Some(n))
}

/// One of the bytes of the EBML integer at `off` that are looked at could not be read.
pub open spec fn ebml_fails(src: Source, base: int, avail: int, off: int) -> bool {
    off < avail && (src.faulty(base + off, 1) || (ebml_width_at(src.tail(base), avail, off) matches Some(n)
        && src.faulty(base + off, n)))
}

/// Read an EBML variable-length integer at `off` (relative to `base`): the value,
/// the number of bytes, and whether it is the all-ones "unknown size".
pub fn ebml_vint(source: &Source, base: u64, avail: u64, off: u64) -> (r: Result<
    Option<(u64, u64, bool)>,
    ReadError,
>)
    requires
        source.wf(),
        base + avail <= source@.len(),
    ensures
        match r {
            Ok(Some(x)) => {
                let f = source.tail(base as int);
                &&& ebml_width_at(f, avail as int, off as int) == Some(x.1 as int)
                &&& 1 <= x.1 <= 8
                &&& off + x.1 <= avail
                &&& x.0 == ebml_value(f, off as int, x.1 as int)
                &&& x.2 == ebml_unknown(f, off as int, x.1 as int)
                &&& x.0 < 0x100_0000_0000_0000
            },
            Ok(None) => ebml_width_at(source.tail(base as int), avail as int, off as int) is None,
            Err(e) => source.blames(base, avail as int, e),
        },
        r is Err <==> ebml_fails(*source, base as int, avail as int, off as int),
{
    let n: u64 = match ebml_id_len(source, base, avail, off)? {
        Some(n) => n,
        None => return Ok(None),
    };
    let b = match source.part(base, off, n as usize)? {
        Some(b) => b,
        None => return Ok(None),
    };
    let span: u64 = pow2_u64(7 * n as u32);
    proof {
        vstd::arithmetic::power2::lemma2_to64();
        vstd::arithmetic::power2::lemma2_to64_rest();
    }
    let value: u64 = read_uint(&b, true) % span;
    Ok(Some((value, n, value == span - 1)))
}

} // verus!
