//! Integers and text in byte sequences.

use vstd::prelude::*;
use vstd::arithmetic::power2::{is_pow2, lemma_pow2_pos, pow2};
use vstd::string::*;

verus! {

/// The little-endian 16-bit integer at `i`.
pub open spec fn le16(s: Seq<u8>, i: int) -> u16 {
    (s[i] + s[i + 1] * 0x100) as u16
}

/// The big-endian 16-bit integer at `i`.
pub open spec fn be16(s: Seq<u8>, i: int) -> u16 {
    (s[i] * 0x100 + s[i + 1]) as u16
}

/// The little-endian 24-bit integer at `i`.
pub open spec fn le24(s: Seq<u8>, i: int) -> u32 {
    (s[i] + s[i + 1] * 0x100 + s[i + 2] * 0x1_0000) as u32
}

/// The big-endian 24-bit integer at `i`.
pub open spec fn be24(s: Seq<u8>, i: int) -> u32 {
    (s[i] * 0x1_0000 + s[i + 1] * 0x100 + s[i + 2]) as u32
}

/// The little-endian 32-bit integer at `i`.
pub open spec fn le32(s: Seq<u8>, i: int) -> u32 {
    (le16(s, i) + le16(s, i + 2) * 0x1_0000) as u32
}

/// The big-endian 32-bit integer at `i`.
pub open spec fn be32(s: Seq<u8>, i: int) -> u32 {
    (be16(s, i) * 0x1_0000 + be16(s, i + 2)) as u32
}

/// The little-endian 64-bit integer at `i`.
pub open spec fn le64(s: Seq<u8>, i: int) -> u64 {
    (le32(s, i) + le32(s, i + 4) * 0x1_0000_0000) as u64
}

/// The big-endian 64-bit integer at `i`.
pub open spec fn be64(s: Seq<u8>, i: int) -> u64 {
    (be32(s, i) * 0x1_0000_0000 + be32(s, i + 4)) as u64
}

/// The 16-bit integer at `i`, in the byte order that `be` says.
pub open spec fn ord16(s: Seq<u8>, i: int, be: bool) -> u16 {
    if be {
        be16(s, i)
    } else {
        le16(s, i)
    }
}

/// The 32-bit integer at `i`, in the byte order that `be` says.
pub open spec fn ord32(s: Seq<u8>, i: int, be: bool) -> u32 {
    if be {
        be32(s, i)
    } else {
        le32(s, i)
    }
}

/// The 64-bit integer at `i`, in the byte order that `be` says.
pub open spec fn ord64(s: Seq<u8>, i: int, be: bool) -> u64 {
    if be {
        be64(s, i)
    } else {
        le64(s, i)
    }
}

/// The bytes of `s` from `i` on begin with `t`, one byte per character.
pub open spec fn text_at(s: Seq<u8>, i: int, t: Seq<char>) -> bool {
    &&& i + t.len() <= s.len()
    &&& forall|k: int| 0 <= k < t.len() ==> s[i + k] == #[trigger] t[k] as u32
}

/// The bytes of `s` from `i` on begin with `t`.
pub open spec fn bytes_at(s: Seq<u8>, i: int, t: Seq<u8>) -> bool {
    &&& i + t.len() <= s.len()
    &&& s.subrange(i, i + t.len()) == t
}

pub fn rd_le16(h: &[u8], i: usize) -> (r: u16)
    requires
        i + 2 <= h.len(),
    ensures
        r == le16(h@, i as int),
{
    h[i] as u16 + h[i + 1] as u16 * 0x100
}

pub fn rd_be16(h: &[u8], i: usize) -> (r: u16)
    requires
        i + 2 <= h.len(),
    ensures
        r == be16(h@, i as int),
{
    h[i] as u16 * 0x100 + h[i + 1] as u16
}

pub fn rd_le24(h: &[u8], i: usize) -> (r: u32)
    requires
        i + 3 <= h.len(),
    ensures
        r == le24(h@, i as int),
        r < 0x100_0000,
{
    h[i] as u32 + h[i + 1] as u32 * 0x100 + h[i + 2] as u32 * 0x1_0000
}

pub fn rd_be24(h: &[u8], i: usize) -> (r: u32)
    requires
        i + 3 <= h.len(),
    ensures
        r == be24(h@, i as int),
        r < 0x100_0000,
{
    h[i] as u32 * 0x1_0000 + h[i + 1] as u32 * 0x100 + h[i + 2] as u32
}

pub fn rd_le32(h: &[u8], i: usize) -> (r: u32)
    requires
        i + 4 <= h.len(),
    ensures
        r == le32(h@, i as int),
{
    rd_le16(h, i) as u32 + rd_le16(h, i + 2) as u32 * 0x1_0000
}

pub fn rd_be32(h: &[u8], i: usize) -> (r: u32)
    requires
        i + 4 <= h.len(),
    ensures
        r == be32(h@, i as int),
{
    rd_be16(h, i) as u32 * 0x1_0000 + rd_be16(h, i + 2) as u32
}

pub fn rd_le64(h: &[u8], i: usize) -> (r: u64)
    requires
        i + 8 <= h.len(),
    ensures
        r == le64(h@, i as int),
{
    rd_le32(h, i) as u64 + rd_le32(h, i + 4) as u64 * 0x1_0000_0000
}

pub fn rd_be64(h: &[u8], i: usize) -> (r: u64)
    requires
        i + 8 <= h.len(),
    ensures
        r == be64(h@, i as int),
{
    rd_be32(h, i) as u64 * 0x1_0000_0000 + rd_be32(h, i + 4) as u64
}

pub fn rd_ord16(h: &[u8], i: usize, be: bool) -> (r: u16)
    requires
        i + 2 <= h.len(),
    ensures
        r == ord16(h@, i as int, be),
{
    if be {
        rd_be16(h, i)
    } else {
        rd_le16(h, i)
    }
}

pub fn rd_ord32(h: &[u8], i: usize, be: bool) -> (r: u32)
    requires
        i + 4 <= h.len(),
    ensures
        r == ord32(h@, i as int, be),
{
    if be {
        rd_be32(h, i)
    } else {
        rd_le32(h, i)
    }
}

pub fn rd_ord64(h: &[u8], i: usize, be: bool) -> (r: u64)
    requires
        i + 8 <= h.len(),
    ensures
        r == ord64(h@, i as int, be),
{
    if be {
        rd_be64(h, i)
    } else {
        rd_le64(h, i)
    }
}

/// The first `n` bytes of `s`, filled up with zeros.
pub open spec fn padded(s: Seq<u8>, n: int) -> Seq<u8> {
    Seq::new(
        n as nat,
        |i: int|
            if i < s.len() {
                s[i]
            } else {
                0
            },
    )
}

/// Fill up with zeros to `n` bytes.
pub fn pad(v: Vec<u8>, n: usize) -> (r: Vec<u8>)
    requires
        v@.len() <= n,
    ensures
        r@ == padded(v@, n as int),
{
    let mut r: Vec<u8> = v;
    while r.len() < n
        invariant
            v@.len() <= r@.len() <= n,
            r@ == padded(v@, r@.len() as int),
        decreases n - r@.len(),
    {
        r.push(0);
    }
    r
}

/// Whether the bytes of `h` from `i` on begin with the text `t`.
pub fn is_text(h: &[u8], i: usize, t: &str) -> (r: bool)
    ensures
        r == text_at(h@, i as int, t@),
{
    let n: usize = t.unicode_len();
    if i > h.len() || n > h.len() - i {
        return false;
    }
    let mut k: usize = 0;
    while k < n
        invariant
            k <= n,
            n == t@.len(),
            i + n <= h@.len() <= usize::MAX,
            forall|j: int| 0 <= j < k ==> h@[i + j] == #[trigger] t@[j] as u32,
        decreases n - k,
    {
        let c = t.get_char(k);
        if h[i + k] as u32 != c as u32 {
            assert(h@[i + k] != t@[k as int] as u32);
            return false;
        }
        k += 1;
    }
    true
}

/// Whether the bytes of `h` from `i` on begin with the bytes `t`.
pub fn is_bytes(h: &[u8], i: usize, t: &[u8]) -> (r: bool)
    ensures
        r == bytes_at(h@, i as int, t@),
{
    if i > h.len() || t.len() > h.len() - i {
        return false;
    }
    let mut k: usize = 0;
    while k < t.len()
        invariant
            k <= t@.len(),
            i + t@.len() <= h@.len() <= usize::MAX,
            forall|j: int| 0 <= j < k ==> h@[i + j] == #[trigger] t@[j],
        decreases t@.len() - k,
    {
        if h[i + k] != t[k] {
            assert(h@.subrange(i as int, i + t@.len())[k as int] != t@[k as int]);
            return false;
        }
        k += 1;
    }
    assert(h@.subrange(i as int, i + t@.len()) =~= t@);
    true
}

/// `total`, where a file of that many bytes has room in `avail`.
pub open spec fn fit(total: int, avail: int) -> Option<int> {
    if total <= avail {
        Some(total)
    } else {
        None
    }
}

/// `total`, where a file of that many bytes has room in `avail`.
pub fn within(total: u64, avail: u64) -> (r: Option<u64>)
    ensures
        match r {
            Some(n) => n == total && total <= avail,
            None => total > avail,
        },
{
    if total > avail {
        None
    } else {
        Some(total)
    }
}

/// The larger of two integers.
pub open spec fn larger(a: int, b: int) -> int {
    if a >= b {
        a
    } else {
        b
    }
}

/// The smaller of two integers.
pub open spec fn smaller(a: int, b: int) -> int {
    if a <= b {
        a
    } else {
        b
    }
}

/// A length as far as 64 bits hold it; a longer one is too long in any case.
pub open spec fn capped(n: int) -> int {
    smaller(n, u64::MAX as int)
}

/// The larger of two integers.
pub fn max_u64(a: u64, b: u64) -> (r: u64)
    ensures
        r == larger(a as int, b as int),
{
    if a >= b {
        a
    } else {
        b
    }
}

/// The smaller of two integers.
pub fn min_u64(a: u64, b: u64) -> (r: u64)
    ensures
        r == smaller(a as int, b as int),
{
    if a <= b {
        a
    } else {
        b
    }
}

/// Two to the power `k`.
pub fn pow2_u64(k: u32) -> (r: u64)
    requires
        k < 64,
    ensures
        r == pow2(k as nat),
        r > 0,
{
    proof {
        vstd::bits::lemma_u64_pow2_no_overflow(k as nat);
        vstd::bits::lemma_u64_shl_is_mul(1, k as u64);
        lemma_pow2_pos(k as nat);
    }
    1u64 << k
}

/// Where the text `t` first occurs in `s` from `i` on.
pub open spec fn text_from(s: Seq<u8>, i: int, t: Seq<char>) -> Option<int>
    decreases s.len() - i,
{
    if i >= s.len() {
        None
    } else if text_at(s, i, t) {
        Some(i)
    } else {
        text_from(s, i + 1, t)
    }
}

/// Where the text `t` first occurs in `h`.
pub fn find_text(h: &[u8], t: &str) -> (r: Option<usize>)
    ensures
        match r {
            Some(k) => text_from(h@, 0, t@) == Some(k as int) && k < h.len() && text_at(
                h@,
                k as int,
                t@,
            ),
            None => text_from(h@, 0, t@) is None,
        },
{
    let mut k: usize = 0;
    while k < h.len()
        invariant
            k <= h.len(),
            text_from(h@, 0, t@) == text_from(h@, k as int, t@),
        decreases h.len() - k,
    {
        if is_text(h, k, t) {
            return Some(k);
        }
        k = k + 1;
    }
    None
}

/// Where the first byte `b` of `s` from `i` on is.
pub open spec fn byte_at_or_after(s: Seq<u8>, i: int, b: u8) -> Option<int>
    decreases s.len() - i,
{
    if i >= s.len() {
        None
    } else if s[i] == b {
        Some(i)
    } else {
        byte_at_or_after(s, i + 1, b)
    }
}

/// Where the part of `s` that begins at `i` ends: at the next separator `b`, or at the end.
pub open spec fn token_end(s: Seq<u8>, i: int, b: u8) -> int {
    match byte_at_or_after(s, i, b) {
        Some(e) => e,
        None => s.len() as int,
    }
}

/// A byte that is found is where it was looked for.
pub proof fn lemma_byte_at(s: Seq<u8>, i: int, b: u8)
    ensures
        byte_at_or_after(s, i, b) matches Some(k) ==> i <= k < s.len() && s[k] == b,
    decreases s.len() - i,
{
    if i < s.len() && s[i] != b {
        lemma_byte_at(s, i + 1, b);
    }
}

/// Where the first byte `b` of `h` from `i` on is.
pub fn find_byte(h: &[u8], i: usize, b: u8) -> (r: Option<usize>)
    requires
        i <= h.len(),
    ensures
        match r {
            Some(k) => byte_at_or_after(h@, i as int, b) == Some(k as int) && i <= k < h.len()
                && h@[k as int] == b,
            None => byte_at_or_after(h@, i as int, b) is None,
        },
{
    let mut k: usize = i;
    while k < h.len()
        invariant
            i <= k <= h.len(),
            byte_at_or_after(h@, i as int, b) == byte_at_or_after(h@, k as int, b),
        decreases h.len() - k,
    {
        if h[k] == b {
            return Some(k);
        }
        k = k + 1;
    }
    None
}

/// `a` divided by `b`, rounded up.
pub open spec fn ceil(a: int, b: int) -> int {
    (a + b - 1) / b
}

/// `a` divided by `b`, rounded up.
pub fn ceil_div(a: u64, b: u64) -> (r: u64)
    requires
        b > 0,
    ensures
        r == ceil(a as int, b as int),
        r <= a,
        a > 0 ==> r > 0,
{
    let more: u64 = if a % b > 0 {
        1
    } else {
        0
    };
    proof {
        let x = a as int;
        let y = b as int;
        assert(0 <= x / y && x / y + more <= x && (x > 0 ==> x / y + more > 0) && (x + y - 1) / y == x
            / y + more) by (nonlinear_arith)
            requires
                x >= 0,
                y > 0,
                more == if x % y > 0 {
                    1int
                } else {
                    0
                },
        ;
    }
    a / b + more
}

/// The product of two integers, as far as 64 bits hold it.
pub fn mul_capped(a: u64, b: u64) -> (r: u64)
    ensures
        r == capped(a * b),
{
    let wide: u128 = mul_wide(a, b);
    if wide > u64::MAX as u128 {
        u64::MAX
    } else {
        wide as u64
    }
}

/// The next multiple of `to` from `n` on.
pub open spec fn rounded(n: int, to: int) -> int {
    (n + to - 1) / to * to
}

/// Round up to a multiple of `to`.
pub fn round_up(n: u64, to: u64) -> (r: u64)
    requires
        to > 0,
        n + to <= u64::MAX,
    ensures
        r == rounded(n as int, to as int),
        n <= r < n + to,
{
    proof {
        let x = n + to - 1;
        vstd::arithmetic::div_mod::lemma_fundamental_div_mod(x, to as int);
        vstd::arithmetic::div_mod::lemma_mod_bound(x, to as int);
        vstd::arithmetic::mul::lemma_mul_is_commutative(to as int, x / to as int);
    }
    (n + (to - 1)) / to * to
}

/// Whether `n` is a power of two.
pub fn power_of_two(n: u64) -> (r: bool)
    ensures
        r == is_pow2(n as int),
{
    proof {
        reveal(is_pow2);
    }
    if n == 0 {
        return false;
    }
    let mut m: u64 = n;
    while m % 2 == 0
        invariant
            m > 0,
            is_pow2(n as int) == is_pow2(m as int),
        decreases m,
    {
        proof {
            reveal(is_pow2);
        }
        m = m / 2;
    }
    m == 1
}

/// The product of two integers, without overflow.
pub fn mul_wide(a: u64, b: u64) -> (r: u128)
    ensures
        r == a * b,
        r <= 0xFFFF_FFFF_FFFF_FFFE_0000_0000_0000_0001,
{
    assert(a * b <= u64::MAX * u64::MAX) by (nonlinear_arith)
        requires
            a <= u64::MAX,
            b <= u64::MAX,
    ;
    a as u128 * b as u128
}

/// A bit of a byte, counted from the lowest.
pub open spec fn bit_at(b: u8, k: int) -> bool {
    b & (1u8 << (k as u8)) != 0
}

/// Whether a bit of a byte is set.
pub fn has_bit(b: u8, k: u8) -> (r: bool)
    requires
        k < 8,
    ensures
        r == bit_at(b, k as int),
{
    b & (1u8 << k) != 0
}

} // verus!
