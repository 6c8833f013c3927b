//! Numbers written out as text in byte fields.

use crate::bytes::mul_wide;
use vstd::prelude::*;

verus! {

/// What a digit stands for, up to base 16; `None` for what is no digit in `radix`.
pub open spec fn digit(b: u8, radix: int) -> Option<int> {
    let d: int = if 0x30 <= b <= 0x39 {
        b - 0x30
    } else if 0x41 <= b <= 0x46 {
        b - 0x41 + 10
    } else if 0x61 <= b <= 0x66 {
        b - 0x61 + 10
    } else {
        16
    };
    if d < radix {
        Some(d)
    } else {
        None
    }
}

/// Where the digits that begin at `i` end.
pub open spec fn digits_end(s: Seq<u8>, i: int, radix: int) -> int
    decreases s.len() - i,
{
    if i < s.len() && digit(s[i], radix) is Some {
        digits_end(s, i + 1, radix)
    } else {
        i
    }
}

/// What the digits from `i` to `e` stand for.
pub open spec fn digits_value(s: Seq<u8>, i: int, e: int, radix: int) -> int
    decreases e - i,
{
    if e <= i {
        0
    } else {
        digits_value(s, i, e - 1, radix) * radix + digit(s[e - 1], radix)->Some_0
    }
}

/// Where the digits of a number at `i` begin: a plus sign may come before.
pub open spec fn digits_at(s: Seq<u8>, i: int) -> int {
    if i < s.len() && s[i] == 0x2B {
        i + 1
    } else {
        i
    }
}

/// The number that is written at `i`, of 64 bits at most, and where it ends: it has
/// one digit at least.
pub open spec fn number_at(s: Seq<u8>, i: int, radix: int) -> Option<(int, int)> {
    let j = digits_at(s, i);
    let e = digits_end(s, j, radix);
    if e == j || digits_value(s, j, e, radix) > u64::MAX {
        None
    } else {
        Some((digits_value(s, j, e, radix), e))
    }
}

/// The number of bytes in the white space character at `i`, zero for what is not
/// white space.
pub open spec fn space_at(s: Seq<u8>, i: int) -> int {
    let left = s.len() - i;
    if left >= 1 && (0x09 <= s[i] <= 0x0D || s[i] == 0x20) {
        1
    } else if left >= 2 && s[i] == 0xC2 && (s[i + 1] == 0x85 || s[i + 1] == 0xA0) {
        2
    } else if left >= 3 && s[i] == 0xE1 && s[i + 1] == 0x9A && s[i + 2] == 0x80 {
        3
    } else if left >= 3 && s[i] == 0xE2 && s[i + 1] == 0x80 && (0x80 <= s[i + 2] <= 0x8A || s[i + 2]
        == 0xA8 || s[i + 2] == 0xA9 || s[i + 2] == 0xAF) {
        3
    } else if left >= 3 && s[i] == 0xE2 && s[i + 1] == 0x81 && s[i + 2] == 0x9F {
        3
    } else if left >= 3 && s[i] == 0xE3 && s[i + 1] == 0x80 && s[i + 2] == 0x80 {
        3
    } else {
        0
    }
}

/// Where the white space that begins at `i` ends.
pub open spec fn skip_space(s: Seq<u8>, i: int) -> int
    decreases s.len() - i,
{
    if i < s.len() && space_at(s, i) > 0 {
        skip_space(s, i + space_at(s, i))
    } else {
        i
    }
}

/// The number that is all that `s` holds.
pub open spec fn number_in(s: Seq<u8>, radix: int) -> Option<int> {
    match number_at(s, 0, radix) {
        Some((v, e)) if e == s.len() => Some(v),
        _ => None,
    }
}

/// The number that is all that `s` holds but for white space round it.
pub open spec fn padded_number_in(s: Seq<u8>, radix: int) -> Option<int> {
    match number_at(s, skip_space(s, 0), radix) {
        Some((v, e)) if skip_space(s, e) == s.len() => Some(v),
        _ => None,
    }
}

/// The number that is all that `s` holds, in digits alone.
pub open spec fn plain_number_in(s: Seq<u8>, radix: int) -> Option<int> {
    if s.len() > 0 && s[0] == 0x2B {
        None
    } else {
        number_in(s, radix)
    }
}

/// The number that is all that `s` holds but for white space round it, in digits alone.
pub open spec fn plain_padded_number_in(s: Seq<u8>, radix: int) -> Option<int> {
    let i = skip_space(s, 0);
    if i < s.len() && s[i] == 0x2B {
        None
    } else {
        padded_number_in(s, radix)
    }
}

/// `s` holds nothing but white space.
pub open spec fn blank(s: Seq<u8>) -> bool {
    skip_space(s, 0) == s.len()
}

/// The number of bytes in the white space character that ends at `e`, zero for what is not white space.
pub open spec fn space_before(s: Seq<u8>, e: int) -> int {
    let t = s.take(e);
    if e >= 1 && space_at(t, e - 1) == 1 {
        1
    } else if e >= 2 && space_at(t, e - 2) == 2 {
        2
    } else if e >= 3 && space_at(t, e - 3) == 3 {
        3
    } else {
        0
    }
}

/// Where the white space that ends at `e` begins, if it begins after `i`.
pub open spec fn space_start(s: Seq<u8>, i: int, e: int) -> int
    decreases e,
{
    if e > i && 0 < space_before(s, e) <= e - i {
        space_start(s, i, e - space_before(s, e))
    } else {
        e
    }
}

/// `s` without the white space round it.
pub open spec fn trimmed(s: Seq<u8>) -> Seq<u8> {
    let i = skip_space(s, 0);
    s.subrange(i, space_start(s, i, s.len() as int))
}

/// What a digit stands for.
pub fn digit_of(b: u8, radix: u64) -> (r: Option<u64>)
    requires
        radix <= 16,
    ensures
        match r {
            Some(d) => digit(b, radix as int) == Some(d as int) && d < radix,
            None => digit(b, radix as int) is None,
        },
{
    let d: u64 = if 0x30 <= b && b <= 0x39 {
        (b - 0x30) as u64
    } else if 0x41 <= b && b <= 0x46 {
        (b - 0x41) as u64 + 10
    } else if 0x61 <= b && b <= 0x66 {
        (b - 0x61) as u64 + 10
    } else {
        16
    };
    if d < radix {
        Some(d)
    } else {
        None
    }
}

/// More digits do not make a smaller number.
proof fn lemma_digits_grow(s: Seq<u8>, i: int, a: int, b: int, radix: int)
    requires
        radix >= 1,
        i <= a <= b <= s.len(),
        0 <= i,
        forall|k: int| i <= k < b ==> digit(#[trigger] s[k], radix) is Some,
    ensures
        0 <= digits_value(s, i, a, radix) <= digits_value(s, i, b, radix),
    decreases b - i, b - a,
{
    if a < b {
        lemma_digits_grow(s, i, a, b - 1, radix);
        let v = digits_value(s, i, b - 1, radix);
        assert(v * radix >= v) by (nonlinear_arith)
            requires
                v >= 0,
                radix >= 1,
        ;
        assert(digit(s[b - 1], radix) is Some);
    } else if i < a {
        lemma_digits_grow(s, i, a - 1, b - 1, radix);
        let v = digits_value(s, i, a - 1, radix);
        assert(v * radix >= 0) by (nonlinear_arith)
            requires
                v >= 0,
                radix >= 1,
        ;
        assert(digit(s[a - 1], radix) is Some);
    }
}

/// The digits that begin at `i` are digits up to their end.
proof fn lemma_digits_end(s: Seq<u8>, i: int, radix: int)
    requires
        0 <= i <= s.len(),
    ensures
        i <= digits_end(s, i, radix) <= s.len(),
        forall|k: int| i <= k < digits_end(s, i, radix) ==> digit(#[trigger] s[k], radix) is Some,
    decreases s.len() - i,
{
    if i < s.len() && digit(s[i], radix) is Some {
        lemma_digits_end(s, i + 1, radix);
    }
}

/// White space ends in the field.
proof fn lemma_skip_space(s: Seq<u8>, i: int)
    requires
        0 <= i <= s.len(),
    ensures
        i <= skip_space(s, i) <= s.len(),
    decreases s.len() - i,
{
    if i < s.len() && space_at(s, i) > 0 {
        lemma_skip_space(s, i + space_at(s, i));
    }
}

/// A number is not negative.
pub proof fn lemma_number_sign(s: Seq<u8>, radix: int)
    requires
        radix >= 1,
    ensures
        number_in(s, radix) matches Some(v) ==> v >= 0,
        padded_number_in(s, radix) matches Some(v) ==> v >= 0,
        plain_number_in(s, radix) matches Some(v) ==> v >= 0,
        plain_padded_number_in(s, radix) matches Some(v) ==> v >= 0,
{
    lemma_skip_space(s, 0);
    let a = digits_at(s, 0);
    lemma_digits_end(s, a, radix);
    lemma_digits_grow(s, a, a, digits_end(s, a, radix), radix);
    let b = digits_at(s, skip_space(s, 0));
    lemma_digits_end(s, b, radix);
    lemma_digits_grow(s, b, b, digits_end(s, b, radix), radix);
}

/// Read the number at `i`, and where it ends.
pub fn parse_at(s: &[u8], i: usize, radix: u64) -> (r: Option<(u64, usize)>)
    requires
        i <= s.len(),
        1 <= radix <= 16,
    ensures
        match r {
            Some(x) => number_at(s@, i as int, radix as int) == Some((x.0 as int, x.1 as int)) && i
                < x.1 <= s.len(),
            None => number_at(s@, i as int, radix as int) is None,
        },
{
    let j: usize = if i < s.len() && s[i] == 0x2B {
        i + 1
    } else {
        i
    };
    let ghost d = s@;
    let mut v: u64 = 0;
    let mut e: usize = j;
    proof {
        lemma_digits_end(d, j as int, radix as int);
    }
    while e < s.len()
        invariant
            d == s@,
            1 <= radix <= 16,
            i <= s.len(),
            j == digits_at(d, i as int),
            j <= e <= s.len(),
            v == digits_value(d, j as int, e as int, radix as int),
            digits_end(d, j as int, radix as int) == digits_end(d, e as int, radix as int),
            e <= digits_end(d, j as int, radix as int) <= s.len(),
            forall|k: int|
                j <= k < digits_end(d, j as int, radix as int) ==> digit(
                    #[trigger] d[k],
                    radix as int,
                ) is Some,
        decreases s.len() - e,
    {
        let x: u64 = match digit_of(s[e], radix) {
            Some(x) => x,
            None => {
                return if e == j {
                    None
                } else {
                    Some((v, e))
                };
            },
        };
        proof {
            lemma_digits_end(d, e + 1, radix as int);
            lemma_digits_grow(
                d,
                j as int,
                e + 1,
                digits_end(d, j as int, radix as int),
                radix as int,
            );
        }
        let wide: u128 = mul_wide(v, radix) + x as u128;
        assert(wide == digits_value(d, j as int, e + 1, radix as int));
        if wide > u64::MAX as u128 {
            return None;
        }
        v = wide as u64;
        e = e + 1;
    }
    if e == j {
        None
    } else {
        Some((v, e))
    }
}

fn space_len(s: &[u8], i: usize) -> (r: usize)
    requires
        i <= s.len(),
    ensures
        r == space_at(s@, i as int),
        i + r <= s.len(),
{
    let left: usize = s.len() - i;
    if left >= 1 && (0x09 <= s[i] && s[i] <= 0x0D || s[i] == 0x20) {
        1
    } else if left >= 2 && s[i] == 0xC2 && (s[i + 1] == 0x85 || s[i + 1] == 0xA0) {
        2
    } else if left >= 3 && s[i] == 0xE1 && s[i + 1] == 0x9A && s[i + 2] == 0x80 {
        3
    } else if left >= 3 && s[i] == 0xE2 && s[i + 1] == 0x80 && (0x80 <= s[i + 2] && s[i + 2] <= 0x8A
        || s[i + 2] == 0xA8 || s[i + 2] == 0xA9 || s[i + 2] == 0xAF) {
        3
    } else if left >= 3 && s[i] == 0xE2 && s[i + 1] == 0x81 && s[i + 2] == 0x9F {
        3
    } else if left >= 3 && s[i] == 0xE3 && s[i + 1] == 0x80 && s[i + 2] == 0x80 {
        3
    } else {
        0
    }
}

/// Pass the white space at `i`.
pub fn pass_space(s: &[u8], i: usize) -> (r: usize)
    requires
        i <= s.len(),
    ensures
        r == skip_space(s@, i as int),
        i <= r <= s.len(),
{
    let mut k: usize = i;
    while k < s.len()
        invariant
            i <= k <= s.len(),
            skip_space(s@, i as int) == skip_space(s@, k as int),
        decreases s.len() - k,
    {
        let n: usize = space_len(s, k);
        if n == 0 {
            return k;
        }
        k = k + n;
    }
    k
}

/// The white space that ends at `e`.
fn space_len_before(s: &[u8], e: usize) -> (r: usize)
    requires
        e <= s.len(),
    ensures
        r == space_before(s@, e as int),
        r <= e,
{
    let t = &s[0..e];
    assert(t@ =~= s@.take(e as int));
    if e >= 1 && space_len(t, e - 1) == 1 {
        1
    } else if e >= 2 && space_len(t, e - 2) == 2 {
        2
    } else if e >= 3 && space_len(t, e - 3) == 3 {
        3
    } else {
        0
    }
}

/// Take off the white space round `s`.
pub fn trim(s: &[u8]) -> (r: &[u8])
    ensures
        r@ == trimmed(s@),
{
    let i: usize = pass_space(s, 0);
    let mut e: usize = s.len();
    while e > i
        invariant
            i == skip_space(s@, 0),
            i <= e <= s.len(),
            space_start(s@, i as int, s@.len() as int) == space_start(s@, i as int, e as int),
        decreases e,
    {
        let n: usize = space_len_before(s, e);
        if n == 0 || n > e - i {
            return &s[i..e];
        }
        e = e - n;
    }
    &s[i..e]
}

/// Read the number that is all that `s` holds.
pub fn parse_number(s: &[u8], radix: u64) -> (r: Option<u64>)
    requires
        1 <= radix <= 16,
    ensures
        match r {
            Some(v) => number_in(s@, radix as int) == Some(v as int),
            None => number_in(s@, radix as int) is None,
        },
{
    match parse_at(s, 0, radix) {
        Some((v, e)) => if e == s.len() {
            Some(v)
        } else {
            None
        },
        None => None,
    }
}

/// Read the number that is all that `s` holds but for white space round it.
pub fn parse_padded_number(s: &[u8], radix: u64) -> (r: Option<u64>)
    requires
        1 <= radix <= 16,
    ensures
        match r {
            Some(v) => padded_number_in(s@, radix as int) == Some(v as int),
            None => padded_number_in(s@, radix as int) is None,
        },
{
    match parse_at(s, pass_space(s, 0), radix) {
        Some((v, e)) => if pass_space(s, e) == s.len() {
            Some(v)
        } else {
            None
        },
        None => None,
    }
}

/// Read the number that is all that `s` holds, in digits alone.
pub fn parse_plain_number(s: &[u8], radix: u64) -> (r: Option<u64>)
    requires
        1 <= radix <= 16,
    ensures
        match r {
            Some(v) => plain_number_in(s@, radix as int) == Some(v as int),
            None => plain_number_in(s@, radix as int) is None,
        },
{
    if s.len() > 0 && s[0] == 0x2B {
        None
    } else {
        parse_number(s, radix)
    }
}

/// Read the number that is all that `s` holds but for white space round it, in digits alone.
pub fn parse_plain_padded_number(s: &[u8], radix: u64) -> (r: Option<u64>)
    requires
        1 <= radix <= 16,
    ensures
        match r {
            Some(v) => plain_padded_number_in(s@, radix as int) == Some(v as int),
            None => plain_padded_number_in(s@, radix as int) is None,
        },
{
    let i: usize = pass_space(s, 0);
    if i < s.len() && s[i] == 0x2B {
        None
    } else {
        parse_padded_number(s, radix)
    }
}

} // verus!
