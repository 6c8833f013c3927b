//! What holds of integers in bytes, of numbers in text, of text in UTF-16, and of dates.

use crate::bytes::{be16, be24, be32, be64, bit_at, le16, le24, le32, le64, ord16, ord32, ord64};
use crate::hfsplus::unix_date;
use crate::strings::utf16_text;
use crate::text::{digit, digits_end, digits_value, number_in, padded_number_in, skip_space};
use crate::times::{days_before_month, days_before_year, exfat_time, is_leap, month_days, unix_time};
use vstd::prelude::*;

verus! {

/// An integer in bytes, the least significant first, is that of its first half and, as many times as the half can tell
/// apart, that of its second; and the other way round with the most significant first.
pub proof fn law_byte_order(s: Seq<u8>, i: int)
    ensures
        le16(s, i) == s[i] + 0x100 * s[i + 1],
        be16(s, i) == s[i + 1] + 0x100 * s[i],
        le24(s, i) == s[i] + 0x100 * s[i + 1] + 0x1_0000 * s[i + 2],
        be24(s, i) == s[i + 2] + 0x100 * s[i + 1] + 0x1_0000 * s[i],
        le32(s, i) == s[i] + 0x100 * s[i + 1] + 0x1_0000 * s[i + 2] + 0x100_0000 * s[i + 3],
        be32(s, i) == s[i + 3] + 0x100 * s[i + 2] + 0x1_0000 * s[i + 1] + 0x100_0000 * s[i],
        le64(s, i) == le32(s, i) + 0x1_0000_0000 * le32(s, i + 4),
        be64(s, i) == be32(s, i + 4) + 0x1_0000_0000 * be32(s, i),
{
}

/// The bits of a byte are counted from the least significant on, each worth twice as much as the one before.
pub proof fn law_bits(b: u8)
    ensures
        bit_at(b, 0) == (b % 2 == 1),
        bit_at(b, 1) == (b / 2 % 2 == 1),
        bit_at(b, 2) == (b / 4 % 2 == 1),
        bit_at(b, 3) == (b / 8 % 2 == 1),
        bit_at(b, 4) == (b / 16 % 2 == 1),
        bit_at(b, 5) == (b / 32 % 2 == 1),
        bit_at(b, 6) == (b / 64 % 2 == 1),
        bit_at(b, 7) == (b / 128 % 2 == 1),
{
    assert((b & (1u8 << 0u8) != 0) == (b % 2 == 1) && (b & (1u8 << 1u8) != 0) == (b / 2 % 2 == 1) && (b & (
    1u8 << 2u8) != 0) == (b / 4 % 2 == 1) && (b & (1u8 << 3u8) != 0) == (b / 8 % 2 == 1) && (b & (1u8
        << 4u8) != 0) == (b / 16 % 2 == 1) && (b & (1u8 << 5u8) != 0) == (b / 32 % 2 == 1) && (b & (1u8
        << 6u8) != 0) == (b / 64 % 2 == 1) && (b & (1u8 << 7u8) != 0) == (b / 128 % 2 == 1)) by (bit_vector);
}

/// Bytes in one order, read in it, are the same bytes in the other, read in that.
pub proof fn law_reversed(s: Seq<u8>, t: Seq<u8>, be: bool)
    requires
        s.len() == t.len() == 8,
        forall|k: int| 0 <= k < 8 ==> #[trigger] t[k] == s[7 - k],
    ensures
        ord64(t, 0, be) == ord64(s, 0, !be),
        ord32(t, 0, be) == ord32(s, 4, !be),
        ord16(t, 0, be) == ord16(s, 6, !be),
{
    assert(t[0] == s[7] && t[1] == s[6] && t[2] == s[5] && t[3] == s[4] && t[4] == s[3] && t[5] == s[2]
        && t[6] == s[1] && t[7] == s[0]);
}

/// The digits are those from 0 to 9, and the letters from A to F and from a to f, which follow them; each counts one more
/// than the one before.
pub proof fn law_digits(b: u8, radix: int)
    requires
        2 <= radix <= 16,
    ensures
        digit(0x30, radix) == Some(0int),
        0x30 < b <= 0x39 && b - 0x30 < radix ==> digit(b, radix) == Some(
            digit((b - 1) as u8, radix)->Some_0 + 1,
        ),
        0x30 <= b <= 0x39 && b - 0x30 >= radix ==> digit(b, radix) is None,
        radix == 16 && 0x41 <= b <= 0x46 ==> digit(b, radix) == digit((b + 0x20) as u8, radix),
        radix == 16 && 0x41 < b <= 0x46 ==> digit(b, radix) == Some(
            digit((b - 1) as u8, radix)->Some_0 + 1,
        ),
        radix == 16 ==> digit(0x41, radix) == Some(digit(0x39, radix)->Some_0 + 1),
        !(0x30 <= b <= 0x39 || 0x41 <= b <= 0x46 || 0x61 <= b <= 0x66) ==> digit(b, radix) is None,
        radix <= 10 && b >= 0x41 ==> digit(b, radix) is None,
{
}

proof fn lemma_digits_end(s: Seq<u8>, i: int, radix: int)
    requires
        0 <= i <= s.len(),
        forall|k: int| 0 <= k < s.len() ==> digit(#[trigger] s[k], radix) is Some,
    ensures
        digits_end(s, i, radix) == s.len(),
    decreases s.len() - i,
{
    if i < s.len() {
        assert(digit(s[i], radix) is Some);
        lemma_digits_end(s, i + 1, radix);
    }
}

proof fn lemma_digits_value(s: Seq<u8>, t: Seq<u8>, e: int, radix: int)
    requires
        0 <= e <= s.len(),
        e <= t.len(),
        forall|k: int| 0 <= k < e ==> s[k] == t[k],
    ensures
        digits_value(s, 0, e, radix) == digits_value(t, 0, e, radix),
    decreases e,
{
    if e > 0 {
        lemma_digits_value(s, t, e - 1, radix);
    }
}

/// A number with a digit more behind it is as many times as large as there are digits, and the digit more; as long as 64
/// bits can hold it.
pub proof fn law_one_more_digit(s: Seq<u8>, b: u8, radix: int, v: int, d: int)
    requires
        2 <= radix <= 16,
        s.len() > 0,
        forall|k: int| 0 <= k < s.len() ==> digit(#[trigger] s[k], radix) is Some,
        number_in(s, radix) == Some(v),
        digit(b, radix) == Some(d),
    ensures
        number_in(s.push(b), radix) == if v * radix + d <= u64::MAX {
            Some(v * radix + d)
        } else {
            None
        },
        number_in(seq![b], radix) == Some(d),
{
    let t = s.push(b);
    let one = seq![b];
    assert forall|k: int| 0 <= k < t.len() implies digit(#[trigger] t[k], radix) is Some by {
        if k < s.len() {
            assert(t[k] == s[k]);
        }
    }
    assert(digit(s[0], radix) is Some && digit(t[0], radix) is Some);
    assert(one[0] == b);
    lemma_digits_end(s, 0, radix);
    lemma_digits_end(t, 0, radix);
    lemma_digits_end(one, 0, radix);
    lemma_digits_value(s, t, s.len() as int, radix);
    assert(digits_value(one, 0, 0, radix) == 0);
    assert(digits_value(one, 0, 1, radix) == 0 * radix + d);
    assert(0 * radix == 0) by (nonlinear_arith);
}

proof fn lemma_end_before(s: Seq<u8>, t: Seq<u8>, i: int, radix: int)
    requires
        0 <= i <= s.len() <= t.len(),
        forall|k: int| 0 <= k < s.len() ==> digit(#[trigger] s[k], radix) is Some,
        forall|k: int| 0 <= k < s.len() ==> s[k] == #[trigger] t[k],
        s.len() < t.len() ==> digit(t[s.len() as int], radix) is None,
    ensures
        digits_end(t, i, radix) == s.len(),
    decreases s.len() - i,
{
    if i < s.len() {
        assert(digit(s[i], radix) is Some && s[i] == t[i]);
        lemma_end_before(s, t, i + 1, radix);
    }
}

proof fn lemma_spaces(t: Seq<u8>, i: int)
    requires
        0 <= i <= t.len(),
        forall|k: int| i <= k < t.len() ==> #[trigger] t[k] == 0x20,
    ensures
        skip_space(t, i) == t.len(),
    decreases t.len() - i,
{
    if i < t.len() {
        assert(t[i] == 0x20);
        lemma_spaces(t, i + 1);
    }
}

/// Spaces behind a number do not change it.
pub proof fn law_padded_number(s: Seq<u8>, t: Seq<u8>, radix: int)
    requires
        2 <= radix <= 16,
        0 < s.len() <= t.len(),
        forall|k: int| 0 <= k < s.len() ==> digit(#[trigger] s[k], radix) is Some,
        forall|k: int| 0 <= k < s.len() ==> s[k] == #[trigger] t[k],
        forall|k: int| s.len() <= k < t.len() ==> #[trigger] t[k] == 0x20,
    ensures
        padded_number_in(t, radix) == number_in(s, radix),
{
    assert(digit(s[0], radix) is Some && s[0] == t[0]);
    lemma_digits_end(s, 0, radix);
    lemma_end_before(s, t, 0, radix);
    lemma_digits_value(s, t, s.len() as int, radix);
    lemma_spaces(t, s.len() as int);
    assert(skip_space(t, 0) == 0);
}

/// A unit of UTF-16 that is no half of a pair is the character of its number; two that make a pair are the character whose
/// number, less 65536, has the low ten bits of the first before those of the second; and what follows is read on its
/// own.
pub proof fn law_utf16(u: Seq<u16>, i: int)
    requires
        0 <= i < u.len(),
    ensures
        !(0xD800 <= u[i] <= 0xDFFF) ==> utf16_text(u, i).len() > 0 && utf16_text(u, i)[0] as u32 == u[i]
            && utf16_text(u, i).skip(1) == utf16_text(u, i + 1),
        i + 1 < u.len() && 0xD800 <= u[i] < 0xDC00 && 0xDC00 <= u[i + 1] < 0xE000 ==> utf16_text(u, i).len()
            > 0 && utf16_text(u, i)[0] as u32 - 0x1_0000 == 0x400 * (u[i] % 0x400) + u[i + 1] % 0x400
            && utf16_text(u, i).skip(1) == utf16_text(u, i + 2),
        utf16_text(u, u.len() as int).len() == 0,
{
    let t = utf16_text(u, i);
    if i + 1 < u.len() && 0xD800 <= u[i] < 0xDC00 && 0xDC00 <= u[i + 1] < 0xE000 {
        assert(t.skip(1) =~= utf16_text(u, i + 2));
    } else if !(0xD800 <= u[i] <= 0xDFFF) {
        assert(t.skip(1) =~= utf16_text(u, i + 1));
    }
}

/// Each day is 86400 seconds after the one before it, across the ends of months and years too.
pub proof fn law_days(y: int, m: int, d: int, hour: int, min: int, sec: int)
    requires
        1970 <= y,
        1 <= m <= 12,
    ensures
        unix_time(y, m, d + 1, hour, min, sec) == unix_time(y, m, d, hour, min, sec) + 86400,
        m < 12 ==> unix_time(y, m + 1, 1, hour, min, sec) == unix_time(
            y,
            m,
            month_days(y, m),
            hour,
            min,
            sec,
        ) + 86400,
        unix_time(y + 1, 1, 1, hour, min, sec) == unix_time(y, 12, 31, hour, min, sec) + 86400,
        unix_time(y, m, d, hour + 1, min, sec) == unix_time(y, m, d, hour, min, sec) + 3600,
        unix_time(y, m, d, hour, min + 1, sec) == unix_time(y, m, d, hour, min, sec) + 60,
        unix_time(y, m, d, hour, min, sec + 1) == unix_time(y, m, d, hour, min, sec) + 1,
        unix_time(1970, 1, 1, 0, 0, 0) == 0,
{
    reveal_with_fuel(days_before_month, 13);
    assert(days_before_month(y, 1) == 0 && days_before_month(y + 1, 1) == 0);
    assert(days_before_year(y + 1) == days_before_year(y) + if is_leap(y) {
        366int
    } else {
        365int
    });
}

/// The months have as many days as they have: a year has 365, and one more where it is a multiple of 4, but of 100 only
/// where it is one of 400.
pub proof fn law_year(y: int)
    ensures
        month_days(y, 1) == 31 && month_days(y, 3) == 31 && month_days(y, 5) == 31 && month_days(y, 7) == 31
            && month_days(y, 8) == 31 && month_days(y, 10) == 31 && month_days(y, 12) == 31,
        month_days(y, 4) == 30 && month_days(y, 6) == 30 && month_days(y, 9) == 30 && month_days(y, 11) == 30,
        month_days(y, 2) == if y % 4 == 0 && !(y % 100 == 0 && y % 400 != 0) {
            29int
        } else {
            28
        },
{
}

/// The parts of a time on an exFAT volume are packed into 32 bits: seven for the year from 1980 on, four for the month, five
/// for the day, five for the hour, six for the minute, and five for half the second.
pub proof fn law_packed_time(t: u32, y: int, m: int, d: int, hour: int, min: int, half: int)
    requires
        1980 <= y < 2108,
        1 <= m <= 12,
        1 <= d <= month_days(y, m),
        0 <= hour < 24,
        0 <= min < 60,
        0 <= half < 30,
        t == half + 32 * (min + 64 * (hour + 32 * (d + 32 * (m + 16 * (y - 1980))))),
    ensures
        exfat_time(t) == Some(unix_time(y, m, d, hour, min, 2 * half)),
{
    let a = t as int;
    let yy = y - 1980;
    let mm = m + 16 * yy;
    let dd = d + 32 * mm;
    let hh = hour + 32 * dd;
    let nn = min + 64 * hh;
    lemma_unpacked(a, 32, half, nn);
    lemma_unpacked(nn, 64, min, hh);
    lemma_unpacked(hh, 32, hour, dd);
    lemma_unpacked(dd, 32, d, mm);
    lemma_unpacked(mm, 16, m, yy);
    lemma_unpacked(a, 0x800, half + 32 * min, hh);
    lemma_unpacked(a, 0x1_0000, half + 32 * min + 0x800 * hour, dd);
    lemma_unpacked(a, 0x20_0000, half + 32 * min + 0x800 * hour + 0x1_0000 * d, mm);
    lemma_unpacked(a, 0x200_0000, half + 32 * min + 0x800 * hour + 0x1_0000 * d + 0x20_0000 * m, yy);
}

proof fn lemma_unpacked(x: int, n: int, r: int, q: int)
    requires
        n > 0,
        x == r + n * q,
        0 <= r < n,
    ensures
        x % n == r,
        x / n == q,
{
    assert(n * q == q * n) by (nonlinear_arith);
    vstd::arithmetic::div_mod::lemma_fundamental_div_mod_converse(x, n, q, r);
}

/// A second more on an HFS+ volume is a second more; its dates begin 24107 days before those of Unix.
pub proof fn law_hfs_date(secs: u32)
    requires
        secs < u32::MAX,
    ensures
        unix_date(secs) matches Some(t) ==> unix_date((secs + 1) as u32) == Some((t + 1) as u64),
        secs >= 24107 * 86400 ==> unix_date(secs) == Some((secs - 24107 * 86400) as u64),
        secs < 24107 * 86400 ==> unix_date(secs) is None,
{
}

} // verus!
