//! Times as file systems keep them.

use vstd::prelude::*;

verus! {

/// A year with a day more.
pub open spec fn is_leap(y: int) -> bool {
    y % 4 == 0 && (y % 100 != 0 || y % 400 == 0)
}

/// The number of days in a month.
pub open spec fn month_days(y: int, m: int) -> int {
    if m == 2 {
        if is_leap(y) {
            29
        } else {
            28
        }
    } else if m == 4 || m == 6 || m == 9 || m == 11 {
        30
    } else {
        31
    }
}

/// The number of days from the beginning of 1970 to that of a year.
pub open spec fn days_before_year(y: int) -> int
    decreases y,
{
    if y <= 1970 {
        0
    } else {
        days_before_year(y - 1) + if is_leap(y - 1) {
            366int
        } else {
            365int
        }
    }
}

/// The number of days from the beginning of a year to that of a month.
pub open spec fn days_before_month(y: int, m: int) -> int
    decreases m,
{
    if m <= 1 {
        0
    } else {
        days_before_month(y, m - 1) + month_days(y, m - 1)
    }
}

/// The seconds from the beginning of 1970 to a time of day.
pub open spec fn unix_time(y: int, m: int, d: int, hour: int, min: int, sec: int) -> int {
    (((days_before_year(y) + days_before_month(y, m) + d - 1) * 24 + hour) * 60 + min) * 60 + sec
}

/// The Unix time of a packed time: from the top, the year since 1980, month, day, hour, minute, and half the
/// seconds. `None` for what is no time.
pub open spec fn exfat_time(t: u32) -> Option<int> {
    let y = 1980 + t as int / 0x200_0000;
    let m = t as int / 0x20_0000 % 16;
    let d = t as int / 0x1_0000 % 32;
    let hour = t as int / 0x800 % 32;
    let min = t as int / 0x20 % 64;
    let sec = t as int % 32 * 2;
    if 1 <= m <= 12 && 1 <= d <= month_days(y, m) && hour < 24 && min < 60 && sec < 60 {
        Some(unix_time(y, m, d, hour, min, sec))
    } else {
        None
    }
}

fn leap(y: u64) -> (r: bool)
    ensures
        r == is_leap(y as int),
{
    y % 4 == 0 && (y % 100 != 0 || y % 400 == 0)
}

fn days_in_month(y: u64, m: u64) -> (r: u64)
    ensures
        r == month_days(y as int, m as int),
        28 <= r <= 31,
{
    if m == 2 {
        if leap(y) {
            29
        } else {
            28
        }
    } else if m == 4 || m == 6 || m == 9 || m == 11 {
        30
    } else {
        31
    }
}

/// The Unix time of a packed time.
pub fn from_exfat(t: u32) -> (r: Option<u64>)
    ensures
        match r {
            Some(v) => exfat_time(t) == Some(v as int),
            None => exfat_time(t) is None,
        },
{
    let y: u64 = 1980 + (t / 0x200_0000) as u64;
    let m: u64 = (t / 0x20_0000 % 16) as u64;
    let d: u64 = (t / 0x1_0000 % 32) as u64;
    let hour: u64 = (t / 0x800 % 32) as u64;
    let min: u64 = (t / 0x20 % 64) as u64;
    let sec: u64 = (t % 32 * 2) as u64;
    if m == 0 || m > 12 || d == 0 || d > days_in_month(y, m) || hour >= 24 || min >= 60 || sec >= 60 {
        return None;
    }
    let mut days: u64 = 0;
    let mut k: u64 = 1970;
    while k < y
        invariant
            1970 <= k <= y <= 2107,
            days == days_before_year(k as int),
            days <= 366 * (k - 1970),
        decreases y - k,
    {
        days = days + if leap(k) {
            366
        } else {
            365
        };
        k += 1;
    }
    let ghost years = days as int;
    let mut n: u64 = 1;
    while n < m
        invariant
            1 <= n <= m <= 12,
            days == years + days_before_month(y as int, n as int),
            0 <= years <= 366 * 137,
            days <= years + 31 * (n - 1),
        decreases m - n,
    {
        days = days + days_in_month(y, n);
        n += 1;
    }
    Some((((days + d - 1) * 24 + hour) * 60 + min) * 60 + sec)
}

/// The Unix time of a field that is zero where it is not set.
pub open spec fn set_time(t: u32) -> Option<u64> {
    if t == 0 {
        None
    } else {
        Some(t as u64)
    }
}

/// The Unix time of a field that is zero where it is not set.
pub fn from_unix(t: u32) -> (r: Option<u64>)
    ensures
        r == set_time(t),
{
    if t == 0 {
        None
    } else {
        Some(t as u64)
    }
}

} // verus!
