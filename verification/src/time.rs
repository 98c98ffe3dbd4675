//! Timestamps such as `2026-03-11T20:23:35Z`.

use vstd::prelude::*;

verus! {

/// A point in time: minutes since the start of 1970, the hour of the day, and the day of the week,
/// Monday being 0.
#[derive(Clone, Copy, Debug, PartialEq, Eq, Structural)]
pub struct Stamp {
    pub epoch_minutes: i64,
    pub hour: u8,
    pub weekday: u8,
}

impl Default for Stamp {
    fn default() -> (r: Stamp)
        ensures
            r == (Stamp { epoch_minutes: 0, hour: 0, weekday: 0 }),
    {
        Stamp { epoch_minutes: 0, hour: 0, weekday: 0 }
    }
}

/// The value of a digit. Bytes below `0` wrap around.
pub open spec fn digit_value(b: u8) -> int {
    if b >= 0x30 {
        b - 0x30
    } else {
        b + 0xd0
    }
}

/// The number that two digits write.
pub open spec fn two_digits(b: Seq<u8>, off: int) -> int {
    digit_value(b[off]) * 10 + digit_value(b[off + 1])
}

/// The number that four digits write.
pub open spec fn four_digits(b: Seq<u8>, off: int) -> int {
    digit_value(b[off]) * 1000 + digit_value(b[off + 1]) * 100 + digit_value(b[off + 2]) * 10
        + digit_value(b[off + 3])
}

/// Whether a year has a leap day.
pub open spec fn is_leap(y: int) -> bool {
    y % 4 == 0 && (y % 100 != 0 || y % 400 == 0)
}

/// The number of days of a month.
pub open spec fn days_in_month(y: int, m: int) -> int {
    if m == 2 {
        if is_leap(y) {
            29
        } else {
            28
        }
    } else if m == 4 || m == 6 || m == 9 || m == 11 {
        30
    } else {
        31
    }
}

/// The number of days from the start of 1970 to a day of the Gregorian calendar. The year is taken
/// to begin in March, so that the leap day is its last day.
pub open spec fn civil_days(y: int, m: int, d: int) -> int {
    let year = if m <= 2 {
        y - 1
    } else {
        y
    };
    let month = if m > 2 {
        m - 3
    } else {
        m + 9
    };
    let era = year / 400;
    let yoe = year % 400;
    let doy = (153 * month + 2) / 5 + d - 1;
    era * 146_097 + yoe * 365 + yoe / 4 - yoe / 100 + doy - 719_468
}

/// The days of a month, counted from March on.
proof fn lemma_month(k: int)
    requires
        0 <= k <= 10,
    ensures
        (153 * (k + 1) + 2) / 5 - (153 * k + 2) / 5 == (if k == 1 || k == 3 || k == 6 || k == 8 {
            30int
        } else {
            31int
        }),
{
}

/// The days of a year that begins in March, up to the first of the next March.
proof fn lemma_year(y: int)
    ensures
        ({
            let a = y - 1;
            let before = (a / 400) * 146_097 + (a % 400) * 365 + (a % 400) / 4 - (a % 400) / 100;
            let after = (y / 400) * 146_097 + (y % 400) * 365 + (y % 400) / 4 - (y % 400) / 100;
            after - before == (if is_leap(y) {
                366int
            } else {
                365int
            })
        }),
{
    let a = y - 1;
    if y % 400 == 0 {
        assert(a % 400 == 399 && a / 400 == y / 400 - 1);
    } else {
        let r = y % 400;
        assert(a % 400 == r - 1 && a / 400 == y / 400);
        lemma_leap(y, r);
    }
}

/// Leap days come by the place of a year in four hundred.
proof fn lemma_leap(y: int, r: int)
    requires
        r == y % 400,
        0 < r,
    ensures
        is_leap(y) <==> r % 4 == 0 && r % 100 != 0,
        r / 4 - (r - 1) / 4 == (if r % 4 == 0 {
            1int
        } else {
            0int
        }),
        r / 100 - (r - 1) / 100 == (if r % 100 == 0 {
            1int
        } else {
            0int
        }),
        r % 100 == 0 ==> r % 4 == 0,
{
    assert(y % 4 == r % 4);
    assert(y % 100 == r % 100);
}

/// The day count begins at the start of 1970, and day follows day through the months.
pub proof fn days_follow_each_other(y: int, m: int, d: int)
    requires
        1 <= m <= 12,
    ensures
        civil_days(1970, 1, 1) == 0,
        civil_days(y, m, d + 1) == civil_days(y, m, d) + 1,
        m < 12 ==> civil_days(y, m + 1, 1) == civil_days(y, m, 1) + days_in_month(y, m),
        m == 12 ==> civil_days(y + 1, 1, 1) == civil_days(y, m, 1) + days_in_month(y, m),
{
    if m == 2 {
        lemma_year(y);
    } else if m == 1 {
        lemma_month(10);
    } else {
        lemma_month(m - 3);
    }
}

/// The day of the week, Monday being 0. The first day of 1970 was a Thursday.
pub open spec fn weekday_of(days: int) -> int {
    (days + 3) % 7
}

/// What a timestamp says, if it is one.
pub open spec fn stamp_of(b: Seq<u8>) -> Option<Stamp> {
    let year = four_digits(b, 0);
    let month = two_digits(b, 5);
    let day = two_digits(b, 8);
    let hour = two_digits(b, 11);
    let minute = two_digits(b, 14);
    let second = two_digits(b, 17);
    if b.len() < 20 || !(1 <= month <= 12) || !(1 <= day <= 31) || hour > 23 || minute > 59
        || second > 60 {
        None
    } else {
        let days = civil_days(year, month, day);
        Some(
            Stamp {
                epoch_minutes: ((days * 86_400 + hour * 3600 + minute * 60 + second) / 60) as i64,
                hour: hour as u8,
                weekday: weekday_of(days) as u8,
            },
        )
    }
}

fn dig(b: u8) -> (r: u32)
    ensures
        r == digit_value(b),
        r <= 255,
{
    b.wrapping_sub(0x30) as u32
}

/// The number that two digits write.
pub fn dig2(b: &[u8], off: usize) -> (r: u32)
    requires
        off + 2 <= b.len(),
    ensures
        r == two_digits(b@, off as int),
        r <= 2805,
{
    dig(b[off]) * 10 + dig(b[off + 1])
}

/// The number that four digits write.
pub fn dig4(b: &[u8], off: usize) -> (r: u32)
    requires
        off + 4 <= b.len(),
    ensures
        r == four_digits(b@, off as int),
        r <= 283_305,
{
    dig(b[off]) * 1000 + dig(b[off + 1]) * 100 + dig(b[off + 2]) * 10 + dig(b[off + 3])
}

/// The number of days from the start of 1970.
pub fn days_from_civil(y: i32, m: u32, d: u32) -> (r: i64)
    requires
        i32::MIN + 400 <= y,
    ensures
        r == civil_days(y as int, m as int, d as int),
{
    let year: i64 = if m <= 2 {
        y as i64 - 1
    } else {
        y as i64
    };
    // Shifting by whole eras keeps the remainder and makes the year positive.
    let shifted: u64 = (year + 400 * 6_000_000) as u64;
    let era: i64 = (shifted / 400) as i64 - 6_000_000;
    let yoe: i64 = (shifted % 400) as i64;
    assert(era == year as int / 400 && yoe == year as int % 400);
    let month: i64 = if m > 2 {
        m as i64 - 3
    } else {
        m as i64 + 9
    };
    let doy: i64 = ((153 * month + 2) as u64 / 5) as i64 + d as i64 - 1;
    let doe: i64 = yoe * 365 + (yoe as u64 / 4) as i64 - (yoe as u64 / 100) as i64 + doy;
    era * 146_097 + doe - 719_468
}

/// Reads a timestamp.
pub fn parse_iso8601(buf: &[u8]) -> (r: Option<Stamp>)
    ensures
        r == stamp_of(buf@),
{
    if buf.len() < 20 {
        return None;
    }
    let year: u32 = dig4(buf, 0);
    let month: u32 = dig2(buf, 5);
    let day: u32 = dig2(buf, 8);
    let hour: u32 = dig2(buf, 11);
    let minute: u32 = dig2(buf, 14);
    let second: u32 = dig2(buf, 17);
    if month == 0 || month > 12 || day == 0 || day > 31 || hour > 23 || minute > 59 || second > 60 {
        return None;
    }
    let days: i64 = days_from_civil(year as i32, month, day);
    proof {
        lemma_day_range(year as int, month as int, day as int);
    }
    Some(stamp_at(days, hour, minute, second))
}

/// The stamp of a time on a day.
fn stamp_at(days: i64, hour: u32, minute: u32, second: u32) -> (r: Stamp)
    requires
        -719_530 <= days <= 200_000_000,
        hour <= 23,
        minute <= 59,
        second <= 60,
    ensures
        r == (Stamp {
            epoch_minutes: ((days * 86_400 + hour * 3600 + minute * 60 + second) / 60) as i64,
            hour: hour as u8,
            weekday: weekday_of(days as int) as u8,
        }),
{
    let late: i64 = if second == 60 {
        1
    } else {
        0
    };
    let epoch_minutes: i64 = days * 1440 + hour as i64 * 60 + minute as i64 + late;
    let weekday: u64 = ((days + 719_530) as u64 + 3) % 7;
    assert(weekday == weekday_of(days as int));
    Stamp { epoch_minutes, hour: hour as u8, weekday: weekday as u8 }
}

proof fn lemma_day_range(y: int, m: int, d: int)
    requires
        0 <= y <= 283_305,
        1 <= m <= 12,
        1 <= d <= 31,
    ensures
        -719_530 <= civil_days(y, m, d) <= 200_000_000,
{
    let year = if m <= 2 {
        y - 1
    } else {
        y
    };
    assert(-1 <= year / 400 <= 709);
    assert(0 <= year % 400 < 400);
    if year == -1 {
        assert(year / 400 == -1 && year % 400 == 399);
    } else {
        assert(year / 400 >= 0);
    }
}

} // verus!
