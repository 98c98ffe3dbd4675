//! What timestamps say.

use vstd::prelude::*;
use crate::time::{civil_days, digit_value, four_digits, stamp_of, two_digits, weekday_of};

verus! {

/// The days of the Gregorian calendar are numbered from the first of January 1970 on: each day comes
/// behind the one before, and the first of a month behind the last of the month before.
pub proof fn days_are_numbered_through(y: int, m: int, d: int)
    requires
        1 <= m <= 12,
    ensures
        civil_days(1970, 1, 1) == 0,
        civil_days(y, m, d + 1) == civil_days(y, m, d) + 1,
        m == 1 || m == 3 || m == 5 || m == 7 || m == 8 || m == 10 ==> civil_days(y, m + 1, 1)
            == civil_days(y, m, 31) + 1,
        m == 4 || m == 6 || m == 9 || m == 11 ==> civil_days(y, m + 1, 1) == civil_days(y, m, 30)
            + 1,
        m == 12 ==> civil_days(y + 1, 1, 1) == civil_days(y, 12, 31) + 1,
        y % 4 == 0 && y % 100 != 0 ==> civil_days(y, 3, 1) == civil_days(y, 2, 29) + 1,
        y % 400 == 0 ==> civil_days(y, 3, 1) == civil_days(y, 2, 29) + 1,
        y % 4 != 0 ==> civil_days(y, 3, 1) == civil_days(y, 2, 28) + 1,
        y % 100 == 0 && y % 400 != 0 ==> civil_days(y, 3, 1) == civil_days(y, 2, 28) + 1,
{
    crate::time::days_follow_each_other(y, m, d);
    crate::time::days_follow_each_other(y, 2, 1);
}

/// The first day of 1970 was a Thursday, Monday being 0, and the days of the week come round.
pub proof fn weekdays_come_round(days: int)
    ensures
        weekday_of(0) == 3,
        0 <= weekday_of(days) < 7,
        weekday_of(days + 1) == (if weekday_of(days) == 6 {
            0
        } else {
            weekday_of(days) + 1
        }),
{
}

/// Whether two digits at `at` write `n`.
pub open spec fn two_at(b: Seq<u8>, at: int, n: int) -> bool {
    0 <= n <= 99 && b[at] == 0x30 + n / 10 && b[at + 1] == 0x30 + n % 10
}

/// Whether a text of at least twenty bytes writes a year, month, day, hour, minute and second in the
/// places of `2026-03-11T20:23:35Z`.
pub open spec fn writes_time(
    b: Seq<u8>,
    year: int,
    month: int,
    day: int,
    hour: int,
    minute: int,
    second: int,
) -> bool {
    &&& 20 <= b.len()
    &&& 0 <= year <= 9999
    &&& two_at(b, 0, year / 100)
    &&& two_at(b, 2, year % 100)
    &&& two_at(b, 5, month)
    &&& two_at(b, 8, day)
    &&& two_at(b, 11, hour)
    &&& two_at(b, 14, minute)
    &&& two_at(b, 17, second)
}

/// A timestamp is read as written: the minutes since the start of 1970, the hour and the day of the
/// week. A leap second counts to the next minute.
pub proof fn timestamps_are_read_back(
    b: Seq<u8>,
    year: int,
    month: int,
    day: int,
    hour: int,
    minute: int,
    second: int,
)
    requires
        writes_time(b, year, month, day, hour, minute, second),
    ensures
        1 <= month <= 12 && 1 <= day <= 31 && hour <= 23 && minute <= 59 && second <= 59 ==> (
        stamp_of(b) matches Some(t) && t.epoch_minutes == civil_days(year, month, day) * 1440 + hour
            * 60 + minute && t.hour == hour && t.weekday == weekday_of(
            civil_days(year, month, day),
        )),
        1 <= month <= 12 && 1 <= day <= 31 && hour <= 23 && minute <= 59 && second == 60 ==> (
        stamp_of(b) matches Some(t) && t.epoch_minutes == civil_days(year, month, day) * 1440 + hour
            * 60 + minute + 1 && t.hour == hour && t.weekday == weekday_of(
            civil_days(year, month, day),
        )),
        month == 0 || month > 12 || day == 0 || day > 31 || hour > 23 || minute > 59 || second > 60
            ==> stamp_of(b) is None,
{
    if 1 <= month <= 12 && 1 <= day <= 31 && hour <= 23 && minute <= 59 && second <= 60 {
        let days = civil_days(year, month, day);
        lemma_range(year, month, day);
        assert((days * 86_400 + hour * 3600 + minute * 60 + second) / 60 == days * 1440 + hour * 60
            + minute + second / 60);
        assert(0 <= weekday_of(days) < 7);
    }
}

proof fn lemma_range(y: int, m: int, d: int)
    requires
        0 <= y <= 9999,
        1 <= m <= 12,
        1 <= d <= 31,
    ensures
        -800_000 <= civil_days(y, m, d) <= 4_000_000,
{
}

/// A text that is too short is no timestamp.
pub proof fn short_texts_are_no_timestamps(b: Seq<u8>)
    requires
        b.len() < 20,
    ensures
        stamp_of(b) is None,
{
}

/// Bytes stand for numbers by how far they are from the digit zero, and wrap around below it.
pub proof fn digits_wrap_around(b: Seq<u8>, at: int)
    ensures
        digit_value(b[at]) == (b[at] + 208) % 256,
        two_digits(b, at) == 10 * digit_value(b[at]) + digit_value(b[at + 1]),
        four_digits(b, at) == 100 * two_digits(b, at) + two_digits(b, at + 2),
{
}

/// What stands between the digits of a timestamp, and behind them, does not matter.
pub proof fn separators_do_not_matter(a: Seq<u8>, b: Seq<u8>)
    requires
        20 <= a.len(),
        20 <= b.len(),
        forall|k: int|
            0 <= k < 19 && k != 4 && k != 7 && k != 10 && k != 13 && k != 16 ==> #[trigger] a[k]
                == b[k],
    ensures
        stamp_of(a) == stamp_of(b),
{
}

} // verus!
