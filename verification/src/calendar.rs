//! Dates, times of day and their count in seconds.

use chrono::{Datelike, TimeZone, Timelike};
use vstd::prelude::*;

use crate::message::Timestamp;

verus! {

/// A date of the Gregorian calendar, extended to all years, and a time of day.
#[derive(Clone, Copy, Debug, PartialEq, Eq, Structural)]
pub struct CivilTime {
    pub year: i32,
    pub month: u32,
    pub day: u32,
    pub hour: u32,
    pub minute: u32,
    pub second: u32,
}

/// Whether a year has a 29 February.
pub open spec fn is_leap_year(year: int) -> bool {
    year % 4 == 0 && (year % 100 != 0 || year % 400 == 0)
}

/// The days of the years from 0 up to, not including, the given one.
pub open spec fn days_before_year(year: int) -> int {
    365 * year + (year + 3) / 4 - (year + 99) / 100 + (year + 399) / 400
}

/// The days of a month.
pub open spec fn days_in_month(year: int, month: int) -> int {
    if month == 2 {
        if is_leap_year(year) {
            29
        } else {
            28
        }
    } else if month == 4 || month == 6 || month == 9 || month == 11 {
        30
    } else {
        31
    }
}

/// The days of the year's months before the given one.
pub open spec fn days_before_month(year: int, month: int) -> int
    decreases month,
{
    if month <= 1 {
        0
    } else {
        days_before_month(year, month - 1) + days_in_month(year, month - 1)
    }
}

/// Whether there is such a date.
pub open spec fn is_date(year: int, month: int, day: int) -> bool {
    1 <= month <= 12 && 1 <= day <= days_in_month(year, month)
}

/// The days from 1 January 1970 to a date.
pub open spec fn day_number(year: int, month: int, day: int) -> int {
    days_before_year(year) + days_before_month(year, month) + day - 1 - 719_528
}

impl CivilTime {
    /// Whether there is such a date and such a time of day.
    pub open spec fn valid(self) -> bool {
        is_date(self.year as int, self.month as int, self.day as int) && self.hour < 24
            && self.minute < 60 && self.second < 60
    }

    /// The day, counted from 1 January 1970.
    pub open spec fn day_count(self) -> int {
        day_number(self.year as int, self.month as int, self.day as int)
    }

    /// The seconds since the start of 1970.
    pub open spec fn seconds(self) -> int {
        86_400 * self.day_count() + 3600 * self.hour + 60 * self.minute + self.second
    }

    /// The day of the week, Sunday being 0.
    pub open spec fn weekday(self) -> int {
        (self.day_count() + 4) % 7
    }
}

/// The first second of the first year that can be told apart.
pub open spec fn first_second() -> int {
    86_400 * day_number(-262_143, 1, 1)
}

/// The last second of the last year that can be told apart.
pub open spec fn last_second() -> int {
    86_400 * day_number(262_143, 1, 1) - 1
}

/// Whether a year is among those that can be told apart.
pub open spec fn in_range(year: i32) -> bool {
    -262_143 <= year <= 262_142
}

/// The date and time of day in UTC at a number of seconds after the start of 1970.
pub open spec fn civil_at(seconds: int) -> CivilTime {
    choose|c: CivilTime| c.valid() && #[trigger] c.seconds() == seconds
}

/// How the quotient of the next number differs.
proof fn lemma_next_quotient(n: int, d: int)
    requires
        d > 1,
    ensures
        (n + d) / d == (n + d - 1) / d + if n % d == 0 {
            1int
        } else {
            0int
        },
{
    let q = n / d;
    let r = n % d;
    assert(n == q * d + r && 0 <= r < d) by (nonlinear_arith)
        requires
            d > 1,
            q == n / d,
            r == n % d,
    ;
    assert((n + d) / d == q + 1) by (nonlinear_arith)
        requires
            n == q * d + r,
            0 <= r < d,
            d > 1,
    ;
    if r == 0 {
        assert((n + d - 1) / d == q) by (nonlinear_arith)
            requires
                n == q * d,
                d > 1,
        ;
    } else {
        assert((n + d - 1) / d == q + 1) by (nonlinear_arith)
            requires
                n == q * d + r,
                0 < r < d,
                d > 1,
        ;
    }
}

/// A leap year is one day longer than another year.
proof fn lemma_next_year(year: int)
    ensures
        days_before_year(year + 1) == days_before_year(year) + if is_leap_year(year) {
            366int
        } else {
            365int
        },
{
    lemma_next_quotient(year, 4);
    lemma_next_quotient(year, 100);
    lemma_next_quotient(year, 400);
    assert(year % 400 == 0 ==> year % 100 == 0);
    assert(year % 100 == 0 ==> year % 4 == 0);
}

/// A year is as long as its twelve months.
proof fn lemma_year_length(year: int)
    ensures
        days_before_year(year + 1) == days_before_year(year) + days_before_month(year, 12) + 31,
        days_before_month(year, 12) + 31 >= 365,
{
    lemma_next_year(year);
    assert(days_before_month(year, 12) == if is_leap_year(year) {
        335int
    } else {
        334int
    }) by {
        reveal_with_fuel(days_before_month, 13);
    }
}

/// The days before a month grow with the month.
proof fn lemma_days_before_month_grow(year: int, month: int, later: int)
    requires
        1 <= month < later <= 13,
    ensures
        days_before_month(year, month) + days_in_month(year, month) <= days_before_month(
            year,
            later,
        ),
    decreases later,
{
    if month + 1 < later {
        lemma_days_before_month_grow(year, month, later - 1);
    }
}

/// Later years start later.
proof fn lemma_days_before_year_grow(year: int, later: int)
    requires
        year <= later,
    ensures
        days_before_year(year) + 365 * (later - year) <= days_before_year(later),
    decreases later - year,
{
    if year < later {
        lemma_days_before_year_grow(year, later - 1);
        lemma_year_length(later - 1);
    }
}

/// A date lies within its year.
proof fn lemma_day_within_year(year: int, month: int, day: int)
    requires
        is_date(year, month, day),
    ensures
        days_before_year(year) <= day_number(year, month, day) + 719_528 < days_before_year(
            year + 1,
        ),
{
    lemma_year_length(year);
    assert(days_before_month(year, month) >= 0) by {
        reveal_with_fuel(days_before_month, 13);
    }
    if month < 12 {
        lemma_days_before_month_grow(year, month, 12);
    }
}

/// No two dates have the same day number.
proof fn lemma_day_number_unique(y1: int, m1: int, d1: int, y2: int, m2: int, d2: int)
    requires
        is_date(y1, m1, d1),
        is_date(y2, m2, d2),
        day_number(y1, m1, d1) == day_number(y2, m2, d2),
    ensures
        y1 == y2,
        m1 == m2,
        d1 == d2,
{
    lemma_day_within_year(y1, m1, d1);
    lemma_day_within_year(y2, m2, d2);
    if y1 < y2 {
        lemma_days_before_year_grow(y1 + 1, y2);
    } else if y2 < y1 {
        lemma_days_before_year_grow(y2 + 1, y1);
    } else if m1 < m2 {
        lemma_days_before_month_grow(y1, m1, m2);
    } else if m2 < m1 {
        lemma_days_before_month_grow(y1, m2, m1);
    }
}

/// No two dates and times of day have the same count of seconds.
pub proof fn law_seconds_unique(a: CivilTime, b: CivilTime)
    requires
        a.valid(),
        b.valid(),
        a.seconds() == b.seconds(),
    ensures
        a == b,
{
    let ta = 3600 * a.hour + 60 * a.minute + a.second;
    let tb = 3600 * b.hour + 60 * b.minute + b.second;
    assert(0 <= ta < 86_400 && 0 <= tb < 86_400);
    assert(a.day_count() == b.day_count());
    lemma_day_number_unique(
        a.year as int,
        a.month as int,
        a.day as int,
        b.year as int,
        b.month as int,
        b.day as int,
    );
}

/// The time at which a valid time lies is that time.
pub proof fn lemma_civil_at(c: CivilTime)
    requires
        c.valid(),
    ensures
        civil_at(c.seconds()) == c,
{
    let other = civil_at(c.seconds());
    assert(other.valid() && other.seconds() == c.seconds());
    law_seconds_unique(other, c);
}

/// Every day from 1970 on has a date.
proof fn lemma_date_of_day(n: int) -> (date: (int, int, int))
    requires
        0 <= n < day_number(262_143, 1, 1),
    ensures
        is_date(date.0, date.1, date.2),
        day_number(date.0, date.1, date.2) == n,
        1970 <= date.0 <= 262_142,
    decreases n,
{
    if n == 0 {
        assert(day_number(1970, 1, 1) == 0);
        (1970, 1, 1)
    } else {
        let (y, m, d) = lemma_date_of_day(n - 1);
        lemma_year_length(y);
        if d < days_in_month(y, m) {
            (y, m, d + 1)
        } else if m < 12 {
            (y, m + 1, 1)
        } else {
            if y == 262_142 {
                assert(day_number(262_143, 1, 1) == n);
            }
            (y + 1, 1, 1)
        }
    }
}

/// Every second from 1970 on has a date and a time of day.
pub proof fn lemma_civil_at_exists(seconds: int)
    requires
        0 <= seconds <= last_second(),
    ensures
        civil_at(seconds).valid(),
        civil_at(seconds).seconds() == seconds,
        1970 <= civil_at(seconds).year <= 262_142,
{
    let (y, m, d) = lemma_date_of_day(seconds / 86_400);
    let rest = seconds % 86_400;
    let c = CivilTime {
        year: y as i32,
        month: m as u32,
        day: d as u32,
        hour: (rest / 3600) as u32,
        minute: (rest / 60 % 60) as u32,
        second: (rest % 60) as u32,
    };
    assert(c.valid());
    assert(c.seconds() == seconds);
    lemma_civil_at(c);
}

/// `TimeZone::timestamp_opt` of `chrono::Utc`, and the fields of the moment that it
/// gives: the date and time of day, the day of the week as `number_from_monday` gives
/// it, and the milliseconds. There is such a moment if and only if its second lies
/// in the range that chrono can represent.
#[verifier::external_body]
fn utc_fields(seconds: i64, nanos: u32) -> (res: Option<(CivilTime, u32, u32)>)
    requires
        nanos < 1_000_000_000,
    ensures
        res is Some <==> first_second() <= seconds <= last_second(),
        res matches Some((c, weekday, millis)) ==> c.valid() && c.seconds() == seconds && 1
            <= weekday <= 7 && weekday % 7 == c.weekday() && millis == nanos / 1_000_000,
{
    let dt = chrono::Utc.timestamp_opt(seconds, nanos).single()?;
    let civil = CivilTime {
        year: dt.year(),
        month: dt.month(),
        day: dt.day(),
        hour: dt.hour(),
        minute: dt.minute(),
        second: dt.second(),
    };
    Some((civil, dt.weekday().number_from_monday(), dt.timestamp_subsec_millis()))
}

/// `TimeZone::with_ymd_and_hms` of `chrono::Utc`, and the Unix time of the moment that
/// it gives. There is such a moment if and only if the date and the time of day exist
/// and the year lies in the range that chrono can represent.
#[verifier::external_body]
fn utc_seconds(c: CivilTime) -> (res: Option<i64>)
    ensures
        match res {
            Some(seconds) => c.valid() && in_range(c.year) && seconds == c.seconds(),
            None => !(c.valid() && in_range(c.year)),
        },
{
    let moment = chrono::Utc.with_ymd_and_hms(c.year, c.month, c.day, c.hour, c.minute, c.second);
    moment.single().map(|dt| dt.timestamp())
}

/// The first moment, in seconds, that a log header records: 1 January 1990.
pub const EARLIEST_HEADER_SECOND: i64 = 631_152_000;

/// A moment as the eight numbers of a log header: year, month, day of the week from
/// Sunday, day, hour, minute, second, millisecond. No moment, a moment before 1990 and
/// one beyond the calendar give zeros.
pub open spec fn system_time(time: Option<Timestamp>) -> Seq<u16> {
    match time {
        Some(t) => if t.seconds >= EARLIEST_HEADER_SECOND && first_second() <= t.millis as int
            / 1000 <= last_second() {
            let c = civil_at(t.millis as int / 1000);
            seq![
                c.year as u16,
                c.month as u16,
                c.weekday() as u16,
                c.day as u16,
                c.hour as u16,
                c.minute as u16,
                c.second as u16,
                (t.millis as int % 1000) as u16,
            ]
        } else {
            no_system_time()
        },
        None => no_system_time(),
    }
}

/// The eight numbers where a log header records no moment.
pub open spec fn no_system_time() -> Seq<u16> {
    seq![0u16, 0u16, 0u16, 0u16, 0u16, 0u16, 0u16, 0u16]
}

/// The eight numbers of a log header for a moment.
pub fn timestamp_to_systemtime(time: Option<Timestamp>) -> (res: [u16; 8])
    ensures
        res@ == system_time(time),
{
    let none: [u16; 8] = [0, 0, 0, 0, 0, 0, 0, 0];
    assert(none@ =~= no_system_time());
    match time {
        Some(t) => {
            if t.seconds < EARLIEST_HEADER_SECOND {
                return none;
            }
            let (seconds, millis): (i64, i64) = split_millis(t.millis);
            match utc_fields(seconds, millis as u32 * 1_000_000) {
                Some((c, weekday, ms)) => {
                    proof {
                        lemma_civil_at(c);
                    }
                    let res: [u16; 8] = [
                        c.year as u16,
                        c.month as u16,
                        (weekday % 7) as u16,
                        c.day as u16,
                        c.hour as u16,
                        c.minute as u16,
                        c.second as u16,
                        ms as u16,
                    ];
                    assert(res@ =~= system_time(time));
                    res
                },
                None => none,
            }
        },
        None => none,
    }
}

/// Whole seconds, rounded down, and the milliseconds that they leave over.
fn split_millis(millis: i64) -> (res: (i64, i64))
    ensures
        res.0 == millis as int / 1000,
        res.1 == millis as int % 1000,
{
    if millis >= 0 {
        (millis / 1000, millis % 1000)
    } else {
        let above: i64 = -(millis + 1);
        (-(above / 1000) - 1, 999 - above % 1000)
    }
}

/// The date and time of day in the eight numbers of a log header.
pub open spec fn civil_of_system_time(s: Seq<u16>) -> CivilTime {
    CivilTime {
        year: s[0] as i32,
        month: s[1] as u32,
        day: s[3] as u32,
        hour: s[4] as u32,
        minute: s[5] as u32,
        second: s[6] as u32,
    }
}

/// The moment of a log header's eight numbers, in milliseconds; 0 where the numbers
/// give none.
pub open spec fn millis_of_system_time(s: Seq<u16>) -> int {
    let c = civil_of_system_time(s);
    if s[0] == 0 || s[1] == 0 || s[3] == 0 || !c.valid() {
        0
    } else {
        c.seconds() * 1000 + s[7]
    }
}

/// The moment of a log header's eight numbers, in milliseconds.
pub fn systemtime_to_timestamp(systemtime: [u16; 8]) -> (millis: i64)
    ensures
        millis == millis_of_system_time(systemtime@),
{
    let year: u16 = systemtime[0];
    let month: u16 = systemtime[1];
    let day: u16 = systemtime[3];
    if year == 0 || month == 0 || day == 0 {
        return 0;
    }
    let c: CivilTime = CivilTime {
        year: year as i32,
        month: month as u32,
        day: day as u32,
        hour: systemtime[4] as u32,
        minute: systemtime[5] as u32,
        second: systemtime[6] as u32,
    };
    match utc_seconds(c) {
        Some(seconds) => {
            proof {
                lemma_day_within_year(c.year as int, c.month as int, c.day as int);
            }
            seconds * 1000 + systemtime[7] as i64
        },
        None => 0,
    }
}

/// A moment from 1990 to the end of the year 65535 that a log header records is read
/// back to the millisecond.
pub proof fn law_system_time_read_back(t: Timestamp)
    requires
        t.seconds >= EARLIEST_HEADER_SECOND,
        0 <= t.millis,
        t.millis as int / 1000 < 86_400 * day_number(65_536, 1, 1),
    ensures
        millis_of_system_time(system_time(Some(t))) == t.millis,
{
    let seconds = t.millis as int / 1000;
    lemma_civil_at_exists(seconds);
    let c = civil_at(seconds);
    lemma_day_within_year(c.year as int, c.month as int, c.day as int);
    if c.year >= 65_536 {
        lemma_days_before_year_grow(65_536, c.year as int);
    }
    let s = system_time(Some(t));
    assert(civil_of_system_time(s) == c);
}

/// The moment of a log header fits 64 bits.
pub(crate) proof fn lemma_header_millis(s: Seq<u16>)
    requires
        s.len() == 8,
    ensures
        i64::MIN <= millis_of_system_time(s) <= i64::MAX,
{
    let c = civil_of_system_time(s);
    if c.valid() {
        lemma_day_within_year(c.year as int, c.month as int, c.day as int);
    }
}

/// The months of a year have 31, 28, 31, 30, 31, 30, 31, 31, 30, 31, 30 and 31 days; February
/// has one more every fourth year, but only every fourth time where the year is a multiple of
/// 100.
pub proof fn law_months(year: int, month: int)
    requires
        1 <= month <= 12,
    ensures
        days_in_month(year, month) == seq![31int, 28, 31, 30, 31, 30, 31, 31, 30, 31, 30, 31][month
            - 1] + if month == 2 && (year % 400 == 0 || (year % 4 == 0 && year % 100 != 0)) {
            1int
        } else {
            0
        },
        is_leap_year(year) <==> year % 400 == 0 || (year % 4 == 0 && year % 100 != 0),
{
}

/// Days are counted from 1 January 1970, and every date is one more than the date before it.
pub proof fn law_days_follow(year: int, month: int, day: int)
    requires
        is_date(year, month, day),
    ensures
        day_number(1970, 1, 1) == 0,
        is_date(year, month, day + 1) ==> day_number(year, month, day + 1) == day_number(
            year,
            month,
            day,
        ) + 1,
        !is_date(year, month, day + 1) && month < 12 ==> is_date(year, month + 1, 1)
            && day_number(year, month + 1, 1) == day_number(year, month, day) + 1,
        !is_date(year, month, day + 1) && month == 12 ==> day_number(year + 1, 1, 1)
            == day_number(year, month, day) + 1,
{
    lemma_year_length(year);
}

/// A valid time of day has an hour below 24 and a minute and second below 60, and counts the
/// seconds of its day behind those of the days before. The day of the week goes on by one
/// with every day; 1 January 1970 was a Thursday.
pub proof fn law_seconds_and_weekdays(c: CivilTime)
    ensures
        c.valid() <==> 1 <= c.month <= 12 && 1 <= c.day <= days_in_month(
            c.year as int,
            c.month as int,
        ) && c.hour <= 23 && c.minute <= 59 && c.second <= 59,
        c.seconds() == (day_number(c.year as int, c.month as int, c.day as int) * 24 + c.hour)
            * 3600 + c.minute * 60 + c.second,
        c.weekday() == (day_number(c.year as int, c.month as int, c.day as int) + 4) % 7,
{
}

/// The header of a log has, for a moment from 1990 on, the year, month, day of the week, day,
/// hour, minute, second and millisecond of the date that the moment has in UTC.
pub proof fn law_system_time_is_the_date(t: Timestamp, c: CivilTime)
    requires
        t.seconds >= 631_152_000,
        c.valid(),
        -262_143 <= c.year <= 262_142,
        c.seconds() == t.millis as int / 1000,
    ensures
        system_time(Some(t)) == seq![
            c.year as u16,
            c.month as u16,
            c.weekday() as u16,
            c.day as u16,
            c.hour as u16,
            c.minute as u16,
            c.second as u16,
            (t.millis as int % 1000) as u16,
        ],
{
    lemma_civil_at(c);
    lemma_day_within_year(c.year as int, c.month as int, c.day as int);
    lemma_days_before_year_grow(-262_143, c.year as int);
    lemma_days_before_year_grow(c.year as int + 1, 262_143);
}

/// The header of a log has eight zeros for no moment, and for one before 1990.
pub proof fn law_no_system_time(t: Timestamp)
    ensures
        system_time(None) == seq![0u16, 0u16, 0u16, 0u16, 0u16, 0u16, 0u16, 0u16],
        t.seconds < 631_152_000 ==> system_time(Some(t)) == seq![
            0u16,
            0u16,
            0u16,
            0u16,
            0u16,
            0u16,
            0u16,
            0u16,
        ],
{
}

/// The eight numbers in the header of a log are read as the date and time of day that they
/// give, to the millisecond; the day of the week does not matter. Numbers that give no date
/// or no time of day are read as 0.
pub proof fn law_header_numbers_are_a_date(s: Seq<u16>, c: CivilTime)
    requires
        s.len() == 8,
        c.year == s[0] && c.month == s[1] && c.day == s[3],
        c.hour == s[4] && c.minute == s[5] && c.second == s[6],
    ensures
        millis_of_system_time(s) == if c.year > 0 && c.valid() {
            1000 * c.seconds() + s[7]
        } else {
            0
        },
{
    assert(civil_of_system_time(s) == c);
}

} // verus!
