//! Dates and times of day as the format writes them.

use chrono::TimeZone;
use vstd::arithmetic::power::pow;
use vstd::prelude::*;

use crate::calendar::{first_second, in_range, last_second, CivilTime};
use crate::message::Timestamp;
use crate::number::{
    all_digits, at_most, decimal, digits_value, format_decimal, is_decimal_digit, is_digit_of,
    lemma_digits_value_below, parse_signed, parse_unsigned, signed_of, unsigned_digits, unsigned_of,
    upper_digit,
};
use crate::text::{
    chars_of, count_digits, find_char, has_prefix, leading_digits, lemma_leading_digits, lowercase,
    part, place_of, same_but_case, same_letters, starts_with, text_of, to_lowercase, word_views,
};

verus! {

/// The English name of a day of the week in three letters, Sunday being 0.
pub open spec fn weekday_name(weekday: int) -> Seq<char> {
    if weekday == 0 {
        "Sun"@
    } else if weekday == 1 {
        "Mon"@
    } else if weekday == 2 {
        "Tue"@
    } else if weekday == 3 {
        "Wed"@
    } else if weekday == 4 {
        "Thu"@
    } else if weekday == 5 {
        "Fri"@
    } else {
        "Sat"@
    }
}

/// The English name of a month in three letters.
pub open spec fn month_name(month: int) -> Seq<char> {
    if month == 1 {
        "Jan"@
    } else if month == 2 {
        "Feb"@
    } else if month == 3 {
        "Mar"@
    } else if month == 4 {
        "Apr"@
    } else if month == 5 {
        "May"@
    } else if month == 6 {
        "Jun"@
    } else if month == 7 {
        "Jul"@
    } else if month == 8 {
        "Aug"@
    } else if month == 9 {
        "Sep"@
    } else if month == 10 {
        "Oct"@
    } else if month == 11 {
        "Nov"@
    } else {
        "Dec"@
    }
}

/// A number below 100 in two digits.
pub open spec fn two_digits(n: int) -> Seq<char> {
    seq![upper_digit(n / 10), upper_digit(n % 10)]
}

/// The day of the week, the month, the day and the time of day, in fixed places. In a
/// leap second the seconds are one more.
pub open spec fn day_text(c: CivilTime, leap: bool) -> Seq<char> {
    let second = if leap {
        c.second + 1
    } else {
        c.second as int
    };
    weekday_name(c.weekday()) + seq![' '] + month_name(c.month as int) + seq![' '] + two_digits(
        c.day as int,
    ) + seq![' '] + two_digits(c.hour as int) + seq![':'] + two_digits(c.minute as int) + seq![
        ':',
    ] + two_digits(second)
}

/// A number in decimal, filled up with zeros to four digits.
pub open spec fn four_digits(n: int) -> Seq<char> {
    if n < 10 {
        seq!['0', '0', '0'] + decimal(n)
    } else if n < 100 {
        seq!['0', '0'] + decimal(n)
    } else if n < 1000 {
        seq!['0'] + decimal(n)
    } else {
        decimal(n)
    }
}

/// A year in at least four digits, with a sign where it lies outside 0 to 9999.
pub open spec fn year_text(year: int) -> Seq<char> {
    if year < 0 {
        seq!['-'] + four_digits(-year)
    } else if year <= 9999 {
        four_digits(year)
    } else {
        seq!['+'] + four_digits(year)
    }
}

/// A moment in local time, written out as far as chrono does that.
pub struct LocalStamp {
    /// The day of the week, the month, the day and the time of day.
    pub text: String,
    /// The milliseconds. In a leap second they run from 1000.
    pub millis: u32,
    /// The year.
    pub year: String,
}

/// Whether a stamp shows a date and time of day, maybe in a leap second.
pub open spec fn shows(stamp: LocalStamp, c: CivilTime, leap: bool) -> bool {
    stamp.text@ == day_text(c, leap) && stamp.year@ == year_text(c.year as int)
}

/// Whether there is a moment of this second and these nanoseconds: the second can be
/// told apart, and the nanoseconds stay below one second, or below two at the end of a
/// minute, which a leap second makes longer.
pub open spec fn is_moment(seconds: i64, nanos: u32) -> bool {
    first_second() <= seconds <= last_second() && (nanos < 1_000_000_000 || (nanos < 2_000_000_000
        && seconds as int % 60 == 59))
}

/// Whether a stamp shows a moment in some zone less than a day from UTC.
pub open spec fn shows_moment(stamp: LocalStamp, seconds: i64, nanos: u32) -> bool {
    let leap = nanos >= 1_000_000_000;
    &&& stamp.millis == nanos / 1_000_000
    &&& exists|c: CivilTime|
        c.valid() && -86_400 < c.seconds() - seconds < 86_400 && #[trigger] shows(stamp, c, leap)
}

/// Whether a stamp shows some moment that is in no leap second.
pub open spec fn shows_some_moment(stamp: LocalStamp) -> bool {
    &&& stamp.millis < 1000
    &&& exists|c: CivilTime| c.valid() && #[trigger] shows(stamp, c, false)
}

/// `TimeZone::timestamp_opt` of `chrono::Local`, and what `DateTime::format` and
/// `timestamp_subsec_millis` give of the moment: whether there is such a moment, and the
/// date and time of day that it has in the zone of the machine, in English. Which zone
/// that is stays open; a zone a day or more away from UTC would make chrono panic.
#[verifier::external_body]
fn local_stamp(seconds: i64, nanos: u32) -> (res: Option<LocalStamp>)
    ensures
        match res {
            Some(stamp) => is_moment(seconds, nanos) && shows_moment(stamp, seconds, nanos),
            None => !is_moment(seconds, nanos),
        },
{
    let dt = chrono::Local.timestamp_opt(seconds, nanos).single()?;
    Some(LocalStamp {
        text: dt.format("%a %b %d %H:%M:%S").to_string(),
        millis: dt.timestamp_subsec_millis(),
        year: dt.format("%Y").to_string(),
    })
}

/// `chrono::Local::now`, and what `DateTime::format` and `timestamp_subsec_millis` give
/// of it: some date and time of day, in English. Which moment it is and in which zone
/// stays open; a clock set before 1970 would make chrono panic, and so would a zone a
/// day or more away from UTC.
#[verifier::external_body]
pub(crate) fn local_now() -> (stamp: LocalStamp)
    ensures
        shows_some_moment(stamp),
{
    let dt = chrono::Local::now();
    LocalStamp {
        text: dt.format("%a %b %d %H:%M:%S").to_string(),
        millis: dt.timestamp_subsec_millis(),
        year: dt.format("%Y").to_string(),
    }
}

/// Whether an instant may be the one at which a clock in local time shows a date and
/// time of day: there is such a date and time of day, and the zone is less than a day
/// from UTC. There may be none, as when clocks are set forward.
pub open spec fn may_be_local(c: CivilTime, nanos: u32, instant: Option<(i64, u32)>) -> bool {
    match instant {
        Some((seconds, n)) => c.valid() && in_range(c.year) && n == nanos && -86_400 < seconds
            - c.seconds() < 86_400,
        None => true,
    }
}

/// `chrono::NaiveDate::from_ymd_opt`, `chrono::NaiveTime::from_hms_nano_opt` and
/// `TimeZone::from_local_datetime` of `chrono::Local`, and the Unix time of the single
/// moment that they give: none where there is no such date or time of day. Which zone
/// the machine has stays open, and so does whether its clocks skip or repeat the time.
#[verifier::external_body]
pub(crate) fn local_instant(c: CivilTime, nanos: u32) -> (instant: Option<(i64, u32)>)
    requires
        nanos < 1_000_000_000,
    ensures
        may_be_local(c, nanos, instant),
{
    let date = chrono::NaiveDate::from_ymd_opt(c.year, c.month, c.day)?;
    let time = chrono::NaiveTime::from_hms_nano_opt(c.hour, c.minute, c.second, nanos)?;
    let naive = chrono::NaiveDateTime::new(date, time);
    let dt = chrono::Local.from_local_datetime(&naive).single()?;
    Some((dt.timestamp(), dt.timestamp_subsec_nanos()))
}

/// A number in decimal, filled up with zeros to three digits.
pub open spec fn three_digits(n: int) -> Seq<char> {
    if n < 10 {
        seq!['0', '0'] + decimal(n)
    } else if n < 100 {
        seq!['0'] + decimal(n)
    } else {
        decimal(n)
    }
}

/// The date of a header line or of a block of events.
pub open spec fn date_text(stamp: LocalStamp) -> Seq<char> {
    stamp.text@ + seq!['.'] + three_digits(stamp.millis as int) + seq![' '] + stamp.year@
}

/// The date of a header line or of a block of events.
pub fn format_header_datetime(stamp: &LocalStamp) -> (text: String)
    ensures
        text@ == date_text(*stamp),
{
    let mut text: String = String::new();
    text.append(stamp.text.as_str());
    text.push('.');
    if stamp.millis < 10 {
        text.push('0');
    }
    if stamp.millis < 100 {
        text.push('0');
    }
    text.append(format_decimal(stamp.millis as u64).as_str());
    text.push(' ');
    text.append(stamp.year.as_str());
    assert(text@ =~= date_text(*stamp));
    text
}

/// The moment that a timestamp stands for, in local time. Where there is no such moment
/// it is the present one.
pub fn datetime_from_timestamp(time: Timestamp) -> (stamp: LocalStamp)
    ensures
        if is_moment(time.seconds, time.nanos) {
            shows_moment(stamp, time.seconds, time.nanos)
        } else {
            shows_some_moment(stamp)
        },
{
    match local_stamp(time.seconds, time.nanos) {
        Some(stamp) => stamp,
        None => local_now(),
    }
}

/// The month that a name, in lower case, starts with: in English, or as German writes
/// it where that differs.
pub open spec fn named_month(lower: Seq<char>) -> Option<u32> {
    if has_prefix(lower, "jan"@) {
        Some(1)
    } else if has_prefix(lower, "feb"@) {
        Some(2)
    } else if has_prefix(lower, "mar"@) {
        Some(3)
    } else if has_prefix(lower, "apr"@) {
        Some(4)
    } else if has_prefix(lower, "may"@) {
        Some(5)
    } else if has_prefix(lower, "jun"@) {
        Some(6)
    } else if has_prefix(lower, "jul"@) {
        Some(7)
    } else if has_prefix(lower, "aug"@) {
        Some(8)
    } else if has_prefix(lower, "sep"@) {
        Some(9)
    } else if has_prefix(lower, "oct"@) || has_prefix(lower, "okt"@) {
        Some(10)
    } else if has_prefix(lower, "nov"@) {
        Some(11)
    } else if has_prefix(lower, "dec"@) || has_prefix(lower, "dez"@) {
        Some(12)
    } else if has_prefix(lower, "m\u{e4}r"@) {
        Some(3)
    } else if has_prefix(lower, "mai"@) {
        Some(5)
    } else {
        None
    }
}

/// The month that a text stands for: by its name, or by a number.
pub open spec fn month_of(s: Seq<char>, lower: Seq<char>) -> Option<u32> {
    match named_month(lower) {
        Some(month) => Some(month),
        None => match unsigned_of(s, 10, u32::MAX as int) {
            Some(n) => Some(n as u32),
            None => None,
        },
    }
}

/// The month that a text stands for, given the text also in lower case.
pub fn parse_month(s: &[char], lower: &[char]) -> (month: Option<u32>)
    ensures
        month == month_of(s@, lower@),
{
    if starts_with(lower, "jan") {
        Some(1)
    } else if starts_with(lower, "feb") {
        Some(2)
    } else if starts_with(lower, "mar") {
        Some(3)
    } else if starts_with(lower, "apr") {
        Some(4)
    } else if starts_with(lower, "may") {
        Some(5)
    } else if starts_with(lower, "jun") {
        Some(6)
    } else if starts_with(lower, "jul") {
        Some(7)
    } else if starts_with(lower, "aug") {
        Some(8)
    } else if starts_with(lower, "sep") {
        Some(9)
    } else if starts_with(lower, "oct") || starts_with(lower, "okt") {
        Some(10)
    } else if starts_with(lower, "nov") {
        Some(11)
    } else if starts_with(lower, "dec") || starts_with(lower, "dez") {
        Some(12)
    } else if starts_with(lower, "m\u{e4}r") {
        Some(3)
    } else if starts_with(lower, "mai") {
        Some(5)
    } else {
        parse_u32(s)
    }
}

/// The 32-bit number that a decimal text stands for.
fn parse_u32(s: &[char]) -> (n: Option<u32>)
    ensures
        match n {
            Some(v) => unsigned_of(s@, 10, u32::MAX as int) == Some(v as int),
            None => unsigned_of(s@, 10, u32::MAX as int) is None,
        },
{
    match parse_unsigned(s, 10, u32::MAX as u64) {
        Some(v) => Some(v as u32),
        None => None,
    }
}

/// The digits of a fraction of a second, to nine places.
pub open spec fn nine_places(fraction: Seq<char>) -> Seq<char> {
    let n = at_most(leading_digits(fraction), 9);
    fraction.take(n) + Seq::new((9 - n) as nat, |i: int| '0')
}

/// The nanoseconds of a fraction of a second. What follows its digits does not count.
pub open spec fn nanos_of(fraction: Seq<char>) -> int {
    digits_value(nine_places(fraction), 10)
}

/// The seconds and nanoseconds that a text stands for.
pub open spec fn seconds_of(s: Seq<char>) -> Option<(u32, u32)> {
    let dot = place_of(s, '.', 0);
    if dot >= s.len() {
        match unsigned_of(s, 10, u32::MAX as int) {
            Some(second) => Some((second as u32, 0)),
            None => None,
        }
    } else {
        match unsigned_of(s.take(dot), 10, u32::MAX as int) {
            Some(second) => Some((second as u32, nanos_of(s.skip(dot + 1)) as u32)),
            None => None,
        }
    }
}

/// The hour, minute, second and nanoseconds that a text stands for: the numbers between
/// colons. What follows a third colon does not count.
pub open spec fn time_of(s: Seq<char>) -> Option<(u32, u32, u32, u32)> {
    let i = place_of(s, ':', 0);
    let j = place_of(s, ':', i + 1);
    let k = place_of(s, ':', j + 1);
    if i >= s.len() || j >= s.len() {
        None
    } else {
        match (
            unsigned_of(s.take(i), 10, u32::MAX as int),
            unsigned_of(s.subrange(i + 1, j), 10, u32::MAX as int),
            seconds_of(s.subrange(j + 1, k)),
        ) {
            (Some(hour), Some(minute), Some((second, nanos))) => Some(
                (hour as u32, minute as u32, second, nanos),
            ),
            _ => None,
        }
    }
}

/// Nine digits are nine digits.
pub(crate) proof fn lemma_nine_places(fraction: Seq<char>)
    ensures
        nine_places(fraction).len() == 9,
        all_digits(nine_places(fraction), 10),
        0 <= nanos_of(fraction) < 1_000_000_000,
{
    lemma_leading_digits(fraction);
    let s = nine_places(fraction);
    let n = at_most(leading_digits(fraction), 9);
    assert forall|i: int| 0 <= i < 9 implies is_digit_of(#[trigger] s[i], 10) by {
        if i < n {
            assert(s[i] == fraction[i]);
            assert(is_decimal_digit(fraction[i]));
        }
    }
    lemma_digits_value_below(s);
    reveal_with_fuel(pow, 10);
}

/// The nanoseconds of a fraction of a second.
fn parse_nanos(fraction: &[char]) -> (nanos: u32)
    ensures
        nanos == nanos_of(fraction@),
        nanos < 1_000_000_000,
{
    assert(fraction@.skip(0) =~= fraction@);
    let digits: usize = count_digits(fraction, 0);
    let n: usize = if digits <= 9 {
        digits
    } else {
        9
    };
    let mut places: Vec<char> = part(fraction, 0, n);
    assert(places@ =~= fraction@.take(n as int) + Seq::new(0, |i: int| '0'));
    while places.len() < 9
        invariant
            n <= places@.len() <= 9,
            places@ == fraction@.take(n as int) + Seq::new(
                (places@.len() - n) as nat,
                |i: int| '0',
            ),
        decreases 9 - places@.len(),
    {
        places.push('0');
        assert(places@ =~= fraction@.take(n as int) + Seq::new(
            (places@.len() - n) as nat,
            |i: int| '0',
        ));
    }
    proof {
        assert(places@ =~= nine_places(fraction@));
        lemma_nine_places(fraction@);
        assert(is_digit_of(places@[0], 10));
        assert(unsigned_digits(places@) == places@);
    }
    match parse_unsigned(&places, 10, u32::MAX as u64) {
        Some(nanos) => nanos as u32,
        None => 0,
    }
}

/// The seconds and nanoseconds that a text stands for.
fn parse_seconds(s: &[char]) -> (res: Option<(u32, u32)>)
    ensures
        res == seconds_of(s@),
        res matches Some((second, nanos)) ==> nanos < 1_000_000_000,
{
    let dot: usize = find_char(s, '.', 0);
    if dot == s.len() {
        match parse_u32(s) {
            Some(second) => Some((second, 0)),
            None => None,
        }
    } else {
        let whole: Vec<char> = part(s, 0, dot);
        let fraction: Vec<char> = part(s, dot + 1, s.len());
        assert(whole@ =~= s@.take(dot as int));
        assert(fraction@ =~= s@.skip(dot + 1));
        match parse_u32(&whole) {
            Some(second) => Some((second, parse_nanos(&fraction))),
            None => None,
        }
    }
}

/// The hour, minute, second and nanoseconds that a text stands for.
pub fn parse_time(s: &[char]) -> (res: Option<(u32, u32, u32, u32)>)
    ensures
        res == time_of(s@),
        res matches Some((hour, minute, second, nanos)) ==> nanos < 1_000_000_000,
{
    let i: usize = find_char(s, ':', 0);
    if i == s.len() {
        return None;
    }
    let j: usize = find_char(s, ':', i + 1);
    if j == s.len() {
        return None;
    }
    let k: usize = find_char(s, ':', j + 1);
    let hours: Vec<char> = part(s, 0, i);
    assert(hours@ =~= s@.take(i as int));
    let minutes: Vec<char> = part(s, i + 1, j);
    let seconds: Vec<char> = part(s, j + 1, k);
    match (parse_u32(&hours), parse_u32(&minutes), parse_seconds(&seconds)) {
        (Some(hour), Some(minute), Some((second, nanos))) => Some((hour, minute, second, nanos)),
        _ => None,
    }
}

/// Whether the fourth word of a date says that the hours count from noon, or that they
/// count from midnight, where a fifth word follows.
pub open spec fn meridian(parts: Seq<Seq<char>>) -> Option<bool> {
    if parts.len() >= 5 && same_but_case(parts[3], "AM"@) {
        Some(false)
    } else if parts.len() >= 5 && same_but_case(parts[3], "PM"@) {
        Some(true)
    } else {
        None
    }
}

/// The hour of the day for an hour that may count from noon.
pub open spec fn hour_of_day(hour: int, meridian: Option<bool>) -> int {
    match meridian {
        Some(pm) => if hour == 12 {
            if pm {
                12
            } else {
                0
            }
        } else if pm {
            hour + 12
        } else {
            hour
        },
        None => hour,
    }
}

/// The date, time of day and nanoseconds in the words of a date: month, day, time,
/// maybe AM or PM, year. The hour is given as it comes out, whatever its size.
pub open spec fn date_words(parts: Seq<Seq<char>>) -> Option<(CivilTime, int, u32)> {
    if parts.len() < 4 {
        None
    } else {
        let year_word = if meridian(parts) is Some {
            parts[4]
        } else {
            parts[3]
        };
        match (
            month_of(parts[0], lowercase(parts[0])),
            unsigned_of(parts[1], 10, u32::MAX as int),
            signed_of(year_word),
            time_of(parts[2]),
        ) {
            (Some(month), Some(day), Some(year), Some((hour, minute, second, nanos))) => {
                let h = hour_of_day(hour as int, meridian(parts));
                let c = CivilTime {
                    year: year as i32,
                    month,
                    day: day as u32,
                    hour: h as u32,
                    minute,
                    second,
                };
                Some((c, h, nanos))
            },
            _ => None,
        }
    }
}

/// Whether the hour of a date is out of all bounds.
pub open spec fn hour_overflows(parts: Seq<Seq<char>>) -> bool {
    date_words(parts) matches Some((c, hour, nanos)) && hour > u32::MAX
}

/// The date, time of day and nanoseconds in the words of a date.
pub open spec fn moment_of(parts: Seq<Seq<char>>) -> Option<(CivilTime, u32)> {
    match date_words(parts) {
        Some((c, hour, nanos)) => Some((c, nanos)),
        None => None,
    }
}

/// Whether the fourth word of a date says that the hours count from noon.
fn find_meridian(parts: &[Vec<char>]) -> (res: Option<bool>)
    ensures
        res == meridian(word_views(parts@)),
{
    if parts.len() < 5 {
        return None;
    }
    assert(word_views(parts@)[3] == parts@[3]@);
    if same_letters(&parts[3], "AM") {
        Some(false)
    } else if same_letters(&parts[3], "PM") {
        Some(true)
    } else {
        None
    }
}

/// The date, the time of day before the hours are counted from midnight, and whether
/// they count from noon.
fn parse_date_words(parts: &[Vec<char>]) -> (res: Option<(CivilTime, Option<bool>, u32)>)
    ensures
        match res {
            Some((c, pm, nanos)) => date_words(word_views(parts@)) == Some(
                (
                    CivilTime { hour: hour_of_day(c.hour as int, pm) as u32, ..c },
                    hour_of_day(c.hour as int, pm),
                    nanos,
                ),
            ) && nanos < 1_000_000_000,
            None => date_words(word_views(parts@)) is None,
        },
{
    if parts.len() < 4 {
        return None;
    }
    let pm: Option<bool> = find_meridian(parts);
    let month_text: String = text_of(&parts[0]);
    let lower: Vec<char> = chars_of(to_lowercase(month_text.as_str()).as_str());
    assert(word_views(parts@)[0] == parts@[0]@);
    assert(word_views(parts@)[1] == parts@[1]@);
    assert(word_views(parts@)[2] == parts@[2]@);
    assert(lower@ == lowercase(parts@[0]@));
    let month: u32 = match parse_month(&parts[0], &lower) {
        Some(month) => month,
        None => {
            return None;
        },
    };
    let day: u32 = match parse_u32(&parts[1]) {
        Some(day) => day,
        None => {
            return None;
        },
    };
    let year_at: usize = if pm.is_some() {
        4
    } else {
        3
    };
    assert(word_views(parts@)[year_at as int] == parts@[year_at as int]@);
    let year: i32 = match parse_signed(&parts[year_at]) {
        Some(year) => year,
        None => {
            return None;
        },
    };
    match parse_time(&parts[2]) {
        Some((hour, minute, second, nanos)) => Some(
            (CivilTime { year, month, day, hour, minute, second }, pm, nanos),
        ),
        None => None,
    }
}

/// Whether the hour of a date is out of all bounds.
pub fn has_wild_hour(parts: &[Vec<char>]) -> (res: bool)
    ensures
        res == hour_overflows(word_views(parts@)),
{
    match parse_date_words(parts) {
        Some((c, pm, _)) => pm == Some(true) && c.hour > u32::MAX - 12,
        None => false,
    }
}

/// The date, time of day and nanoseconds in the words of a date.
pub fn parse_date(parts: &[Vec<char>]) -> (res: Option<(CivilTime, u32)>)
    requires
        !hour_overflows(word_views(parts@)),
    ensures
        res == moment_of(word_views(parts@)),
        res matches Some((c, nanos)) ==> nanos < 1_000_000_000,
{
    match parse_date_words(parts) {
        Some((c, pm, nanos)) => {
            let hour: u32 = match pm {
                Some(true) => if c.hour == 12 {
                    12
                } else {
                    c.hour + 12
                },
                Some(false) => if c.hour == 12 {
                    0
                } else {
                    c.hour
                },
                None => c.hour,
            };
            Some((CivilTime { hour, ..c }, nanos))
        },
        None => None,
    }
}

} // verus!
