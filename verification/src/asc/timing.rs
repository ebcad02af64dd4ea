//! What the words of a date and a time of day mean.

use vstd::prelude::*;

use crate::asc::clock::{
    day_text, hour_overflows, meridian, moment_of, month_name, month_of, nanos_of, nine_places,
    seconds_of, shows, shows_moment, time_of, weekday_name, year_text, LocalStamp,
};
use crate::asc::dates::lemma_place_is;
use crate::calendar::CivilTime;
use crate::number::{is_decimal_digit, is_digit_of, signed_of, unsigned_digits, unsigned_of};
use crate::text::{
    has_prefix, law_only_digits, law_parts_of_texts, leading_digits, lemma_leading_digits,
    lowercase, only_digits, same_but_case,
};

verus! {

/// The names of months start with these letters: in English, and in German where that differs.
pub open spec fn month_starts() -> Seq<(Seq<char>, u32)> {
    seq![
        ("jan"@, 1),
        ("feb"@, 2),
        ("mar"@, 3),
        ("m\u{e4}r"@, 3),
        ("apr"@, 4),
        ("may"@, 5),
        ("mai"@, 5),
        ("jun"@, 6),
        ("jul"@, 7),
        ("aug"@, 8),
        ("sep"@, 9),
        ("oct"@, 10),
        ("okt"@, 10),
        ("nov"@, 11),
        ("dec"@, 12),
        ("dez"@, 12),
    ]
}

/// A month is told by the letters with which its name starts, whatever follows them; a text
/// that starts as no name does is the number that it stands for.
#[verifier::rlimit(40)]
pub proof fn law_months_by_name(s: Seq<char>, lower: Seq<char>)
    ensures
        forall|i: int|
            0 <= i < month_starts().len() && has_prefix(lower, #[trigger] month_starts()[i].0)
                ==> month_of(s, lower) == Some(month_starts()[i].1),
        (forall|i: int|
            0 <= i < month_starts().len() ==> !has_prefix(lower, #[trigger] month_starts()[i].0))
            ==> month_of(s, lower) == match unsigned_of(s, 10, 0xffff_ffff) {
            Some(n) => Some(n as u32),
            None => None,
        },
{
    reveal_strlit("jan");
    reveal_strlit("feb");
    reveal_strlit("mar");
    reveal_strlit("m\u{e4}r");
    reveal_strlit("apr");
    reveal_strlit("may");
    reveal_strlit("mai");
    reveal_strlit("jun");
    reveal_strlit("jul");
    reveal_strlit("aug");
    reveal_strlit("sep");
    reveal_strlit("oct");
    reveal_strlit("okt");
    reveal_strlit("nov");
    reveal_strlit("dec");
    reveal_strlit("dez");
    let names = month_starts();
    assert forall|i: int| 0 <= i < 16 implies has_prefix(lower, #[trigger] names[i].0) == (
    lower.len() >= 3 && lower[0] == names[i].0[0] && lower[1] == names[i].0[1] && lower[2]
        == names[i].0[2]) by {
        lemma_three_letters(lower, names[i].0);
    }
    assert(names[0].0 == "jan"@ && names[1].0 == "feb"@ && names[2].0 == "mar"@ && names[3].0
        == "m\u{e4}r"@);
    assert(names[4].0 == "apr"@ && names[5].0 == "may"@ && names[6].0 == "mai"@ && names[7].0
        == "jun"@);
    assert(names[8].0 == "jul"@ && names[9].0 == "aug"@ && names[10].0 == "sep"@ && names[11].0
        == "oct"@);
    assert(names[12].0 == "okt"@ && names[13].0 == "nov"@ && names[14].0 == "dec"@ && names[15].0
        == "dez"@);
}

proof fn lemma_three_letters(s: Seq<char>, part: Seq<char>)
    requires
        part.len() == 3,
    ensures
        has_prefix(s, part) == (s.len() >= 3 && s[0] == part[0] && s[1] == part[1] && s[2]
            == part[2]),
{
    law_parts_of_texts(s, part);
}

/// A time of day is an hour, a minute and seconds, which are told apart by colons. What
/// follows a third colon does not matter, and with fewer than two there is no time.
pub proof fn law_times_of_day(
    hour: Seq<char>,
    minute: Seq<char>,
    second: Seq<char>,
    more: Seq<char>,
)
    requires
        forall|i: int| 0 <= i < hour.len() ==> #[trigger] hour[i] != ':',
        forall|i: int| 0 <= i < minute.len() ==> #[trigger] minute[i] != ':',
        forall|i: int| 0 <= i < second.len() ==> #[trigger] second[i] != ':',
    ensures
        time_of(hour + seq![':'] + minute + seq![':'] + second) == match (
            unsigned_of(hour, 10, 0xffff_ffff),
            unsigned_of(minute, 10, 0xffff_ffff),
            seconds_of(second),
        ) {
            (Some(h), Some(m), Some((s, n))) => Some((h as u32, m as u32, s, n)),
            _ => None,
        },
        time_of(hour + seq![':'] + minute + seq![':'] + second + seq![':'] + more) == time_of(
            hour + seq![':'] + minute + seq![':'] + second,
        ),
        time_of(hour) is None,
        time_of(hour + seq![':'] + minute) is None,
{
    let one = hour + seq![':'] + minute;
    let two = one + seq![':'] + second;
    let three = two + seq![':'] + more;
    let i = hour.len() as int;
    let j = one.len() as int;
    let k = two.len() as int;
    lemma_place_is(hour, ':', 0, i);
    assert forall|p: int| 0 <= p < i implies #[trigger] one[p] != ':' by {
        assert(one[p] == hour[p]);
    }
    lemma_place_is(one, ':', 0, i);
    assert forall|p: int| i + 1 <= p < j implies #[trigger] one[p] != ':' by {
        assert(one[p] == minute[p - i - 1]);
    }
    lemma_place_is(one, ':', i + 1, j);
    assert(two.subrange(0, k) =~= two);
    lemma_times_at(hour, minute, second, two, k);
    assert(three.subrange(0, k) =~= two);
    lemma_times_at(hour, minute, second, three, k);
}

#[verifier::rlimit(40)]
proof fn lemma_times_at(
    hour: Seq<char>,
    minute: Seq<char>,
    second: Seq<char>,
    s: Seq<char>,
    k: int,
)
    requires
        forall|i: int| 0 <= i < hour.len() ==> #[trigger] hour[i] != ':',
        forall|i: int| 0 <= i < minute.len() ==> #[trigger] minute[i] != ':',
        forall|i: int| 0 <= i < second.len() ==> #[trigger] second[i] != ':',
        k == hour.len() + minute.len() + second.len() + 2,
        k <= s.len(),
        s.subrange(0, k) == hour + seq![':'] + minute + seq![':'] + second,
        k < s.len() ==> s[k] == ':',
    ensures
        time_of(s) == match (
            unsigned_of(hour, 10, 0xffff_ffff),
            unsigned_of(minute, 10, 0xffff_ffff),
            seconds_of(second),
        ) {
            (Some(h), Some(m), Some((n, f))) => Some((h as u32, m as u32, n, f)),
            _ => None,
        },
{
    let two = hour + seq![':'] + minute + seq![':'] + second;
    let i = hour.len() as int;
    let j = i + 1 + minute.len();
    assert forall|p: int| 0 <= p < k implies #[trigger] s[p] == two[p] by {
        assert(s.subrange(0, k)[p] == s[p]);
    }
    assert forall|p: int| 0 <= p < i implies #[trigger] s[p] != ':' by {
        assert(s[p] == two[p] && two[p] == hour[p]);
    }
    assert forall|p: int| i + 1 <= p < j implies #[trigger] s[p] != ':' by {
        assert(s[p] == two[p] && two[p] == minute[p - i - 1]);
    }
    assert forall|p: int| j + 1 <= p < k implies #[trigger] s[p] != ':' by {
        assert(s[p] == two[p] && two[p] == second[p - j - 1]);
    }
    assert(s[i] == two[i] && s[j] == two[j]);
    lemma_place_is(s, ':', 0, i);
    lemma_place_is(s, ':', i + 1, j);
    lemma_place_is(s, ':', j + 1, k);
    assert(s.take(i) =~= hour);
    assert(s.subrange(i + 1, j) =~= minute);
    assert(s.subrange(j + 1, k) =~= second);
}

/// Seconds are a number, or a number, a point and a fraction.
pub proof fn law_seconds(whole: Seq<char>, fraction: Seq<char>)
    requires
        forall|i: int| 0 <= i < whole.len() ==> #[trigger] whole[i] != '.',
    ensures
        seconds_of(whole) == match unsigned_of(whole, 10, 0xffff_ffff) {
            Some(s) => Some((s as u32, 0u32)),
            None => None,
        },
        seconds_of(whole + seq!['.'] + fraction) == match unsigned_of(whole, 10, 0xffff_ffff) {
            Some(s) => Some((s as u32, nanos_of(fraction) as u32)),
            None => None,
        },
{
    let n = whole.len() as int;
    let s = whole + seq!['.'] + fraction;
    lemma_place_is(whole, '.', 0, n);
    assert forall|p: int| 0 <= p < n implies #[trigger] s[p] != '.' by {
        assert(s[p] == whole[p]);
    }
    lemma_place_is(s, '.', 0, n);
    assert(s.take(n) =~= whole);
    assert(s.skip(n + 1) =~= fraction);
}

/// The digits of a fraction count nanoseconds to nine places: nine digits are their number,
/// fewer are filled up with zeros, and what follows the ninth, or the last, digit does not
/// matter.
pub proof fn law_nanoseconds(digits: Seq<char>, more: Seq<char>)
    requires
        only_digits(digits),
        digits.len() <= 9,
    ensures
        digits.len() == 9 ==> unsigned_of(digits, 10, 999_999_999) == Some(nanos_of(digits)),
        digits.len() == 9 ==> nanos_of(digits + more) == nanos_of(digits),
        digits.len() < 9 ==> nanos_of(digits) == nanos_of(digits.push('0')),
        more.len() > 0 && !(48 <= more[0] as int <= 57) ==> nanos_of(digits + more) == nanos_of(
            digits,
        ),
{
    lemma_leading_digits(digits);
    let n = digits.len() as int;
    assert(digits.take(n) =~= digits);
    if n == 9 {
        assert(nine_places(digits) =~= digits);
        crate::asc::clock::lemma_nine_places(digits);
        assert(is_digit_of(digits[0], 10));
        assert(unsigned_digits(digits) == digits);
        lemma_digits_stay(digits, more);
        assert((digits + more).take(9) =~= digits);
    } else {
        let t = digits.push('0');
        law_only_digits(digits);
        law_only_digits(t);
        assert forall|i: int| 0 <= i < t.len() implies 48 <= (#[trigger] t[i]) as int <= 57 by {
            if i < n {
                assert(t[i] == digits[i]);
            }
        }
        assert(t.take(n + 1) =~= t);
        assert(nine_places(t) =~= nine_places(digits));
    }
    if more.len() > 0 && !(48 <= more[0] as int <= 57) {
        lemma_digits_end(digits, more);
        assert((digits + more).take(n) =~= digits);
    }
}

proof fn lemma_digits_stay(digits: Seq<char>, more: Seq<char>)
    requires
        only_digits(digits),
    ensures
        leading_digits(digits + more) >= digits.len(),
    decreases digits.len(),
{
    let s = digits + more;
    lemma_leading_digits(s);
    if digits.len() > 0 {
        assert(s[0] == digits[0]);
        assert(s.drop_first() =~= digits.drop_first() + more);
        lemma_digits_stay(digits.drop_first(), more);
    }
}

proof fn lemma_digits_end(digits: Seq<char>, more: Seq<char>)
    requires
        only_digits(digits),
        more.len() > 0,
        !is_decimal_digit(more[0]),
    ensures
        leading_digits(digits + more) == digits.len(),
    decreases digits.len(),
{
    let s = digits + more;
    if digits.len() > 0 {
        assert(s[0] == digits[0]);
        assert(s.drop_first() =~= digits.drop_first() + more);
        lemma_digits_end(digits.drop_first(), more);
    } else {
        assert(s =~= more);
    }
}

/// A date is a month, a day, a time of day and a year, in this order; with `AM` or `PM`, of
/// either case, between time and year, where the year is a fifth word. Where one of them is
/// none there is no date.
#[verifier::rlimit(40)]
pub proof fn law_words_of_a_date(parts: Seq<Seq<char>>)
    requires
        parts.len() >= 4,
    ensures
        meridian(parts) == if parts.len() >= 5 && same_but_case(parts[3], "am"@) {
            Some(false)
        } else if parts.len() >= 5 && same_but_case(parts[3], "pm"@) {
            Some(true)
        } else {
            None
        },
        ({
            let year = if meridian(parts) is Some {
                parts[4]
            } else {
                parts[3]
            };
            match (
                month_of(parts[0], lowercase(parts[0])),
                unsigned_of(parts[1], 10, 0xffff_ffff),
                time_of(parts[2]),
                signed_of(year),
            ) {
                (Some(month), Some(day), Some((hour, minute, second, nanos)), Some(y)) => {
                    &&& moment_of(parts) matches Some((c, n))
                    &&& c.year == y && c.month == month && c.day == day
                    &&& c.minute == minute && c.second == second && n == nanos
                    &&& meridian(parts) is None ==> c.hour == hour
                    &&& hour <= 12 && meridian(parts) == Some(false) ==> c.hour == hour as int % 12
                    &&& hour <= 12 && meridian(parts) == Some(true) ==> c.hour == 12 + hour as int
                        % 12
                    &&& hour > 12 && meridian(parts) == Some(false) ==> c.hour == hour
                    &&& hour_overflows(parts) <==> meridian(parts) == Some(true) && hour
                        > 0xffff_fff3
                    &&& 12 < hour <= 0xffff_fff3 && meridian(parts) == Some(true) ==> c.hour
                        == hour + 12
                },
                _ => moment_of(parts) is None && !hour_overflows(parts),
            }
        }),
{
    reveal_strlit("am");
    reveal_strlit("AM");
    reveal_strlit("pm");
    reveal_strlit("PM");
    assert(crate::text::ascii_lower("am"@) =~= crate::text::ascii_lower("AM"@));
    assert(crate::text::ascii_lower("pm"@) =~= crate::text::ascii_lower("PM"@));
    crate::number::lemma_unsigned_range(parts[1], 10, 0xffff_ffff);
    lemma_signed_range(parts[3]);
    if parts.len() >= 5 {
        lemma_signed_range(parts[4]);
    }
}

proof fn lemma_signed_range(s: Seq<char>)
    ensures
        signed_of(s) matches Some(n) ==> i32::MIN <= n <= i32::MAX,
{
    crate::number::lemma_unsigned_range(s, 10, i32::MAX as int);
    if s.len() > 0 && s[0] == '-' {
        let digits = s.drop_first();
        crate::number::lemma_digits_range(digits);
    }
}

/// The names of the days, Sunday first.
pub open spec fn day_names() -> Seq<Seq<char>> {
    seq!["Sun"@, "Mon"@, "Tue"@, "Wed"@, "Thu"@, "Fri"@, "Sat"@]
}

/// The names of the months.
pub open spec fn month_names() -> Seq<Seq<char>> {
    seq![
        "Jan"@,
        "Feb"@,
        "Mar"@,
        "Apr"@,
        "May"@,
        "Jun"@,
        "Jul"@,
        "Aug"@,
        "Sep"@,
        "Oct"@,
        "Nov"@,
        "Dec"@,
    ]
}

/// Whether two digits of a number below 100 stand at a place of a text.
pub open spec fn has_two_digits(s: Seq<char>, at: int, n: int) -> bool {
    s[at] as int == 48 + n / 10 && s[at + 1] as int == 48 + n % 10
}

/// A date is shown as the day of the week, the month, the day of the month in two digits and
/// the time of day, in nineteen letters.
#[verifier::rlimit(40)]
pub proof fn law_shown_dates(c: CivilTime, leap: bool)
    requires
        c.valid(),
    ensures
        ({
            let s = day_text(c, leap);
            &&& s.len() == 19
            &&& s.subrange(0, 3) == day_names()[c.weekday()]
            &&& s.subrange(4, 7) == month_names()[c.month - 1]
            &&& s[3] == ' ' && s[7] == ' ' && s[10] == ' ' && s[13] == ':' && s[16] == ':'
            &&& has_two_digits(s, 8, c.day as int)
            &&& has_two_digits(s, 11, c.hour as int)
            &&& has_two_digits(s, 14, c.minute as int)
            &&& has_two_digits(s, 17, if leap {
                c.second + 1
            } else {
                c.second as int
            })
        }),
{
    let s = day_text(c, leap);
    let a = weekday_name(c.weekday());
    let b = month_name(c.month as int);
    reveal_strlit("Sun");
    reveal_strlit("Mon");
    reveal_strlit("Tue");
    reveal_strlit("Wed");
    reveal_strlit("Thu");
    reveal_strlit("Fri");
    reveal_strlit("Sat");
    reveal_strlit("Jan");
    reveal_strlit("Feb");
    reveal_strlit("Mar");
    reveal_strlit("Apr");
    reveal_strlit("May");
    reveal_strlit("Jun");
    reveal_strlit("Jul");
    reveal_strlit("Aug");
    reveal_strlit("Sep");
    reveal_strlit("Oct");
    reveal_strlit("Nov");
    reveal_strlit("Dec");
    assert(a.len() == 3 && b.len() == 3);
    assert(a == day_names()[c.weekday()]);
    assert(b == month_names()[c.month - 1]);
    assert(s.subrange(0, 3) =~= a);
    assert(s.subrange(4, 7) =~= b);
}

/// A stamp shows the milliseconds of its moment and a date that is less than a day from it, as
/// zones are; in a leap second the milliseconds run on.
pub proof fn law_stamps(seconds: i64, nanos: u32, stamp: LocalStamp)
    requires
        shows_moment(stamp, seconds, nanos),
    ensures
        stamp.millis == nanos as int / 1_000_000,
        ({
            let leap = nanos >= 1_000_000_000;
            exists|c: CivilTime|
                {
                    &&& c.valid() && -86_400 < c.seconds() - seconds < 86_400
                    &&& stamp.text@ == #[trigger] day_text(c, leap)
                    &&& stamp.year@ == year_text(c.year as int)
                }
        }),
{
    let leap = nanos >= 1_000_000_000;
    let c = choose|c: CivilTime|
        c.valid() && -86_400 < c.seconds() - seconds < 86_400 && #[trigger] shows(stamp, c, leap);
    assert(stamp.text@ == day_text(c, leap));
}

} // verus!
