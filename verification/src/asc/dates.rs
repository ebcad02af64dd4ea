//! What reading gives back of the dates that are written.

use vstd::prelude::*;

use crate::asc::clock::{
    date_text, date_words, four_digits, hour_overflows, may_be_local, meridian, moment_of,
    month_name, month_of, named_month, nanos_of, nine_places, shows, three_digits, time_of,
    two_digits, weekday_name, year_text, LocalStamp,
};
use crate::asc::laws::{lemma_blank_front, lemma_no_prefix, lemma_same_but_case};
use crate::asc::reader::{
    behind_second_space, body_line, can_read, header_line, line_of, may_answer, may_start, started,
    AscNextView, AscView,
};
use crate::asc::writer::block_line;
use crate::calendar::CivilTime;
use crate::error::ErrorView;
use crate::number::{
    decimal, digits_value, is_decimal_digit, is_digit_of, is_numeral, law_decimal_read_back,
    lemma_numeral_is_read, signed_of, upper_digit,
};
use crate::sentence::{blanks, is_word, lemma_first_word};
use crate::text::{
    ascii_lower, has_part, has_prefix, is_ascii_char, is_ascii_text, is_space, leading_digits,
    lemma_leading_digits, lemma_leading_spaces_are, lower_char, lowercase, place_of, same_but_case,
    stands_at, trim_end, trimmed, words,
};

verus! {

/// A place is the first that holds a character if no place before it does.
pub(crate) proof fn lemma_place_is(s: Seq<char>, c: char, from: int, at: int)
    requires
        0 <= from <= at <= s.len(),
        forall|i: int| from <= i < at ==> #[trigger] s[i] != c,
        at < s.len() ==> s[at] == c,
    ensures
        place_of(s, c, from) == at,
    decreases at - from,
{
    if from < at {
        lemma_place_is(s, c, from + 1, at);
    }
}

/// Texts of three letters are the start of each other if the letters are the same.
proof fn lemma_three_letters(s: Seq<char>, prefix: Seq<char>)
    requires
        s.len() == 3,
        prefix.len() == 3,
    ensures
        has_prefix(s, prefix) <==> s[0] == prefix[0] && s[1] == prefix[1] && s[2] == prefix[2],
{
    let t = s.subrange(0, 3);
    assert(t[0] == s[0] && t[1] == s[1] && t[2] == s[2]);
    if s[0] == prefix[0] && s[1] == prefix[1] && s[2] == prefix[2] {
        assert(t =~= prefix);
    }
}

/// The letters of the names of months that are read.
proof fn lemma_month_letters(s: Seq<char>)
    requires
        s.len() == 3,
    ensures
        named_month(s) == if s == seq!['j', 'a', 'n'] {
            Some(1u32)
        } else if s == seq!['f', 'e', 'b'] {
            Some(2u32)
        } else if s == seq!['m', 'a', 'r'] {
            Some(3u32)
        } else if s == seq!['a', 'p', 'r'] {
            Some(4u32)
        } else if s == seq!['m', 'a', 'y'] {
            Some(5u32)
        } else if s == seq!['j', 'u', 'n'] {
            Some(6u32)
        } else if s == seq!['j', 'u', 'l'] {
            Some(7u32)
        } else if s == seq!['a', 'u', 'g'] {
            Some(8u32)
        } else if s == seq!['s', 'e', 'p'] {
            Some(9u32)
        } else if s == seq!['o', 'c', 't'] {
            Some(10u32)
        } else if s == seq!['n', 'o', 'v'] {
            Some(11u32)
        } else if s == seq!['d', 'e', 'c'] {
            Some(12u32)
        } else {
            named_month(s)
        },
{
    reveal_strlit("jan");
    reveal_strlit("feb");
    reveal_strlit("mar");
    reveal_strlit("apr");
    reveal_strlit("may");
    reveal_strlit("jun");
    reveal_strlit("jul");
    reveal_strlit("aug");
    reveal_strlit("sep");
    reveal_strlit("oct");
    reveal_strlit("okt");
    reveal_strlit("nov");
    reveal_strlit("dec");
    lemma_three_letters(s, "jan"@);
    lemma_three_letters(s, "feb"@);
    lemma_three_letters(s, "mar"@);
    lemma_three_letters(s, "apr"@);
    lemma_three_letters(s, "may"@);
    lemma_three_letters(s, "jun"@);
    lemma_three_letters(s, "jul"@);
    lemma_three_letters(s, "aug"@);
    lemma_three_letters(s, "sep"@);
    lemma_three_letters(s, "oct"@);
    lemma_three_letters(s, "okt"@);
    lemma_three_letters(s, "nov"@);
    lemma_three_letters(s, "dec"@);
}

/// A text of three capital or small letters of ASCII is a word, and known in lower case.
proof fn lemma_letters(s: Seq<char>)
    requires
        s.len() == 3,
        forall|i: int| 0 <= i < 3 ==> 'A' <= #[trigger] s[i] <= 'z',
    ensures
        is_word(s),
        is_ascii_text(s),
        lowercase(s) == seq![lower_char(s[0]), lower_char(s[1]), lower_char(s[2])],
{
    assert(ascii_lower(s) =~= seq![lower_char(s[0]), lower_char(s[1]), lower_char(s[2])]);
}

/// The name of a month is read as that month.
proof fn lemma_month_word(month: int)
    requires
        1 <= month <= 12,
    ensures
        month_name(month).len() == 3,
        is_word(month_name(month)),
        is_ascii_text(month_name(month)),
        month_of(month_name(month), lowercase(month_name(month))) == Some(month as u32),
{
    reveal_strlit("Jan");
    reveal_strlit("Feb");
    reveal_strlit("Mar");
    reveal_strlit("Apr");
    reveal_strlit("May");
    reveal_strlit("Jun");
    reveal_strlit("Jul");
    reveal_strlit("Aug");
    reveal_strlit("Sep");
    reveal_strlit("Oct");
    reveal_strlit("Nov");
    reveal_strlit("Dec");
    let s = month_name(month);
    lemma_letters(s);
    let lower = lowercase(s);
    lemma_month_letters(lower);
    assert(month == 1 ==> lower =~= seq!['j', 'a', 'n']);
    assert(month == 2 ==> lower =~= seq!['f', 'e', 'b']);
    assert(month == 3 ==> lower =~= seq!['m', 'a', 'r']);
    assert(month == 4 ==> lower =~= seq!['a', 'p', 'r']);
    assert(month == 5 ==> lower =~= seq!['m', 'a', 'y']);
    assert(month == 6 ==> lower =~= seq!['j', 'u', 'n']);
    assert(month == 7 ==> lower =~= seq!['j', 'u', 'l']);
    assert(month == 8 ==> lower =~= seq!['a', 'u', 'g']);
    assert(month == 9 ==> lower =~= seq!['s', 'e', 'p']);
    assert(month == 10 ==> lower =~= seq!['o', 'c', 't']);
    assert(month == 11 ==> lower =~= seq!['n', 'o', 'v']);
    assert(month == 12 ==> lower =~= seq!['d', 'e', 'c']);
}

/// The name of a day of the week is a word.
proof fn lemma_weekday_word(weekday: int)
    ensures
        weekday_name(weekday).len() == 3,
        is_word(weekday_name(weekday)),
        is_ascii_text(weekday_name(weekday)),
        forall|i: int|
            0 <= i < 3 ==> #[trigger] lower_char(weekday_name(weekday)[i]) == 'i' ==> i == 2,
{
    reveal_strlit("Sun");
    reveal_strlit("Mon");
    reveal_strlit("Tue");
    reveal_strlit("Wed");
    reveal_strlit("Thu");
    reveal_strlit("Fri");
    reveal_strlit("Sat");
    lemma_letters(weekday_name(weekday));
}

/// A numeral is a word of ASCII.
proof fn lemma_numeral_ascii(s: Seq<char>, n: int)
    requires
        is_numeral(s, 10, n),
    ensures
        is_word(s),
        is_ascii_text(s),
        forall|i: int| 0 <= i < s.len() ==> is_decimal_digit(#[trigger] s[i]),
{
    assert forall|i: int| 0 <= i < s.len() implies is_decimal_digit(#[trigger] s[i]) by {
        assert(is_digit_of(s[i], 10));
    }
}

/// A zero in front of a numeral changes nothing.
proof fn lemma_leading_zero(s: Seq<char>, n: int)
    requires
        is_numeral(s, 10, n),
    ensures
        is_numeral(seq!['0'] + s, 10, n),
    decreases s.len(),
{
    let t = seq!['0'] + s;
    assert forall|i: int| 0 <= i < t.len() implies is_digit_of(#[trigger] t[i], 10) by {
        if i > 0 {
            assert(is_digit_of(s[i - 1], 10));
        }
    }
    assert(t.drop_last() =~= seq!['0'] + s.drop_last());
    if s.len() == 1 {
        assert(s.drop_last() =~= Seq::<char>::empty());
        assert(t.drop_last() =~= seq!['0']);
        assert(t.drop_last().drop_last() =~= Seq::<char>::empty());
        assert(digits_value(t.drop_last().drop_last(), 10) == 0);
        assert(t.drop_last().last() == '0');
        assert(digits_value(t.drop_last(), 10) == 0);
    } else {
        assert forall|i: int| 0 <= i < s.drop_last().len() implies is_digit_of(
            #[trigger] s.drop_last()[i],
            10,
        ) by {
            assert(is_digit_of(s[i], 10));
        }
        lemma_leading_zero(s.drop_last(), digits_value(s.drop_last(), 10));
    }
}

/// Two digits are read as the number that they stand for.
proof fn lemma_two_digits(n: int)
    requires
        0 <= n < 100,
    ensures
        two_digits(n).len() == 2,
        is_numeral(two_digits(n), 10, n),
{
    law_decimal_read_back(n);
    if n < 10 {
        lemma_leading_zero(decimal(n), n);
        assert(two_digits(n) =~= seq!['0'] + decimal(n));
    } else {
        assert(decimal(n / 10) == seq![upper_digit(n / 10)]);
        assert(two_digits(n) =~= decimal(n));
    }
}

/// Three digits are the hundreds, the tens and the units.
proof fn lemma_three_digits(n: int)
    requires
        0 <= n < 1000,
    ensures
        three_digits(n) == seq![
            upper_digit(n / 100),
            upper_digit(n / 10 % 10),
            upper_digit(n % 10),
        ],
        nanos_of(three_digits(n)) == n * 1_000_000,
{
    let s = three_digits(n);
    if n >= 100 {
        assert(decimal(n / 10 / 10) == seq![upper_digit(n / 10 / 10)]);
        assert(decimal(n / 10) =~= seq![upper_digit(n / 100), upper_digit(n / 10 % 10)]);
    } else if n >= 10 {
        assert(decimal(n / 10) == seq![upper_digit(n / 10)]);
    }
    assert(s =~= seq![upper_digit(n / 100), upper_digit(n / 10 % 10), upper_digit(n % 10)]);
    assert(leading_digits(s) == 3) by {
        lemma_leading_digits(s);
        if leading_digits(s) < 3 {
            assert(is_decimal_digit(s[leading_digits(s)]));
        }
    }
    let p = nine_places(s);
    assert(p =~= seq![s[0], s[1], s[2], '0', '0', '0', '0', '0', '0']);
    let p8 = p.drop_last();
    let p7 = p8.drop_last();
    let p6 = p7.drop_last();
    let p5 = p6.drop_last();
    let p4 = p5.drop_last();
    let p3 = p4.drop_last();
    let p2 = p3.drop_last();
    let p1 = p2.drop_last();
    assert(p1.drop_last() =~= Seq::<char>::empty());
    assert(digits_value(p1.drop_last(), 10) == 0);
    assert(p1.last() == s[0] && p2.last() == s[1] && p3.last() == s[2]);
    assert(digits_value(p1, 10) == n / 100);
    assert(digits_value(p2, 10) == n / 10);
    assert(digits_value(p3, 10) == n);
    assert(digits_value(p4, 10) == n * 10);
    assert(digits_value(p5, 10) == n * 100);
    assert(digits_value(p6, 10) == n * 1000);
    assert(digits_value(p7, 10) == n * 10_000);
    assert(digits_value(p8, 10) == n * 100_000);
}

/// A time of day as it is written.
spec fn clock_text(hour: int, minute: int, second: int, millis: int) -> Seq<char> {
    two_digits(hour) + seq![':'] + two_digits(minute) + seq![':'] + two_digits(second) + seq!['.']
        + three_digits(millis)
}

/// A time of day is written as one word.
proof fn lemma_clock_word(hour: int, minute: int, second: int, millis: int)
    requires
        0 <= hour < 100,
        0 <= minute < 100,
        0 <= second < 100,
        0 <= millis,
    ensures
        is_word(clock_text(hour, minute, second, millis)),
        is_ascii_text(clock_text(hour, minute, second, millis)),
        no_i(clock_text(hour, minute, second, millis)),
{
    let s = clock_text(hour, minute, second, millis);
    lemma_two_digits(hour);
    lemma_two_digits(minute);
    lemma_two_digits(second);
    lemma_three_digits_numeral(millis);
    lemma_numeral_ascii(two_digits(hour), hour);
    lemma_numeral_ascii(two_digits(minute), minute);
    lemma_numeral_ascii(two_digits(second), second);
    lemma_numeral_ascii(three_digits(millis), millis);
    assert forall|i: int| 0 <= i < s.len() implies is_decimal_digit(#[trigger] s[i]) || s[i] == ':'
        || s[i] == '.' by {
        if i >= 9 {
            assert(s[i] == three_digits(millis)[i - 9]);
        }
    }
}

/// At least three digits are read as the number that they stand for.
proof fn lemma_three_digits_numeral(n: int)
    requires
        n >= 0,
    ensures
        is_numeral(three_digits(n), 10, n),
{
    law_decimal_read_back(n);
    let s = decimal(n);
    if n < 100 {
        lemma_leading_zero(s, n);
        if n < 10 {
            lemma_leading_zero(seq!['0'] + s, n);
            assert(three_digits(n) =~= seq!['0'] + (seq!['0'] + s));
        }
    }
}

/// A time of day that is written is read back.
proof fn lemma_clock_text(hour: int, minute: int, second: int, millis: int)
    requires
        0 <= hour < 100,
        0 <= minute < 100,
        0 <= second < 100,
        0 <= millis < 1000,
    ensures
        time_of(clock_text(hour, minute, second, millis)) == Some(
            (hour as u32, minute as u32, second as u32, (millis * 1_000_000) as u32),
        ),
{
    let s = clock_text(hour, minute, second, millis);
    lemma_two_digits(hour);
    lemma_two_digits(minute);
    lemma_two_digits(second);
    lemma_three_digits(millis);
    lemma_numeral_ascii(two_digits(hour), hour);
    lemma_numeral_ascii(two_digits(minute), minute);
    lemma_numeral_ascii(two_digits(second), second);
    lemma_numeral_is_read(two_digits(hour), 10, hour, u32::MAX as int);
    lemma_numeral_is_read(two_digits(minute), 10, minute, u32::MAX as int);
    lemma_numeral_is_read(two_digits(second), 10, second, u32::MAX as int);
    let sec = two_digits(second) + seq!['.'] + three_digits(millis);
    assert(s[0] == two_digits(hour)[0] && s[1] == two_digits(hour)[1] && s[2] == ':');
    assert(s[3] == two_digits(minute)[0] && s[4] == two_digits(minute)[1] && s[5] == ':');
    assert(s[6] == two_digits(second)[0] && s[7] == two_digits(second)[1] && s[8] == '.');
    assert(s[9] == three_digits(millis)[0] && s[10] == three_digits(millis)[1] && s[11]
        == three_digits(millis)[2]);
    lemma_place_is(s, ':', 0, 2);
    lemma_place_is(s, ':', 3, 5);
    lemma_place_is(s, ':', 6, 12);
    assert(s.take(2) =~= two_digits(hour));
    assert(s.subrange(3, 5) =~= two_digits(minute));
    assert(s.subrange(6, 12) =~= sec);
    assert(sec[0] == s[6] && sec[1] == s[7] && sec[2] == '.');
    lemma_place_is(sec, '.', 0, 2);
    assert(sec.take(2) =~= two_digits(second));
    assert(sec.skip(3) =~= three_digits(millis));
}

/// A year that is written is read back.
proof fn lemma_year_text(year: int)
    requires
        i32::MIN <= year <= i32::MAX,
    ensures
        is_word(year_text(year)),
        is_ascii_text(year_text(year)),
        no_i(year_text(year)),
        signed_of(year_text(year)) == Some(year),
{
    let s = year_text(year);
    let n = if year < 0 {
        -year
    } else {
        year
    };
    let digits = four_digits(n);
    lemma_four_digits(n);
    lemma_numeral_ascii(digits, n);
    lemma_numeral_is_read(digits, 10, n, n);
    assert(is_decimal_digit(digits[0]));
    if year < 0 {
        assert(s.drop_first() =~= digits);
    } else if year > 9999 {
        assert(s.drop_first() =~= digits);
    }
    assert forall|i: int| 0 <= i < s.len() implies !is_space(#[trigger] s[i]) && is_ascii_char(
        s[i],
    ) && lower_char(s[i]) != 'i' by {
        if s.len() == digits.len() {
            assert(s[i] == digits[i]);
        } else if i > 0 {
            assert(s[i] == digits[i - 1]);
        }
    }
}

proof fn lemma_four_digits(n: int)
    requires
        n >= 0,
    ensures
        is_numeral(four_digits(n), 10, n),
{
    law_decimal_read_back(n);
    let s = decimal(n);
    if n < 1000 {
        lemma_leading_zero(s, n);
        if n < 100 {
            lemma_leading_zero(seq!['0'] + s, n);
            if n < 10 {
                lemma_leading_zero(seq!['0'] + (seq!['0'] + s), n);
                assert(four_digits(n) =~= seq!['0'] + (seq!['0'] + (seq!['0'] + s)));
            } else {
                assert(four_digits(n) =~= seq!['0'] + (seq!['0'] + s));
            }
        }
    }
}

/// The seconds that are shown.
spec fn shown_second(c: CivilTime, leap: bool) -> int {
    if leap {
        c.second + 1
    } else {
        c.second as int
    }
}

/// The words of a date behind the day of the week.
pub(crate) closed spec fn date_parts(c: CivilTime, leap: bool, millis: int) -> Seq<Seq<char>> {
    seq![
        month_name(c.month as int),
        two_digits(c.day as int),
        clock_text(c.hour as int, c.minute as int, shown_second(c, leap), millis),
        year_text(c.year as int),
    ]
}

/// The text of a date behind the day of the week.
spec fn date_rest(c: CivilTime, leap: bool, millis: int) -> Seq<char> {
    let w = date_parts(c, leap, millis);
    w[0] + (blanks(1) + w[1] + (blanks(1) + w[2] + (blanks(1) + w[3])))
}

/// The words of a date are words.
proof fn lemma_date_parts(c: CivilTime, leap: bool, millis: int)
    requires
        c.valid(),
        0 <= millis,
    ensures
        forall|i: int|
            0 <= i < 4 ==> is_word(#[trigger] date_parts(c, leap, millis)[i]) && is_ascii_text(
                date_parts(c, leap, millis)[i],
            ) && no_i(date_parts(c, leap, millis)[i]),
{
    lemma_month_word(c.month as int);
    lemma_month_no_i(c.month as int);
    lemma_two_digits(c.day as int);
    lemma_numeral_ascii(two_digits(c.day as int), c.day as int);
    lemma_clock_word(c.hour as int, c.minute as int, shown_second(c, leap), millis);
    lemma_year_text(c.year as int);
    assert(no_i(two_digits(c.day as int)));
}

/// The words of a date that is written are read as that date.
proof fn lemma_date_read_back(c: CivilTime, millis: int)
    requires
        c.valid(),
        0 <= millis < 1000,
    ensures
        date_words(date_parts(c, false, millis)) == Some(
            (c, c.hour as int, (millis * 1_000_000) as u32),
        ),
{
    lemma_month_word(c.month as int);
    lemma_two_digits(c.day as int);
    lemma_numeral_is_read(two_digits(c.day as int), 10, c.day as int, u32::MAX as int);
    lemma_clock_text(c.hour as int, c.minute as int, c.second as int, millis);
    lemma_year_text(c.year as int);
}

/// The hour of a date that is written stays within bounds.
pub(crate) proof fn lemma_date_hour(c: CivilTime, leap: bool, millis: int)
    ensures
        !hour_overflows(date_parts(c, leap, millis)),
{
}

/// Whether a text holds no I.
spec fn no_i(s: Seq<char>) -> bool {
    forall|i: int| 0 <= i < s.len() ==> lower_char(#[trigger] s[i]) != 'i'
}

proof fn lemma_month_no_i(month: int)
    requires
        1 <= month <= 12,
    ensures
        no_i(month_name(month)),
{
    reveal_strlit("Jan");
    reveal_strlit("Feb");
    reveal_strlit("Mar");
    reveal_strlit("Apr");
    reveal_strlit("May");
    reveal_strlit("Jun");
    reveal_strlit("Jul");
    reveal_strlit("Aug");
    reveal_strlit("Sep");
    reveal_strlit("Oct");
    reveal_strlit("Nov");
    reveal_strlit("Dec");
}

/// The text of a date is split into its words.
proof fn lemma_date_rest(c: CivilTime, leap: bool, millis: int)
    requires
        c.valid(),
        0 <= millis,
    ensures
        words(date_rest(c, leap, millis)) == date_parts(c, leap, millis),
        is_ascii_text(date_rest(c, leap, millis)),
        no_i(date_rest(c, leap, millis)),
        date_rest(c, leap, millis).len() > 0,
        !is_space(date_rest(c, leap, millis).last()),
{
    let w = date_parts(c, leap, millis);
    lemma_date_parts(c, leap, millis);
    assert(is_word(w[0]) && is_word(w[1]) && is_word(w[2]) && is_word(w[3]));
    assert(is_ascii_text(w[0]) && is_ascii_text(w[1]) && is_ascii_text(w[2]) && is_ascii_text(
        w[3],
    ));
    assert(no_i(w[0]) && no_i(w[1]) && no_i(w[2]) && no_i(w[3]));
    let none = Seq::<char>::empty();
    lemma_nothing();
    lemma_first_word(1, w[3], none);
    let r3 = blanks(1) + w[3];
    assert(r3 + none =~= r3);
    assert(r3[0] == ' ');
    lemma_first_word(1, w[2], r3);
    let r2 = blanks(1) + w[2] + r3;
    assert(r2[0] == ' ');
    lemma_first_word(1, w[1], r2);
    let r1 = blanks(1) + w[1] + r2;
    assert(r1[0] == ' ');
    lemma_first_word(0, w[0], r1);
    let s = date_rest(c, leap, millis);
    assert(blanks(0) + w[0] + r1 =~= s);
    assert(words(s) =~= w);
    assert(is_ascii_text(r3) && no_i(r3));
    assert(is_ascii_text(r2) && no_i(r2));
    assert(is_ascii_text(r1) && no_i(r1));
    assert(s.last() == w[3].last());
    assert(!is_space(w[3][w[3].len() - 1]));
}

/// Nothing has no words.
proof fn lemma_nothing()
    ensures
        words(Seq::<char>::empty()) == Seq::<Seq<char>>::empty(),
{
    assert(Seq::<char>::empty().skip(0) =~= Seq::<char>::empty());
}

/// The text of a date is the day of the week and the rest.
proof fn lemma_date_text(stamp: LocalStamp, c: CivilTime, leap: bool)
    requires
        shows(stamp, c, leap),
    ensures
        date_text(stamp) == weekday_name(c.weekday()) + seq![' '] + date_rest(
            c,
            leap,
            stamp.millis as int,
        ),
{
    let a = weekday_name(c.weekday());
    let m = month_name(c.month as int);
    let d = two_digits(c.day as int);
    let k = clock_text(c.hour as int, c.minute as int, shown_second(c, leap), stamp.millis as int);
    let y = year_text(c.year as int);
    assert(stamp.text@ + seq!['.'] + three_digits(stamp.millis as int) =~= a + seq![' '] + m
        + seq![' '] + d + seq![' '] + k);
    assert(a + seq![' '] + m + seq![' '] + d + seq![' '] + k + seq![' '] + y =~= a + seq![' '] + (m
        + (blanks(1) + d + (blanks(1) + k + (blanks(1) + y)))));
}

/// A line that neither starts nor ends with white space is all that trimming leaves,
/// whatever spaces stand in front of it.
pub(crate) proof fn lemma_trimmed_line(n: int, body: Seq<char>)
    requires
        n >= 0,
        body.len() > 0,
        !is_space(body[0]),
        !is_space(body.last()),
    ensures
        trimmed(blanks(n) + body + seq!['\n']) == body,
{
    let s = blanks(n) + body + seq!['\n'];
    let t = body + seq!['\n'];
    assert(s[n] == body[0]);
    lemma_leading_spaces_are(s, n);
    assert(s.skip(n) =~= t);
    assert(t.drop_last() =~= body);
    assert(is_space(t.last()));
    assert(trim_end(t) == trim_end(body));
}

/// The moment of a stamp to the nanosecond, as far as its text tells it.
pub open spec fn stamp_nanos(stamp: LocalStamp) -> u32 {
    (stamp.millis * 1_000_000) as u32
}

/// What is known of the line with which a header gives the date.
pub(crate) proof fn lemma_date_line(stamp: LocalStamp, c: CivilTime, leap: bool)
    requires
        shows(stamp, c, leap),
        c.valid(),
    ensures
        ({
            let line = "date "@ + date_text(stamp);
            &&& trimmed(line + seq!['\n']) == line
            &&& header_line(line, lowercase(line)) is Date
            &&& words(behind_second_space(line)) == date_parts(c, leap, stamp.millis as int)
        }),
{
    let line = "date "@ + date_text(stamp);
    let a = weekday_name(c.weekday());
    let rest = date_rest(c, leap, stamp.millis as int);
    reveal_strlit("date ");
    lemma_date_text(stamp, c, leap);
    lemma_date_rest(c, leap, stamp.millis as int);
    lemma_weekday_word(c.weekday());
    assert(line.last() == rest.last());
    assert(line[0] == 'd');
    lemma_trimmed_line(0, line);
    assert(blanks(0) + line + seq!['\n'] =~= line + seq!['\n']);
    assert(is_ascii_text(line));
    let lower = lowercase(line);
    assert(lower.subrange(0, 5) =~= "date "@) by {
        assert(lower == ascii_lower(line));
    }
    assert(line[4] == ' ');
    lemma_place_is(line, ' ', 0, 4);
    assert(line[5] == a[0] && line[6] == a[1] && line[7] == a[2] && line[8] == ' ');
    assert(!is_space(a[0]) && !is_space(a[1]) && !is_space(a[2]));
    lemma_place_is(line, ' ', 5, 8);
    assert(line.skip(9) =~= rest);
}

/// What is known of the line that starts a block of events.
pub(crate) proof fn lemma_block_line(stamp: LocalStamp, c: CivilTime, leap: bool)
    requires
        shows(stamp, c, leap),
        c.valid(),
    ensures
        ({
            let line = "Begin Triggerblock "@ + date_text(stamp);
            &&& trimmed(line + seq!['\n']) == line
            &&& header_line(line, lowercase(line)) is Beyond
            &&& body_line(line, lowercase(line)) is Block
            &&& words(line).len() >= 4
            &&& words(line).skip(3) == date_parts(c, leap, stamp.millis as int)
        }),
{
    let line = "Begin Triggerblock "@ + date_text(stamp);
    let a = weekday_name(c.weekday());
    let rest = date_rest(c, leap, stamp.millis as int);
    reveal_strlit("Begin Triggerblock ");
    lemma_date_text(stamp, c, leap);
    lemma_date_rest(c, leap, stamp.millis as int);
    lemma_weekday_word(c.weekday());
    assert(line.last() == rest.last());
    assert(line[0] == 'B');
    lemma_trimmed_line(0, line);
    assert(blanks(0) + line + seq!['\n'] =~= line + seq!['\n']);
    assert(is_ascii_text(line));
    let lower = lowercase(line);
    assert(lower == ascii_lower(line));
    reveal_strlit("begin triggerblock");
    assert(lower.subrange(0, 18) =~= "begin triggerblock"@);
    reveal_strlit("date ");
    reveal_strlit("base ");
    reveal_strlit("//");
    lemma_no_prefix(lower, "date "@);
    lemma_not_base(lower);
    lemma_no_prefix(line, "//"@);
    lemma_no_internal(lower, a, rest);
    lemma_block_words(line, a, rest);
    assert(words(line).skip(3) =~= words(rest));
}

/// The words of the line that starts a block of events.
proof fn lemma_block_words(line: Seq<char>, a: Seq<char>, rest: Seq<char>)
    requires
        line == "Begin Triggerblock "@ + (a + seq![' '] + rest),
        is_word(a),
    ensures
        words(line) == seq!["Begin"@, "Triggerblock"@, a] + words(rest),
{
    reveal_strlit("Begin Triggerblock ");
    reveal_strlit("Begin");
    reveal_strlit("Triggerblock");
    let r3 = seq![' '] + rest;
    lemma_blank_front(rest);
    lemma_first_word(1, a, r3);
    let r2 = blanks(1) + a + r3;
    assert(r2[0] == ' ');
    lemma_first_word(1, "Triggerblock"@, r2);
    let r1 = blanks(1) + "Triggerblock"@ + r2;
    assert(r1[0] == ' ');
    lemma_first_word(0, "Begin"@, r1);
    assert(line =~= blanks(0) + "Begin"@ + r1);
    assert(words(line) =~= seq!["Begin"@, "Triggerblock"@, a] + words(rest));
}

/// The start of a block is not taken for the base of numbers.
proof fn lemma_not_base(lower: Seq<char>)
    requires
        lower.len() >= 18,
        lower.subrange(0, 18) == "begin triggerblock"@,
    ensures
        !has_prefix(lower, "base "@),
{
    reveal_strlit("begin triggerblock");
    reveal_strlit("base ");
    assert(lower[1] == lower.subrange(0, 18)[1]);
    if has_prefix(lower, "base "@) {
        assert(lower.subrange(0, 5)[1] == "base "@[1]);
    }
}

/// The start of a block is not taken for the end of the header.
proof fn lemma_no_internal(lower: Seq<char>, a: Seq<char>, rest: Seq<char>)
    requires
        lower == ascii_lower("Begin Triggerblock "@ + (a + seq![' '] + rest)),
        a.len() == 3,
        forall|i: int| 0 <= i < 3 ==> #[trigger] lower_char(a[i]) == 'i' ==> i == 2,
        no_i(rest),
    ensures
        !has_part(lower, "internal events logged"@),
{
    let part = "internal events logged"@;
    reveal_strlit("internal events logged");
    reveal_strlit("Begin Triggerblock ");
    let line = "Begin Triggerblock "@ + (a + seq![' '] + rest);
    assert forall|k: int| !#[trigger] stands_at(lower, part, k) by {
        if stands_at(lower, part, k) {
            let s = lower.subrange(k, k + part.len());
            assert(s[0] == lower[k] && s[1] == lower[k + 1] && s[2] == lower[k + 2]);
            assert(lower[k] == 'i' && lower[k + 1] == 'n' && lower[k + 2] == 't');
            if k < 19 {
            } else if k < 22 {
                assert(line[k] == a[k - 19]);
                assert(lower_char(a[k - 19]) == 'i');
                assert(line[22] == ' ');
            } else if k > 22 {
                assert(line[k] == rest[k - 23]);
            }
        }
    }
}

/// The line with which a header gives the date can be read. Where times count from the
/// epoch, they count from a moment at which a clock in local time may show that date, or
/// from where they did before if there is none; else nothing changes.
pub proof fn law_date_line_read_back(
    v: AscView,
    stamp: LocalStamp,
    c: CivilTime,
    answer: Result<AscNextView, ErrorView>,
    after: AscView,
)
    requires
        !v.header_parsed,
        shows(stamp, c, false),
        c.valid(),
        stamp.millis < 1000,
    ensures
        can_read(v, "date "@ + date_text(stamp) + seq!['\n']),
        may_answer(v, "date "@ + date_text(stamp) + seq!['\n'], answer, after) ==> {
            &&& answer == Ok::<AscNextView, ErrorView>(AscNextView::Nothing)
            &&& if v.relative_timestamp {
                after == v
            } else {
                exists|instant: Option<(i64, u32)>| #[trigger]
                    may_be_local(c, stamp_nanos(stamp), instant) && after == started(v, instant)
            }
        },
{
    let line = "date "@ + date_text(stamp);
    let lower = lowercase(line);
    lemma_date_line(stamp, c, false);
    lemma_date_read_back(c, stamp.millis as int);
    if may_answer(v, line + seq!['\n'], answer, after) {
        let instant = choose|instant: Option<(i64, u32)>| #[trigger]
            may_start(v, line, lower, instant) && (answer, after) == line_of(
                v,
                line,
                lower,
                instant,
            );
        assert(may_start(v, line, lower, instant));
        if !v.relative_timestamp {
            assert(may_be_local(c, stamp_nanos(stamp), instant));
        }
    }
}

/// The line that starts a block of events can be read. Where times count from the epoch,
/// they count from a moment at which a clock in local time may show the date of the
/// block, or from where they did before if there is none; else they count from zero.
pub proof fn law_block_line_read_back(
    v: AscView,
    stamp: LocalStamp,
    c: CivilTime,
    answer: Result<AscNextView, ErrorView>,
    after: AscView,
)
    requires
        shows(stamp, c, false),
        c.valid(),
        stamp.millis < 1000,
    ensures
        can_read(v, block_line(stamp)),
        may_answer(v, block_line(stamp), answer, after) ==> {
            &&& answer == Ok::<AscNextView, ErrorView>(AscNextView::Nothing)
            &&& if v.relative_timestamp {
                after == (AscView { header_parsed: true, start: (0, 0), ..v })
            } else {
                exists|instant: Option<(i64, u32)>| #[trigger]
                    may_be_local(c, stamp_nanos(stamp), instant) && after == started(
                        AscView { header_parsed: true, ..v },
                        instant,
                    )
            }
        },
{
    let line = "Begin Triggerblock "@ + date_text(stamp);
    let lower = lowercase(line);
    lemma_block_line(stamp, c, false);
    lemma_date_read_back(c, stamp.millis as int);
    if may_answer(v, line + seq!['\n'], answer, after) {
        let instant = choose|instant: Option<(i64, u32)>| #[trigger]
            may_start(v, line, lower, instant) && (answer, after) == line_of(
                v,
                line,
                lower,
                instant,
            );
        assert(may_start(v, line, lower, instant));
        if !v.relative_timestamp {
            assert(may_be_local(c, stamp_nanos(stamp), instant));
        }
    }
}

/// A date is written within one line.
pub(crate) proof fn lemma_date_in_line(stamp: LocalStamp, c: CivilTime, leap: bool)
    requires
        shows(stamp, c, leap),
        c.valid(),
    ensures
        forall|i: int| 0 <= i < date_text(stamp).len() ==> #[trigger] date_text(stamp)[i] != '\n',
{
    let millis = stamp.millis as int;
    let a = weekday_name(c.weekday());
    let w = date_parts(c, leap, millis);
    lemma_date_text(stamp, c, leap);
    lemma_date_parts(c, leap, millis);
    lemma_weekday_word(c.weekday());
    assert(is_word(w[0]) && is_word(w[1]) && is_word(w[2]) && is_word(w[3]));
    let r3 = blanks(1) + w[3];
    let r2 = blanks(1) + w[2] + r3;
    let r1 = blanks(1) + w[1] + r2;
    assert(in_line(w[0]) && in_line(w[1]) && in_line(w[2]) && in_line(w[3]) && in_line(a));
    assert(in_line(r3));
    assert(in_line(r2));
    assert(in_line(r1));
    assert(in_line(date_rest(c, leap, millis)));
    assert(in_line(date_text(stamp)));
}

/// Whether a text holds no end of a line.
spec fn in_line(s: Seq<char>) -> bool {
    forall|i: int| 0 <= i < s.len() ==> #[trigger] s[i] != '\n'
}

/// A date whose hours count from noon or midnight is the same moment as the date whose hours
/// count through the day: twelve at night is hour 0, one in the afternoon is hour 13.
pub proof fn law_twelve_hour_dates(twelve: Seq<Seq<char>>, through: Seq<Seq<char>>, pm: bool)
    requires
        twelve.len() >= 5,
        same_but_case(twelve[3], if pm { "PM"@ } else { "AM"@ }),
        through.len() >= 4,
        meridian(through) is None,
        through[0] == twelve[0],
        through[1] == twelve[1],
        through[3] == twelve[4],
        time_of(twelve[2]) matches Some((hour, minute, second, nanos)) && hour <= 12
            && time_of(through[2]) == Some(
            (
                (hour % 12 + if pm {
                    12int
                } else {
                    0
                }) as u32,
                minute,
                second,
                nanos,
            ),
        ),
    ensures
        moment_of(twelve) == moment_of(through),
{
    if pm {
        reveal_strlit("AM");
        reveal_strlit("PM");
        if same_but_case(twelve[3], "AM"@) {
            lemma_same_but_case(twelve[3], "AM"@);
            lemma_same_but_case(twelve[3], "PM"@);
            assert(lower_char(twelve[3][0]) == 'a');
        }
    }
    assert(meridian(twelve) == Some(pm));
}

} // verus!
