//! Integers written as digits, and digits read as integers.

use vstd::arithmetic::power::pow;
use vstd::prelude::*;

verus! {

/// `String::push` appends one character.
pub assume_specification[ String::push ](s: &mut String, c: char)
    ensures
        final(s)@ == old(s)@.push(c),
;

/// `n` if that is at most `limit`, else `limit`.
pub open spec fn at_most(n: int, limit: int) -> int {
    if n <= limit {
        n
    } else {
        limit
    }
}

/// The character for a digit below 16, letters in upper case.
pub open spec fn upper_digit(d: int) -> char {
    if d < 10 {
        (0x30 + d) as u8 as char
    } else {
        (0x37 + d) as u8 as char
    }
}

/// The character for a digit below 16, letters in lower case.
pub open spec fn lower_digit(d: int) -> char {
    if d < 10 {
        (0x30 + d) as u8 as char
    } else {
        (0x57 + d) as u8 as char
    }
}

/// The digit that a character stands for, up to 35; letters count in either case.
pub open spec fn digit_value(c: char) -> Option<int> {
    if '0' <= c <= '9' {
        Some(c as int - 0x30)
    } else if 'a' <= c <= 'z' {
        Some(c as int - 0x57)
    } else if 'A' <= c <= 'Z' {
        Some(c as int - 0x37)
    } else {
        None
    }
}

/// Whether a character is a digit of the given base.
pub open spec fn is_digit_of(c: char, base: int) -> bool {
    digit_value(c) matches Some(d) && d < base
}

/// Whether a character is one of `0` to `9`.
pub open spec fn is_decimal_digit(c: char) -> bool {
    '0' <= c <= '9'
}

/// The decimal digits of a number, without leading zeros.
pub open spec fn decimal(n: int) -> Seq<char>
    decreases n,
{
    if n < 10 {
        seq![upper_digit(n)]
    } else {
        decimal(n / 10).push(upper_digit(n % 10))
    }
}

/// The hexadecimal digits of a number in upper case, without leading zeros.
pub open spec fn hex_upper(n: int) -> Seq<char>
    decreases n,
{
    if n < 16 {
        seq![upper_digit(n)]
    } else {
        hex_upper(n / 16).push(upper_digit(n % 16))
    }
}

/// The hexadecimal digits of a number in lower case, without leading zeros.
pub open spec fn hex_lower(n: int) -> Seq<char>
    decreases n,
{
    if n < 16 {
        seq![lower_digit(n)]
    } else {
        hex_lower(n / 16).push(lower_digit(n % 16))
    }
}

/// The two upper-case hexadecimal digits of a byte.
pub open spec fn byte_hex(b: u8) -> Seq<char> {
    seq![upper_digit(b as int / 16), upper_digit(b as int % 16)]
}

/// Whether every character is a digit of the given base.
pub open spec fn all_digits(s: Seq<char>, base: int) -> bool {
    forall|i: int| 0 <= i < s.len() ==> is_digit_of(#[trigger] s[i], base)
}

/// The value of a sequence of digits.
pub open spec fn digits_value(s: Seq<char>, base: int) -> int
    decreases s.len(),
{
    if s.len() == 0 {
        0
    } else {
        digits_value(s.drop_last(), base) * base + digit_value(s.last())->0
    }
}

/// A text without a plus sign at its start.
pub open spec fn unsigned_digits(s: Seq<char>) -> Seq<char> {
    if s.len() > 0 && s[0] == '+' {
        s.drop_first()
    } else {
        s
    }
}

/// The unsigned number up to `max` that a text stands for, if it stands for one: an
/// optional plus sign and at least one digit of the base.
pub open spec fn unsigned_of(s: Seq<char>, base: int, max: int) -> Option<int> {
    let digits = unsigned_digits(s);
    if digits.len() > 0 && all_digits(digits, base) && digits_value(digits, base) <= max {
        Some(digits_value(digits, base))
    } else {
        None
    }
}

/// The 32-bit signed number that a decimal text stands for, if it stands for one: an
/// optional sign and at least one digit.
pub open spec fn signed_of(s: Seq<char>) -> Option<int> {
    if s.len() > 0 && s[0] == '-' {
        let digits = s.drop_first();
        if digits.len() > 0 && all_digits(digits, 10) && digits_value(digits, 10) <= 0x8000_0000 {
            Some(-digits_value(digits, 10))
        } else {
            None
        }
    } else {
        unsigned_of(s, 10, i32::MAX as int)
    }
}

/// The upper-case character for a digit.
fn upper_digit_char(d: u8) -> (c: char)
    requires
        d < 16,
    ensures
        c == upper_digit(d as int),
{
    if d < 10 {
        (0x30 + d) as char
    } else {
        (0x37 + d) as char
    }
}

/// The lower-case character for a digit.
fn lower_digit_char(d: u8) -> (c: char)
    requires
        d < 16,
    ensures
        c == lower_digit(d as int),
{
    if d < 10 {
        (0x30 + d) as char
    } else {
        (0x57 + d) as char
    }
}

/// A number in decimal.
pub fn format_decimal(n: u64) -> (text: String)
    ensures
        text@ == decimal(n as int),
    decreases n,
{
    if n < 10 {
        let mut text: String = String::new();
        text.push(upper_digit_char(n as u8));
        assert(text@ =~= decimal(n as int));
        text
    } else {
        let mut text: String = format_decimal(n / 10);
        text.push(upper_digit_char((n % 10) as u8));
        text
    }
}

/// A number in upper-case hexadecimal.
pub fn format_hex_upper(n: u32) -> (text: String)
    ensures
        text@ == hex_upper(n as int),
    decreases n,
{
    if n < 16 {
        let mut text: String = String::new();
        text.push(upper_digit_char(n as u8));
        assert(text@ =~= hex_upper(n as int));
        text
    } else {
        let mut text: String = format_hex_upper(n / 16);
        text.push(upper_digit_char((n % 16) as u8));
        text
    }
}

/// A number in lower-case hexadecimal.
pub fn format_hex_lower(n: u32) -> (text: String)
    ensures
        text@ == hex_lower(n as int),
    decreases n,
{
    if n < 16 {
        let mut text: String = String::new();
        text.push(lower_digit_char(n as u8));
        assert(text@ =~= hex_lower(n as int));
        text
    } else {
        let mut text: String = format_hex_lower(n / 16);
        text.push(lower_digit_char((n % 16) as u8));
        text
    }
}

/// Appends the two upper-case hexadecimal digits of a byte.
pub fn push_byte_hex(text: &mut String, b: u8)
    ensures
        final(text)@ == old(text)@ + byte_hex(b),
{
    text.push(upper_digit_char(b / 16));
    text.push(upper_digit_char(b % 16));
    assert(text@ =~= old(text)@ + byte_hex(b));
}

/// The digit that a character stands for.
fn char_digit(c: char) -> (d: Option<u8>)
    ensures
        match d {
            Some(v) => digit_value(c) == Some(v as int) && v < 36,
            None => digit_value(c) is None,
        },
{
    if '0' <= c && c <= '9' {
        Some((c as u32 - 0x30) as u8)
    } else if 'a' <= c && c <= 'z' {
        Some((c as u32 - 0x57) as u8)
    } else if 'A' <= c && c <= 'Z' {
        Some((c as u32 - 0x37) as u8)
    } else {
        None
    }
}

/// Longer digit sequences stand for no smaller numbers.
proof fn lemma_digits_value_grows(s: Seq<char>, i: int, base: int)
    requires
        0 <= i <= s.len(),
        all_digits(s, base),
        base >= 2,
    ensures
        0 <= digits_value(s.take(i), base) <= digits_value(s, base),
    decreases s.len() - i,
{
    if i == s.len() {
        assert(s.take(i) =~= s);
        lemma_digits_value_nonnegative(s, base);
    } else {
        lemma_digits_value_grows(s, i + 1, base);
        let t = s.take(i + 1);
        assert(t.drop_last() =~= s.take(i));
        assert(is_digit_of(s[i], base));
        assert(all_digits(s.take(i), base));
        lemma_digits_value_nonnegative(s.take(i), base);
        let v = digits_value(s.take(i), base);
        assert(v <= v * base) by (nonlinear_arith)
            requires
                v >= 0,
                base >= 2,
        ;
    }
}

/// A sequence of digits never stands for a negative number.
proof fn lemma_digits_value_nonnegative(s: Seq<char>, base: int)
    requires
        all_digits(s, base),
        base >= 2,
    ensures
        digits_value(s, base) >= 0,
    decreases s.len(),
{
    if s.len() > 0 {
        assert(is_digit_of(s.last(), base));
        assert(all_digits(s.drop_last(), base));
        lemma_digits_value_nonnegative(s.drop_last(), base);
        let v = digits_value(s.drop_last(), base);
        assert(v * base >= 0) by (nonlinear_arith)
            requires
                v >= 0,
                base >= 2,
        ;
    }
}

/// The value of the digits of `s` from `from` on, if there is at least one, all are
/// digits of the base, and the value is at most `max`.
fn parse_digits(s: &[char], from: usize, base: u32, max: u64) -> (res: Option<u64>)
    requires
        from <= s@.len(),
        2 <= base <= 36,
    ensures
        ({
            let digits = s@.skip(from as int);
            let good = digits.len() > 0 && all_digits(digits, base as int) && digits_value(
                digits,
                base as int,
            ) <= max;
            match res {
                Some(v) => good && v == digits_value(digits, base as int),
                None => !good,
            }
        }),
{
    let ghost digits = s@.skip(from as int);
    if from == s.len() {
        return None;
    }
    let mut value: u128 = 0;
    let mut i: usize = from;
    while i < s.len()
        invariant
            from <= i <= s@.len(),
            from < s@.len(),
            digits == s@.skip(from as int),
            2 <= base <= 36,
            value <= max,
            all_digits(digits.take(i - from), base as int),
            value == digits_value(digits.take(i - from), base as int),
        decreases s@.len() - i,
    {
        let ghost k = i - from;
        assert(digits[k] == s@[i as int]);
        match char_digit(s[i]) {
            Some(d) if (d as u32) < base => {
                assert(value * base <= 0xffff_ffff_ffff_ffff * 36) by (nonlinear_arith)
                    requires
                        value <= 0xffff_ffff_ffff_ffff,
                        2 <= base <= 36,
                ;
                value = value * base as u128 + d as u128;
                proof {
                    assert(digits.take(k + 1).drop_last() =~= digits.take(k));
                    assert(digits.take(k + 1).last() == digits[k]);
                    assert(is_digit_of(digits[k], base as int));
                    assert(value == digits_value(digits.take(k + 1), base as int));
                    assert(all_digits(digits.take(k + 1), base as int)) by {
                        assert forall|j: int| 0 <= j < k + 1 implies is_digit_of(
                            #[trigger] digits.take(k + 1)[j],
                            base as int,
                        ) by {
                            if j < k {
                                assert(digits.take(k)[j] == digits.take(k + 1)[j]);
                            }
                        }
                    }
                }
                if value > max as u128 {
                    proof {
                        if all_digits(digits, base as int) {
                            lemma_digits_value_grows(digits, k + 1, base as int);
                        }
                    }
                    return None;
                }
            },
            _ => {
                assert(!is_digit_of(digits[k], base as int));
                return None;
            },
        }
        i = i + 1;
    }
    assert(digits.take(i - from) =~= digits);
    Some(value as u64)
}

/// The unsigned number up to `max` that a text stands for.
pub fn parse_unsigned(s: &[char], base: u32, max: u64) -> (res: Option<u64>)
    requires
        2 <= base <= 36,
    ensures
        match res {
            Some(v) => unsigned_of(s@, base as int, max as int) == Some(v as int) && v <= max,
            None => unsigned_of(s@, base as int, max as int) is None,
        },
{
    let from: usize = if s.len() > 0 && s[0] == '+' {
        1
    } else {
        0
    };
    assert(s@.skip(from as int) =~= unsigned_digits(s@));
    proof {
        if all_digits(unsigned_digits(s@), base as int) {
            lemma_digits_value_nonnegative(unsigned_digits(s@), base as int);
        }
    }
    parse_digits(s, from, base, max)
}

/// The 32-bit signed number that a decimal text stands for.
pub fn parse_signed(s: &[char]) -> (res: Option<i32>)
    ensures
        match res {
            Some(v) => signed_of(s@) == Some(v as int),
            None => signed_of(s@) is None,
        },
{
    if s.len() > 0 && s[0] == '-' {
        assert(s@.skip(1) =~= s@.drop_first());
        match parse_digits(s, 1, 10, 0x8000_0000) {
            Some(v) => Some((-(v as i64)) as i32),
            None => None,
        }
    } else {
        match parse_unsigned(s, 10, 0x7fff_ffff) {
            Some(v) => Some(v as i32),
            None => None,
        }
    }
}

/// `n` decimal digits stand for a number below the `n`-th power of ten.
pub proof fn lemma_digits_value_below(s: Seq<char>)
    requires
        all_digits(s, 10),
    ensures
        0 <= digits_value(s, 10) < pow(10, s.len()),
    decreases s.len(),
{
    reveal(pow);
    if s.len() > 0 {
        assert(is_digit_of(s.last(), 10));
        assert(all_digits(s.drop_last(), 10)) by {
            assert forall|i: int| 0 <= i < s.drop_last().len() implies is_digit_of(
                #[trigger] s.drop_last()[i],
                10,
            ) by {
                assert(s.drop_last()[i] == s[i]);
            }
        }
        lemma_digits_value_below(s.drop_last());
    }
}

/// Whether a text is made of digits of a base, stands for a number, and starts with no
/// sign.
pub open spec fn is_numeral(s: Seq<char>, base: int, n: int) -> bool {
    s.len() > 0 && all_digits(s, base) && digits_value(s, base) == n
}

/// A text of digits is read as the number that it stands for.
pub proof fn lemma_numeral_is_read(s: Seq<char>, base: int, n: int, max: int)
    requires
        is_numeral(s, base, n),
        n <= max,
    ensures
        unsigned_of(s, base, max) == Some(n),
{
    assert(is_digit_of(s[0], base));
    assert(s[0] != '+');
}

/// A digit behind a numeral makes another.
proof fn lemma_numeral_push(s: Seq<char>, base: int, n: int, c: char, d: int)
    requires
        is_numeral(s, base, n),
        digit_value(c) == Some(d),
        d < base,
    ensures
        is_numeral(s.push(c), base, n * base + d),
{
    assert(s.push(c).drop_last() =~= s);
    assert forall|i: int| 0 <= i < s.push(c).len() implies is_digit_of(
        #[trigger] s.push(c)[i],
        base,
    ) by {
        if i < s.len() {
            assert(s.push(c)[i] == s[i]);
        }
    }
}

/// A single digit is a numeral.
proof fn lemma_numeral_single(base: int, c: char, d: int)
    requires
        digit_value(c) == Some(d),
        d < base,
    ensures
        is_numeral(seq![c], base, d),
{
    assert(seq![c].drop_last() =~= Seq::empty());
    assert(digits_value(seq![c].drop_last(), base) == 0);
}

/// A number in decimal is read back.
pub proof fn law_decimal_read_back(n: int)
    requires
        n >= 0,
    ensures
        is_numeral(decimal(n), 10, n),
        forall|max: int| n <= max ==> #[trigger] unsigned_of(decimal(n), 10, max) == Some(n),
    decreases n,
{
    if n < 10 {
        lemma_numeral_single(10, upper_digit(n), n);
    } else {
        law_decimal_read_back(n / 10);
        lemma_numeral_push(decimal(n / 10), 10, n / 10, upper_digit(n % 10), n % 10);
    }
    assert forall|max: int| n <= max implies #[trigger] unsigned_of(decimal(n), 10, max) == Some(
        n,
    ) by {
        lemma_numeral_is_read(decimal(n), 10, n, max);
    }
}

/// A number in upper-case hexadecimal is read back.
pub proof fn law_hex_upper_read_back(n: int)
    requires
        n >= 0,
    ensures
        is_numeral(hex_upper(n), 16, n),
        forall|max: int| n <= max ==> #[trigger] unsigned_of(hex_upper(n), 16, max) == Some(n),
    decreases n,
{
    if n < 16 {
        lemma_numeral_single(16, upper_digit(n), n);
    } else {
        law_hex_upper_read_back(n / 16);
        lemma_numeral_push(hex_upper(n / 16), 16, n / 16, upper_digit(n % 16), n % 16);
    }
    assert forall|max: int| n <= max implies #[trigger] unsigned_of(hex_upper(n), 16, max) == Some(
        n,
    ) by {
        lemma_numeral_is_read(hex_upper(n), 16, n, max);
    }
}

/// A number in lower-case hexadecimal is read back.
pub proof fn law_hex_lower_read_back(n: int)
    requires
        n >= 0,
    ensures
        is_numeral(hex_lower(n), 16, n),
        forall|max: int| n <= max ==> #[trigger] unsigned_of(hex_lower(n), 16, max) == Some(n),
    decreases n,
{
    if n < 16 {
        lemma_numeral_single(16, lower_digit(n), n);
    } else {
        law_hex_lower_read_back(n / 16);
        lemma_numeral_push(hex_lower(n / 16), 16, n / 16, lower_digit(n % 16), n % 16);
    }
    assert forall|max: int| n <= max implies #[trigger] unsigned_of(hex_lower(n), 16, max) == Some(
        n,
    ) by {
        lemma_numeral_is_read(hex_lower(n), 16, n, max);
    }
}

/// A byte in hexadecimal is read back.
pub proof fn law_byte_hex_read_back(b: u8)
    ensures
        is_numeral(byte_hex(b), 16, b as int),
        unsigned_of(byte_hex(b), 16, 255) == Some(b as int),
{
    let high = upper_digit(b as int / 16);
    let low = upper_digit(b as int % 16);
    lemma_numeral_single(16, high, b as int / 16);
    lemma_numeral_push(seq![high], 16, b as int / 16, low, b as int % 16);
    assert(seq![high].push(low) =~= byte_hex(b));
    lemma_numeral_is_read(byte_hex(b), 16, b as int, 255);
}

/// What a character is worth as a digit: `0` to `9`, and then the letters of the alphabet in
/// either case.
pub open spec fn worth(c: char) -> Option<int> {
    if 48 <= c as int <= 57 {
        Some(c as int - 48)
    } else if 97 <= c as int <= 122 {
        Some(c as int - 97 + 10)
    } else if 65 <= c as int <= 90 {
        Some(c as int - 65 + 10)
    } else {
        None
    }
}

/// A text is read as a number by its digits: a single digit is worth itself, one more digit
/// makes a number the base times larger and adds to it, and a plus sign in front changes
/// nothing. Nothing else is a number, nor is one beyond the limit.
pub proof fn law_numbers_by_digits(s: Seq<char>, c: char, base: int, max: int)
    requires
        2 <= base <= 36,
        0 <= max,
    ensures
        unsigned_of(Seq::empty(), base, max) is None,
        unsigned_of(seq!['+'], base, max) is None,
        c != '+' ==> unsigned_of(seq![c], base, max) == match worth(c) {
            Some(d) if d < base && d <= max => Some(d),
            _ => None,
        },
        s.len() > 0 && s != seq!['+'] ==> (match (unsigned_digits_value(s, base), worth(c)) {
            (Some(n), Some(d)) if d < base => {
                &&& unsigned_digits_value(s.push(c), base) == Some(n * base + d)
                &&& unsigned_of(s.push(c), base, max) == if n * base + d <= max {
                    Some(n * base + d)
                } else {
                    None
                }
            },
            _ => unsigned_of(s.push(c), base, max) is None,
        }),
        s.len() > 0 && s[0] != '+' ==> unsigned_of(seq!['+'] + s, base, max) == unsigned_of(
            s,
            base,
            max,
        ),
        c != '+' ==> unsigned_digits_value(seq![c], base) == match worth(c) {
            Some(d) if d < base => Some(d),
            _ => None,
        },
        unsigned_of(s, base, max) == match unsigned_digits_value(s, base) {
            Some(n) if n <= max => Some(n),
            _ => None,
        },
{
    assert(seq!['+'].drop_first() =~= Seq::<char>::empty());
    if c != '+' {
        assert(seq![c].drop_last() =~= Seq::<char>::empty());
        assert(digits_value(seq![c].drop_last(), base) == 0);
        assert(seq![c][0] == c);
        if is_digit_of(c, base) {
            assert(all_digits(seq![c], base));
        } else {
            assert(!is_digit_of(seq![c][0], base));
        }
    }
    if s.len() > 0 && s != seq!['+'] {
        lemma_one_digit_more(s, c, base, max);
    }
    if s.len() > 0 && s[0] != '+' {
        assert((seq!['+'] + s).drop_first() =~= s);
    }
}

/// The number that a text stands for, whatever its size.
pub open spec fn unsigned_digits_value(s: Seq<char>, base: int) -> Option<int> {
    let digits = unsigned_digits(s);
    if digits.len() > 0 && all_digits(digits, base) {
        Some(digits_value(digits, base))
    } else {
        None
    }
}

proof fn lemma_one_digit_more(s: Seq<char>, c: char, base: int, max: int)
    requires
        2 <= base <= 36,
        s.len() > 0,
        s != seq!['+'],
    ensures
        match (unsigned_digits_value(s, base), worth(c)) {
            (Some(n), Some(d)) if d < base => {
                &&& unsigned_digits_value(s.push(c), base) == Some(n * base + d)
                &&& unsigned_of(s.push(c), base, max) == if n * base + d <= max {
                    Some(n * base + d)
                } else {
                    None
                }
            },
            _ => unsigned_of(s.push(c), base, max) is None,
        },
{
    let digits = unsigned_digits(s);
    let t = s.push(c);
    let more = unsigned_digits(t);
    if s.len() == 1 {
        assert(s =~= seq![s[0]]);
    }
    assert(digits.len() > 0);
    assert(t[0] == s[0]);
    assert(more =~= digits.push(c));
    assert(more.drop_last() =~= digits);
    assert(more.last() == c);
    if all_digits(digits, base) && is_digit_of(c, base) {
        assert forall|i: int| 0 <= i < more.len() implies is_digit_of(#[trigger] more[i], base) by {
            if i < digits.len() {
                assert(more[i] == digits[i]);
            }
        }
    } else {
        if all_digits(more, base) {
            assert forall|i: int| 0 <= i < digits.len() implies is_digit_of(
                #[trigger] digits[i],
                base,
            ) by {
                assert(is_digit_of(more[i], base));
            }
            assert(is_digit_of(more[more.len() - 1], base));
        }
    }
}

/// A text with a minus sign stands for the negative of the number behind the sign, and any
/// other for the number that it is, as far as 32 bits go.
pub proof fn law_signed_numbers(s: Seq<char>)
    ensures
        s.len() == 0 || s[0] != '-' ==> signed_of(s) == unsigned_of(s, 10, 0x7fff_ffff),
        s.len() == 0 || s[0] != '+' ==> signed_of(seq!['-'] + s) == match unsigned_of(
            s,
            10,
            0x8000_0000,
        ) {
            Some(n) => Some(-n),
            None => None,
        },
        signed_of(seq!['-', '+'] + s) is None,
{
    assert((seq!['-'] + s).drop_first() =~= s);
    let t = seq!['-', '+'] + s;
    assert(t.drop_first()[0] == '+');
    assert(!is_digit_of(t.drop_first()[0], 10));
}

/// The digits of a number: a number below the base is one digit, and another is the digits of
/// its quotient and then the one of its remainder. Letters are in upper or in lower case.
pub proof fn law_digits_of_numbers(n: int)
    requires
        0 <= n,
    ensures
        n < 10 ==> decimal(n).len() == 1 && decimal(n)[0] as int == 48 + n,
        n >= 10 ==> decimal(n) == decimal(n / 10) + decimal(n % 10),
        n < 10 ==> hex_upper(n).len() == 1 && hex_upper(n)[0] as int == 48 + n,
        10 <= n < 16 ==> hex_upper(n).len() == 1 && hex_upper(n)[0] as int == 65 + n - 10,
        n >= 16 ==> hex_upper(n) == hex_upper(n / 16) + hex_upper(n % 16),
        n < 10 ==> hex_lower(n).len() == 1 && hex_lower(n)[0] as int == 48 + n,
        10 <= n < 16 ==> hex_lower(n).len() == 1 && hex_lower(n)[0] as int == 97 + n - 10,
        n >= 16 ==> hex_lower(n) == hex_lower(n / 16) + hex_lower(n % 16),
        n < 256 ==> byte_hex(n as u8) == hex_upper(n / 16) + hex_upper(n % 16),
{
    if n >= 10 {
        assert(decimal(n) =~= decimal(n / 10) + decimal(n % 10));
    }
    if n >= 16 {
        assert(hex_upper(n) =~= hex_upper(n / 16) + hex_upper(n % 16));
        assert(hex_lower(n) =~= hex_lower(n / 16) + hex_lower(n % 16));
    }
    if n < 256 {
        assert(byte_hex(n as u8) =~= hex_upper(n / 16) + hex_upper(n % 16));
    }
}

/// A number that a text stands for lies between zero and the limit.
pub proof fn lemma_unsigned_range(s: Seq<char>, base: int, max: int)
    requires
        2 <= base,
    ensures
        unsigned_of(s, base, max) matches Some(n) ==> 0 <= n <= max,
{
    if all_digits(unsigned_digits(s), base) {
        lemma_digits_value_nonnegative(unsigned_digits(s), base);
    }
}

/// Decimal digits stand for no negative number.
pub(crate) proof fn lemma_digits_range(s: Seq<char>)
    ensures
        all_digits(s, 10) ==> digits_value(s, 10) >= 0,
{
    if all_digits(s, 10) {
        lemma_digits_value_nonnegative(s, 10);
    }
}

} // verus!
