//! Texts as sequences of characters: words, spaces and letter case.

use vstd::prelude::*;
use vstd::slice::{slice_subrange, slice_to_vec};

use crate::number::is_decimal_digit;

verus! {

/// The lower-case form that std gives a text. Only texts with characters beyond ASCII
/// are looked up by this name.
pub uninterp spec fn unicode_lowercase(s: Seq<char>) -> Seq<char>;

/// Tab, line feed, vertical tab, form feed, carriage return and space.
pub open spec fn ascii_space(c: char) -> bool {
    ('\u{9}' <= c <= '\u{d}') || c == ' '
}

/// Whether a character is of ASCII.
pub open spec fn is_ascii_char(c: char) -> bool {
    c <= '\u{7f}'
}

/// Whether a character is white space: it has the property `White_Space` of Unicode.
pub open spec fn is_space(c: char) -> bool {
    ||| ascii_space(c)
    ||| c == '\u{85}' || c == '\u{a0}' || c == '\u{1680}'
    ||| '\u{2000}' <= c <= '\u{200a}'
    ||| c == '\u{2028}' || c == '\u{2029}' || c == '\u{202f}' || c == '\u{205f}'
    ||| c == '\u{3000}'
}

/// `char::is_whitespace`: whether the character has the property `White_Space` of Unicode.
pub assume_specification[ char::is_whitespace ](c: char) -> (res: bool)
    ensures
        res == is_space(c),
;

/// A character with an ASCII letter turned to lower case.
pub open spec fn lower_char(c: char) -> char {
    if 'A' <= c <= 'Z' {
        (c as u8 + 32) as u8 as char
    } else {
        c
    }
}

/// A text with its ASCII letters turned to lower case.
pub open spec fn ascii_lower(s: Seq<char>) -> Seq<char> {
    Seq::new(s.len(), |i: int| lower_char(s[i]))
}

/// Whether a text holds only characters of ASCII.
pub open spec fn is_ascii_text(s: Seq<char>) -> bool {
    forall|i: int| 0 <= i < s.len() ==> is_ascii_char(#[trigger] s[i])
}

/// A text in lower case.
pub open spec fn lowercase(s: Seq<char>) -> Seq<char> {
    if is_ascii_text(s) {
        ascii_lower(s)
    } else {
        unicode_lowercase(s)
    }
}

/// `str::to_lowercase`: an ASCII text has its letters turned to lower case one by one;
/// any other text is turned into one that depends on the text alone.
#[verifier::external_body]
pub(crate) fn to_lowercase(s: &str) -> (lower: String)
    ensures
        is_ascii_text(s@) ==> lower@ == ascii_lower(s@),
        !is_ascii_text(s@) ==> lower@ == unicode_lowercase(s@),
{
    s.to_lowercase()
}

/// The characters of a text.
pub fn chars_of(s: &str) -> (chars: Vec<char>)
    ensures
        chars@ == s@,
{
    let mut chars: Vec<char> = Vec::new();
    for c in it: s.chars()
        invariant
            it.seq() == s@,
            chars@ == s@.take(it.index() as int),
    {
        chars.push(c);
        assert(chars@ =~= s@.take(it.index() + 1));
    }
    assert(chars@ =~= s@);
    chars
}

/// The text of characters.
pub fn text_of(chars: &[char]) -> (text: String)
    ensures
        text@ == chars@,
{
    let mut text: String = String::new();
    let mut i: usize = 0;
    while i < chars.len()
        invariant
            i <= chars@.len(),
            text@ == chars@.take(i as int),
        decreases chars@.len() - i,
    {
        text.push(chars[i]);
        i = i + 1;
        assert(text@ =~= chars@.take(i as int));
    }
    assert(text@ =~= chars@);
    text
}

/// The number of white-space characters with which a text starts.
pub open spec fn leading_spaces(s: Seq<char>) -> int
    decreases s.len(),
{
    if s.len() > 0 && is_space(s[0]) {
        1 + leading_spaces(s.drop_first())
    } else {
        0
    }
}

/// The number of other characters with which a text starts.
pub open spec fn leading_word(s: Seq<char>) -> int
    decreases s.len(),
{
    if s.len() > 0 && !is_space(s[0]) {
        1 + leading_word(s.drop_first())
    } else {
        0
    }
}

/// A text without the white space at its end.
pub open spec fn trim_end(s: Seq<char>) -> Seq<char>
    decreases s.len(),
{
    if s.len() > 0 && is_space(s.last()) {
        trim_end(s.drop_last())
    } else {
        s
    }
}

/// A text without the white space at its start and its end.
pub open spec fn trimmed(s: Seq<char>) -> Seq<char> {
    trim_end(s.skip(leading_spaces(s)))
}

/// The parts of a text between white space.
pub open spec fn words(s: Seq<char>) -> Seq<Seq<char>>
    decreases s.len(),
{
    let t = s.skip(leading_spaces(s));
    proof {
        lemma_leading(s);
        lemma_leading(t);
    }
    if t.len() == 0 {
        Seq::empty()
    } else {
        seq![t.take(leading_word(t))] + words(t.skip(leading_word(t)))
    }
}

/// Runs at the start of a text lie within it, and end where the kind of character
/// changes.
pub proof fn lemma_leading(s: Seq<char>)
    ensures
        0 <= leading_spaces(s) <= s.len(),
        0 <= leading_word(s) <= s.len(),
        forall|i: int| 0 <= i < leading_spaces(s) ==> is_space(#[trigger] s[i]),
        forall|i: int| 0 <= i < leading_word(s) ==> !is_space(#[trigger] s[i]),
        leading_spaces(s) < s.len() ==> !is_space(s[leading_spaces(s)]),
        leading_word(s) < s.len() ==> is_space(s[leading_word(s)]),
    decreases s.len(),
{
    if s.len() > 0 {
        let rest = s.drop_first();
        lemma_leading(rest);
        assert forall|i: int| 0 <= i < leading_spaces(s) implies is_space(#[trigger] s[i]) by {
            if i > 0 {
                assert(rest[i - 1] == s[i]);
            }
        }
        assert forall|i: int| 0 <= i < leading_word(s) implies !is_space(#[trigger] s[i]) by {
            if i > 0 {
                assert(rest[i - 1] == s[i]);
            }
        }
        if is_space(s[0]) && leading_spaces(s) < s.len() {
            assert(rest[leading_spaces(rest)] == s[leading_spaces(s)]);
        }
        if !is_space(s[0]) && leading_word(s) < s.len() {
            assert(rest[leading_word(rest)] == s[leading_word(s)]);
        }
    }
}

/// A run of white space that ends where the text ends or where another character
/// follows is the one with which the text starts.
pub proof fn lemma_leading_spaces_are(s: Seq<char>, n: int)
    requires
        0 <= n <= s.len(),
        forall|i: int| 0 <= i < n ==> is_space(#[trigger] s[i]),
        n < s.len() ==> !is_space(s[n]),
    ensures
        leading_spaces(s) == n,
    decreases n,
{
    if n > 0 {
        let rest = s.drop_first();
        assert forall|i: int| 0 <= i < n - 1 implies is_space(#[trigger] rest[i]) by {
            assert(rest[i] == s[i + 1]);
        }
        lemma_leading_spaces_are(rest, n - 1);
    }
}

/// A run of other characters that ends where the text ends or where white space
/// follows is the one with which the text starts.
pub proof fn lemma_leading_word_is(s: Seq<char>, n: int)
    requires
        0 <= n <= s.len(),
        forall|i: int| 0 <= i < n ==> !is_space(#[trigger] s[i]),
        n < s.len() ==> is_space(s[n]),
    ensures
        leading_word(s) == n,
    decreases n,
{
    if n > 0 {
        let rest = s.drop_first();
        assert forall|i: int| 0 <= i < n - 1 implies !is_space(#[trigger] rest[i]) by {
            assert(rest[i] == s[i + 1]);
        }
        lemma_leading_word_is(rest, n - 1);
    }
}

/// A copy of the characters from `from` up to, not including, `to`.
pub fn part(s: &[char], from: usize, to: usize) -> (res: Vec<char>)
    requires
        from <= to <= s@.len(),
    ensures
        res@ == s@.subrange(from as int, to as int),
{
    slice_to_vec(slice_subrange(s, from, to))
}

/// A text without the white space at its start and its end.
pub fn trim(s: &[char]) -> (res: Vec<char>)
    ensures
        res@ == trimmed(s@),
{
    let mut from: usize = 0;
    while from < s.len() && s[from].is_whitespace()
        invariant
            from <= s@.len(),
            forall|i: int| 0 <= i < from ==> is_space(#[trigger] s@[i]),
        ensures
            from <= s@.len(),
            forall|i: int| 0 <= i < from ==> is_space(#[trigger] s@[i]),
            from < s@.len() ==> !is_space(s@[from as int]),
        decreases s@.len() - from,
    {
        from = from + 1;
    }
    proof {
        lemma_leading_spaces_are(s@, from as int);
    }
    let mut to: usize = s.len();
    assert(s@.subrange(from as int, to as int) =~= s@.skip(from as int));
    while to > from && s[to - 1].is_whitespace()
        invariant
            from <= to <= s@.len(),
            trim_end(s@.subrange(from as int, to as int)) == trim_end(s@.skip(from as int)),
        ensures
            from <= to <= s@.len(),
            trim_end(s@.subrange(from as int, to as int)) == trim_end(s@.skip(from as int)),
            to > from ==> !is_space(s@[to - 1]),
        decreases to,
    {
        let ghost longer = s@.subrange(from as int, to as int);
        assert(longer.last() == s@[to - 1]);
        assert(longer.drop_last() =~= s@.subrange(from as int, to - 1));
        to = to - 1;
    }
    part(s, from, to)
}

/// Words as contracts see them.
pub open spec fn word_views(list: Seq<Vec<char>>) -> Seq<Seq<char>> {
    Seq::new(list.len(), |i: int| list[i]@)
}

/// The parts of a text between white space.
pub fn split_words(s: &[char]) -> (list: Vec<Vec<char>>)
    ensures
        word_views(list@) == words(s@),
{
    let mut list: Vec<Vec<char>> = Vec::new();
    let mut pos: usize = 0;
    assert(s@.skip(0) =~= s@);
    assert(word_views(list@) + words(s@) =~= words(s@));
    loop
        invariant
            pos <= s@.len(),
            word_views(list@) + words(s@.skip(pos as int)) == words(s@),
        decreases s@.len() - pos,
    {
        let ghost left = s@.skip(pos as int);
        let mut from: usize = pos;
        while from < s.len() && s[from].is_whitespace()
            invariant
                pos <= from <= s@.len(),
                left == s@.skip(pos as int),
                forall|i: int| 0 <= i < from - pos ==> is_space(#[trigger] left[i]),
            ensures
                pos <= from <= s@.len(),
                forall|i: int| 0 <= i < from - pos ==> is_space(#[trigger] left[i]),
                from < s@.len() ==> !is_space(s@[from as int]),
            decreases s@.len() - from,
        {
            assert(left[from - pos] == s@[from as int]);
            from = from + 1;
        }
        let ghost text = s@.skip(from as int);
        proof {
            if from < s@.len() {
                assert(left[from - pos] == s@[from as int]);
            }
            lemma_leading_spaces_are(left, from - pos);
            assert(left.skip(from - pos) =~= text);
        }
        if from == s.len() {
            assert(words(left) =~= Seq::empty());
            assert(word_views(list@) + words(left) =~= word_views(list@));
            return list;
        }
        let mut to: usize = from;
        while to < s.len() && !s[to].is_whitespace()
            invariant
                from <= to <= s@.len(),
                text == s@.skip(from as int),
                forall|i: int| 0 <= i < to - from ==> !is_space(#[trigger] text[i]),
            ensures
                from <= to <= s@.len(),
                forall|i: int| 0 <= i < to - from ==> !is_space(#[trigger] text[i]),
                to < s@.len() ==> is_space(s@[to as int]),
            decreases s@.len() - to,
        {
            assert(text[to - from] == s@[to as int]);
            to = to + 1;
        }
        proof {
            if to < s@.len() {
                assert(text[to - from] == s@[to as int]);
            }
            lemma_leading_word_is(text, to - from);
            if to == from {
                assert(text[0] == s@[from as int]);
            }
        }
        let ghost before = word_views(list@);
        let word: Vec<char> = part(s, from, to);
        list.push(word);
        proof {
            assert(word@ =~= text.take(to - from));
            assert(text.skip(to - from) =~= s@.skip(to as int));
            assert(word_views(list@) =~= before.push(word@));
            assert(before + (seq![word@] + words(s@.skip(to as int))) =~= word_views(list@) + words(
                s@.skip(to as int),
            ));
        }
        pos = to;
    }
}

/// The first place from `from` on that holds a character, or the end of the text.
pub open spec fn place_of(s: Seq<char>, c: char, from: int) -> int
    decreases s.len() - from,
{
    if from >= s.len() {
        s.len() as int
    } else if s[from] == c {
        from
    } else {
        place_of(s, c, from + 1)
    }
}

/// The first place from `from` on that holds a character, or the end of the text.
pub fn find_char(s: &[char], c: char, from: usize) -> (at: usize)
    requires
        from <= s@.len(),
    ensures
        at == place_of(s@, c, from as int),
        from <= at <= s@.len(),
        at < s@.len() ==> s@[at as int] == c,
{
    let mut at: usize = from;
    while at < s.len() && s[at] != c
        invariant
            from <= at <= s@.len(),
            place_of(s@, c, at as int) == place_of(s@, c, from as int),
        ensures
            from <= at <= s@.len(),
            place_of(s@, c, at as int) == place_of(s@, c, from as int),
            at < s@.len() ==> s@[at as int] == c,
        decreases s@.len() - at,
    {
        at = at + 1;
    }
    at
}

/// Whether a text stands in another at the given place.
pub open spec fn stands_at(s: Seq<char>, part: Seq<char>, at: int) -> bool {
    0 <= at && at + part.len() <= s.len() && s.subrange(at, at + part.len()) == part
}

/// Whether a text stands in another at the given place.
fn is_at(s: &[char], part: &[char], at: usize) -> (res: bool)
    requires
        at + part@.len() <= s@.len(),
    ensures
        res == stands_at(s@, part@, at as int),
{
    let mut i: usize = 0;
    while i < part.len()
        invariant
            i <= part@.len(),
            at + part@.len() <= s@.len(),
            forall|k: int| 0 <= k < i ==> s@[at + k] == #[trigger] part@[k],
        decreases part@.len() - i,
    {
        assert(s@.len() == s.len());
        if s[at + i] != part[i] {
            assert(s@.subrange(at as int, at + part@.len())[i as int] != part@[i as int]);
            return false;
        }
        i = i + 1;
    }
    assert(s@.subrange(at as int, at + part@.len()) =~= part@);
    true
}

/// Whether a text starts with another.
pub open spec fn has_prefix(s: Seq<char>, prefix: Seq<char>) -> bool {
    stands_at(s, prefix, 0)
}

/// Whether a text contains another.
pub open spec fn has_part(s: Seq<char>, part: Seq<char>) -> bool {
    exists|at: int| #[trigger] stands_at(s, part, at)
}

/// Whether a text starts with another.
pub fn starts_with(s: &[char], prefix: &str) -> (res: bool)
    ensures
        res == has_prefix(s@, prefix@),
{
    let chars: Vec<char> = chars_of(prefix);
    chars.len() <= s.len() && is_at(s, &chars, 0)
}

/// Whether a text contains another.
pub fn contains(s: &[char], part: &str) -> (res: bool)
    ensures
        res == has_part(s@, part@),
{
    let chars: Vec<char> = chars_of(part);
    if chars.len() > s.len() {
        return false;
    }
    let last: usize = s.len() - chars.len();
    let mut at: usize = 0;
    loop
        invariant
            at <= last,
            last + chars@.len() == s@.len(),
            chars@ == part@,
            forall|k: int| 0 <= k < at ==> !#[trigger] stands_at(s@, part@, k),
        decreases last - at,
    {
        if is_at(s, &chars, at) {
            return true;
        }
        if at == last {
            return false;
        }
        at = at + 1;
    }
}

/// Whether two texts are the same.
pub fn same_text(s: &[char], other: &str) -> (res: bool)
    ensures
        res == (s@ == other@),
{
    let chars: Vec<char> = chars_of(other);
    if chars.len() != s.len() {
        return false;
    }
    let res: bool = is_at(s, &chars, 0);
    assert(s@.subrange(0, s@.len() as int) =~= s@);
    res
}

/// A character with an ASCII letter turned to lower case.
fn to_lower_char(c: char) -> (res: char)
    ensures
        res == lower_char(c),
{
    if 'A' <= c && c <= 'Z' {
        (c as u8 + 32) as char
    } else {
        c
    }
}

/// Whether two texts are the same but for the case of ASCII letters.
pub open spec fn same_but_case(s: Seq<char>, other: Seq<char>) -> bool {
    ascii_lower(s) == ascii_lower(other)
}

/// Whether two texts are the same but for the case of ASCII letters.
pub fn same_letters(s: &[char], other: &str) -> (res: bool)
    ensures
        res == same_but_case(s@, other@),
{
    let chars: Vec<char> = chars_of(other);
    if chars.len() != s.len() {
        assert(ascii_lower(s@).len() != ascii_lower(other@).len());
        return false;
    }
    let mut i: usize = 0;
    while i < s.len()
        invariant
            i <= s@.len(),
            s@.len() == chars@.len(),
            chars@ == other@,
            forall|k: int| 0 <= k < i ==> lower_char(#[trigger] s@[k]) == lower_char(other@[k]),
        decreases s@.len() - i,
    {
        if to_lower_char(s[i]) != to_lower_char(chars[i]) {
            assert(ascii_lower(s@)[i as int] != ascii_lower(other@)[i as int]);
            return false;
        }
        i = i + 1;
    }
    assert(ascii_lower(s@) =~= ascii_lower(other@));
    true
}

/// The number of decimal digits with which a text starts.
pub open spec fn leading_digits(s: Seq<char>) -> int
    decreases s.len(),
{
    if s.len() > 0 && is_decimal_digit(s[0]) {
        1 + leading_digits(s.drop_first())
    } else {
        0
    }
}

/// The number of decimal digits with which a text goes on from `from`.
pub fn count_digits(s: &[char], from: usize) -> (n: usize)
    requires
        from <= s@.len(),
    ensures
        n == leading_digits(s@.skip(from as int)),
        from + n <= s@.len(),
{
    let mut n: usize = 0;
    while n < s.len() - from && '0' <= s[from + n] && s[from + n] <= '9'
        invariant
            from + n <= s@.len(),
            leading_digits(s@.skip(from as int)) == n + leading_digits(s@.skip(from + n)),
        ensures
            from + n <= s@.len(),
            leading_digits(s@.skip(from as int)) == n + leading_digits(s@.skip(from + n)),
            from + n < s@.len() ==> !is_decimal_digit(s@[from + n]),
        decreases s@.len() - from - n,
    {
        assert(s@.skip(from + n).drop_first() =~= s@.skip(from + n + 1));
        n = n + 1;
    }
    assert(from + n < s@.len() ==> s@.skip(from + n)[0] == s@[from + n]);
    n
}

/// Whether a text holds only decimal digits.
pub open spec fn only_digits(s: Seq<char>) -> bool {
    leading_digits(s) == s.len()
}

/// Whether a text holds only decimal digits.
pub fn has_only_digits(s: &[char]) -> (res: bool)
    ensures
        res == only_digits(s@),
{
    assert(s@.skip(0) =~= s@);
    count_digits(s, 0) == s.len()
}

/// A text without a sign at its start.
pub open spec fn without_sign(s: Seq<char>) -> Seq<char> {
    if s.len() > 0 && (s[0] == '+' || s[0] == '-') {
        s.drop_first()
    } else {
        s
    }
}

/// Nothing, or the letter `e`, an optional sign and digits.
pub open spec fn is_exponent(s: Seq<char>) -> bool {
    s.len() == 0 || {
        &&& s[0] == 'e' || s[0] == 'E'
        &&& without_sign(s.drop_first()).len() > 0
        &&& only_digits(without_sign(s.drop_first()))
    }
}

/// Digits with at most one decimal point among or beside them, and an exponent.
pub open spec fn is_plain_number(s: Seq<char>) -> bool {
    let whole = leading_digits(s);
    if whole < s.len() && s[whole] == '.' {
        let rest = s.skip(whole + 1);
        whole + leading_digits(rest) > 0 && is_exponent(rest.skip(leading_digits(rest)))
    } else {
        whole > 0 && is_exponent(s.skip(whole))
    }
}

/// Whether a text stands for a floating-point number: an optional sign, and a plain
/// number, `inf`, `infinity` or `nan`, the letters in either case.
pub open spec fn is_float_text(s: Seq<char>) -> bool {
    let t = without_sign(s);
    same_but_case(t, "inf"@) || same_but_case(t, "infinity"@) || same_but_case(t, "nan"@)
        || is_plain_number(t)
}

/// Digit runs lie within the text, and end where the kind of character changes.
pub proof fn lemma_leading_digits(s: Seq<char>)
    ensures
        0 <= leading_digits(s) <= s.len(),
        forall|i: int| 0 <= i < leading_digits(s) ==> is_decimal_digit(#[trigger] s[i]),
        leading_digits(s) < s.len() ==> !is_decimal_digit(s[leading_digits(s)]),
    decreases s.len(),
{
    if s.len() > 0 {
        let rest = s.drop_first();
        lemma_leading_digits(rest);
        assert forall|i: int| 0 <= i < leading_digits(s) implies is_decimal_digit(
            #[trigger] s[i],
        ) by {
            if i > 0 {
                assert(rest[i - 1] == s[i]);
            }
        }
        if is_decimal_digit(s[0]) && leading_digits(s) < s.len() {
            assert(rest[leading_digits(rest)] == s[leading_digits(s)]);
        }
    }
}

/// Whether the text from `from` on is an exponent.
fn has_exponent(s: &[char], from: usize) -> (res: bool)
    requires
        from <= s@.len(),
    ensures
        res == is_exponent(s@.skip(from as int)),
{
    let ghost e = s@.skip(from as int);
    if from == s.len() {
        return true;
    }
    assert(e[0] == s@[from as int]);
    if s[from] != 'e' && s[from] != 'E' {
        return false;
    }
    let mut at: usize = from + 1;
    assert(e.drop_first() =~= s@.skip(at as int));
    if at < s.len() && (s[at] == '+' || s[at] == '-') {
        assert(e.drop_first().drop_first() =~= s@.skip(at + 1));
        at = at + 1;
    }
    assert(without_sign(e.drop_first()) =~= s@.skip(at as int));
    at < s.len() && count_digits(s, at) == s.len() - at
}

/// Whether a text stands for a floating-point number.
pub fn is_float(s: &[char]) -> (res: bool)
    ensures
        res == is_float_text(s@),
{
    let sign: usize = if s.len() > 0 && (s[0] == '+' || s[0] == '-') {
        1
    } else {
        0
    };
    let t: Vec<char> = part(s, sign, s.len());
    assert(t@ =~= without_sign(s@));
    if same_letters(&t, "inf") || same_letters(&t, "infinity") || same_letters(&t, "nan") {
        return true;
    }
    assert(t@.skip(0) =~= t@);
    let whole: usize = count_digits(&t, 0);
    if whole < t.len() && t[whole] == '.' {
        let fraction: usize = count_digits(&t, whole + 1);
        assert(t@.skip(whole + 1).skip(fraction as int) =~= t@.skip(whole + 1 + fraction));
        (whole > 0 || fraction > 0) && has_exponent(&t, whole + 1 + fraction)
    } else {
        whole > 0 && has_exponent(&t, whole)
    }
}

/// White space is these 25 characters.
pub proof fn law_white_space(c: char)
    ensures
        is_space(c) <==> {
            let n = c as int;
            ||| 9 <= n <= 13
            ||| n == 32 || n == 133 || n == 160 || n == 5760
            ||| 8192 <= n <= 8202
            ||| n == 8232 || n == 8233 || n == 8239 || n == 8287 || n == 12288
        },
{
}

/// A text starts with another whose characters are its first, and contains another whose
/// characters stand in it one behind the other.
pub proof fn law_parts_of_texts(s: Seq<char>, part: Seq<char>)
    ensures
        has_prefix(s, part) <==> part.len() <= s.len() && forall|i: int|
            0 <= i < part.len() ==> s[i] == #[trigger] part[i],
        has_part(s, part) <==> exists|before: Seq<char>, after: Seq<char>|
            #[trigger] (before + part + after) == s,
{
    if has_prefix(s, part) {
        assert forall|i: int| 0 <= i < part.len() implies s[i] == #[trigger] part[i] by {
            assert(s.subrange(0, part.len() as int)[i] == part[i]);
        }
    }
    if part.len() <= s.len() && forall|i: int| 0 <= i < part.len() ==> s[i] == #[trigger] part[i] {
        assert(s.subrange(0, part.len() as int) =~= part);
    }
    if has_part(s, part) {
        let at = choose|at: int| #[trigger] stands_at(s, part, at);
        let before = s.take(at);
        let after = s.skip(at + part.len());
        assert(before + part + after =~= s) by {
            assert forall|i: int| at <= i < at + part.len() implies s[i] == part[i - at] by {
                assert(s.subrange(at, at + part.len())[i - at] == s[i]);
            }
        }
    }
    if exists|before: Seq<char>, after: Seq<char>| #[trigger] (before + part + after) == s {
        let (before, after) = choose|before: Seq<char>, after: Seq<char>|
            #[trigger] (before + part + after) == s;
        let at = before.len() as int;
        assert(s.subrange(at, at + part.len()) =~= part);
        assert(stands_at(s, part, at));
    }
}

/// Texts are the same but for case where they are equally long and every two characters are
/// the same, or the same letter of ASCII in upper and lower case.
pub proof fn law_letter_case(s: Seq<char>, other: Seq<char>, c: char)
    ensures
        lower_char(c) as int == if 65 <= c as int <= 90 {
            c as int + 32
        } else {
            c as int
        },
        ascii_lower(s).len() == s.len(),
        forall|i: int| 0 <= i < s.len() ==> #[trigger] ascii_lower(s)[i] == lower_char(s[i]),
        same_but_case(s, other) <==> s.len() == other.len() && forall|i: int|
            0 <= i < s.len() ==> lower_char(#[trigger] s[i]) == lower_char(other[i]),
{
    let a = ascii_lower(s);
    let b = ascii_lower(other);
    if a == b {
        assert(a.len() == s.len() && b.len() == other.len());
        assert forall|i: int| 0 <= i < s.len() implies lower_char(#[trigger] s[i]) == lower_char(
            other[i],
        ) by {
            assert(a[i] == b[i]);
        }
    }
    if s.len() == other.len() && forall|i: int|
        0 <= i < s.len() ==> lower_char(#[trigger] s[i]) == lower_char(other[i]) {
        assert(a =~= b);
    }
}

/// A text holds only digits where every character is one of `0` to `9`.
pub proof fn law_only_digits(s: Seq<char>)
    ensures
        only_digits(s) <==> forall|i: int|
            0 <= i < s.len() ==> 48 <= (#[trigger] s[i]) as int <= 57,
    decreases s.len(),
{
    if s.len() > 0 {
        let rest = s.drop_first();
        law_only_digits(rest);
        lemma_leading_digits(s);
        if only_digits(s) {
            assert forall|i: int| 0 <= i < s.len() implies 48 <= (#[trigger] s[i]) as int <= 57 by {
                assert(is_decimal_digit(s[i]));
            }
        }
        if forall|i: int| 0 <= i < s.len() ==> 48 <= (#[trigger] s[i]) as int <= 57 {
            assert forall|i: int| 0 <= i < rest.len() implies 48 <= (#[trigger] rest[i]) as int
                <= 57 by {
                assert(rest[i] == s[i + 1]);
            }
            assert(48 <= s[0] as int <= 57);
        }
    }
}

/// Digits in front of something else are the digits with which a text starts.
proof fn lemma_digits_in_front(digits: Seq<char>, rest: Seq<char>)
    requires
        only_digits(digits),
        rest.len() > 0 ==> !is_decimal_digit(rest[0]),
    ensures
        leading_digits(digits + rest) == digits.len(),
        (digits + rest).skip(digits.len() as int) == rest,
    decreases digits.len(),
{
    let s = digits + rest;
    assert(s.skip(digits.len() as int) =~= rest);
    if digits.len() == 0 {
        assert(s =~= rest);
    } else {
        assert(s[0] == digits[0]);
        assert(s.drop_first() =~= digits.drop_first() + rest);
        lemma_digits_in_front(digits.drop_first(), rest);
    }
}

/// Whether a text is an exponent of these digits: the letter `e` in either case, maybe a sign,
/// and the digits; or nothing.
pub open spec fn is_power(exponent: Seq<char>, digits: Seq<char>) -> bool {
    exponent == Seq::<char>::empty() || {
        &&& digits.len() > 0
        &&& ({
            ||| exponent == seq!['e'] + digits
            ||| exponent == seq!['E'] + digits
            ||| exponent == seq!['e', '-'] + digits
            ||| exponent == seq!['e', '+'] + digits
            ||| exponent == seq!['E', '-'] + digits
            ||| exponent == seq!['E', '+'] + digits
        })
    }
}

/// Digits, with a decimal point among or beside them or without one, with an exponent or
/// without one, and with a sign or without one, are a number of seconds.
#[verifier::rlimit(40)]
pub proof fn law_decimal_numbers_are_floats(
    sign: Seq<char>,
    whole: Seq<char>,
    point: bool,
    fraction: Seq<char>,
    exponent: Seq<char>,
    digits: Seq<char>,
)
    requires
        sign == Seq::<char>::empty() || sign == seq!['+'] || sign == seq!['-'],
        only_digits(whole),
        only_digits(fraction),
        whole.len() + fraction.len() > 0,
        !point ==> fraction.len() == 0,
        only_digits(digits),
        is_power(exponent, digits),
    ensures
        is_float_text(
            sign + whole + (if point {
                seq!['.'] + fraction
            } else {
                Seq::empty()
            }) + exponent,
        ),
{
    let middle = if point {
        seq!['.'] + fraction
    } else {
        Seq::empty()
    };
    let s = sign + whole + middle + exponent;
    let t = whole + (middle + exponent);
    lemma_leading_digits(digits);
    assert(is_exponent(exponent)) by {
        if exponent.len() > 0 {
            let rest = exponent.drop_first();
            if exponent == seq!['e'] + digits || exponent == seq!['E'] + digits {
                assert(rest =~= digits);
                assert(is_decimal_digit(digits[0]));
            } else {
                assert(rest.drop_first() =~= digits);
            }
        }
    }
    lemma_leading_digits(whole);
    lemma_leading_digits(fraction);
    assert(without_sign(s) =~= t) by {
        if sign.len() == 0 {
            assert(s =~= t);
            if whole.len() > 0 {
                assert(s[0] == whole[0]);
                assert(is_decimal_digit(whole[0]));
            } else {
                assert(s[0] == '.');
            }
        } else {
            assert(s.drop_first() =~= t);
        }
    }
    if point {
        let rest = middle + exponent;
        assert(rest[0] == '.');
        lemma_digits_in_front(whole, rest);
        assert(t[whole.len() as int] == '.');
        assert(t.skip(whole.len() as int + 1) =~= fraction + exponent);
        lemma_digits_in_front(fraction, exponent);
    } else {
        assert(middle + exponent =~= exponent);
        lemma_digits_in_front(whole, exponent);
    }
}

/// The parts of a number of seconds.
pub struct FloatParts {
    pub sign: Seq<char>,
    pub whole: Seq<char>,
    pub point: bool,
    pub fraction: Seq<char>,
    pub exponent: Seq<char>,
    pub digits: Seq<char>,
}

/// Whether a text is a sign, digits, maybe a decimal point and more digits, and an exponent.
pub open spec fn is_made_of(s: Seq<char>, p: FloatParts) -> bool {
    &&& p.sign == Seq::<char>::empty() || p.sign == seq!['+'] || p.sign == seq!['-']
    &&& only_digits(p.whole) && only_digits(p.fraction) && only_digits(p.digits)
    &&& p.whole.len() + p.fraction.len() > 0
    &&& !p.point ==> p.fraction.len() == 0
    &&& is_power(p.exponent, p.digits)
    &&& s == p.sign + p.whole + (if p.point {
        seq!['.'] + p.fraction
    } else {
        Seq::empty()
    }) + p.exponent
}

/// Whether a text is one of the numbers that are written in letters, with a sign or without.
pub open spec fn is_named_float(s: Seq<char>) -> bool {
    let t = if s.len() > 0 && (s[0] == '+' || s[0] == '-') {
        s.subrange(1, s.len() as int)
    } else {
        s
    };
    same_but_case(t, "inf"@) || same_but_case(t, "infinity"@) || same_but_case(t, "nan"@)
}

/// Nothing else is a number of seconds: only a text made of these parts, and `inf`, `infinity`
/// and `nan`.
#[verifier::rlimit(40)]
pub proof fn law_floats_are_decimal_numbers(s: Seq<char>)
    ensures
        is_float_text(s) <==> is_named_float(s) || exists|p: FloatParts| #[trigger]
            is_made_of(s, p),
{
    let t = without_sign(s);
    if s.len() > 0 && (s[0] == '+' || s[0] == '-') {
        assert(t =~= s.subrange(1, s.len() as int));
    }
    if is_plain_number(t) {
        let p = lemma_made_of(s);
        assert(is_made_of(s, p));
    }
    if exists|p: FloatParts| #[trigger] is_made_of(s, p) {
        let p = choose|p: FloatParts| #[trigger] is_made_of(s, p);
        law_decimal_numbers_are_floats(p.sign, p.whole, p.point, p.fraction, p.exponent, p.digits);
    }
}

/// The sign at the start of a text.
spec fn sign_of(s: Seq<char>) -> Seq<char> {
    if s.len() > 0 && (s[0] == '+' || s[0] == '-') {
        seq![s[0]]
    } else {
        Seq::empty()
    }
}

/// A plain number with a sign is made of its parts.
#[verifier::rlimit(40)]
proof fn lemma_made_of(s: Seq<char>) -> (p: FloatParts)
    requires
        is_plain_number(without_sign(s)),
    ensures
        is_made_of(s, p),
{
    let t = without_sign(s);
    let sign = sign_of(s);
    assert(s =~= sign + t);
    let n = leading_digits(t);
    lemma_leading_digits(t);
    lemma_taken_digits(t);
    if n < t.len() && t[n] == '.' {
        let rest = t.skip(n + 1);
        let k = leading_digits(rest);
        lemma_leading_digits(rest);
        lemma_taken_digits(rest);
        let exponent = rest.skip(k);
        let digits = lemma_power(exponent);
        let p = FloatParts {
            sign,
            whole: t.take(n),
            point: true,
            fraction: rest.take(k),
            exponent,
            digits,
        };
        assert(t =~= p.whole + (seq!['.'] + p.fraction) + exponent);
        assert(s =~= sign + p.whole + (seq!['.'] + p.fraction) + exponent);
        p
    } else {
        let exponent = t.skip(n);
        let digits = lemma_power(exponent);
        let p = FloatParts {
            sign,
            whole: t.take(n),
            point: false,
            fraction: Seq::empty(),
            exponent,
            digits,
        };
        assert(s =~= sign + p.whole + Seq::<char>::empty() + exponent);
        p
    }
}

/// The digits at the start of a text are digits.
proof fn lemma_taken_digits(s: Seq<char>)
    ensures
        only_digits(s.take(leading_digits(s))),
{
    let t = s.take(leading_digits(s));
    lemma_leading_digits(s);
    law_only_digits(t);
    assert forall|i: int| 0 <= i < t.len() implies 48 <= (#[trigger] t[i]) as int <= 57 by {
        assert(t[i] == s[i]);
        assert(is_decimal_digit(s[i]));
    }
}

/// An exponent is one of its digits.
proof fn lemma_power(s: Seq<char>) -> (digits: Seq<char>)
    requires
        is_exponent(s),
    ensures
        only_digits(digits),
        is_power(s, digits),
{
    if s.len() > 0 {
        let rest = s.drop_first();
        let digits = without_sign(rest);
        if digits.len() == rest.len() {
            assert(s =~= seq![s[0]] + digits);
        } else {
            assert(s =~= seq![s[0], rest[0]] + digits);
        }
        digits
    } else {
        assert(s =~= Seq::<char>::empty());
        Seq::empty()
    }
}

} // verus!
