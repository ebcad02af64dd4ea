//! What reading gives back of what was written.

use vstd::prelude::*;

use crate::asc::reader::{
    body_line, breaks_off, byte_or_zero, bytes_of, can_read, channel_of, event_of, fd_flags_at,
    header_line, id_of, may_answer, may_start, start_words, AscNextView, AscTimeView, AscView, Base,
};
use crate::asc::writer::{
    data_count, data_text, direction_text, event_line, event_text, fd_trailer, flag_text, id_text,
    left_aligned, right_aligned,
};
use crate::blf::object::channel_from_log;
use crate::blf::writer::channel_to_log;
use crate::dlc::{fd_code, fd_length};
use crate::error::ErrorView;
use crate::message::{empty_message, spaced_hex, MessageView};
use crate::number::{
    all_digits, at_most, byte_hex, decimal, hex_lower, hex_upper, is_decimal_digit, is_digit_of,
    is_numeral, law_byte_hex_read_back, law_decimal_read_back, law_hex_lower_read_back,
    law_hex_upper_read_back, unsigned_of,
};
use crate::sentence::{
    bare, blanks, is_word, lemma_first_word, lemma_spread_add, lemma_trimmed, lemma_trimmed_word,
    lemma_words_of_spread, opens_blank, spread, well_spaced, Spaced,
};
use crate::text::{
    ascii_lower, has_part, has_prefix, is_ascii_char, is_ascii_text, is_exponent, is_float_text,
    is_plain_number, is_space, leading_digits, leading_spaces, lemma_leading_digits, lower_char,
    lowercase, only_digits, same_but_case, stands_at, trimmed, without_sign, words,
};

verus! {

/// What a message is read back as from the line that was written for it.
pub open spec fn asc_recorded<T>(m: MessageView<T>, time: AscTimeView) -> MessageView<AscTimeView> {
    let channel = channel_from_log(channel_to_log(m.channel) as int);
    let frame = MessageView {
        arbitration_id: m.arbitration_id,
        is_extended_id: m.is_extended_id,
        is_rx: m.is_rx,
        channel,
        ..empty_message(time)
    };
    if m.is_error_frame {
        MessageView { is_error_frame: true, channel, ..empty_message(time) }
    } else if m.is_fd {
        MessageView {
            is_fd: true,
            is_remote_frame: data_count(m) == 0,
            bitrate_switch: m.bitrate_switch,
            error_state_indicator: m.error_state_indicator,
            dlc: if data_count(m) == 0 {
                fd_code(m.dlc as int) as u8
            } else {
                data_count(m) as u8
            },
            data: m.data.take(data_count(m)),
            ..frame
        }
    } else if m.is_remote_frame {
        MessageView { is_remote_frame: true, dlc: m.dlc, ..frame }
    } else {
        MessageView {
            dlc: fd_length(m.dlc as int) as u8,
            data: m.data.take(
                at_most(at_most(fd_length(m.dlc as int), 8), m.data.len() as int),
            ),
            ..frame
        }
    }
}

/// A character of ASCII that ends no line and is neither an S nor an L: those appear in no
/// event, and tell the lines that are no events.
pub open spec fn is_plain(c: char) -> bool {
    is_ascii_char(c) && c != '\n' && lower_char(c) != 's' && lower_char(c) != 'l'
}

/// Whether a text holds only plain characters.
pub open spec fn all_plain(s: Seq<char>) -> bool {
    forall|i: int| 0 <= i < s.len() ==> is_plain(#[trigger] s[i])
}

/// A character that a number of seconds may be written with.
pub(crate) open spec fn is_time_char(c: char) -> bool {
    ||| is_decimal_digit(c)
    ||| c == '+' || c == '-' || c == '.'
    ||| lower_char(c) == 'i' || lower_char(c) == 'n' || lower_char(c) == 'f' || lower_char(c) == 't'
        || lower_char(c) == 'y' || lower_char(c) == 'a' || lower_char(c) == 'e'
}

/// Digits fill a text of which they are the whole length.
proof fn lemma_only_digits(s: Seq<char>)
    requires
        only_digits(s),
    ensures
        forall|i: int| 0 <= i < s.len() ==> is_decimal_digit(#[trigger] s[i]),
{
    lemma_leading_digits(s);
}

proof fn lemma_exponent_chars(s: Seq<char>)
    requires
        is_exponent(s),
    ensures
        forall|i: int| 0 <= i < s.len() ==> is_time_char(#[trigger] s[i]),
{
    if s.len() > 0 {
        let t = s.drop_first();
        let u = without_sign(t);
        lemma_only_digits(u);
        let k = s.len() - u.len();
        assert forall|i: int| 0 <= i < s.len() implies is_time_char(#[trigger] s[i]) by {
            if i >= k {
                assert(u[i - k] == s[i]);
            } else if i == 1 {
                assert(t[0] == s[1]);
            }
        }
    }
}

proof fn lemma_plain_number_chars(s: Seq<char>)
    requires
        is_plain_number(s),
    ensures
        s.len() > 0,
        forall|i: int| 0 <= i < s.len() ==> is_time_char(#[trigger] s[i]),
        is_decimal_digit(s[0]) || s[0] == '.',
{
    let whole = leading_digits(s);
    lemma_leading_digits(s);
    if whole < s.len() && s[whole] == '.' {
        let rest = s.skip(whole + 1);
        let n = leading_digits(rest);
        lemma_leading_digits(rest);
        let e = rest.skip(n);
        lemma_exponent_chars(e);
        assert forall|i: int| 0 <= i < s.len() implies is_time_char(#[trigger] s[i]) by {
            if i > whole {
                assert(rest[i - whole - 1] == s[i]);
                if i - whole - 1 >= n {
                    assert(e[i - whole - 1 - n] == s[i]);
                }
            }
        }
    } else {
        let e = s.skip(whole);
        lemma_exponent_chars(e);
        assert forall|i: int| 0 <= i < s.len() implies is_time_char(#[trigger] s[i]) by {
            if i >= whole {
                assert(e[i - whole] == s[i]);
            }
        }
    }
}

/// The letters of a text that is the same as another but for case.
pub(crate) proof fn lemma_same_but_case(s: Seq<char>, other: Seq<char>)
    requires
        same_but_case(s, other),
    ensures
        s.len() == other.len(),
        forall|i: int| 0 <= i < s.len() ==> lower_char(#[trigger] s[i]) == lower_char(other[i]),
{
    assert(ascii_lower(s).len() == s.len() && ascii_lower(other).len() == other.len());
    assert forall|i: int| 0 <= i < s.len() implies lower_char(#[trigger] s[i]) == lower_char(
        other[i],
    ) by {
        assert(ascii_lower(s)[i] == ascii_lower(other)[i]);
    }
}

/// The characters of a number of seconds.
pub(crate) proof fn lemma_time_chars(s: Seq<char>)
    requires
        is_float_text(s),
    ensures
        s.len() > 0,
        forall|i: int| 0 <= i < s.len() ==> is_time_char(#[trigger] s[i]),
        is_decimal_digit(s[0]) || s[0] == '.' || s[0] == '+' || s[0] == '-' || lower_char(s[0])
            == 'i' || lower_char(s[0]) == 'n',
{
    reveal_strlit("inf");
    reveal_strlit("infinity");
    reveal_strlit("nan");
    let t = without_sign(s);
    if same_but_case(t, "inf"@) {
        lemma_same_but_case(t, "inf"@);
    } else if same_but_case(t, "infinity"@) {
        lemma_same_but_case(t, "infinity"@);
    } else if same_but_case(t, "nan"@) {
        lemma_same_but_case(t, "nan"@);
    } else {
        lemma_plain_number_chars(t);
    }
    let k = s.len() - t.len();
    assert forall|i: int| 0 <= i < t.len() implies is_time_char(#[trigger] t[i]) by {}
    assert forall|i: int| 0 <= i < s.len() implies is_time_char(#[trigger] s[i]) by {
        if i >= k {
            assert(t[i - k] == s[i]);
        }
    }
    if k == 0 {
        assert(t[0] == s[0]);
    }
}

/// A number of seconds is one word, and plain.
pub(crate) proof fn lemma_time_word(s: Seq<char>)
    requires
        is_float_text(s),
    ensures
        is_word(s),
        all_plain(s),
{
    lemma_time_chars(s);
    assert forall|i: int| 0 <= i < s.len() implies !is_space(#[trigger] s[i]) by {
        assert(is_time_char(s[i]));
    }
    assert forall|i: int| 0 <= i < s.len() implies is_plain(#[trigger] s[i]) by {
        assert(is_time_char(s[i]));
    }
}

/// A line that starts with a number of seconds, and is otherwise plain, is an event.
proof fn lemma_is_event(v: AscView, n: int, time: Seq<char>, body: Seq<char>)
    requires
        n >= 0,
        is_float_text(time),
        all_plain(body),
        opens_blank(body),
    ensures
        ({
            let rest = body + seq!['\n'];
            let text = blanks(n) + time + rest;
            let line = trimmed(text);
            let lower = lowercase(line);
            &&& words(line) == seq![time] + words(rest)
            &&& header_line(line, lower) is Beyond
            &&& body_line(line, lower) is Event
            &&& start_words(v, line, lower) is None
        }),
{
    let rest = body + seq!['\n'];
    let text = blanks(n) + time + rest;
    let line = trimmed(text);
    let lower = lowercase(line);
    lemma_time_chars(time);
    lemma_time_word(time);
    assert(rest[0] == if body.len() > 0 {
        body[0]
    } else {
        '\n'
    });
    lemma_first_word(n, time, rest);
    lemma_trimmed(text);
    assert forall|i: int| 0 <= i < line.len() implies is_plain(#[trigger] line[i]) || line[i]
        == '\n' by {
        assert(line[i] == text[n + i]);
        if i < time.len() {
            assert(text[n + i] == time[i]);
        } else {
            assert(text[n + i] == rest[i - time.len()]);
            if i - time.len() < body.len() {
                assert(rest[i - time.len()] == body[i - time.len()]);
            }
        }
    }
    assert(is_ascii_text(line)) by {
        assert forall|i: int| 0 <= i < line.len() implies is_ascii_char(#[trigger] line[i]) by {
            assert(is_plain(line[i]) || line[i] == '\n');
        }
    }
    assert(lower == ascii_lower(line));
    assert(line.len() > 0);
    assert(line[0] == text[n + 0] && text[n + 0] == time[0]);
    assert(lower[0] == lower_char(time[0]));
    reveal_strlit("date ");
    reveal_strlit("base ");
    reveal_strlit("//");
    reveal_strlit("begin triggerblock");
    reveal_strlit("end triggerblock");
    lemma_no_prefix(lower, "date "@);
    lemma_no_prefix(lower, "base "@);
    lemma_no_prefix(line, "//"@);
    lemma_no_prefix(lower, "begin triggerblock"@);
    lemma_no_prefix(lower, "end triggerblock"@);
    reveal_strlit("internal events logged");
    reveal_strlit("start of measurement");
    assert forall|i: int| 0 <= i < lower.len() implies #[trigger] lower[i] != 's' && lower[i]
        != 'l' by {
        assert(is_plain(line[i]) || line[i] == '\n');
    }
    lemma_no_part(lower, "internal events logged"@, 7);
    lemma_no_part(lower, "start of measurement"@, 0);
}

/// A text does not start with another whose first character differs.
pub(crate) proof fn lemma_no_prefix(s: Seq<char>, prefix: Seq<char>)
    requires
        s.len() > 0,
        prefix.len() > 0,
        s[0] != prefix[0],
    ensures
        !has_prefix(s, prefix),
{
    if has_prefix(s, prefix) {
        assert(s.subrange(0, prefix.len() as int)[0] == prefix[0]);
    }
}

/// A text does not contain another that holds a character which the text lacks.
proof fn lemma_no_part(s: Seq<char>, part: Seq<char>, at: int)
    requires
        0 <= at < part.len(),
        forall|i: int| 0 <= i < s.len() ==> #[trigger] s[i] != part[at],
    ensures
        !has_part(s, part),
{
    assert forall|k: int| !#[trigger] stands_at(s, part, k) by {
        if stands_at(s, part, k) {
            assert(s.subrange(k, k + part.len())[at] == part[at]);
            assert(s[k + at] == part[at]);
        }
    }
}

/// Numerals are words, and plain.
pub(crate) proof fn lemma_numeral_word(s: Seq<char>, base: int, n: int)
    requires
        is_numeral(s, base, n),
        base <= 16,
    ensures
        is_word(s),
        all_plain(s),
{
    assert forall|i: int| 0 <= i < s.len() implies !is_space(#[trigger] s[i]) && is_plain(
        s[i],
    ) by {
        assert(is_digit_of(s[i], base));
    }
}

/// A text of decimal digits holds only digits.
proof fn lemma_decimal_only_digits(s: Seq<char>)
    requires
        all_digits(s, 10),
    ensures
        only_digits(s),
    decreases s.len(),
{
    if s.len() > 0 {
        assert(is_digit_of(s[0], 10));
        assert forall|i: int| 0 <= i < s.drop_first().len() implies is_digit_of(
            #[trigger] s.drop_first()[i],
            10,
        ) by {
            assert(is_digit_of(s[i + 1], 10));
        }
        lemma_decimal_only_digits(s.drop_first());
    }
}

/// The words of data bytes.
pub(crate) open spec fn hexes(data: Seq<u8>) -> Seq<Seq<char>> {
    Seq::new(data.len(), |i: int| byte_hex(data[i]))
}

/// The bytes of a frame are written as one word each.
proof fn lemma_data_words(data: Seq<u8>, rest: Seq<char>)
    requires
        opens_blank(rest),
    ensures
        words(blanks(1) + spaced_hex(data) + rest) == hexes(data) + words(rest),
        all_plain(spaced_hex(data)),
    decreases data.len(),
{
    if data.len() == 0 {
        let s = blanks(1) + spaced_hex(data) + rest;
        lemma_blank_front(rest);
        assert(s =~= seq![' '] + rest);
        assert(hexes(data) + words(rest) =~= words(rest));
    } else {
        let before = data.drop_last();
        let last = byte_hex(data.last());
        let tail = blanks(1) + last + rest;
        law_byte_hex_read_back(data.last());
        lemma_numeral_word(last, 16, data.last() as int);
        lemma_first_word(1, last, rest);
        assert(tail[0] == ' ');
        lemma_data_words(before, tail);
        assert(hexes(data) =~= hexes(before).push(last));
        assert(hexes(before) + (seq![last] + words(rest)) =~= hexes(data) + words(rest));
        if data.len() == 1 {
            assert(spaced_hex(data) == last);
            assert(blanks(1) + spaced_hex(data) + rest =~= tail);
            assert(hexes(data) =~= seq![last]);
        } else {
            assert(blanks(1) + spaced_hex(data) + rest =~= blanks(1) + spaced_hex(before) + tail);
        }
    }
}

/// A space in front of a text makes no word.
pub(crate) proof fn lemma_blank_front(s: Seq<char>)
    ensures
        words(seq![' '] + s) == words(s),
{
    let t = seq![' '] + s;
    assert(t.drop_first() =~= s);
    assert(t.skip(leading_spaces(t)) =~= s.skip(leading_spaces(s))) by {
        crate::text::lemma_leading(s);
    }
}

/// The words of data bytes are read as those bytes.
proof fn lemma_bytes_of(data: Seq<u8>, more: Seq<Seq<char>>, count: int)
    requires
        0 <= count,
        count <= data.len() || more.len() == 0,
    ensures
        bytes_of(hexes(data) + more, count, Base::Hex) == data.take(
            at_most(count, data.len() as int),
        ),
    decreases data.len(),
{
    let w = hexes(data) + more;
    if count > 0 && data.len() > 0 {
        law_byte_hex_read_back(data[0]);
        assert(w[0] == byte_hex(data[0]));
        let rest = data.drop_first();
        assert(w.drop_first() =~= hexes(rest) + more);
        lemma_bytes_of(rest, more, count - 1);
        assert(seq![data[0]] + rest.take(at_most(count - 1, rest.len() as int)) =~= data.take(
            at_most(count, data.len() as int),
        ));
    } else {
        assert(data.take(at_most(count, data.len() as int)) =~= Seq::empty());
    }
}

/// An id is written as one word and read back.
pub(crate) proof fn lemma_id_word(id: u32, extended: bool)
    ensures
        is_word(id_text(id, extended)),
        all_plain(id_text(id, extended)),
        id_of(id_text(id, extended), Base::Hex) == Some((id, extended)),
        !same_but_case(id_text(id, extended), "errorframe"@),
{
    let digits = hex_upper(id as int);
    let s = id_text(id, extended);
    law_hex_upper_read_back(id as int);
    lemma_numeral_word(digits, 16, id as int);
    lemma_trimmed_word(digits);
    assert(unsigned_of(digits, 16, u32::MAX as int) == Some(id as int));
    assert forall|i: int| 0 <= i < s.len() implies is_plain(#[trigger] s[i]) && !is_space(s[i])
        && lower_char(s[i]) != 'r' by {
        if i < digits.len() {
            assert(s[i] == digits[i]);
            assert(is_digit_of(digits[i], 16));
        }
    }
    assert(is_digit_of(digits.last(), 16)) by {
        assert(is_digit_of(digits[digits.len() - 1], 16));
    }
    if extended {
        assert(s.drop_last() =~= digits);
    }
    reveal_strlit("errorframe");
    if same_but_case(s, "errorframe"@) {
        lemma_same_but_case(s, "errorframe"@);
        assert(lower_char(s[1]) == 'r');
    }
}

/// `Rx` and `Tx` are words, and told apart.
pub(crate) proof fn lemma_direction_word(is_rx: bool)
    ensures
        direction_text(is_rx).len() == 2,
        is_word(direction_text(is_rx)),
        all_plain(direction_text(is_rx)),
        same_but_case(direction_text(is_rx), "Rx"@) == is_rx,
{
    reveal_strlit("Rx");
    reveal_strlit("Tx");
    if same_but_case("Tx"@, "Rx"@) {
        lemma_same_but_case("Tx"@, "Rx"@);
        assert(lower_char("Tx"@[0]) == lower_char("Rx"@[0]));
    }
}

/// A channel is written as one word and read back.
pub(crate) proof fn lemma_channel_word(channel: u16)
    ensures
        ({
            let s = decimal(channel_to_log(channel) as int);
            &&& is_word(s)
            &&& all_plain(s)
            &&& only_digits(s)
            &&& channel_of(s) == Some(channel_to_log(channel) as int)
            &&& !same_but_case(s, "canfd"@)
        }),
{
    let n = channel_to_log(channel) as int;
    let s = decimal(n);
    law_decimal_read_back(n);
    lemma_numeral_word(s, 10, n);
    lemma_decimal_only_digits(s);
    reveal_strlit("canfd");
    assert(is_digit_of(s[0], 10));
    if same_but_case(s, "canfd"@) {
        lemma_same_but_case(s, "canfd"@);
        assert(lower_char(s[0]) == 'c');
    }
}

/// Spaces behind a text and one more are the spaces in front of what follows.
pub(crate) open spec fn gap_behind(s: Seq<char>, width: int) -> int {
    if s.len() < width {
        width - s.len() + 1
    } else {
        1
    }
}

/// The words of a classic frame up to its data.
pub(crate) open spec fn classic_list<T>(m: MessageView<T>) -> Seq<Spaced> {
    let id = id_text(m.arbitration_id, m.is_extended_id);
    let kind = seq![
        if m.is_remote_frame {
            'r'
        } else {
            'd'
        },
    ];
    seq![
        Spaced { blanks: 1, word: decimal(channel_to_log(m.channel) as int) },
        Spaced { blanks: 2, word: id },
        Spaced { blanks: gap_behind(id, 15), word: direction_text(m.is_rx) },
        Spaced { blanks: 3, word: kind },
        Spaced { blanks: 1, word: hex_lower(m.dlc as int) },
    ]
}

proof fn lemma_classic_list<T>(m: MessageView<T>)
    ensures
        well_spaced(classic_list(m)),
{
    lemma_channel_word(m.channel);
    lemma_id_word(m.arbitration_id, m.is_extended_id);
    lemma_direction_word(m.is_rx);
    law_hex_lower_read_back(m.dlc as int);
    lemma_numeral_word(hex_lower(m.dlc as int), 16, m.dlc as int);
}

/// Five words with spaces in front of them.
proof fn lemma_spread_five(a: Spaced, b: Spaced, c: Spaced, d: Spaced, e: Spaced)
    ensures
        spread(seq![a, b, c, d, e]) == blanks(a.blanks) + a.word + (blanks(b.blanks) + b.word + (
        blanks(c.blanks) + c.word + (blanks(d.blanks) + d.word + (blanks(e.blanks) + e.word)))),
{
    let l4 = seq![b, c, d, e];
    let l3 = seq![c, d, e];
    let l2 = seq![d, e];
    let l1 = seq![e];
    assert(seq![a, b, c, d, e].drop_first() =~= l4);
    assert(l4.drop_first() =~= l3);
    assert(l3.drop_first() =~= l2);
    assert(l2.drop_first() =~= l1);
    assert(l1.drop_first() =~= Seq::<Spaced>::empty());
    assert(spread(l1.drop_first()) =~= Seq::<char>::empty());
    assert(spread(l1) =~= blanks(e.blanks) + e.word);
    assert(spread(l2) == blanks(d.blanks) + d.word + spread(l1));
    assert(spread(l3) == blanks(c.blanks) + c.word + spread(l2));
    assert(spread(l4) == blanks(b.blanks) + b.word + spread(l3));
}

/// How the event of a classic frame is made of its words.
proof fn lemma_classic_shape(
    channel: Seq<char>,
    id: Seq<char>,
    dir: Seq<char>,
    kind: char,
    code: Seq<char>,
    data: Seq<char>,
)
    requires
        dir.len() == 2,
    ensures
        blanks(1) + (channel + blanks(2) + left_aligned(id, 15) + seq![' '] + left_aligned(dir, 4)
            + seq![' '] + seq![kind, ' '] + code + seq![' '] + data) + seq!['\n'] == (blanks(1)
            + channel + (blanks(2) + id + (blanks(gap_behind(id, 15)) + dir + (blanks(3) + seq![
            kind,
        ] + (blanks(1) + code))))) + (blanks(1) + data + seq!['\n']),
{
    assert(left_aligned(id, 15) + seq![' '] =~= id + blanks(gap_behind(id, 15)));
    assert(left_aligned(dir, 4) + seq![' '] =~= dir + blanks(3));
    let front = channel + blanks(2);
    assert(front + left_aligned(id, 15) + seq![' '] =~= front + (id + blanks(gap_behind(id, 15))));
    let middle = front + (id + blanks(gap_behind(id, 15)));
    assert(middle + left_aligned(dir, 4) + seq![' '] =~= middle + (dir + blanks(3)));
    assert(blanks(1) + (middle + (dir + blanks(3)) + seq![kind, ' '] + code + seq![' '] + data)
        + seq!['\n'] =~= (blanks(1) + channel + (blanks(2) + id + (blanks(gap_behind(id, 15)) + dir
        + (blanks(3) + seq![kind] + (blanks(1) + code))))) + (blanks(1) + data + seq!['\n']));
}

/// The words behind the time of a classic frame.
pub(crate) proof fn lemma_classic_words<T>(m: MessageView<T>)
    requires
        !m.is_error_frame,
        !m.is_fd,
    ensures
        words(blanks(1) + event_text(m) + seq!['\n']) == bare(classic_list(m)) + hexes(
            m.data.take(data_count(m)),
        ),
{
    let list = classic_list(m);
    let newline = seq!['\n'];
    let data = m.data.take(data_count(m));
    let end = blanks(1) + data_text(m) + newline;
    assert(data_text(m) =~= spaced_hex(data)) by {
        if !m.is_remote_frame {
            assert(data =~= m.data);
        }
    }
    lemma_data_words(data, newline);
    lemma_newline();
    assert(hexes(data) + words(newline) =~= hexes(data));
    assert(end[0] == ' ');
    lemma_classic_list(m);
    lemma_words_of_spread(list, end);
    lemma_spread_five(list[0], list[1], list[2], list[3], list[4]);
    lemma_direction_word(m.is_rx);
    lemma_classic_shape(
        decimal(channel_to_log(m.channel) as int),
        id_text(m.arbitration_id, m.is_extended_id),
        direction_text(m.is_rx),
        if m.is_remote_frame {
            'r'
        } else {
            'd'
        },
        hex_lower(m.dlc as int),
        data_text(m),
    );
    assert(spread(list) + end == blanks(1) + event_text(m) + newline);
}

/// The end of a line makes no word.
pub(crate) proof fn lemma_newline()
    ensures
        words(seq!['\n']) == Seq::<Seq<char>>::empty(),
{
    crate::text::lemma_leading_spaces_are(seq!['\n'], 1);
    assert(seq!['\n'].skip(1) =~= Seq::<char>::empty());
}

/// The words of a CAN FD frame up to its flags.
pub(crate) open spec fn fd_list_front<T>(m: MessageView<T>) -> Seq<Spaced> {
    let channel = decimal(channel_to_log(m.channel) as int);
    let id = id_text(m.arbitration_id, m.is_extended_id);
    seq![
        Spaced { blanks: 1, word: "CANFD"@ },
        Spaced { blanks: gap_behind(channel, 3), word: channel },
        Spaced { blanks: 1, word: direction_text(m.is_rx) },
        Spaced { blanks: 2 + gap_behind(id, 8), word: id },
        Spaced { blanks: 35, word: flag_text(m.bitrate_switch) },
    ]
}

/// The words of a CAN FD frame from its second flag up to its data.
pub(crate) open spec fn fd_list_back<T>(m: MessageView<T>) -> Seq<Spaced> {
    let count = decimal(data_count(m));
    seq![
        Spaced { blanks: 1, word: flag_text(m.error_state_indicator) },
        Spaced { blanks: 1, word: hex_lower(fd_code(m.dlc as int)) },
        Spaced { blanks: gap_behind(count, 2), word: count },
    ]
}

/// The words of a CAN FD frame up to its data.
pub(crate) open spec fn fd_list<T>(m: MessageView<T>) -> Seq<Spaced> {
    fd_list_front(m) + fd_list_back(m)
}

proof fn lemma_fd_list<T>(m: MessageView<T>)
    ensures
        well_spaced(fd_list(m)),
{
    reveal_strlit("CANFD");
    lemma_channel_word(m.channel);
    lemma_id_word(m.arbitration_id, m.is_extended_id);
    lemma_direction_word(m.is_rx);
    let code = fd_code(m.dlc as int);
    law_hex_lower_read_back(code);
    lemma_numeral_word(hex_lower(code), 16, code);
    law_decimal_read_back(data_count(m));
    lemma_numeral_word(decimal(data_count(m)), 10, data_count(m));
    let list = fd_list(m);
    assert forall|i: int| 0 <= i < list.len() implies is_word((#[trigger] list[i]).word)
        && list[i].blanks >= 1 by {
        if i < 5 {
            assert(list[i] == fd_list_front(m)[i]);
        } else {
            assert(list[i] == fd_list_back(m)[i - 5]);
        }
    }
}

/// Three words with spaces in front of them.
proof fn lemma_spread_three(a: Spaced, b: Spaced, c: Spaced)
    ensures
        spread(seq![a, b, c]) == blanks(a.blanks) + a.word + (blanks(b.blanks) + b.word + (blanks(
            c.blanks,
        ) + c.word)),
{
    let l2 = seq![b, c];
    let l1 = seq![c];
    assert(seq![a, b, c].drop_first() =~= l2);
    assert(l2.drop_first() =~= l1);
    assert(l1.drop_first() =~= Seq::<Spaced>::empty());
    assert(spread(l1.drop_first()) =~= Seq::<char>::empty());
    assert(spread(l1) =~= blanks(c.blanks) + c.word);
    assert(spread(l2) == blanks(b.blanks) + b.word + spread(l1));
}

/// How the event of a CAN FD frame is made of its words.
proof fn lemma_fd_shape(
    channel: Seq<char>,
    dir: Seq<char>,
    id: Seq<char>,
    brs: Seq<char>,
    esi: Seq<char>,
    code: Seq<char>,
    count: Seq<char>,
    data: Seq<char>,
    trailer: Seq<char>,
)
    requires
        dir.len() == 2,
    ensures
        blanks(1) + ("CANFD "@ + right_aligned(channel, 3) + seq![' '] + left_aligned(dir, 4)
            + seq![' '] + right_aligned(id, 8) + blanks(35) + brs + seq![' '] + esi + seq![' ']
            + code + seq![' '] + right_aligned(count, 2) + seq![' '] + data + trailer) + seq!['\n']
            == (blanks(1) + "CANFD"@ + (blanks(gap_behind(channel, 3)) + channel + (blanks(1) + dir
            + (blanks(2 + gap_behind(id, 8)) + id + (blanks(35) + brs))))) + (blanks(1) + esi + (
        blanks(1) + code + (blanks(gap_behind(count, 2)) + count))) + (blanks(1) + data + (trailer
            + seq!['\n'])),
{
    reveal_strlit("CANFD ");
    reveal_strlit("CANFD");
    let g1 = gap_behind(channel, 3);
    let g2 = 2 + gap_behind(id, 8);
    let g3 = gap_behind(count, 2);
    let p1 = "CANFD "@ + right_aligned(channel, 3);
    let q1 = "CANFD"@ + (blanks(g1) + channel);
    assert(p1 =~= q1);
    let p2 = q1 + seq![' '] + left_aligned(dir, 4) + seq![' '] + right_aligned(id, 8);
    let q2 = q1 + (blanks(1) + dir + (blanks(g2) + id));
    assert(p2 =~= q2);
    let p3 = q2 + blanks(35) + brs + seq![' '] + esi + seq![' '] + code + seq![' ']
        + right_aligned(count, 2);
    let tail = blanks(1) + esi + (blanks(1) + code + (blanks(g3) + count));
    let q3 = q2 + (blanks(35) + brs) + tail;
    assert(p3 =~= q3);
    let end = blanks(1) + data + (trailer + seq!['\n']);
    assert(blanks(1) + (q3 + seq![' '] + data + trailer) + seq!['\n'] =~= blanks(1) + q3 + end);
    let front = blanks(1) + "CANFD"@ + (blanks(g1) + channel + (blanks(1) + dir + (blanks(g2) + id
        + (blanks(35) + brs))));
    assert(blanks(1) + (q2 + (blanks(35) + brs)) =~= front);
    assert(blanks(1) + q3 + end =~= blanks(1) + (q2 + (blanks(35) + brs)) + tail + end);
}

proof fn lemma_trailer(brs: bool, esi: bool)
    ensures
        all_plain(fd_trailer(brs, esi)),
        fd_trailer(brs, esi).len() > 0,
        fd_trailer(brs, esi)[0] == ' ',
{
    let n = crate::asc::writer::fd_flags_number(brs, esi);
    law_hex_upper_read_back(n);
    lemma_numeral_word(hex_upper(n), 16, n);
}

/// The words behind the time of a CAN FD frame.
pub(crate) proof fn lemma_fd_words<T>(m: MessageView<T>) -> (more: Seq<Seq<char>>)
    requires
        !m.is_error_frame,
        m.is_fd,
    ensures
        words(blanks(1) + event_text(m) + seq!['\n']) == bare(fd_list(m)) + (hexes(
            m.data.take(data_count(m)),
        ) + more),
        more == words(fd_trailer(m.bitrate_switch, m.error_state_indicator) + seq!['\n']),
{
    let list = fd_list(m);
    let trailer = fd_trailer(m.bitrate_switch, m.error_state_indicator);
    let rest = trailer + seq!['\n'];
    let data = m.data.take(data_count(m));
    let end = blanks(1) + data_text(m) + rest;
    lemma_trailer(m.bitrate_switch, m.error_state_indicator);
    assert(data_text(m) =~= spaced_hex(data)) by {
        if !m.is_remote_frame {
            assert(data =~= m.data);
        }
    }
    assert(rest[0] == ' ');
    lemma_data_words(data, rest);
    assert(end[0] == ' ');
    lemma_fd_list(m);
    lemma_words_of_spread(list, end);
    let front = fd_list_front(m);
    let back = fd_list_back(m);
    lemma_spread_add(front, back);
    lemma_spread_five(front[0], front[1], front[2], front[3], front[4]);
    lemma_spread_three(back[0], back[1], back[2]);
    lemma_direction_word(m.is_rx);
    lemma_fd_shape(
        decimal(channel_to_log(m.channel) as int),
        direction_text(m.is_rx),
        id_text(m.arbitration_id, m.is_extended_id),
        flag_text(m.bitrate_switch),
        flag_text(m.error_state_indicator),
        hex_lower(fd_code(m.dlc as int)),
        decimal(data_count(m)),
        data_text(m),
        trailer,
    );
    assert(spread(list) + end == blanks(1) + event_text(m) + seq!['\n']);
    words(rest)
}

/// The words of a classic frame are read as what is recorded of it.
proof fn lemma_classic_event<T>(m: MessageView<T>, time: Seq<char>, start: (i64, u32))
    requires
        !m.is_error_frame,
        !m.is_fd,
        is_float_text(time),
    ensures
        ({
            let w = seq![time] + (bare(classic_list(m)) + hexes(m.data.take(data_count(m))));
            let at = AscTimeView { text: time, start };
            &&& event_of(start, w, Base::Hex) == Ok::<AscNextView, ErrorView>(
                AscNextView::Message(asc_recorded(m, at)),
            )
            &&& !breaks_off(w, Base::Hex)
        }),
{
    let data = m.data.take(data_count(m));
    let w = seq![time] + (bare(classic_list(m)) + hexes(data));
    let list = classic_list(m);
    let id = id_text(m.arbitration_id, m.is_extended_id);
    assert(w[0] == time);
    assert(w[1] == list[0].word && w[2] == list[1].word && w[3] == list[2].word && w[4]
        == list[3].word && w[5] == list[4].word);
    assert(w.skip(6) =~= hexes(data) + Seq::<Seq<char>>::empty());
    lemma_channel_word(m.channel);
    lemma_id_word(m.arbitration_id, m.is_extended_id);
    lemma_direction_word(m.is_rx);
    law_hex_lower_read_back(m.dlc as int);
    assert(byte_or_zero(w[5], Base::Hex) == m.dlc);
    reveal_strlit("r");
    reveal_strlit("d");
    if m.is_remote_frame {
        assert(w[4] =~= "r"@);
    } else {
        assert(w[4] =~= "d"@);
        if same_but_case(w[4], "r"@) {
            lemma_same_but_case(w[4], "r"@);
            assert(lower_char(w[4][0]) == 'r');
        }
        assert(data =~= m.data);
        lemma_bytes_of(data, Seq::empty(), at_most(fd_length(m.dlc as int), 8));
    }
}

/// The words of an error frame are read as what is recorded of it.
proof fn lemma_error_event<T>(m: MessageView<T>, time: Seq<char>, start: (i64, u32))
    requires
        m.is_error_frame,
        is_float_text(time),
    ensures
        ({
            let rest = blanks(1) + event_text(m) + seq!['\n'];
            let w = seq![time] + words(rest);
            let at = AscTimeView { text: time, start };
            &&& event_of(start, w, Base::Hex) == Ok::<AscNextView, ErrorView>(
                AscNextView::Message(asc_recorded(m, at)),
            )
            &&& !breaks_off(w, Base::Hex)
        }),
{
    let channel = decimal(channel_to_log(m.channel) as int);
    let newline = seq!['\n'];
    let rest = blanks(1) + event_text(m) + newline;
    reveal_strlit("  ErrorFrame");
    reveal_strlit("ErrorFrame");
    reveal_strlit("errorframe");
    lemma_channel_word(m.channel);
    lemma_newline();
    lemma_first_word(2, "ErrorFrame"@, newline);
    let r1 = blanks(2) + "ErrorFrame"@ + newline;
    assert(r1[0] == ' ');
    lemma_first_word(1, channel, r1);
    assert("  ErrorFrame"@ =~= blanks(2) + "ErrorFrame"@);
    assert(rest =~= blanks(1) + channel + r1);
    let w = seq![time] + words(rest);
    assert(w[1] == channel && w[2] == "ErrorFrame"@);
    assert(ascii_lower("ErrorFrame"@) =~= ascii_lower("errorframe"@));
}

/// The words of a CAN FD frame are read as what is recorded of it.
proof fn lemma_fd_event<T>(
    m: MessageView<T>,
    time: Seq<char>,
    start: (i64, u32),
    more: Seq<Seq<char>>,
)
    requires
        !m.is_error_frame,
        m.is_fd,
        is_float_text(time),
        data_count(m) <= isize::MAX,
    ensures
        ({
            let w = seq![time] + (bare(fd_list(m)) + (hexes(m.data.take(data_count(m))) + more));
            let at = AscTimeView { text: time, start };
            &&& event_of(start, w, Base::Hex) == Ok::<AscNextView, ErrorView>(
                AscNextView::Message(asc_recorded(m, at)),
            )
            &&& !breaks_off(w, Base::Hex)
        }),
{
    let data = m.data.take(data_count(m));
    let w = seq![time] + (bare(fd_list(m)) + (hexes(data) + more));
    let front = fd_list_front(m);
    let back = fd_list_back(m);
    assert(w[0] == time);
    assert(w[1] == front[0].word && w[2] == front[1].word && w[3] == front[2].word && w[4]
        == front[3].word && w[5] == front[4].word);
    assert(w[6] == back[0].word && w[7] == back[1].word && w[8] == back[2].word);
    assert(w.skip(9) =~= hexes(data) + more);
    reveal_strlit("CANFD");
    reveal_strlit("canfd");
    reveal_strlit("1");
    assert(ascii_lower("CANFD"@) =~= ascii_lower("canfd"@));
    lemma_channel_word(m.channel);
    lemma_id_word(m.arbitration_id, m.is_extended_id);
    lemma_direction_word(m.is_rx);
    let code = fd_code(m.dlc as int);
    law_hex_lower_read_back(code);
    assert(byte_or_zero(w[7], Base::Hex) == code);
    law_decimal_read_back(data_count(m));
    assert(unsigned_of(w[8], 10, usize::MAX as int) == Some(data_count(m)));
    assert(only_digits(w[5])) by {
        assert(w[5].drop_first() =~= Seq::<char>::empty());
        assert(leading_digits(w[5].drop_first()) == 0);
    }
    assert(fd_flags_at(w) == 5);
    assert((w[5] == "1"@) == m.bitrate_switch) by {
        if m.bitrate_switch {
            assert(w[5] =~= "1"@);
        } else {
            assert(w[5][0] == '0');
        }
    }
    assert((w[6] == "1"@) == m.error_state_indicator) by {
        if m.error_state_indicator {
            assert(w[6] =~= "1"@);
        } else {
            assert(w[6][0] == '0');
        }
    }
    lemma_bytes_of(data, more, data_count(m));
    assert(data.take(data_count(m)) =~= data);
}

/// Three plain texts make a plain one.
proof fn lemma_plain_three(a: Seq<char>, b: Seq<char>, c: Seq<char>)
    requires
        all_plain(a),
        all_plain(b),
        all_plain(c),
    ensures
        all_plain(a + b + c),
{
}

/// Aligning leaves a text plain.
proof fn lemma_aligned_plain(s: Seq<char>, width: int)
    requires
        all_plain(s),
    ensures
        all_plain(left_aligned(s, width)),
        all_plain(right_aligned(s, width)),
{
}

/// The event for a message is plain.
pub(crate) proof fn lemma_event_plain<T>(m: MessageView<T>)
    ensures
        all_plain(event_text(m)),
{
    let channel = decimal(channel_to_log(m.channel) as int);
    let id = id_text(m.arbitration_id, m.is_extended_id);
    let dir = direction_text(m.is_rx);
    let data = m.data.take(data_count(m));
    let space = seq![' '];
    lemma_channel_word(m.channel);
    lemma_id_word(m.arbitration_id, m.is_extended_id);
    lemma_direction_word(m.is_rx);
    assert(data_text(m) =~= spaced_hex(data)) by {
        if !m.is_remote_frame {
            assert(data =~= m.data);
        }
    }
    lemma_data_words(data, Seq::empty());
    lemma_aligned_plain(id, 15);
    lemma_aligned_plain(id, 8);
    lemma_aligned_plain(dir, 4);
    lemma_aligned_plain(channel, 3);
    if m.is_error_frame {
        reveal_strlit("  ErrorFrame");
    } else if m.is_fd {
        reveal_strlit("CANFD ");
        let code = hex_lower(fd_code(m.dlc as int));
        let count = decimal(data_count(m));
        let trailer = fd_trailer(m.bitrate_switch, m.error_state_indicator);
        law_hex_lower_read_back(fd_code(m.dlc as int));
        lemma_numeral_word(code, 16, fd_code(m.dlc as int));
        law_decimal_read_back(data_count(m));
        lemma_numeral_word(count, 10, data_count(m));
        lemma_aligned_plain(count, 2);
        lemma_trailer(m.bitrate_switch, m.error_state_indicator);
        let s1 = "CANFD "@ + right_aligned(channel, 3) + space;
        lemma_plain_three("CANFD "@, right_aligned(channel, 3), space);
        let s2 = s1 + left_aligned(dir, 4) + space;
        lemma_plain_three(s1, left_aligned(dir, 4), space);
        let s3 = s2 + right_aligned(id, 8) + blanks(35);
        lemma_plain_three(s2, right_aligned(id, 8), blanks(35));
        let s4 = s3 + flag_text(m.bitrate_switch) + space;
        lemma_plain_three(s3, flag_text(m.bitrate_switch), space);
        let s5 = s4 + flag_text(m.error_state_indicator) + space;
        lemma_plain_three(s4, flag_text(m.error_state_indicator), space);
        let s6 = s5 + code + space;
        lemma_plain_three(s5, code, space);
        let s7 = s6 + right_aligned(count, 2) + space;
        lemma_plain_three(s6, right_aligned(count, 2), space);
        lemma_plain_three(s7, data_text(m), trailer);
    } else {
        let code = hex_lower(m.dlc as int);
        law_hex_lower_read_back(m.dlc as int);
        lemma_numeral_word(code, 16, m.dlc as int);
        let kind = seq![
            if m.is_remote_frame {
                'r'
            } else {
                'd'
            },
            ' ',
        ];
        let s1 = channel + blanks(2) + left_aligned(id, 15);
        lemma_plain_three(channel, blanks(2), left_aligned(id, 15));
        let s2 = s1 + space + left_aligned(dir, 4);
        lemma_plain_three(s1, space, left_aligned(dir, 4));
        let s3 = s2 + space + kind;
        lemma_plain_three(s2, space, kind);
        let s4 = s3 + code + space;
        lemma_plain_three(s3, code, space);
        lemma_plain_three(s4, data_text(m), Seq::empty());
        assert(s4 + data_text(m) + Seq::<char>::empty() =~= s4 + data_text(m));
    }
}

/// The line that was written for a message can be read, and is read as what is recorded
/// of the message, in nothing but this way, by any reader of a log with hexadecimal
/// numbers. `time` is the number of seconds that the line shows.
pub proof fn law_event_read_back<T>(v: AscView, m: MessageView<T>, n: int, time: Seq<char>)
    requires
        v.base == Base::Hex,
        n >= 0,
        is_float_text(time),
        data_count(m) <= isize::MAX,
    ensures
        ({
            let text = event_line(blanks(n) + time, event_text(m));
            let message = asc_recorded(m, AscTimeView { text: time, start: v.start });
            &&& can_read(v, text)
            &&& forall|answer: Result<AscNextView, ErrorView>, after: AscView| #[trigger]
                may_answer(v, text, answer, after) <==> answer == Ok::<AscNextView, ErrorView>(
                    AscNextView::Message(message),
                ) && after == (AscView { header_parsed: true, ..v })
        }),
{
    let rest = blanks(1) + event_text(m) + seq!['\n'];
    let text = event_line(blanks(n) + time, event_text(m));
    assert(text =~= blanks(n) + time + rest);
    if m.is_error_frame {
        lemma_error_event(m, time, v.start);
    } else if m.is_fd {
        let more = lemma_fd_words(m);
        lemma_fd_event(m, time, v.start, more);
    } else {
        lemma_classic_words(m);
        lemma_classic_event(m, time, v.start);
    }
    lemma_event_plain(m);
    let body = blanks(1) + event_text(m);
    assert(body[0] == ' ');
    lemma_is_event(v, n, time, body);
    let line = trimmed(text);
    let lower = lowercase(line);
    assert(may_start(v, line, lower, None));
}

/// Whether a line can hold all that a message says. An error frame is just that, on its
/// channel. A CAN FD frame with data has the length of the data, and one without is a
/// request for data. A classic frame has the data that its length says.
pub open spec fn asc_representable<T>(m: MessageView<T>) -> bool {
    &&& m.channel < u16::MAX
    &&& if m.is_error_frame {
        &&& m.arbitration_id == 0 && !m.is_extended_id && !m.is_remote_frame && m.is_rx
        &&& !m.is_fd && !m.bitrate_switch && !m.error_state_indicator
        &&& m.dlc == 0 && m.data.len() == 0
    } else if m.is_fd {
        if m.is_remote_frame {
            m.data.len() == 0 && fd_code(m.dlc as int) == m.dlc
        } else {
            m.data.len() > 0 && m.dlc == m.data.len() as u8
        }
    } else {
        &&& !m.bitrate_switch && !m.error_state_indicator
        &&& if m.is_remote_frame {
            m.data.len() == 0
        } else {
            fd_length(m.dlc as int) == m.dlc && m.data.len() <= at_most(m.dlc as int, 8)
        }
    }
}

/// The messages that are read back unchanged, but for their time, are those that a line
/// can hold, and no others.
pub proof fn law_asc_representable_is_kept<T>(m: MessageView<T>, time: AscTimeView)
    ensures
        asc_recorded(m, time) == m.at(time) <==> asc_representable(m),
{
    let r = asc_recorded(m, time);
    let n = r.data.len() as int;
    if m.data.len() == n {
        assert(m.data.take(n) =~= m.data);
        if n == 0 {
            assert(m.data =~= Seq::empty());
        }
    }
}

} // verus!
