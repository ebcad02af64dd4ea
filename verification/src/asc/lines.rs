//! What the words of a line mean, in a log of either base.

use vstd::prelude::*;

use crate::asc::clock::moment_of;
use crate::asc::reader::{
    base_of, behind_second_space, breaks_off, bytes_of, event_of, fd_flags_at, id_of, line_of,
    may_answer, may_settle, may_start, new_base, new_reader, start_words, AscNextView, AscTimeView,
    AscView, Base,
};
use crate::blf::wire::{frame_lengths, has_channel, law_lengths_by_code, least};
use crate::error::ErrorView;
use crate::message::MessageView;
use crate::number::{is_digit_of, unsigned_digits, unsigned_of};
use crate::sentence::{is_word, lemma_trimmed_word};
use crate::text::{
    has_part, has_prefix, is_float_text, is_space, law_only_digits, lowercase, only_digits,
    same_but_case, trimmed, words,
};

verus! {

/// The base of the numbers in a log: sixteen or ten.
pub open spec fn radix(base: Base) -> int {
    if base is Hex {
        16
    } else {
        10
    }
}

/// Whether a word is a numeral of a byte.
pub open spec fn is_byte(word: Seq<char>, base: Base, b: u8) -> bool {
    unsigned_of(word, radix(base), 255) == Some(b as int)
}

/// Whether a word is an id: a numeral, with an `x` of either case behind it for an extended
/// one.
pub open spec fn is_id(word: Seq<char>, base: Base, id: u32, extended: bool) -> bool {
    if extended {
        word.len() > 0 && (word.last() == 'x' || word.last() == 'X') && unsigned_of(
            word.drop_last(),
            radix(base),
            0xffff_ffff,
        ) == Some(id as int)
    } else {
        unsigned_of(word, radix(base), 0xffff_ffff) == Some(id as int)
    }
}

/// Whether data are the bytes that words from `at` on stand for: at most so many, as far as
/// the words go and are numerals of bytes.
pub open spec fn are_bytes(
    data: Seq<u8>,
    w: Seq<Seq<char>>,
    at: int,
    count: int,
    base: Base,
) -> bool {
    let n = data.len() as int;
    &&& n <= count
    &&& at + n <= w.len()
    &&& forall|i: int| 0 <= i < n ==> is_byte(w[at + i], base, #[trigger] data[i])
    &&& n == count || at + n == w.len() || unsigned_of(w[at + n], radix(base), 255) is None
}

/// The bytes of words are read one by one.
proof fn lemma_are_bytes(w: Seq<Seq<char>>, at: int, count: int, base: Base)
    requires
        0 <= at <= w.len(),
        0 <= count,
    ensures
        are_bytes(bytes_of(w.skip(at), count, base), w, at, count, base),
    decreases w.len() - at,
{
    let rest = w.skip(at);
    let data = bytes_of(rest, count, base);
    if count > 0 && rest.len() > 0 {
        assert(rest[0] == w[at]);
        if let Some(b) = unsigned_of(rest[0], base.size(), 255) {
            lemma_are_bytes(w, at + 1, count - 1, base);
            assert(rest.drop_first() =~= w.skip(at + 1));
            let others = bytes_of(w.skip(at + 1), count - 1, base);
            assert(data == seq![b as u8] + others);
            assert(0 <= b <= 255) by {
                crate::number::lemma_unsigned_range(rest[0], base.size(), 255);
            }
            assert forall|i: int| 0 <= i < data.len() implies is_byte(
                w[at + i],
                base,
                #[trigger] data[i],
            ) by {
                if i > 0 {
                    assert(data[i] == others[i - 1]);
                    assert(is_byte(w[at + 1 + (i - 1)], base, others[i - 1]));
                }
            }
        }
    }
}

/// An id is read as what it is.
proof fn lemma_is_id(word: Seq<char>, base: Base, id: u32, extended: bool)
    requires
        is_id(word, base, id, extended),
    ensures
        id_of(word, base) == Some((id, extended)),
{
    let digits = if extended {
        word.drop_last()
    } else {
        word
    };
    let bare = unsigned_digits(digits);
    assert(is_word(digits)) by {
        assert forall|i: int| 0 <= i < digits.len() implies !is_space(#[trigger] digits[i]) by {
            if bare.len() == digits.len() {
                assert(is_digit_of(bare[i], radix(base)));
            } else if i > 0 {
                assert(bare[i - 1] == digits[i]);
                assert(is_digit_of(bare[i - 1], radix(base)));
            }
        }
    }
    lemma_trimmed_word(digits);
    if !extended {
        assert(word.last() != 'x' && word.last() != 'X') by {
            assert(bare.last() == word.last());
            assert(is_digit_of(bare[bare.len() - 1], radix(base)));
        }
    }
}

/// What every message has of its line: the time, the id, the channel and the direction.
pub open spec fn has_line_parts(
    m: MessageView<AscTimeView>,
    time: Seq<char>,
    start: (i64, u32),
    channel: int,
    direction: Seq<char>,
    id: u32,
    extended: bool,
) -> bool {
    &&& m.timestamp.text == time
    &&& m.timestamp.start == start
    &&& has_channel(m, channel)
    &&& m.is_rx <==> same_but_case(direction, "rx"@)
    &&& m.arbitration_id == id
    &&& m.is_extended_id == extended
}

proof fn lemma_rx(direction: Seq<char>)
    ensures
        same_but_case(direction, "rx"@) == same_but_case(direction, "Rx"@),
{
    reveal_strlit("rx");
    reveal_strlit("Rx");
    assert(crate::text::ascii_lower("rx"@) =~= crate::text::ascii_lower("Rx"@));
}

/// Where the flags of a CAN FD line stand: behind the id, or behind a name, which is no number.
pub open spec fn flags_at(w: Seq<Seq<char>>) -> int {
    if forall|i: int| 0 <= i < w[5].len() ==> 48 <= (#[trigger] w[5][i]) as int <= 57 {
        5
    } else {
        6
    }
}

/// A CAN FD line has the time, `CANFD`, the channel, the direction, the id, maybe a name, two
/// flags, the length code, the number of data bytes and the data. The id, the code and the
/// data are numerals of the base of the log, channel and number are decimal. A frame that
/// counts no bytes is a request for data, with the code as its length; another has the number
/// of bytes as its length. A number that is none counts nothing.
#[verifier::rlimit(40)]
pub proof fn law_fd_words(
    start: (i64, u32),
    w: Seq<Seq<char>>,
    base: Base,
    channel: int,
    id: u32,
    extended: bool,
    count: int,
)
    requires
        w.len() > 5,
        flags_at(w) + 4 <= w.len(),
        is_float_text(w[0]),
        same_but_case(w[1], "CANFD"@),
        unsigned_of(w[2], 10, 65_535) == Some(channel),
        !same_but_case(w[4], "ErrorFrame"@),
        is_id(w[4], base, id, extended),
        count == match unsigned_of(w[flags_at(w) + 3], 10, usize::MAX as int) {
            Some(n) => n,
            None => 0,
        },
    ensures
        ({
            let at = flags_at(w);
            &&& event_of(start, w, base) matches Ok(AscNextView::Message(m))
            &&& has_line_parts(m, w[0], start, channel, w[3], id, extended)
            &&& m.is_fd && !m.is_error_frame
            &&& m.bitrate_switch <==> w[at] == seq!['1']
            &&& m.error_state_indicator <==> w[at + 1] == seq!['1']
            &&& m.is_remote_frame <==> count == 0
            &&& count == 0 ==> m.dlc == match unsigned_of(w[at + 2], radix(base), 255) {
                Some(b) => b,
                None => 0,
            }
            &&& 0 < count ==> m.dlc == count % 256
            &&& are_bytes(m.data, w, at + 4, count, base)
        }),
{
    let at = flags_at(w);
    law_only_digits(w[5]);
    assert(fd_flags_at(w) == at);
    lemma_spellings();
    lemma_rx(w[3]);
    lemma_is_id(w[4], base, id, extended);
    lemma_channel_range(w[2]);
    crate::number::lemma_unsigned_range(w[at + 3], 10, usize::MAX as int);
    crate::number::lemma_unsigned_range(w[at + 2], radix(base), 255);
    lemma_are_bytes(w, at + 4, count, base);
    let c = count as u64;
    assert(c as u8 == c % 256) by (bit_vector);
    reveal_strlit("1");
    assert("1"@ =~= seq!['1']);
}

proof fn lemma_spellings()
    ensures
        crate::text::ascii_lower("CANFD"@) == crate::text::ascii_lower("canfd"@),
        crate::text::ascii_lower("ErrorFrame"@) == crate::text::ascii_lower("errorframe"@),
{
    reveal_strlit("CANFD");
    reveal_strlit("canfd");
    reveal_strlit("ErrorFrame");
    reveal_strlit("errorframe");
    assert(crate::text::ascii_lower("CANFD"@) =~= crate::text::ascii_lower("canfd"@));
    assert(crate::text::ascii_lower("ErrorFrame"@) =~= crate::text::ascii_lower("errorframe"@));
}

proof fn lemma_channel_range(word: Seq<char>)
    ensures
        unsigned_of(word, 10, 65_535) matches Some(n) ==> 0 <= n <= 65_535,
{
    crate::number::lemma_unsigned_range(word, 10, 65_535);
}

/// A name behind the id of a CAN FD line changes nothing of the message.
pub proof fn law_names_do_not_matter(
    start: (i64, u32),
    w: Seq<Seq<char>>,
    name: Seq<char>,
    base: Base,
)
    requires
        w.len() >= 9,
        is_float_text(w[0]),
        same_but_case(w[1], "CANFD"@),
        forall|i: int| 0 <= i < w[5].len() ==> 48 <= (#[trigger] w[5][i]) as int <= 57,
        exists|i: int| 0 <= i < name.len() && !(48 <= (#[trigger] name[i]) as int <= 57),
    ensures
        event_of(start, w.insert(5, name), base) == event_of(start, w, base),
{
    let v = w.insert(5, name);
    law_only_digits(w[5]);
    law_only_digits(name);
    lemma_spellings();
    assert(v[5] == name);
    assert(v.skip(10) =~= w.skip(9));
    assert(fd_flags_at(w) == 5 && fd_flags_at(v) == 6);
    assert(v[6] == w[5] && v[7] == w[6] && v[8] == w[7] && v[9] == w[8]);
}

/// A line whose second word is a number is that of a classic frame: the time, the channel, the
/// id, the direction, `d` and the length code and the data, or `r` and the length code for a
/// request for data. The id, the code and the data are numerals of the base of the log. No
/// more than eight bytes are data.
#[verifier::rlimit(40)]
pub proof fn law_classic_words(
    start: (i64, u32),
    w: Seq<Seq<char>>,
    base: Base,
    channel: int,
    id: u32,
    extended: bool,
    code: u8,
)
    requires
        w.len() >= 6,
        is_float_text(w[0]),
        only_digits(w[1]),
        unsigned_of(w[1], 10, 65_535) == Some(channel),
        !same_but_case(w[2], "ErrorFrame"@),
        is_id(w[2], base, id, extended),
        is_byte(w[5], base, code) || (code == 0 && unsigned_of(w[5], radix(base), 255) is None),
    ensures
        same_but_case(w[4], "d"@) ==> {
            let length = frame_lengths()[least(code as int, 15)];
            &&& event_of(start, w, base) matches Ok(AscNextView::Message(m))
            &&& has_line_parts(m, w[0], start, channel, w[3], id, extended)
            &&& !m.is_remote_frame && !m.is_error_frame && !m.is_fd
            &&& !m.bitrate_switch && !m.error_state_indicator
            &&& m.dlc == length
            &&& are_bytes(m.data, w, 6, least(length, 8), base)
        },
        same_but_case(w[4], "r"@) ==> {
            &&& event_of(start, w, base) matches Ok(AscNextView::Message(m))
            &&& has_line_parts(m, w[0], start, channel, w[3], id, extended)
            &&& m.is_remote_frame && !m.is_error_frame && !m.is_fd
            &&& !m.bitrate_switch && !m.error_state_indicator
            &&& m.dlc == code
            &&& m.data.len() == 0
        },
        !same_but_case(w[4], "d"@) && !same_but_case(w[4], "r"@) ==> event_of(start, w, base)
            == Ok::<AscNextView, ErrorView>(AscNextView::Nothing),
{
    lemma_spellings();
    lemma_rx(w[3]);
    lemma_is_id(w[2], base, id, extended);
    lemma_channel_range(w[1]);
    lemma_no_canfd(w[1]);
    law_lengths_by_code(code as int);
    crate::number::lemma_unsigned_range(w[5], radix(base), 255);
    let length = frame_lengths()[least(code as int, 15)];
    lemma_are_bytes(w, 6, least(length, 8), base);
    reveal_strlit("d");
    reveal_strlit("r");
    if same_but_case(w[4], "d"@) && same_but_case(w[4], "r"@) {
        assert(crate::text::ascii_lower("d"@)[0] == crate::text::ascii_lower("r"@)[0]);
    }
}

proof fn lemma_no_canfd(word: Seq<char>)
    requires
        only_digits(word),
    ensures
        !same_but_case(word, "canfd"@),
{
    reveal_strlit("canfd");
    law_only_digits(word);
    if same_but_case(word, "canfd"@) {
        let a = crate::text::ascii_lower(word);
        let b = crate::text::ascii_lower("canfd"@);
        assert(a.len() == word.len() && b.len() == 5);
        assert(a[0] == b[0]);
        assert(48 <= word[0] as int <= 57);
    }
}

/// `ErrorFrame` in place of the id makes an error frame, of which a classic line gives nothing
/// but the time and the channel, and a CAN FD line the direction too.
pub proof fn law_error_words(start: (i64, u32), w: Seq<Seq<char>>, base: Base, channel: int)
    requires
        w.len() >= 3,
        is_float_text(w[0]),
    ensures
        only_digits(w[1]) && unsigned_of(w[1], 10, 65_535) == Some(channel) && same_but_case(
            w[2],
            "ErrorFrame"@,
        ) ==> {
            &&& event_of(start, w, base) matches Ok(AscNextView::Message(m))
            &&& m.timestamp.text == w[0] && m.timestamp.start == start
            &&& has_channel(m, channel)
            &&& m.is_error_frame && !m.is_fd
            &&& m.is_rx
            &&& is_bare(m)
        },
        w.len() >= 5 && same_but_case(w[1], "CANFD"@) && unsigned_of(w[2], 10, 65_535) == Some(
            channel,
        ) && same_but_case(w[4], "ErrorFrame"@) ==> {
            &&& event_of(start, w, base) matches Ok(AscNextView::Message(m))
            &&& m.timestamp.text == w[0] && m.timestamp.start == start
            &&& has_channel(m, channel)
            &&& m.is_error_frame && m.is_fd
            &&& m.is_rx <==> same_but_case(w[3], "rx"@)
            &&& is_bare(m)
        },
{
    lemma_spellings();
    lemma_channel_range(w[1]);
    lemma_channel_range(w[2]);
    if w.len() >= 5 {
        lemma_rx(w[3]);
    }
    if only_digits(w[1]) {
        lemma_no_canfd(w[1]);
    }
}

/// Whether a message has neither id nor data nor flags.
pub open spec fn is_bare<T>(m: MessageView<T>) -> bool {
    &&& m.arbitration_id == 0 && !m.is_extended_id && !m.is_remote_frame
    &&& !m.bitrate_switch && !m.error_state_indicator
    &&& m.dlc == 0 && m.data.len() == 0
}

/// Whether a word is no id: neither a numeral nor one with an `x` behind it.
pub open spec fn is_no_id(word: Seq<char>, base: Base) -> bool {
    &&& is_word(word)
    &&& forall|id: u32, extended: bool| !#[trigger] is_id(word, base, id, extended)
}

/// Where a word that should be an id is none, the line cannot be read.
pub proof fn law_invalid_ids(start: (i64, u32), w: Seq<Seq<char>>, base: Base)
    requires
        w.len() >= 5,
        is_float_text(w[0]),
    ensures
        w.len() >= 6 && only_digits(w[1]) && unsigned_of(w[1], 10, 65_535) is Some
            && !same_but_case(w[2], "ErrorFrame"@) && is_no_id(w[2], base) ==> event_of(
            start,
            w,
            base,
        ) == Err::<AscNextView, ErrorView>(ErrorView::Parse("invalid CAN id"@)),
        same_but_case(w[1], "CANFD"@) && unsigned_of(w[2], 10, 65_535) is Some && !same_but_case(
            w[4],
            "ErrorFrame"@,
        ) && is_no_id(w[4], base) ==> event_of(start, w, base) == Err::<AscNextView, ErrorView>(
            ErrorView::Parse("invalid CAN id"@),
        ),
{
    lemma_spellings();
    if is_no_id(w[2], base) {
        lemma_no_id(w[2], base);
    }
    if is_no_id(w[4], base) {
        lemma_no_id(w[4], base);
    }
    if only_digits(w[1]) {
        lemma_no_canfd(w[1]);
    }
}

proof fn lemma_no_id(word: Seq<char>, base: Base)
    requires
        is_no_id(word, base),
    ensures
        id_of(word, base) is None,
{
    let extended = word.last() == 'x' || word.last() == 'X';
    let digits = if extended {
        word.drop_last()
    } else {
        word
    };
    if digits.len() > 0 {
        assert(is_word(digits)) by {
            assert forall|i: int| 0 <= i < digits.len() implies !is_space(#[trigger] digits[i]) by {
                assert(digits[i] == word[i]);
            }
        }
        lemma_trimmed_word(digits);
    } else {
        crate::text::lemma_leading(digits);
        assert(crate::text::trimmed(digits).len() == 0) by {
            assert(digits.skip(0) =~= digits);
        }
    }
    crate::number::lemma_unsigned_range(digits, radix(base), 0xffff_ffff);
    if let Some(n) = unsigned_of(digits, radix(base), 0xffff_ffff) {
        assert(is_id(word, base, n as u32, extended));
    }
}

/// A line gives nothing that does not start with a number of seconds and a channel or `CANFD`
/// and a channel, or that ends too early.
pub proof fn law_other_words(start: (i64, u32), w: Seq<Seq<char>>, base: Base)
    requires
        ({
            ||| w.len() < 2
            ||| !is_float_text(w[0])
            ||| !same_but_case(w[1], "CANFD"@) && !only_digits(w[1])
            ||| same_but_case(w[1], "CANFD"@) && (w.len() < 5 || unsigned_of(
                w[2],
                10,
                65_535,
            ) is None)
            ||| !same_but_case(w[1], "CANFD"@) && (w.len() < 3 || unsigned_of(
                w[1],
                10,
                65_535,
            ) is None || (w.len() < 6 && !same_but_case(w[2], "ErrorFrame"@)))
        }),
    ensures
        event_of(start, w, base) == Ok::<AscNextView, ErrorView>(AscNextView::Nothing),
{
    lemma_spellings();
}

/// What a line behind the header does. An empty one, one that ends a block and one that says
/// that the measurement starts do nothing; one that starts a block sets from when times
/// count; any other is an event. Case does not matter.
pub proof fn law_lines_behind_the_header(
    v: AscView,
    line: Seq<char>,
    lower: Seq<char>,
    instant: Option<(i64, u32)>,
)
    requires
        v.header_parsed,
    ensures
        line_of(v, line, lower, instant) == if line.len() == 0 {
            (Ok::<AscNextView, ErrorView>(AscNextView::Nothing), v)
        } else if has_prefix(lower, "begin triggerblock"@) {
            (
                Ok::<AscNextView, ErrorView>(AscNextView::Nothing),
                AscView {
                    start: if v.relative_timestamp {
                        (0i64, 0u32)
                    } else {
                        match instant {
                            Some(i) => i,
                            None => v.start,
                        }
                    },
                    ..v
                },
            )
        } else if has_prefix(lower, "end triggerblock"@) || has_part(
            lower,
            "start of measurement"@,
        ) {
            (Ok::<AscNextView, ErrorView>(AscNextView::Nothing), v)
        } else {
            (event_of(v.start, words(line), v.base), v)
        },
{
}

/// What a line of the header does. One that gives the date sets from when times count, one that
/// names a base sets it, an empty one and a comment do nothing, and the last is the one about
/// internal events; a line that is none of these is already read as one behind the header.
pub proof fn law_lines_of_the_header(
    v: AscView,
    line: Seq<char>,
    lower: Seq<char>,
    instant: Option<(i64, u32)>,
)
    requires
        !v.header_parsed,
    ensures
        line_of(v, line, lower, instant) == if line.len() == 0 {
            (Ok::<AscNextView, ErrorView>(AscNextView::Nothing), v)
        } else if has_prefix(lower, "date "@) {
            (
                Ok::<AscNextView, ErrorView>(AscNextView::Nothing),
                AscView {
                    start: match instant {
                        Some(i) => i,
                        None => v.start,
                    },
                    ..v
                },
            )
        } else if has_prefix(lower, "base "@) {
            (
                Ok::<AscNextView, ErrorView>(AscNextView::Nothing),
                AscView { base: new_base(v.base, line), ..v },
            )
        } else if has_prefix(line, "//"@) {
            (Ok::<AscNextView, ErrorView>(AscNextView::Nothing), v)
        } else if has_part(lower, "internal events logged"@) {
            (
                Ok::<AscNextView, ErrorView>(AscNextView::Nothing),
                AscView { header_parsed: true, ..v },
            )
        } else {
            line_of(AscView { header_parsed: true, ..v }, line, lower, instant)
        },
{
}

/// The second word of a line names a base: `hex` or `dec`, in lower or upper case or with a
/// capital. Another word leaves the base as it was.
pub proof fn law_bases(base: Base, line: Seq<char>, word: Seq<char>)
    ensures
        base_of("hex"@) == Some(Base::Hex) && base_of("HEX"@) == Some(Base::Hex) && base_of("Hex"@)
            == Some(Base::Hex),
        base_of("dec"@) == Some(Base::Dec) && base_of("DEC"@) == Some(Base::Dec) && base_of("Dec"@)
            == Some(Base::Dec),
        word != "hex"@ && word != "HEX"@ && word != "Hex"@ && word != "dec"@ && word != "DEC"@
            && word != "Dec"@ ==> base_of(word) is None,
        new_base(base, line) == if words(line).len() >= 2 && base_of(words(line)[1]) is Some {
            base_of(words(line)[1])->0
        } else {
            base
        },
        Base::Hex.size() == 16 && Base::Dec.size() == 10,
{
    reveal_strlit("hex");
    reveal_strlit("HEX");
    reveal_strlit("Hex");
    reveal_strlit("dec");
    reveal_strlit("DEC");
    reveal_strlit("Dec");
    assert("dec"@[0] == 'd' && "DEC"@[0] == 'D' && "Dec"@[0] == 'D');
    assert("hex"@[0] == 'h' && "HEX"@[0] == 'H' && "Hex"@[0] == 'H');
}

/// Where a line gives the date from which times count: behind its second space in a header,
/// from the fourth word on where a block starts, and nowhere where times count from zero.
pub proof fn law_date_words(v: AscView, line: Seq<char>, lower: Seq<char>)
    requires
        line.len() > 0,
    ensures
        v.relative_timestamp ==> start_words(v, line, lower) is None,
        !v.relative_timestamp && !v.header_parsed && has_prefix(lower, "date "@) ==> start_words(
            v,
            line,
            lower,
        ) == Some(words(behind_second_space(line))),
        !v.relative_timestamp && v.header_parsed && has_prefix(lower, "begin triggerblock"@)
            && words(line).len() >= 4 ==> start_words(v, line, lower) == Some(
            words(line).subrange(3, words(line).len() as int),
        ),
{
    if words(line).len() >= 4 {
        assert(words(line).skip(3) =~= words(line).subrange(3, words(line).len() as int));
    }
}

/// Behind the second space of a line is what follows the first two parts without spaces.
pub proof fn law_behind_second_space(first: Seq<char>, second: Seq<char>, rest: Seq<char>)
    requires
        forall|i: int| 0 <= i < first.len() ==> #[trigger] first[i] != ' ',
        forall|i: int| 0 <= i < second.len() ==> #[trigger] second[i] != ' ',
    ensures
        behind_second_space(first + seq![' '] + second + seq![' '] + rest) == rest,
{
    let line = first + seq![' '] + second + seq![' '] + rest;
    let i = first.len() as int;
    let j = i + 1 + second.len();
    assert forall|k: int| 0 <= k < i implies #[trigger] line[k] != ' ' by {
        assert(line[k] == first[k]);
    }
    assert forall|k: int| i + 1 <= k < j implies #[trigger] line[k] != ' ' by {
        assert(line[k] == second[k - i - 1]);
    }
    crate::asc::dates::lemma_place_is(line, ' ', 0, i);
    crate::asc::dates::lemma_place_is(line, ' ', i + 1, j);
    assert(line.skip(j + 1) =~= rest);
}

/// A line that cannot be read is a CAN FD frame with an id that has fewer than the two flags,
/// the code and the number of bytes behind it, or whose number no list can have; nothing else
/// keeps words from being read.
pub proof fn law_broken_lines(w: Seq<Seq<char>>, base: Base)
    ensures
        breaks_off(w, base) <==> {
            &&& w.len() >= 5
            &&& is_float_text(w[0]) && same_but_case(w[1], "CANFD"@)
            &&& unsigned_of(w[2], 10, 65_535) is Some
            &&& !same_but_case(w[4], "ErrorFrame"@)
            &&& id_of(w[4], base) is Some
            &&& w.len() == 5 || w.len() < flags_at(w) + 4 || (unsigned_of(
                w[flags_at(w) + 3],
                10,
                usize::MAX as int,
            ) matches Some(n) && n > isize::MAX)
        },
{
    lemma_spellings();
    if w.len() > 5 {
        law_only_digits(w[5]);
    }
}

/// A new reader has the base and the way of counting that were asked for. Nothing of the log
/// is read, and until the log says otherwise times count from the epoch.
pub proof fn law_new_readers(base: Base, relative: bool)
    ensures
        ({
            let v = new_reader(base, relative);
            &&& v.base == base && v.relative_timestamp == relative
            &&& v.start == (0i64, 0u32) && !v.header_parsed && v.error is None
        }),
{
}

/// The white space round a line does not matter, and the answer is what the line says for a
/// moment that fits its date: none where it gives no date, and else one less than a day from
/// it, as if that were in UTC, and with the nanoseconds of it.
pub proof fn law_answers(
    v: AscView,
    text: Seq<char>,
    answer: Result<AscNextView, ErrorView>,
    after: AscView,
)
    requires
        may_answer(v, text, answer, after),
    ensures
        ({
            let line = trimmed(text);
            let parts = start_words(v, line, lowercase(line));
            exists|instant: Option<(i64, u32)>|
                {
                    &&& (answer, after) == #[trigger] line_of(v, line, lowercase(line), instant)
                    &&& parts is None ==> instant is None
                    &&& instant matches Some(i) ==> {
                        &&& moment_of(parts->0) matches Some((c, nanos))
                        &&& c.valid() && i.1 == nanos
                        &&& -86_400 < i.0 - c.seconds() < 86_400
                    }
                }
        }),
        after.relative_timestamp == v.relative_timestamp,
        after.error == v.error,
        v.header_parsed ==> after.header_parsed && after.base == v.base,
{
    let line = trimmed(text);
    let lower = lowercase(line);
    let instant = choose|instant: Option<(i64, u32)>| #[trigger]
        may_start(v, line, lower, instant) && (answer, after) == line_of(v, line, lower, instant);
    assert((answer, after) == line_of(v, line, lower, instant));
}

/// A reader that stops at its first error gives what the line says, or keeps the error and
/// says that the log has ended.
pub proof fn law_kept_errors(v: AscView, text: Seq<char>, next: AscNextView, after: AscView)
    requires
        v.error is None,
        may_settle(v, text, next, after),
    ensures
        after.error is None ==> may_answer(v, text, Ok(next), after),
        after.error matches Some(e) ==> next is End && exists|before: AscView| #[trigger]
            may_answer(v, text, Err::<AscNextView, ErrorView>(e), before) && after == (AscView {
                error: Some(e),
                ..before
            }),
{
    if may_answer(v, text, Ok(next), after) {
        law_answers(v, text, Ok(next), after);
    }
}

} // verus!
