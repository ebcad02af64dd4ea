//! Which words and which spaces the lines of a log are written with.

use vstd::prelude::*;

use crate::asc::clock::{date_text, LocalStamp};
use crate::asc::laws::{
    classic_list, fd_list, fd_list_back, fd_list_front, gap_behind, hexes, lemma_classic_words,
    lemma_fd_words, lemma_newline, lemma_numeral_word, lemma_time_word,
};
use crate::asc::writer::{
    begun, classic_text, data_count, event_line, event_text, fd_flags_number, fd_text, fd_trailer,
    header_text, id_text, log_of, new_asc_writer, reading_of, right_aligned, AscWriterView,
};
use crate::blf::stored::{is_code_for, law_codes_have_room};
use crate::blf::wire::least;
use crate::dlc::fd_code;
use crate::message::{spaced_hex, MessageView, Timestamp};
use crate::number::{byte_hex, decimal, hex_lower, hex_upper, law_hex_upper_read_back, upper_digit};
use crate::sentence::{bare, blanks, lemma_first_word, opens_blank};
use crate::text::{is_float_text, words};

verus! {

/// The word for an id: hexadecimal in upper case, with an `x` behind an extended one.
pub open spec fn id_word(id: u32, extended: bool) -> Seq<char> {
    hex_upper(id as int) + if extended {
        seq!['x']
    } else {
        Seq::empty()
    }
}

/// The word for a direction.
pub open spec fn direction_word(is_rx: bool) -> Seq<char> {
    if is_rx {
        seq!['R', 'x']
    } else {
        seq!['T', 'x']
    }
}

/// The word for a flag.
pub open spec fn flag_word(flag: bool) -> Seq<char> {
    if flag {
        seq!['1']
    } else {
        seq!['0']
    }
}

/// The word for a byte: its two digits.
pub open spec fn byte_word(b: u8) -> Seq<char> {
    hex_upper(b as int / 16) + hex_upper(b as int % 16)
}

proof fn lemma_byte_word(b: u8)
    ensures
        byte_hex(b) == byte_word(b),
{
    assert(byte_hex(b) =~= byte_word(b));
}

proof fn lemma_plain_words(id: u32, extended: bool, is_rx: bool)
    ensures
        id_text(id, extended) == id_word(id, extended),
        crate::asc::writer::direction_text(is_rx) == direction_word(is_rx),
{
    assert(id_text(id, extended) =~= id_word(id, extended));
    reveal_strlit("Rx");
    reveal_strlit("Tx");
    assert(crate::asc::writer::direction_text(is_rx) =~= direction_word(is_rx));
}

/// The line of a classic frame has these words: the time, the channel counted from 1, the id,
/// the direction, `r` for a request for data and `d` for data, the length code in
/// hexadecimal, and the data.
#[verifier::rlimit(40)]
pub proof fn law_classic_line_words<T>(m: MessageView<T>, n: int, time: Seq<char>)
    requires
        !m.is_error_frame,
        !m.is_fd,
        n >= 0,
        is_float_text(time),
    ensures
        ({
            let w = words(event_line(blanks(n) + time, event_text(m)));
            let count = if m.is_remote_frame {
                0
            } else {
                m.data.len() as int
            };
            &&& w.len() == 6 + count
            &&& w[0] == time
            &&& w[1] == decimal(least(m.channel + 1, 65_535))
            &&& w[2] == id_word(m.arbitration_id, m.is_extended_id)
            &&& w[3] == direction_word(m.is_rx)
            &&& w[4] == seq![
                if m.is_remote_frame {
                    'r'
                } else {
                    'd'
                },
            ]
            &&& w[5] == hex_lower(m.dlc as int)
            &&& forall|i: int| 0 <= i < count ==> #[trigger] w[6 + i] == byte_word(m.data[i])
        }),
{
    let rest = blanks(1) + event_text(m) + seq!['\n'];
    let line = event_line(blanks(n) + time, event_text(m));
    assert(line =~= blanks(n) + time + rest);
    lemma_time_word(time);
    lemma_first_word(n, time, rest);
    lemma_classic_words(m);
    lemma_plain_words(m.arbitration_id, m.is_extended_id, m.is_rx);
    let w = words(line);
    let list = bare(classic_list(m));
    let data = hexes(m.data.take(data_count(m)));
    assert(w =~= seq![time] + (list + data));
    assert(w[1] == list[0] && w[2] == list[1] && w[3] == list[2] && w[4] == list[3] && w[5]
        == list[4]);
    assert forall|i: int| 0 <= i < data_count(m) implies #[trigger] w[6 + i] == byte_word(
        m.data[i],
    ) by {
        assert(w[6 + i] == data[i]);
        lemma_byte_word(m.data[i]);
    }
}

/// The words behind the data of a CAN FD frame: two zeros, the flags of the frame as one
/// hexadecimal number, and five zeros.
pub open spec fn trailer_words(bitrate_switch: bool, error_state_indicator: bool) -> Seq<
    Seq<char>,
> {
    let zero = seq!['0'];
    let flags = hex_upper(
        4096 + (if bitrate_switch {
            8192int
        } else {
            0
        }) + (if error_state_indicator {
            16384int
        } else {
            0
        }),
    );
    seq![zero, zero, flags, zero, zero, zero, zero, zero]
}

proof fn lemma_assoc(a: Seq<char>, b: Seq<char>, c: Seq<char>)
    ensures
        a + b + c == a + (b + c),
{
    assert(a + b + c =~= a + (b + c));
}

/// A word in front of a text, in a width.
proof fn lemma_word_in_front(word: Seq<char>, width: int, rest: Seq<char>)
    requires
        crate::sentence::is_word(word),
        opens_blank(rest),
        width >= 1,
    ensures
        words(seq![' '] + right_aligned(word, width) + rest) == seq![word] + words(rest),
        opens_blank(seq![' '] + right_aligned(word, width) + rest),
{
    let n = gap_behind(word, width);
    assert(seq![' '] + right_aligned(word, width) =~= blanks(n) + word);
    lemma_first_word(n, word, rest);
    assert((seq![' '] + right_aligned(word, width) + rest)[0] == ' ');
}

proof fn lemma_trailer_words(brs: bool, esi: bool)
    ensures
        words(fd_trailer(brs, esi) + seq!['\n']) == trailer_words(brs, esi),
{
    let flags = hex_upper(fd_flags_number(brs, esi));
    law_hex_upper_read_back(fd_flags_number(brs, esi));
    lemma_numeral_word(flags, 16, fd_flags_number(brs, esi));
    lemma_words_of_trailer(flags);
    let zero = seq![' '] + right_aligned(seq!['0'], 8);
    let four = seq![' '] + right_aligned(seq!['0'], 4);
    let f = seq![' '] + right_aligned(flags, 8);
    lemma_assoc(zero, seq![' '], right_aligned(seq!['0'], 4));
    lemma_assoc(zero + four, seq![' '], right_aligned(flags, 8));
    assert(fd_trailer(brs, esi) == zero + four + f + zero + zero + zero + zero + zero);
}

proof fn lemma_words_of_trailer(flags: Seq<char>)
    requires
        crate::sentence::is_word(flags),
    ensures
        ({
            let z = seq![' '] + right_aligned(seq!['0'], 8);
            let four = seq![' '] + right_aligned(seq!['0'], 4);
            let f = seq![' '] + right_aligned(flags, 8);
            let zero = seq!['0'];
            words(z + four + f + z + z + z + z + z + seq!['\n']) == seq![
                zero,
                zero,
                flags,
                zero,
                zero,
                zero,
                zero,
                zero,
            ]
        }),
{
    let z = seq![' '] + right_aligned(seq!['0'], 8);
    let four = seq![' '] + right_aligned(seq!['0'], 4);
    let f = seq![' '] + right_aligned(flags, 8);
    let zero = seq!['0'];
    let r0 = seq!['\n'];
    let r1 = z + r0;
    let r2 = z + r1;
    let r3 = z + r2;
    let r4 = z + r3;
    let r5 = z + r4;
    let r6 = f + r5;
    let r7 = four + r6;
    let r8 = z + r7;
    assert(crate::sentence::is_word(zero));
    lemma_newline();
    lemma_word_in_front(zero, 8, r0);
    lemma_word_in_front(zero, 8, r1);
    lemma_word_in_front(zero, 8, r2);
    lemma_word_in_front(zero, 8, r3);
    lemma_word_in_front(zero, 8, r4);
    lemma_word_in_front(flags, 8, r5);
    lemma_word_in_front(zero, 4, r6);
    lemma_word_in_front(zero, 8, r7);
    lemma_assoc(z + four + f + z + z + z + z, z, r0);
    lemma_assoc(z + four + f + z + z + z, z, r1);
    lemma_assoc(z + four + f + z + z, z, r2);
    lemma_assoc(z + four + f + z, z, r3);
    lemma_assoc(z + four + f, z, r4);
    lemma_assoc(z + four, f, r5);
    lemma_assoc(z, four, r6);
    assert(words(r8) =~= seq![zero, zero, flags, zero, zero, zero, zero, zero]);
}

/// The line of a CAN FD frame has these words: the time, `CANFD`, the channel counted from 1,
/// the direction, the id, the flags for a switch of the bit rate and for the error state, the
/// smallest length code with room for the length in hexadecimal, the number of data bytes,
/// the data, and eight words that say no more than the flags.
#[verifier::rlimit(40)]
pub proof fn law_fd_line_words<T>(m: MessageView<T>, n: int, time: Seq<char>)
    requires
        !m.is_error_frame,
        m.is_fd,
        n >= 0,
        is_float_text(time),
    ensures
        ({
            let w = words(event_line(blanks(n) + time, event_text(m)));
            let count = if m.is_remote_frame {
                0
            } else {
                m.data.len() as int
            };
            &&& w.len() == 17 + count
            &&& w[0] == time
            &&& w[1] == seq!['C', 'A', 'N', 'F', 'D']
            &&& w[2] == decimal(least(m.channel + 1, 65_535))
            &&& w[3] == direction_word(m.is_rx)
            &&& w[4] == id_word(m.arbitration_id, m.is_extended_id)
            &&& w[5] == flag_word(m.bitrate_switch)
            &&& w[6] == flag_word(m.error_state_indicator)
            &&& exists|code: int| #[trigger]
                is_code_for(code, m.dlc as int) && w[7] == hex_lower(code)
            &&& w[8] == decimal(count)
            &&& forall|i: int| 0 <= i < count ==> #[trigger] w[9 + i] == byte_word(m.data[i])
            &&& w.subrange(9 + count, 17 + count) == trailer_words(
                m.bitrate_switch,
                m.error_state_indicator,
            )
        }),
{
    let rest = blanks(1) + event_text(m) + seq!['\n'];
    let line = event_line(blanks(n) + time, event_text(m));
    assert(line =~= blanks(n) + time + rest);
    lemma_time_word(time);
    lemma_first_word(n, time, rest);
    let more = lemma_fd_words(m);
    lemma_trailer_words(m.bitrate_switch, m.error_state_indicator);
    lemma_plain_words(m.arbitration_id, m.is_extended_id, m.is_rx);
    reveal_strlit("CANFD");
    assert("CANFD"@ =~= seq!['C', 'A', 'N', 'F', 'D']);
    law_codes_have_room(m.dlc as int);
    let w = words(line);
    let list = bare(fd_list(m));
    let data = hexes(m.data.take(data_count(m)));
    let count = data_count(m);
    assert(w =~= seq![time] + (list + (data + more)));
    let front = fd_list_front(m);
    let back = fd_list_back(m);
    assert(w[1] == front[0].word && w[2] == front[1].word && w[3] == front[2].word && w[4]
        == front[3].word && w[5] == front[4].word);
    assert(w[6] == back[0].word && w[7] == back[1].word && w[8] == back[2].word);
    assert(w[7] == hex_lower(fd_code(m.dlc as int)));
    assert forall|i: int| 0 <= i < count implies #[trigger] w[9 + i] == byte_word(m.data[i]) by {
        assert(w[9 + i] == data[i]);
        lemma_byte_word(m.data[i]);
    }
    assert(w.subrange(9 + count, 17 + count) =~= more);
}

/// The line of an error frame has the time, the channel counted from 1, and `ErrorFrame`.
pub proof fn law_error_line<T>(m: MessageView<T>)
    requires
        m.is_error_frame,
    ensures
        event_text(m) == decimal(least(m.channel + 1, 65_535)) + "  ErrorFrame"@,
{
}

/// A text with as many spaces in front of it as it lacks of a width.
pub open spec fn in_front(s: Seq<char>, width: int) -> Seq<char> {
    Seq::new((width - least(s.len() as int, width)) as nat, |i: int| ' ') + s
}

/// A text with as many spaces behind it as it lacks of a width.
pub open spec fn behind(s: Seq<char>, width: int) -> Seq<char> {
    s + Seq::new((width - least(s.len() as int, width)) as nat, |i: int| ' ')
}

/// The event of a classic frame stands in columns: the channel, the id in 15 characters from
/// its left, the direction in four, the kind, the length code, and the data.
#[verifier::rlimit(40)]
pub proof fn law_classic_columns<T>(m: MessageView<T>)
    ensures
        classic_text(m) == decimal(least(m.channel + 1, 65_535)) + seq![' ', ' '] + behind(
            id_word(m.arbitration_id, m.is_extended_id),
            15,
        ) + seq![' '] + direction_word(m.is_rx) + seq![' ', ' ', ' '] + seq![
            if m.is_remote_frame {
                'r'
            } else {
                'd'
            },
        ] + seq![' '] + hex_lower(m.dlc as int) + seq![' '] + (if m.is_remote_frame {
            Seq::empty()
        } else {
            spaced_hex(m.data)
        }),
{
    lemma_plain_words(m.arbitration_id, m.is_extended_id, m.is_rx);
    let id = id_word(m.arbitration_id, m.is_extended_id);
    assert(crate::asc::writer::left_aligned(id, 15) =~= behind(id, 15));
    assert(classic_text(m) =~= decimal(least(m.channel + 1, 65_535)) + seq![' ', ' '] + behind(
        id,
        15,
    ) + seq![' '] + direction_word(m.is_rx) + seq![' ', ' ', ' '] + seq![
        if m.is_remote_frame {
            'r'
        } else {
            'd'
        },
    ] + seq![' '] + hex_lower(m.dlc as int) + seq![' '] + (if m.is_remote_frame {
        Seq::empty()
    } else {
        spaced_hex(m.data)
    }));
}

/// The event of a CAN FD frame stands in columns: the channel in three characters and the id
/// in eight, both from their right, with 35 spaces behind the id, and the number of data bytes
/// in two.
#[verifier::rlimit(40)]
pub proof fn law_fd_columns<T>(m: MessageView<T>)
    ensures
        ({
            let front = seq!['C', 'A', 'N', 'F', 'D', ' '] + in_front(
                decimal(least(m.channel + 1, 65_535)),
                3,
            ) + seq![' '] + direction_word(m.is_rx) + seq![' ', ' ', ' '] + in_front(
                id_word(m.arbitration_id, m.is_extended_id),
                8,
            ) + blanks(35) + flag_word(m.bitrate_switch) + seq![' '] + flag_word(
                m.error_state_indicator,
            ) + seq![' '];
            exists|code: int| #[trigger]
                is_code_for(code, m.dlc as int) && fd_text(m) == front + hex_lower(code) + seq![' ']
                    + in_front(decimal(data_count(m)), 2) + seq![' '] + (if m.is_remote_frame {
                    Seq::empty()
                } else {
                    spaced_hex(m.data)
                }) + fd_trailer(m.bitrate_switch, m.error_state_indicator)
        }),
{
    reveal_strlit("CANFD ");
    lemma_plain_words(m.arbitration_id, m.is_extended_id, m.is_rx);
    law_codes_have_room(m.dlc as int);
    let channel = decimal(least(m.channel + 1, 65_535));
    let id = id_word(m.arbitration_id, m.is_extended_id);
    let count = decimal(data_count(m));
    assert(right_aligned(channel, 3) =~= in_front(channel, 3));
    assert(right_aligned(id, 8) =~= in_front(id, 8));
    assert(right_aligned(count, 2) =~= in_front(count, 2));
    let a = "CANFD "@ + in_front(channel, 3) + seq![' '] + crate::asc::writer::left_aligned(
        direction_word(m.is_rx),
        4,
    ) + seq![' '];
    let b = seq!['C', 'A', 'N', 'F', 'D', ' '] + in_front(channel, 3) + seq![' '] + direction_word(
        m.is_rx,
    ) + seq![' ', ' ', ' '];
    assert(a =~= b);
    assert(is_code_for(fd_code(m.dlc as int), m.dlc as int));
}

/// Behind the data of a CAN FD frame the words stand in columns of eight characters, but for
/// the second, which stands in four.
pub proof fn law_trailer_columns(brs: bool, esi: bool)
    ensures
        ({
            let w = trailer_words(brs, esi);
            fd_trailer(brs, esi) == seq![' '] + in_front(w[0], 8) + seq![' '] + in_front(w[1], 4)
                + seq![' '] + in_front(w[2], 8) + (seq![' '] + in_front(w[3], 8)) + (seq![' ']
                + in_front(w[4], 8)) + (seq![' '] + in_front(w[5], 8)) + (seq![' '] + in_front(
                w[6],
                8,
            )) + (seq![' '] + in_front(w[7], 8))
        }),
{
    let w = trailer_words(brs, esi);
    assert(right_aligned(seq!['0'], 8) =~= in_front(seq!['0'], 8));
    assert(right_aligned(seq!['0'], 4) =~= in_front(seq!['0'], 4));
    assert(right_aligned(w[2], 8) =~= in_front(w[2], 8));
}

/// The data of a frame are written as two digits each with a space between them.
#[verifier::rlimit(40)]
pub proof fn law_data_columns(data: Seq<u8>)
    ensures
        data.len() == 0 ==> spaced_hex(data).len() == 0,
        data.len() > 0 ==> spaced_hex(data).len() == 3 * data.len() - 1,
        forall|i: int|
            0 <= i < data.len() ==> #[trigger] spaced_hex(data)[3 * i] == hex_upper(
                data[i] as int / 16,
            )[0],
        forall|i: int|
            0 <= i < data.len() ==> #[trigger] spaced_hex(data)[3 * i + 1] == hex_upper(
                data[i] as int % 16,
            )[0],
        forall|i: int| 0 <= i < data.len() - 1 ==> #[trigger] spaced_hex(data)[3 * i + 2] == ' ',
    decreases data.len(),
{
    if data.len() > 0 {
        let before = data.drop_last();
        let s = spaced_hex(data);
        let n = before.len() as int;
        law_data_columns(before);
        lemma_byte_word(data.last());
        if data.len() > 1 {
            let t = spaced_hex(before);
            assert(s =~= t + seq![' '] + byte_hex(data.last()));
            assert forall|i: int| 0 <= i < data.len() implies #[trigger] s[3 * i] == hex_upper(
                data[i] as int / 16,
            )[0] by {
                if i < n {
                    assert(s[3 * i] == t[3 * i]);
                }
            }
            assert forall|i: int| 0 <= i < data.len() implies #[trigger] s[3 * i + 1] == hex_upper(
                data[i] as int % 16,
            )[0] by {
                if i < n {
                    assert(s[3 * i + 1] == t[3 * i + 1]);
                }
            }
            assert forall|i: int| 0 <= i < data.len() - 1 implies #[trigger] s[3 * i + 2]
                == ' ' by {
                if i < n - 1 {
                    assert(s[3 * i + 2] == t[3 * i + 2]);
                }
            }
        }
    }
}

/// The first event of a log is put behind a line that starts the block, with the date of the
/// event, and one that says that the measurement starts; every other gives its line alone. A
/// line is the time as it is shown, a space, the event, and the end of the line. The time of
/// the event is kept as the last, and that of the first as the one from which times count.
pub proof fn law_lines_of_events(
    w: AscWriterView,
    event: Seq<char>,
    time: Timestamp,
    shown: Seq<char>,
    stamp: LocalStamp,
)
    ensures
        ({
            let line = shown + seq![' '] + event + seq!['\n'];
            log_of(w, event, time, shown, stamp) == if w.header_written {
                (line, AscWriterView { last_timestamp: time, ..w })
            } else {
                (
                    "Begin Triggerblock "@ + date_text(stamp) + seq!['\n'] + (shown + seq![' ']
                        + "Start of measurement"@ + seq!['\n']) + line,
                    AscWriterView { last_timestamp: time, started: time, ..w },
                )
            }
        }),
        begun(w) == (AscWriterView { header_written: true, ..w }),
{
}

/// The header of a log has the date, the base and that times are absolute, and that internal
/// events are logged. The date has milliseconds in three digits between the seconds and the
/// year.
pub proof fn law_header_of_a_log(stamp: LocalStamp)
    ensures
        header_text(stamp) == "date "@ + date_text(stamp)
            + "\nbase hex  timestamps absolute\ninternal events logged\n"@,
        stamp.millis < 1000 ==> date_text(stamp) == stamp.text@ + seq![
            '.',
            upper_digit(stamp.millis as int / 100),
            upper_digit(stamp.millis as int / 10 % 10),
            upper_digit(stamp.millis as int % 10),
            ' ',
        ] + stamp.year@,
{
    if stamp.millis < 1000 {
        reveal_with_fuel(decimal, 4);
        assert(date_text(stamp) =~= stamp.text@ + seq![
            '.',
            upper_digit(stamp.millis as int / 100),
            upper_digit(stamp.millis as int / 10 % 10),
            upper_digit(stamp.millis as int % 10),
            ' ',
        ] + stamp.year@);
    }
}

/// Which time a message is shown with, and from when it counts: the first counts from itself,
/// every later one from the first; and a message of time zero has the time of the message
/// before it.
pub proof fn law_shown_times(
    channel: u16,
    event: Seq<char>,
    first: Timestamp,
    shown: Seq<char>,
    stamp: LocalStamp,
    between: AscWriterView,
    time: Timestamp,
)
    ensures
        reading_of(new_asc_writer(channel), first) == (first, first),
        ({
            let after = begun(log_of(new_asc_writer(channel), event, first, shown, stamp).1);
            &&& after.header_written && !after.finished && after.channel == channel
            &&& after.started == first && after.last_timestamp == first
        }),
        between.header_written ==> {
            let later = log_of(between, event, time, shown, stamp).1;
            &&& later.header_written && later.started == between.started
            &&& later.last_timestamp == time
            &&& reading_of(between, time) == if time.bits == 0 || time.bits
                == 0x8000_0000_0000_0000 {
                (between.last_timestamp, between.started)
            } else {
                (time, between.started)
            }
        },
{
}

} // verus!
