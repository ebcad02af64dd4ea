//! What the bytes of an object mean.

use vstd::prelude::*;

use crate::blf::format::BlfTime;
use crate::blf::object::{
    can_message, error_message, fd64_message, fd_message, lemma_first_mark, marked, next_mark,
    object_content, object_time, parse, step, Step,
};
use crate::bytes::{u16_at, u32_at, u64_at};
use crate::dlc::fd_length;
use crate::message::MessageView;

verus! {

/// The number whose `n` bytes stand from `at` on, the low one first.
pub open spec fn number(s: Seq<u8>, at: int, n: int) -> int
    decreases n,
{
    if n <= 0 {
        0
    } else {
        s[at] + 256 * number(s, at + 1, n - 1)
    }
}

/// Whether the bit of a number that is worth so much is set.
pub open spec fn bit(n: int, worth: int) -> bool {
    n / worth % 2 == 1
}

/// The lengths that CAN FD frames have, by their codes.
pub open spec fn frame_lengths() -> Seq<int> {
    seq![0, 1, 2, 3, 4, 5, 6, 7, 8, 12, 16, 20, 24, 32, 48, 64]
}

/// The smaller of two numbers.
pub open spec fn least(a: int, b: int) -> int {
    if a < b {
        a
    } else {
        b
    }
}

/// Integers are read from their bytes, the low one first.
pub proof fn law_integers_are_little_endian(s: Seq<u8>, at: int)
    ensures
        u16_at(s, at) == number(s, at, 2),
        u32_at(s, at) == number(s, at, 4),
        u64_at(s, at) == number(s, at, 8),
{
    reveal_with_fuel(number, 9);
    assert(u32_at(s, at + 4) == number(s, at + 4, 4));
    assert(number(s, at, 8) == number(s, at, 4) + 0x1_0000_0000 * number(s, at + 4, 4));
}

/// Whether the four letters `LOBJ` stand at a place.
pub open spec fn has_letters(buf: Seq<u8>, at: int) -> bool {
    0 <= at && at + 4 <= buf.len() && buf[at] == 76 && buf[at + 1] == 79 && buf[at + 2] == 66
        && buf[at + 3] == 74
}

proof fn lemma_letters(buf: Seq<u8>, at: int)
    requires
        0 <= at,
        at + 4 <= buf.len(),
    ensures
        marked(buf, at) == has_letters(buf, at),
{
    let s = buf.subrange(at, at + 4);
    assert(s[0] == buf[at] && s[1] == buf[at + 1] && s[2] == buf[at + 2] && s[3] == buf[at + 3]);
    if has_letters(buf, at) {
        assert(s =~= seq![76u8, 79u8, 66u8, 74u8]);
    }
}

/// How far behind its start the fields of an object stand that has so much room for them:
/// its header is of version 1 or 2, and the object is there whole.
pub open spec fn holds_fields(buf: Seq<u8>, pos: int, header: int, room: int) -> bool {
    &&& has_letters(buf, pos)
    &&& (header == 32 && number(buf, pos + 6, 2) == 1) || (header == 40 && number(buf, pos + 6, 2)
        == 2)
    &&& header + room <= number(buf, pos + 8, 4)
    &&& pos + number(buf, pos + 8, 4) <= buf.len()
}

/// Whether a time is the one in the header of an object, in a log that starts at
/// `start_millis`: the 64-bit number of ticks, of ten microseconds each where the flags of the
/// header are 1, and of a nanosecond each otherwise. Both stand at the same places in headers
/// of either version.
pub open spec fn is_header_time(t: BlfTime, buf: Seq<u8>, pos: int, start_millis: i64) -> bool {
    &&& t.start_millis == start_millis
    &&& t.ticks == number(buf, pos + 24, 8)
    &&& t.unit is TenMicroseconds <==> number(buf, pos + 16, 4) == 1
    &&& t.unit is Nanosecond <==> number(buf, pos + 16, 4) != 1
}

/// Whether a message has the id of an id field: 29 bits of id, and the highest bit for an
/// extended one.
pub open spec fn has_id<T>(m: MessageView<T>, field: int) -> bool {
    &&& m.arbitration_id == field % 0x2000_0000
    &&& m.is_extended_id <==> field >= 0x8000_0000
}

/// Whether a message has the channel that a log counts from 1. Number 0 is the first too.
pub open spec fn has_channel<T>(m: MessageView<T>, in_log: int) -> bool {
    m.channel == in_log - 1 || (in_log == 0 && m.channel == 0)
}

/// Whether the data of a message are the `n` bytes from `at` on.
pub open spec fn has_data<T>(m: MessageView<T>, buf: Seq<u8>, at: int, n: int) -> bool {
    &&& m.data.len() == n
    &&& forall|i: int| 0 <= i < n ==> #[trigger] m.data[i] == buf[at + i]
}

proof fn lemma_id(field: u32)
    ensures
        field & 0x1fff_ffff == field % 0x2000_0000,
        field & 0x8000_0000 != 0 <==> field >= 0x8000_0000,
{
    assert(field & 0x1fff_ffff == field % 0x2000_0000) by (bit_vector);
    assert(field & 0x8000_0000 != 0 <==> field >= 0x8000_0000) by (bit_vector);
}

proof fn lemma_flags(flags: u8)
    ensures
        flags & 0x80 != 0 <==> bit(flags as int, 128),
        flags & 0x1 != 0 <==> bit(flags as int, 1),
        flags & 0x2 != 0 <==> bit(flags as int, 2),
        flags & 0x4 != 0 <==> bit(flags as int, 4),
{
    assert(flags & 0x80 != 0 <==> flags / 128 % 2 == 1) by (bit_vector);
    assert(flags & 0x1 != 0 <==> flags % 2 == 1) by (bit_vector);
    assert(flags & 0x2 != 0 <==> flags / 2 % 2 == 1) by (bit_vector);
    assert(flags & 0x4 != 0 <==> flags / 4 % 2 == 1) by (bit_vector);
}

proof fn lemma_long_flags(flags: u32)
    ensures
        flags & 0x0010 != 0 <==> bit(flags as int, 16),
        flags & 0x1000 != 0 <==> bit(flags as int, 4096),
        flags & 0x2000 != 0 <==> bit(flags as int, 8192),
        flags & 0x4000 != 0 <==> bit(flags as int, 16384),
{
    assert(flags & 0x0010 != 0 <==> flags / 16 % 2 == 1) by (bit_vector);
    assert(flags & 0x1000 != 0 <==> flags / 4096 % 2 == 1) by (bit_vector);
    assert(flags & 0x2000 != 0 <==> flags / 8192 % 2 == 1) by (bit_vector);
    assert(flags & 0x4000 != 0 <==> flags / 16384 % 2 == 1) by (bit_vector);
}

/// An object with fields is read by its content.
proof fn lemma_object_with_fields(
    buf: Seq<u8>,
    pos: int,
    header: int,
    room: int,
    start_millis: i64,
)
    requires
        holds_fields(buf, pos, header, room),
        room >= 0,
    ensures
        step(buf, pos, start_millis) == object_content(buf, pos, pos + header, start_millis),
        u32_at(buf, pos + 8) == number(buf, pos + 8, 4),
        u32_at(buf, pos + 12) == number(buf, pos + 12, 4),
        u16_at(buf, pos + 4) == number(buf, pos + 4, 2),
        is_header_time(object_time(buf, pos, start_millis), buf, pos, start_millis),
{
    lemma_letters(buf, pos);
    assert(next_mark(buf, pos) == Some(pos));
    law_integers_are_little_endian(buf, pos + 4);
    law_integers_are_little_endian(buf, pos + 6);
    law_integers_are_little_endian(buf, pos + 8);
    law_integers_are_little_endian(buf, pos + 12);
    law_integers_are_little_endian(buf, pos + 16);
    law_integers_are_little_endian(buf, pos + 24);
}

/// An object of type 1 or 86 is a classic frame: the channel, a byte of flags, the length
/// code, the id, and as many of eight bytes as the code says.
pub proof fn law_classic_objects(buf: Seq<u8>, pos: int, header: int, start_millis: i64)
    requires
        holds_fields(buf, pos, header, 16),
        number(buf, pos + 12, 4) == 1 || number(buf, pos + 12, 4) == 86,
    ensures
        ({
            let f = pos + header;
            &&& step(buf, pos, start_millis) matches Step::Object { end, message: Some(m) }
            &&& end == pos + number(buf, pos + 8, 4)
            &&& is_header_time(m.timestamp, buf, pos, start_millis)
            &&& has_channel(m, number(buf, f, 2))
            &&& m.is_remote_frame <==> bit(buf[f + 2] as int, 128)
            &&& m.is_rx <==> !bit(buf[f + 2] as int, 1)
            &&& m.dlc == buf[f + 3]
            &&& has_id(m, number(buf, f + 4, 4))
            &&& has_data(m, buf, f + 8, least(buf[f + 3] as int, 8))
            &&& !m.is_error_frame && !m.is_fd && !m.bitrate_switch && !m.error_state_indicator
        }),
{
    let f = pos + header;
    lemma_object_with_fields(buf, pos, header, 16, start_millis);
    law_integers_are_little_endian(buf, f);
    law_integers_are_little_endian(buf, f + 4);
    lemma_id(u32_at(buf, f + 4));
    lemma_flags(buf[f + 2]);
    let m = can_message(buf, f, object_time(buf, pos, start_millis));
    assert(has_data(m, buf, f + 8, least(buf[f + 3] as int, 8)));
}

/// An object of type 73 is an error frame: it is received and has no other flags.
pub proof fn law_error_objects(buf: Seq<u8>, pos: int, header: int, start_millis: i64)
    requires
        holds_fields(buf, pos, header, 32),
        number(buf, pos + 12, 4) == 73,
    ensures
        ({
            let f = pos + header;
            &&& step(buf, pos, start_millis) matches Step::Object { end, message: Some(m) }
            &&& end == pos + number(buf, pos + 8, 4)
            &&& is_header_time(m.timestamp, buf, pos, start_millis)
            &&& has_channel(m, number(buf, f, 2))
            &&& m.dlc == buf[f + 10]
            &&& has_id(m, number(buf, f + 16, 4))
            &&& has_data(m, buf, f + 24, least(buf[f + 10] as int, 8))
            &&& m.is_error_frame && m.is_rx
            &&& !m.is_remote_frame && !m.is_fd && !m.bitrate_switch && !m.error_state_indicator
        }),
{
    let f = pos + header;
    lemma_object_with_fields(buf, pos, header, 32, start_millis);
    law_integers_are_little_endian(buf, f);
    law_integers_are_little_endian(buf, f + 16);
    lemma_id(u32_at(buf, f + 16));
    let m = error_message(buf, f, object_time(buf, pos, start_millis));
    assert(has_data(m, buf, f + 24, least(buf[f + 10] as int, 8)));
}

/// An object of type 100 is a CAN FD frame with room for 64 bytes.
pub proof fn law_fd_objects(buf: Seq<u8>, pos: int, header: int, start_millis: i64)
    requires
        holds_fields(buf, pos, header, 84),
        number(buf, pos + 12, 4) == 100,
    ensures
        ({
            let f = pos + header;
            &&& step(buf, pos, start_millis) matches Step::Object { end, message: Some(m) }
            &&& end == pos + number(buf, pos + 8, 4)
            &&& is_header_time(m.timestamp, buf, pos, start_millis)
            &&& has_channel(m, number(buf, f, 2))
            &&& m.is_remote_frame <==> bit(buf[f + 2] as int, 128)
            &&& m.is_rx <==> !bit(buf[f + 2] as int, 1)
            &&& m.dlc == frame_lengths()[least(buf[f + 3] as int, 15)]
            &&& has_id(m, number(buf, f + 4, 4))
            &&& m.is_fd <==> bit(buf[f + 13] as int, 1)
            &&& m.bitrate_switch <==> bit(buf[f + 13] as int, 2)
            &&& m.error_state_indicator <==> bit(buf[f + 13] as int, 4)
            &&& has_data(m, buf, f + 20, least(buf[f + 14] as int, 64))
            &&& !m.is_error_frame
        }),
{
    let f = pos + header;
    lemma_object_with_fields(buf, pos, header, 84, start_millis);
    law_integers_are_little_endian(buf, f);
    law_integers_are_little_endian(buf, f + 4);
    lemma_id(u32_at(buf, f + 4));
    lemma_flags(buf[f + 2]);
    lemma_flags(buf[f + 13]);
    law_lengths_by_code(buf[f + 3] as int);
    let m = fd_message(buf, f, object_time(buf, pos, start_millis));
    assert(has_data(m, buf, f + 20, least(buf[f + 14] as int, 64)));
}

/// A length code stands for the length at its place among the lengths of CAN FD frames, and
/// one beyond the last for the last.
pub proof fn law_lengths_by_code(code: int)
    requires
        0 <= code,
    ensures
        fd_length(code) == frame_lengths()[least(code, 15)],
{
}

/// An object of type 101 is a long CAN FD frame. Its data end where the extended data start,
/// by an offset from the start of the object, or with the object where there are none; what
/// is missing of the bytes that it claims is zero, and all are where the data run on beyond
/// the bytes that are there.
#[verifier::rlimit(40)]
pub proof fn law_long_fd_objects(buf: Seq<u8>, pos: int, header: int, start_millis: i64)
    requires
        holds_fields(buf, pos, header, 40),
        number(buf, pos + 12, 4) == 101,
    ensures
        ({
            let f = pos + header;
            let flags = number(buf, f + 12, 4);
            let valid = buf[f + 2] as int;
            let field_end = if buf[f + 35] != 0 {
                buf[f + 35] as int
            } else {
                number(buf, pos + 8, 4)
            };
            let held = least(valid, field_end - number(buf, pos + 4, 2) - 40);
            &&& step(buf, pos, start_millis) matches Step::Object { end, message: Some(m) }
            &&& end == pos + number(buf, pos + 8, 4)
            &&& is_header_time(m.timestamp, buf, pos, start_millis)
            &&& has_channel(m, buf[f] as int)
            &&& m.dlc == frame_lengths()[least(buf[f + 1] as int, 15)]
            &&& has_id(m, number(buf, f + 4, 4))
            &&& m.is_remote_frame <==> bit(flags, 16)
            &&& m.is_fd <==> bit(flags, 4096)
            &&& m.bitrate_switch <==> bit(flags, 8192)
            &&& m.error_state_indicator <==> bit(flags, 16384)
            &&& m.is_rx <==> buf[f + 34] == 0
            &&& !m.is_error_frame
            &&& m.data.len() == valid
            &&& forall|i: int|
                0 <= i < valid ==> #[trigger] m.data[i] == if i < held && f + 40 + held
                    <= buf.len() {
                    buf[f + 40 + i]
                } else {
                    0
                }
        }),
{
    let f = pos + header;
    lemma_object_with_fields(buf, pos, header, 40, start_millis);
    law_integers_are_little_endian(buf, f + 4);
    law_integers_are_little_endian(buf, f + 12);
    lemma_id(u32_at(buf, f + 4));
    lemma_long_flags(u32_at(buf, f + 12));
    law_lengths_by_code(buf[f + 1] as int);
    let m = fd64_message(
        buf,
        f,
        u16_at(buf, pos + 4) as int,
        u32_at(buf, pos + 8) as int,
        object_time(buf, pos, start_millis),
    );
    assert(m.data.len() == buf[f + 2]);
}

/// The types of objects that hold messages, and how long their fields are.
pub open spec fn field_lengths() -> Map<int, int> {
    map![1int => 16int, 86int => 16int, 73int => 32int, 100int => 84int, 101int => 40int]
}

/// An object that holds no message is passed over: it is of another type, or its header is of
/// another version.
pub proof fn law_other_inner_objects(buf: Seq<u8>, pos: int, start_millis: i64)
    requires
        has_letters(buf, pos),
        pos + 16 <= buf.len(),
        0 < number(buf, pos + 8, 4),
        pos + number(buf, pos + 8, 4) <= buf.len(),
        ({
            let version = number(buf, pos + 6, 2);
            ||| version != 1 && version != 2
            ||| !field_lengths().dom().contains(number(buf, pos + 12, 4)) && pos + 32 + 8 * (version
                - 1) <= buf.len()
        }),
    ensures
        step(buf, pos, start_millis) == (Step::Object {
            end: pos + number(buf, pos + 8, 4),
            message: None,
        }),
{
    lemma_letters(buf, pos);
    assert(next_mark(buf, pos) == Some(pos));
    law_integers_are_little_endian(buf, pos + 6);
    law_integers_are_little_endian(buf, pos + 8);
    law_integers_are_little_endian(buf, pos + 12);
    let kind = number(buf, pos + 12, 4);
    assert(field_lengths().dom().contains(1) && field_lengths().dom().contains(86)
        && field_lengths().dom().contains(73) && field_lengths().dom().contains(100)
        && field_lengths().dom().contains(101));
}

/// An object whose size leaves too little room for its fields cannot be read, and the reason
/// says which kind of object it is.
pub proof fn law_small_objects(buf: Seq<u8>, pos: int, header: int, start_millis: i64)
    requires
        has_letters(buf, pos),
        (header == 32 && number(buf, pos + 6, 2) == 1) || (header == 40 && number(buf, pos + 6, 2)
            == 2),
        pos + header <= buf.len(),
        pos + number(buf, pos + 8, 4) <= buf.len(),
        field_lengths().dom().contains(number(buf, pos + 12, 4)),
        number(buf, pos + 8, 4) < header + field_lengths()[number(buf, pos + 12, 4)],
    ensures
        step(buf, pos, start_millis) == Step::Malformed(
            if number(buf, pos + 12, 4) == 73 {
                "CAN error frame too small"@
            } else if number(buf, pos + 12, 4) == 100 {
                "CAN FD message too small"@
            } else if number(buf, pos + 12, 4) == 101 {
                "CAN FD 64 message too small"@
            } else {
                "CAN message too small"@
            },
        ),
{
    lemma_letters(buf, pos);
    assert(next_mark(buf, pos) == Some(pos));
    law_integers_are_little_endian(buf, pos + 6);
    law_integers_are_little_endian(buf, pos + 8);
    law_integers_are_little_endian(buf, pos + 12);
}

/// Up to four bytes between objects are passed over: the stream goes on where the letters
/// stand next.
pub proof fn law_gaps_are_passed_over(buf: Seq<u8>, pos: int, gap: int, start_millis: i64)
    requires
        0 <= pos,
        0 <= gap <= 4,
        has_letters(buf, pos + gap),
        forall|k: int| 0 <= k < gap ==> !has_letters(buf, #[trigger] (pos + k)),
    ensures
        step(buf, pos, start_millis) == step(buf, pos + gap, start_millis),
    decreases gap,
{
    let end = if pos + 8 <= buf.len() {
        pos + 8
    } else {
        buf.len() as int
    };
    lemma_letters(buf, pos + gap);
    assert(next_mark(buf, pos + gap) == Some(pos + gap));
    lemma_found_at(buf, pos, end, gap);
}

proof fn lemma_found_at(buf: Seq<u8>, pos: int, end: int, gap: int)
    requires
        0 <= pos,
        0 <= gap,
        pos + gap + 4 <= end <= buf.len(),
        has_letters(buf, pos + gap),
        forall|k: int| 0 <= k < gap ==> !has_letters(buf, #[trigger] (pos + k)),
    ensures
        crate::blf::object::first_mark(buf, pos, end) == Some(pos + gap),
    decreases gap,
{
    lemma_letters(buf, pos);
    if gap > 0 {
        assert(!has_letters(buf, pos + 0));
        assert forall|k: int| 0 <= k < gap - 1 implies !has_letters(
            buf,
            #[trigger] ((pos + 1) + k),
        ) by {
            assert(!has_letters(buf, pos + (k + 1)));
        }
        lemma_found_at(buf, pos + 1, end, gap - 1);
    }
}

/// Where the letters do not stand within the next eight bytes the stream cannot be read; with
/// fewer bytes than that it may still go on.
pub proof fn law_lost_streams(buf: Seq<u8>, pos: int, start_millis: i64)
    requires
        0 <= pos <= buf.len(),
        forall|k: int| pos <= k && k + 4 <= pos + 8 ==> !#[trigger] has_letters(buf, k),
    ensures
        pos + 8 <= buf.len() ==> step(buf, pos, start_millis) == Step::Malformed(
            "could not find next object"@,
        ),
        pos + 8 > buf.len() ==> step(buf, pos, start_millis) == Step::Incomplete,
{
    let end = if pos + 8 <= buf.len() {
        pos + 8
    } else {
        buf.len() as int
    };
    lemma_first_mark(buf, pos, end);
    if let Some(at) = next_mark(buf, pos) {
        lemma_letters(buf, at);
        assert(!has_letters(buf, at));
    }
}

/// An object that is not there whole is waited for: its first 16 bytes, all the bytes that
/// its size says, and its header where that is of a known version.
pub proof fn law_unfinished_objects(buf: Seq<u8>, pos: int, start_millis: i64)
    requires
        has_letters(buf, pos),
        ({
            ||| pos + 16 > buf.len()
            ||| pos + number(buf, pos + 8, 4) > buf.len()
            ||| number(buf, pos + 6, 2) == 1 && pos + 32 > buf.len()
            ||| number(buf, pos + 6, 2) == 2 && pos + 40 > buf.len()
        }),
    ensures
        step(buf, pos, start_millis) == Step::Incomplete,
{
    lemma_letters(buf, pos);
    assert(next_mark(buf, pos) == Some(pos));
    if pos + 16 <= buf.len() {
        law_integers_are_little_endian(buf, pos + 6);
        law_integers_are_little_endian(buf, pos + 8);
    }
}

/// The messages of a stream are those of its objects one after the other: an object with a
/// message gives it in front of those of the rest, one without gives nothing, and one that
/// cannot be read spoils the stream. What is not there whole is left over.
pub proof fn law_streams_are_their_objects(buf: Seq<u8>, pos: int, start_millis: i64)
    requires
        0 <= pos <= buf.len(),
    ensures
        match step(buf, pos, start_millis) {
            Step::Incomplete => parse(buf, pos, start_millis) == Ok::<
                (Seq<MessageView<BlfTime>>, Seq<u8>),
                Seq<char>,
            >((Seq::empty(), buf.subrange(pos, buf.len() as int))),
            Step::Malformed(reason) => parse(buf, pos, start_millis) == Err::<
                (Seq<MessageView<BlfTime>>, Seq<u8>),
                Seq<char>,
            >(reason),
            Step::Object { end, message } => {
                &&& pos < end <= buf.len()
                &&& match (message, parse(buf, end, start_millis)) {
                    (_, Err(reason)) => parse(buf, pos, start_millis) == Err::<
                        (Seq<MessageView<BlfTime>>, Seq<u8>),
                        Seq<char>,
                    >(reason),
                    (None, Ok((messages, tail))) => parse(buf, pos, start_millis) == Ok::<
                        (Seq<MessageView<BlfTime>>, Seq<u8>),
                        Seq<char>,
                    >((messages, tail)),
                    (Some(m), Ok((messages, tail))) => parse(buf, pos, start_millis) == Ok::<
                        (Seq<MessageView<BlfTime>>, Seq<u8>),
                        Seq<char>,
                    >((seq![m] + messages, tail)),
                }
            },
        },
{
    crate::blf::object::lemma_step_advances(buf, pos, start_millis);
    assert(buf.subrange(pos, buf.len() as int) =~= buf.skip(pos));
}

} // verus!
