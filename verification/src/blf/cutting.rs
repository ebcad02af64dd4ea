//! Where the inner stream is cut into containers does not matter.

use vstd::prelude::*;

use crate::blf::format::{
    BlfTime, CAN_ERROR_EXT, CAN_ERROR_EXT_SIZE, CAN_FD_MESSAGE, CAN_FD_MESSAGE_64,
    CAN_FD_MSG_64_SIZE, CAN_FD_MSG_SIZE, CAN_MESSAGE, CAN_MESSAGE2, CAN_MSG_SIZE,
    OBJ_HEADER_BASE_SIZE,
};
use crate::blf::object::{
    can_message, error_message, fd64_data_length, fd64_message, fd_message, first_mark,
    lemma_first_mark, lemma_step_advances, marked, next_mark, object_at, object_content,
    object_time, parse, prepend, step, version_header_size, Step,
};
use crate::blf::reader::{next_container, next_of, Container, NextView, ReaderView};
use crate::blf::session::lemma_next_of_piece;
use crate::bytes::{u16_at, u32_at};
use crate::error::ErrorView;
use crate::message::MessageView;
use crate::number::at_most;

verus! {

/// Whether the data of the object that starts at `at` lies within the bytes that are
/// there. Only that of a long CAN FD object may not: such an object can say that its data
/// goes on beyond its own end.
pub open spec fn has_its_data(buf: Seq<u8>, at: int) -> bool {
    match version_header_size(u16_at(buf, at + 6)) {
        Some(size) => u32_at(buf, at + 12) == CAN_FD_MESSAGE_64 ==> {
            let fields = at + OBJ_HEADER_BASE_SIZE + size;
            fields + CAN_FD_MSG_64_SIZE + fd64_data_length(
                u16_at(buf, at + 4) as int,
                u32_at(buf, at + 8) as int,
                buf[fields + 35] as int,
                buf[fields + 2] as int,
            ) <= buf.len()
        },
        None => true,
    }
}

/// Whether the data of every whole object from `pos` on lies within the bytes that are
/// there.
pub open spec fn self_contained(buf: Seq<u8>, pos: int, start_millis: i64) -> bool
    decreases buf.len() - pos,
    when 0 <= pos <= buf.len()
{
    proof {
        lemma_step_advances(buf, pos, start_millis);
    }
    match step(buf, pos, start_millis) {
        Step::Object { end, message } => {
            &&& next_mark(buf, pos) matches Some(at) && has_its_data(buf, at)
            &&& self_contained(buf, end, start_millis)
        },
        _ => true,
    }
}

/// A mark is found where it is also when more bytes follow.
proof fn lemma_first_mark_with_more(buf: Seq<u8>, more: Seq<u8>, from: int, end: int, later: int)
    requires
        0 <= from,
        end <= later,
        end <= buf.len(),
    ensures
        first_mark(buf, from, end) is Some || end == later ==> first_mark(buf + more, from, later)
            == first_mark(buf, from, end),
    decreases end - from,
{
    if from + 4 <= end {
        assert((buf + more).subrange(from, from + 4) =~= buf.subrange(from, from + 4));
        if !marked(buf, from) {
            lemma_first_mark_with_more(buf, more, from + 1, end, later);
        }
    }
}

/// An object is what it is also when more bytes follow.
proof fn lemma_object_with_more(buf: Seq<u8>, more: Seq<u8>, at: int, start_millis: i64)
    requires
        0 <= at,
    ensures
        match object_at(buf, at, start_millis) {
            Step::Incomplete => true,
            Step::Malformed(reason) => object_at(buf + more, at, start_millis) == Step::Malformed(
                reason,
            ),
            Step::Object { end, message } => has_its_data(buf, at) ==> object_at(
                buf + more,
                at,
                start_millis,
            ) == (Step::Object { end, message }),
        },
{
    let all = buf + more;
    assert forall|k: int| 0 <= k < buf.len() implies #[trigger] buf[k] == all[k] by {}
    assert forall|i: int, j: int| 0 <= i <= j <= buf.len() implies #[trigger] all.subrange(i, j)
        == buf.subrange(i, j) by {
        assert(all.subrange(i, j) =~= buf.subrange(i, j));
    }
}

/// What comes next in the inner stream comes next also when more bytes follow.
proof fn lemma_step_with_more(buf: Seq<u8>, more: Seq<u8>, pos: int, start_millis: i64)
    requires
        0 <= pos <= buf.len(),
    ensures
        match step(buf, pos, start_millis) {
            Step::Incomplete => true,
            Step::Malformed(reason) => step(buf + more, pos, start_millis) == Step::Malformed(
                reason,
            ),
            Step::Object { end, message } => next_mark(buf, pos) matches Some(at) && (has_its_data(
                buf,
                at,
            ) ==> step(buf + more, pos, start_millis) == (Step::Object { end, message })),
        },
{
    let all = buf + more;
    let end = if pos + 8 <= buf.len() {
        pos + 8
    } else {
        buf.len() as int
    };
    let later = if pos + 8 <= all.len() {
        pos + 8
    } else {
        all.len() as int
    };
    lemma_first_mark(buf, pos, end);
    lemma_first_mark_with_more(buf, more, pos, end, later);
    if let Some(at) = next_mark(buf, pos) {
        lemma_object_with_more(buf, more, at, start_millis);
    }
}

/// What comes next with all ends that much earlier.
spec fn earlier(s: Step, n: int) -> Step {
    match s {
        Step::Object { end, message } => Step::Object { end: end - n, message },
        _ => s,
    }
}

/// A mark is found as far behind the start of a buffer as the start lies further on.
proof fn lemma_first_mark_shifted(buf: Seq<u8>, n: int, from: int, end: int)
    requires
        0 <= n,
        0 <= from,
        n + end <= buf.len(),
    ensures
        first_mark(buf.skip(n), from, end) == match first_mark(buf, n + from, n + end) {
            Some(at) => Some(at - n),
            None => None,
        },
    decreases end - from,
{
    if from + 4 <= end {
        assert(buf.skip(n).subrange(from, from + 4) =~= buf.subrange(n + from, n + from + 4));
        if !marked(buf, n + from) {
            lemma_first_mark_shifted(buf, n, from + 1, end);
        }
    }
}

proof fn lemma_u16_shifted(buf: Seq<u8>, n: int, at: int)
    requires
        0 <= n,
        0 <= at,
        n + at + 2 <= buf.len(),
    ensures
        u16_at(buf.skip(n), at) == u16_at(buf, n + at),
{
}

proof fn lemma_u32_shifted(buf: Seq<u8>, n: int, at: int)
    requires
        0 <= n,
        0 <= at,
        n + at + 4 <= buf.len(),
    ensures
        u32_at(buf.skip(n), at) == u32_at(buf, n + at),
{
}

proof fn lemma_part_shifted(buf: Seq<u8>, n: int, i: int, j: int)
    requires
        0 <= n,
        0 <= i <= j,
        n + j <= buf.len(),
    ensures
        buf.skip(n).subrange(i, j) == buf.subrange(n + i, n + j),
{
    assert(buf.skip(n).subrange(i, j) =~= buf.subrange(n + i, n + j));
}

proof fn lemma_can_message_shifted(buf: Seq<u8>, n: int, at: int, timestamp: BlfTime)
    requires
        0 <= n,
        0 <= at,
        n + at + 16 <= buf.len(),
    ensures
        can_message(buf.skip(n), at, timestamp) == can_message(buf, n + at, timestamp),
{
    lemma_u16_shifted(buf, n, at);
    lemma_u32_shifted(buf, n, at + 4);
    lemma_part_shifted(buf, n, at + 8, at + 8 + at_most(buf[n + at + 3] as int, 8));
}

proof fn lemma_error_message_shifted(buf: Seq<u8>, n: int, at: int, timestamp: BlfTime)
    requires
        0 <= n,
        0 <= at,
        n + at + 32 <= buf.len(),
    ensures
        error_message(buf.skip(n), at, timestamp) == error_message(buf, n + at, timestamp),
{
    lemma_u16_shifted(buf, n, at);
    lemma_u32_shifted(buf, n, at + 16);
    lemma_part_shifted(buf, n, at + 24, at + 24 + at_most(buf[n + at + 10] as int, 8));
}

proof fn lemma_fd_message_shifted(buf: Seq<u8>, n: int, at: int, timestamp: BlfTime)
    requires
        0 <= n,
        0 <= at,
        n + at + 84 <= buf.len(),
    ensures
        fd_message(buf.skip(n), at, timestamp) == fd_message(buf, n + at, timestamp),
{
    lemma_u16_shifted(buf, n, at);
    lemma_u32_shifted(buf, n, at + 4);
    lemma_part_shifted(buf, n, at + 20, at + 20 + at_most(buf[n + at + 14] as int, 64));
}

proof fn lemma_fd64_message_shifted(
    buf: Seq<u8>,
    n: int,
    at: int,
    header_size: int,
    obj_size: int,
    timestamp: BlfTime,
)
    requires
        0 <= n,
        0 <= at,
        n + at + 40 <= buf.len(),
    ensures
        fd64_message(buf.skip(n), at, header_size, obj_size, timestamp) == fd64_message(
            buf,
            n + at,
            header_size,
            obj_size,
            timestamp,
        ),
{
    lemma_u32_shifted(buf, n, at + 4);
    lemma_u32_shifted(buf, n, at + 12);
    let valid = buf[n + at + 2] as int;
    let held = fd64_data_length(header_size, obj_size, buf[n + at + 35] as int, valid);
    if n + at + 40 + held <= buf.len() {
        lemma_part_shifted(buf, n, at + 40, at + 40 + held);
    }
}

/// What an object holds is the same wherever the buffer starts.
proof fn lemma_content_shifted(buf: Seq<u8>, n: int, at: int, fields: int, start_millis: i64)
    requires
        0 <= n,
        0 <= at,
        at + 32 <= fields,
        n + fields <= buf.len(),
        n + at + u32_at(buf, n + at + 8) <= buf.len(),
    ensures
        object_content(buf.skip(n), at, fields, start_millis) == earlier(
            object_content(buf, n + at, n + fields, start_millis),
            n,
        ),
{
    lemma_u16_shifted(buf, n, at + 4);
    lemma_u32_shifted(buf, n, at + 8);
    lemma_u32_shifted(buf, n, at + 12);
    lemma_u32_shifted(buf, n, at + 16);
    lemma_u32_shifted(buf, n, at + 24);
    lemma_u32_shifted(buf, n, at + 28);
    let obj_size = u32_at(buf, n + at + 8) as int;
    let obj_type = u32_at(buf, n + at + 12);
    let room = at + obj_size - fields;
    let time = object_time(buf, n + at, start_millis);
    assert(object_time(buf.skip(n), at, start_millis) == time);
    if obj_type == CAN_MESSAGE || obj_type == CAN_MESSAGE2 {
        if room >= CAN_MSG_SIZE {
            lemma_can_message_shifted(buf, n, fields, time);
        }
    } else if obj_type == CAN_ERROR_EXT {
        if room >= CAN_ERROR_EXT_SIZE {
            lemma_error_message_shifted(buf, n, fields, time);
        }
    } else if obj_type == CAN_FD_MESSAGE {
        if room >= CAN_FD_MSG_SIZE {
            lemma_fd_message_shifted(buf, n, fields, time);
        }
    } else if obj_type == CAN_FD_MESSAGE_64 {
        if room >= CAN_FD_MSG_64_SIZE {
            let header_size = u16_at(buf, n + at + 4) as int;
            lemma_fd64_message_shifted(buf, n, fields, header_size, obj_size, time);
        }
    }
}

/// An object is the same wherever the buffer starts.
proof fn lemma_object_shifted(buf: Seq<u8>, n: int, at: int, start_millis: i64)
    requires
        0 <= n <= buf.len(),
        0 <= at,
    ensures
        object_at(buf.skip(n), at, start_millis) == earlier(
            object_at(buf, n + at, start_millis),
            n,
        ),
{
    if n + at + OBJ_HEADER_BASE_SIZE <= buf.len() {
        lemma_u32_shifted(buf, n, at + 8);
        lemma_u16_shifted(buf, n, at + 6);
        if let Some(size) = version_header_size(u16_at(buf, n + at + 6)) {
            let fields = at + OBJ_HEADER_BASE_SIZE + size;
            if n + fields <= buf.len() && n + at + u32_at(buf, n + at + 8) <= buf.len() {
                lemma_content_shifted(buf, n, at, fields, start_millis);
            }
        }
    }
}

/// What comes next is the same wherever the buffer starts.
proof fn lemma_step_shifted(buf: Seq<u8>, n: int, pos: int, start_millis: i64)
    requires
        0 <= n,
        0 <= pos,
        n + pos <= buf.len(),
    ensures
        step(buf.skip(n), pos, start_millis) == earlier(step(buf, n + pos, start_millis), n),
{
    let end = if n + pos + 8 <= buf.len() {
        pos + 8
    } else {
        buf.len() - n
    };
    lemma_first_mark(buf, n + pos, n + end);
    lemma_first_mark_shifted(buf, n, pos, end);
    if let Some(at) = next_mark(buf, n + pos) {
        lemma_object_shifted(buf, n, at - n, start_millis);
    }
}

/// The stream from some place on is read as if it started there.
proof fn lemma_parse_shifted(buf: Seq<u8>, n: int, pos: int, start_millis: i64)
    requires
        0 <= n,
        0 <= pos,
        n + pos <= buf.len(),
    ensures
        parse(buf.skip(n), pos, start_millis) == parse(buf, n + pos, start_millis),
    decreases buf.len() - pos,
{
    lemma_step_shifted(buf, n, pos, start_millis);
    lemma_step_advances(buf, n + pos, start_millis);
    match step(buf, n + pos, start_millis) {
        Step::Incomplete => {
            assert(buf.skip(n).skip(pos) =~= buf.skip(n + pos));
        },
        Step::Malformed(_) => {},
        Step::Object { end, message } => {
            lemma_parse_shifted(buf, n, end - n, start_millis);
        },
    }
}

/// What a stream gives that starts with an object, given what follows the object gives.
spec fn with_first(
    message: Option<MessageView<BlfTime>>,
    rest: Result<(Seq<MessageView<BlfTime>>, Seq<u8>), Seq<char>>,
) -> Result<(Seq<MessageView<BlfTime>>, Seq<u8>), Seq<char>> {
    match message {
        Some(m) => prepend(seq![m], rest),
        None => rest,
    }
}

proof fn lemma_parse_object(
    buf: Seq<u8>,
    pos: int,
    start_millis: i64,
    end: int,
    message: Option<MessageView<BlfTime>>,
)
    requires
        0 <= pos <= buf.len(),
        step(buf, pos, start_millis) == (Step::Object { end, message }),
    ensures
        pos < end <= buf.len(),
        parse(buf, pos, start_millis) == with_first(message, parse(buf, end, start_millis)),
{
    lemma_step_advances(buf, pos, start_millis);
}

proof fn lemma_with_first_prepend(
    message: Option<MessageView<BlfTime>>,
    messages: Seq<MessageView<BlfTime>>,
    tail: Seq<u8>,
    rest: Result<(Seq<MessageView<BlfTime>>, Seq<u8>), Seq<char>>,
)
    ensures
        ({
            let first = with_first(message, Ok((messages, tail)));
            &&& first matches Ok((ms, t))
            &&& t == tail
            &&& with_first(message, prepend(messages, rest)) == prepend(ms, rest)
        }),
{
    if let Some(m) = message {
        if let Ok((others, left)) = rest {
            assert(seq![m] + (messages + others) =~= (seq![m] + messages) + others);
        }
    }
}

/// Where a stream ends inside its first object, nothing is read until more follows.
proof fn lemma_parse_incomplete(buf: Seq<u8>, more: Seq<u8>, pos: int, start_millis: i64)
    requires
        0 <= pos <= buf.len(),
    ensures
        parse(buf + more, pos, start_millis) == prepend(
            Seq::empty(),
            parse(buf.skip(pos) + more, 0, start_millis),
        ),
{
    let all = buf + more;
    lemma_parse_shifted(all, pos, 0, start_millis);
    assert(all.skip(pos) =~= buf.skip(pos) + more);
    if let Ok((rest, tail)) = parse(all, pos, start_millis) {
        assert(Seq::<MessageView<BlfTime>>::empty() + rest =~= rest);
    }
}

/// A stream is read as its first part and then what that leaves over with the rest.
proof fn lemma_parse_with_more(buf: Seq<u8>, more: Seq<u8>, pos: int, start_millis: i64)
    requires
        0 <= pos <= buf.len(),
        self_contained(buf, pos, start_millis),
    ensures
        match parse(buf, pos, start_millis) {
            Ok((messages, tail)) => parse(buf + more, pos, start_millis) == prepend(
                messages,
                parse(tail + more, 0, start_millis),
            ),
            Err(reason) => parse(buf + more, pos, start_millis) == Err::<
                (Seq<MessageView<BlfTime>>, Seq<u8>),
                Seq<char>,
            >(reason),
        },
    decreases buf.len() - pos,
{
    lemma_step_with_more(buf, more, pos, start_millis);
    match step(buf, pos, start_millis) {
        Step::Incomplete => {
            lemma_parse_incomplete(buf, more, pos, start_millis);
        },
        Step::Malformed(_) => {},
        Step::Object { end, message } => {
            lemma_parse_object(buf, pos, start_millis, end, message);
            lemma_parse_object(buf + more, pos, start_millis, end, message);
            lemma_parse_with_more(buf, more, end, start_millis);
            if let Ok((messages, tail)) = parse(buf, end, start_millis) {
                lemma_with_first_prepend(
                    message,
                    messages,
                    tail,
                    parse(tail + more, 0, start_millis),
                );
            }
        },
    }
}

/// Where the inner stream is cut does not matter: a first part and what follows it give,
/// one after the other, the messages that they give together, and leave the same bytes
/// over; and where one of the two cannot be read, neither can be both together, for the
/// same reason. This holds of any stream, unless the first part has a long CAN FD object
/// whose data goes on beyond that part.
pub proof fn law_stream_cuts_do_not_matter(buf: Seq<u8>, more: Seq<u8>, start_millis: i64)
    requires
        self_contained(buf, 0, start_millis),
    ensures
        match parse(buf, 0, start_millis) {
            Ok((messages, tail)) => parse(buf + more, 0, start_millis) == prepend(
                messages,
                parse(tail + more, 0, start_millis),
            ),
            Err(reason) => parse(buf + more, 0, start_millis) == Err::<
                (Seq<MessageView<BlfTime>>, Seq<u8>),
                Seq<char>,
            >(reason),
        },
{
    lemma_parse_with_more(buf, more, 0, start_millis);
}

proof fn lemma_left_over(buf: Seq<u8>, pos: int, start_millis: i64)
    requires
        0 <= pos <= buf.len(),
    ensures
        parse(buf, pos, start_millis) matches Ok((messages, tail)) ==> tail.len() <= buf.len() - pos
            && tail == buf.skip(buf.len() - tail.len()),
    decreases buf.len() - pos,
{
    lemma_step_advances(buf, pos, start_millis);
    if let Step::Object { end, message } = step(buf, pos, start_millis) {
        lemma_left_over(buf, end, start_millis);
    }
}

/// What is left over of a part of the inner stream is the end of that part.
pub proof fn law_left_over_is_the_end(buf: Seq<u8>, start_millis: i64)
    ensures
        parse(buf, 0, start_millis) matches Ok((messages, tail)) ==> tail.len() <= buf.len()
            && tail == buf.skip(buf.len() - tail.len()),
{
    lemma_left_over(buf, 0, start_millis);
}

/// A reader that comes to a piece of the inner stream keeps what the piece leaves over, which
/// is the end of what it had and the piece, and goes on as if the messages were pending.
/// Where the piece cannot be read, nothing is kept and none of its messages handed out.
/// Nothing else of the reader changes.
pub proof fn law_piece_is_read_whole(r: ReaderView, data: Seq<u8>, rest: Seq<u8>)
    requires
        r.pending.len() == 0,
    ensures
        next_container(r.input, r.closed) == (Container::Piece { data, rest }) ==> match parse(
            r.tail + data,
            0,
            r.start_millis,
        ) {
            Ok((messages, tail)) => {
                let all = r.tail + data;
                &&& tail.len() <= all.len() && tail == all.skip(all.len() - tail.len())
                &&& next_of(r) == next_of(ReaderView { input: rest, tail, pending: messages, ..r })
            },
            Err(reason) => next_of(r) == (
                Err::<NextView, ErrorView>(ErrorView::Parse(reason)),
                ReaderView { input: rest, tail: Seq::empty(), ..r },
            ),
        },
{
    law_left_over_is_the_end(r.tail + data, r.start_millis);
    if next_container(r.input, r.closed) == (Container::Piece { data, rest }) {
        if let Ok((messages, tail)) = parse(r.tail + data, 0, r.start_millis) {
            lemma_next_of_piece(r, data, rest, messages, tail);
        }
    }
}

} // verus!
