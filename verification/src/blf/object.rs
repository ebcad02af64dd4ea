//! The inner stream of objects and the messages in it.

use vstd::prelude::*;
use vstd::slice::{slice_subrange, slice_to_vec};

use crate::blf::format::{
    object_mark, BlfTime, TickUnit, BRS, CAN_ERROR_EXT, CAN_ERROR_EXT_SIZE, CAN_FD_MESSAGE,
    CAN_FD_MESSAGE_64, CAN_FD_MSG_64_SIZE, CAN_FD_MSG_SIZE, CAN_ID_MASK, CAN_MESSAGE, CAN_MESSAGE2,
    CAN_MSG_EXT, CAN_MSG_SIZE, DIR, EDL, ESI, OBJ_HEADER_BASE_SIZE, OBJ_HEADER_V1_SIZE,
    OBJ_HEADER_V2_SIZE, REMOTE_FLAG, TIME_TEN_MICS,
};
use crate::bytes::{
    get_u16, get_u32, get_u64, push_slice, push_zeros, u16_at, u32_at, u64_at, zeros,
};
use crate::dlc::{dlc2len, fd_length};
use crate::error::{BlfError, ErrorView};
use crate::message::{Message, MessageView};
use crate::number::at_most;

verus! {

impl View for Message<BlfTime> {
    type V = MessageView<BlfTime>;

    open spec fn view(&self) -> MessageView<BlfTime> {
        self.with_time(self.timestamp)
    }
}

/// Messages as contracts see them.
pub open spec fn views(messages: Seq<Message<BlfTime>>) -> Seq<MessageView<BlfTime>> {
    Seq::new(messages.len(), |i: int| messages[i]@)
}

/// What stands at one place of the inner stream.
pub enum Step {
    /// The stream goes on beyond the bytes that are there.
    Incomplete,
    /// No object can be read here, for the given reason.
    Malformed(Seq<char>),
    /// An object that ends at `end` and may hold a message.
    Object { end: int, message: Option<MessageView<BlfTime>> },
}

/// Whether an object starts at `at`.
pub open spec fn marked(buf: Seq<u8>, at: int) -> bool {
    buf.subrange(at, at + 4) == object_mark()
}

/// The first place from `from` on where an object starts and its mark ends by `end`.
pub open spec fn first_mark(buf: Seq<u8>, from: int, end: int) -> Option<int>
    decreases end - from,
{
    if from + 4 > end {
        None
    } else if marked(buf, from) {
        Some(from)
    } else {
        first_mark(buf, from + 1, end)
    }
}

/// Where the next object starts: its mark is among the next 8 bytes.
pub open spec fn next_mark(buf: Seq<u8>, pos: int) -> Option<int> {
    first_mark(buf, pos, if pos + 8 <= buf.len() { pos + 8 } else { buf.len() as int })
}

/// The size of the header that follows the base header, where the version has one.
pub open spec fn version_header_size(version: u16) -> Option<int> {
    if version == 1 {
        Some(OBJ_HEADER_V1_SIZE as int)
    } else if version == 2 {
        Some(OBJ_HEADER_V2_SIZE as int)
    } else {
        None
    }
}

/// The time in the header of an object that starts at `at`.
pub open spec fn object_time(buf: Seq<u8>, at: int, start_millis: i64) -> BlfTime {
    BlfTime {
        start_millis,
        ticks: u64_at(buf, at + 24),
        unit: if u32_at(buf, at + 16) == TIME_TEN_MICS {
            TickUnit::TenMicroseconds
        } else {
            TickUnit::Nanosecond
        },
    }
}

/// A channel as messages count it, from the number in the log.
pub open spec fn channel_from_log(number: int) -> u16 {
    if number == 0 {
        0
    } else {
        (number - 1) as u16
    }
}

/// The classic frame whose fields start at `at`.
pub open spec fn can_message(buf: Seq<u8>, at: int, timestamp: BlfTime) -> MessageView<BlfTime> {
    let flags = buf[at + 2];
    let dlc = buf[at + 3];
    let id = u32_at(buf, at + 4);
    MessageView {
        timestamp,
        arbitration_id: id & CAN_ID_MASK,
        is_extended_id: id & CAN_MSG_EXT != 0,
        is_remote_frame: flags & REMOTE_FLAG != 0,
        is_rx: flags & DIR == 0,
        is_error_frame: false,
        is_fd: false,
        bitrate_switch: false,
        error_state_indicator: false,
        dlc,
        data: buf.subrange(at + 8, at + 8 + at_most(dlc as int, 8)),
        channel: channel_from_log(u16_at(buf, at) as int),
    }
}

/// The error frame whose fields start at `at`.
pub open spec fn error_message(buf: Seq<u8>, at: int, timestamp: BlfTime) -> MessageView<BlfTime> {
    let dlc = buf[at + 10];
    let id = u32_at(buf, at + 16);
    MessageView {
        timestamp,
        arbitration_id: id & CAN_ID_MASK,
        is_extended_id: id & CAN_MSG_EXT != 0,
        is_remote_frame: false,
        is_rx: true,
        is_error_frame: true,
        is_fd: false,
        bitrate_switch: false,
        error_state_indicator: false,
        dlc,
        data: buf.subrange(at + 24, at + 24 + at_most(dlc as int, 8)),
        channel: channel_from_log(u16_at(buf, at) as int),
    }
}

/// The CAN FD frame whose fields start at `at`.
pub open spec fn fd_message(buf: Seq<u8>, at: int, timestamp: BlfTime) -> MessageView<BlfTime> {
    let flags = buf[at + 2];
    let id = u32_at(buf, at + 4);
    let fd_flags = buf[at + 13];
    MessageView {
        timestamp,
        arbitration_id: id & CAN_ID_MASK,
        is_extended_id: id & CAN_MSG_EXT != 0,
        is_remote_frame: flags & REMOTE_FLAG != 0,
        is_rx: flags & DIR == 0,
        is_error_frame: false,
        is_fd: fd_flags & EDL != 0,
        bitrate_switch: fd_flags & BRS != 0,
        error_state_indicator: fd_flags & ESI != 0,
        dlc: fd_length(buf[at + 3] as int) as u8,
        data: buf.subrange(at + 20, at + 20 + at_most(buf[at + 14] as int, 64)),
        channel: channel_from_log(u16_at(buf, at) as int),
    }
}

/// The number of data bytes that a long CAN FD object holds. Its data field ends at
/// the offset of the extended data, or with the object where there is none.
pub open spec fn fd64_data_length(
    header_size: int,
    obj_size: int,
    ext_offset: int,
    valid: int,
) -> int {
    let field_end = if ext_offset != 0 {
        ext_offset
    } else {
        obj_size
    };
    let held = field_end - (header_size + CAN_FD_MSG_64_SIZE);
    if held <= 0 {
        0
    } else {
        at_most(held, valid)
    }
}

/// The data of a long CAN FD object: the bytes that it holds, filled up with zeros
/// to the number of valid bytes; only zeros where the held bytes run past the buffer.
pub open spec fn fd64_data(buf: Seq<u8>, at: int, held: int, valid: int) -> Seq<u8> {
    if at + held <= buf.len() {
        buf.subrange(at, at + held) + zeros(valid - held)
    } else {
        zeros(valid)
    }
}

/// The long CAN FD frame whose fields start at `at`.
pub open spec fn fd64_message(
    buf: Seq<u8>,
    at: int,
    header_size: int,
    obj_size: int,
    timestamp: BlfTime,
) -> MessageView<BlfTime> {
    let id = u32_at(buf, at + 4);
    let fd_flags = u32_at(buf, at + 12);
    let valid = buf[at + 2] as int;
    let held = fd64_data_length(header_size, obj_size, buf[at + 35] as int, valid);
    MessageView {
        timestamp,
        arbitration_id: id & CAN_ID_MASK,
        is_extended_id: id & CAN_MSG_EXT != 0,
        is_remote_frame: fd_flags & 0x0010 != 0,
        is_rx: buf[at + 34] == 0,
        is_error_frame: false,
        is_fd: fd_flags & 0x1000 != 0,
        bitrate_switch: fd_flags & 0x2000 != 0,
        error_state_indicator: fd_flags & 0x4000 != 0,
        dlc: fd_length(buf[at + 1] as int) as u8,
        data: fd64_data(buf, at + CAN_FD_MSG_64_SIZE, held, valid),
        channel: channel_from_log(buf[at] as int),
    }
}

/// An object without a message. One of size zero could never be passed.
pub open spec fn passed_over(at: int, obj_size: int) -> Step {
    if obj_size == 0 {
        Step::Malformed("object of size zero"@)
    } else {
        Step::Object { end: at + obj_size, message: None }
    }
}

/// What an object holds whose start, size and fields are known.
pub open spec fn object_content(buf: Seq<u8>, at: int, fields: int, start_millis: i64) -> Step {
    let obj_size = u32_at(buf, at + 8) as int;
    let obj_type = u32_at(buf, at + 12);
    let end = at + obj_size;
    let time = object_time(buf, at, start_millis);
    if obj_type == CAN_MESSAGE || obj_type == CAN_MESSAGE2 {
        if fields + CAN_MSG_SIZE > end {
            Step::Malformed("CAN message too small"@)
        } else {
            Step::Object { end, message: Some(can_message(buf, fields, time)) }
        }
    } else if obj_type == CAN_ERROR_EXT {
        if fields + CAN_ERROR_EXT_SIZE > end {
            Step::Malformed("CAN error frame too small"@)
        } else {
            Step::Object { end, message: Some(error_message(buf, fields, time)) }
        }
    } else if obj_type == CAN_FD_MESSAGE {
        if fields + CAN_FD_MSG_SIZE > end {
            Step::Malformed("CAN FD message too small"@)
        } else {
            Step::Object { end, message: Some(fd_message(buf, fields, time)) }
        }
    } else if obj_type == CAN_FD_MESSAGE_64 {
        if fields + CAN_FD_MSG_64_SIZE > end {
            Step::Malformed("CAN FD 64 message too small"@)
        } else {
            Step::Object {
                end,
                message: Some(
                    fd64_message(buf, fields, u16_at(buf, at + 4) as int, obj_size, time),
                ),
            }
        }
    } else {
        passed_over(at, obj_size)
    }
}

/// The object that starts at `at`.
pub open spec fn object_at(buf: Seq<u8>, at: int, start_millis: i64) -> Step {
    if at + OBJ_HEADER_BASE_SIZE > buf.len() {
        Step::Incomplete
    } else if at + u32_at(buf, at + 8) > buf.len() {
        Step::Incomplete
    } else {
        match version_header_size(u16_at(buf, at + 6)) {
            Some(size) => if at + OBJ_HEADER_BASE_SIZE + size > buf.len() {
                Step::Incomplete
            } else {
                object_content(buf, at, at + OBJ_HEADER_BASE_SIZE + size, start_millis)
            },
            None => passed_over(at, u32_at(buf, at + 8) as int),
        }
    }
}

/// What comes next in the inner stream at `pos`.
pub open spec fn step(buf: Seq<u8>, pos: int, start_millis: i64) -> Step {
    match next_mark(buf, pos) {
        Some(at) => object_at(buf, at, start_millis),
        None => if pos + 8 > buf.len() {
            Step::Incomplete
        } else {
            Step::Malformed("could not find next object"@)
        },
    }
}

/// A mark that is found lies where it was looked for.
pub proof fn lemma_first_mark(buf: Seq<u8>, from: int, end: int)
    ensures
        first_mark(buf, from, end) matches Some(at) ==> from <= at && at + 4 <= end && marked(
            buf,
            at,
        ),
    decreases end - from,
{
    if from + 4 <= end && !marked(buf, from) {
        lemma_first_mark(buf, from + 1, end);
    }
}

/// Every object takes up at least one byte and ends within the buffer.
pub proof fn lemma_step_advances(buf: Seq<u8>, pos: int, start_millis: i64)
    requires
        0 <= pos <= buf.len(),
    ensures
        step(buf, pos, start_millis) matches Step::Object { end, message } ==> pos < end
            <= buf.len(),
{
    lemma_first_mark(
        buf,
        pos,
        if pos + 8 <= buf.len() { pos + 8 } else { buf.len() as int },
    );
}

/// The messages in the inner stream from `pos` on, and the bytes at its end that do
/// not make up a whole object yet; or why the stream cannot be read.
pub open spec fn parse(buf: Seq<u8>, pos: int, start_millis: i64) -> Result<
    (Seq<MessageView<BlfTime>>, Seq<u8>),
    Seq<char>,
>
    decreases buf.len() - pos,
    when 0 <= pos <= buf.len()
{
    proof {
        lemma_step_advances(buf, pos, start_millis);
    }
    match step(buf, pos, start_millis) {
        Step::Incomplete => Ok((Seq::empty(), buf.skip(pos))),
        Step::Malformed(reason) => Err(reason),
        Step::Object { end, message } => match parse(buf, end, start_millis) {
            Ok((rest, tail)) => match message {
                Some(m) => Ok((seq![m] + rest, tail)),
                None => Ok((rest, tail)),
            },
            Err(reason) => Err(reason),
        },
    }
}

/// What stands at one place of the inner stream, where it is well formed.
pub enum ObjectStep {
    /// The stream goes on beyond the bytes that are there.
    Incomplete,
    /// An object that ends at `end` and may hold a message.
    Object { end: usize, message: Option<Message<BlfTime>> },
}

/// Whether an attempt to read at one place came out as the stream says.
pub open spec fn step_result(expected: Step, res: Result<ObjectStep, BlfError>) -> bool {
    match (expected, res) {
        (Step::Incomplete, Ok(ObjectStep::Incomplete)) => true,
        (Step::Malformed(reason), Err(e)) => e@ == ErrorView::Parse(reason),
        (Step::Object { end, message: None }, Ok(ObjectStep::Object { end: e, message: None })) => e
            == end,
        (
            Step::Object { end, message: Some(m) },
            Ok(ObjectStep::Object { end: e, message: Some(msg) }),
        ) => e == end && msg@ == m,
        _ => false,
    }
}

/// Whether an object starts at `at`.
pub fn is_marked(buf: &[u8], at: usize) -> (res: bool)
    requires
        at + 4 <= buf@.len(),
    ensures
        res == marked(buf@, at as int),
{
    let res: bool = buf[at] == 0x4c && buf[at + 1] == 0x4f && buf[at + 2] == 0x42 && buf[at + 3]
        == 0x4a;
    proof {
        let s = buf@.subrange(at as int, at + 4);
        assert(s[0] == buf@[at as int] && s[1] == buf@[at + 1] && s[2] == buf@[at + 2] && s[3]
            == buf@[at + 3]);
        if res {
            assert(s =~= object_mark());
        }
    }
    res
}

/// Where the next object starts.
fn find_mark(buf: &[u8], pos: usize) -> (res: Option<usize>)
    requires
        pos <= buf@.len(),
    ensures
        match res {
            Some(at) => next_mark(buf@, pos as int) == Some(at as int) && pos <= at && at + 4
                <= buf@.len(),
            None => next_mark(buf@, pos as int) is None,
        },
{
    let end: usize = if buf.len() - pos >= 8 {
        pos + 8
    } else {
        buf.len()
    };
    let mut i: usize = pos;
    while end - i >= 4
        invariant
            pos <= i <= end <= buf@.len(),
            next_mark(buf@, pos as int) == first_mark(buf@, i as int, end as int),
        decreases end - i,
    {
        if is_marked(buf, i) {
            return Some(i);
        }
        i = i + 1;
    }
    None
}

/// A channel as messages count it, from the number in the log.
pub fn log_channel(number: u16) -> (channel: u16)
    ensures
        channel == channel_from_log(number as int),
{
    number.saturating_sub(1)
}

/// A copy of `n` bytes.
fn copy_bytes(buf: &[u8], at: usize, n: usize) -> (data: Vec<u8>)
    requires
        at + n <= buf@.len(),
    ensures
        data@ == buf@.subrange(at as int, at + n),
{
    assert(buf@.len() == buf.len());
    slice_to_vec(slice_subrange(buf, at, at + n))
}

/// The classic frame whose fields start at `at`.
fn read_can_message(buf: &[u8], at: usize, timestamp: BlfTime) -> (msg: Message<BlfTime>)
    requires
        at + CAN_MSG_SIZE <= buf@.len(),
    ensures
        msg@ == can_message(buf@, at as int, timestamp),
{
    assert(buf@.len() == buf.len());
    let flags: u8 = buf[at + 2];
    let dlc: u8 = buf[at + 3];
    let id: u32 = get_u32(buf, at + 4);
    let len: usize = if dlc <= 8 {
        dlc as usize
    } else {
        8
    };
    Message {
        timestamp,
        arbitration_id: id & CAN_ID_MASK,
        is_extended_id: id & CAN_MSG_EXT != 0,
        is_remote_frame: flags & REMOTE_FLAG != 0,
        is_rx: flags & DIR == 0,
        is_error_frame: false,
        is_fd: false,
        bitrate_switch: false,
        error_state_indicator: false,
        dlc,
        data: copy_bytes(buf, at + 8, len),
        channel: log_channel(get_u16(buf, at)),
    }
}

/// The error frame whose fields start at `at`.
fn read_error_message(buf: &[u8], at: usize, timestamp: BlfTime) -> (msg: Message<BlfTime>)
    requires
        at + CAN_ERROR_EXT_SIZE <= buf@.len(),
    ensures
        msg@ == error_message(buf@, at as int, timestamp),
{
    assert(buf@.len() == buf.len());
    let dlc: u8 = buf[at + 10];
    let id: u32 = get_u32(buf, at + 16);
    let len: usize = if dlc <= 8 {
        dlc as usize
    } else {
        8
    };
    Message {
        timestamp,
        arbitration_id: id & CAN_ID_MASK,
        is_extended_id: id & CAN_MSG_EXT != 0,
        is_remote_frame: false,
        is_rx: true,
        is_error_frame: true,
        is_fd: false,
        bitrate_switch: false,
        error_state_indicator: false,
        dlc,
        data: copy_bytes(buf, at + 24, len),
        channel: log_channel(get_u16(buf, at)),
    }
}

/// The CAN FD frame whose fields start at `at`.
fn read_fd_message(buf: &[u8], at: usize, timestamp: BlfTime) -> (msg: Message<BlfTime>)
    requires
        at + CAN_FD_MSG_SIZE <= buf@.len(),
    ensures
        msg@ == fd_message(buf@, at as int, timestamp),
{
    assert(buf@.len() == buf.len());
    let flags: u8 = buf[at + 2];
    let id: u32 = get_u32(buf, at + 4);
    let fd_flags: u8 = buf[at + 13];
    let valid: u8 = buf[at + 14];
    let len: usize = if valid <= 64 {
        valid as usize
    } else {
        64
    };
    Message {
        timestamp,
        arbitration_id: id & CAN_ID_MASK,
        is_extended_id: id & CAN_MSG_EXT != 0,
        is_remote_frame: flags & REMOTE_FLAG != 0,
        is_rx: flags & DIR == 0,
        is_error_frame: false,
        is_fd: fd_flags & EDL != 0,
        bitrate_switch: fd_flags & BRS != 0,
        error_state_indicator: fd_flags & ESI != 0,
        dlc: dlc2len(buf[at + 3]),
        data: copy_bytes(buf, at + 20, len),
        channel: log_channel(get_u16(buf, at)),
    }
}

/// The data of a long CAN FD object whose data field starts at `at`.
fn read_fd64_data(buf: &[u8], at: usize, held: usize, valid: usize) -> (data: Vec<u8>)
    requires
        at <= buf@.len(),
        held <= valid,
    ensures
        data@ == fd64_data(buf@, at as int, held as int, valid as int),
{
    let mut data: Vec<u8> = Vec::new();
    if held <= buf.len() - at {
        push_slice(&mut data, slice_subrange(buf, at, at + held));
        push_zeros(&mut data, valid - held);
        assert(data@ =~= fd64_data(buf@, at as int, held as int, valid as int));
    } else {
        push_zeros(&mut data, valid);
        assert(data@ =~= zeros(valid as int));
    }
    data
}

/// The long CAN FD frame whose fields start at `at`.
fn read_fd64_message(
    buf: &[u8],
    at: usize,
    header_size: u16,
    obj_size: usize,
    timestamp: BlfTime,
) -> (msg: Message<BlfTime>)
    requires
        at + CAN_FD_MSG_64_SIZE <= buf@.len(),
    ensures
        msg@ == fd64_message(buf@, at as int, header_size as int, obj_size as int, timestamp),
{
    assert(buf@.len() == buf.len());
    let id: u32 = get_u32(buf, at + 4);
    let fd_flags: u32 = get_u32(buf, at + 12);
    let valid: usize = buf[at + 2] as usize;
    let ext_offset: usize = buf[at + 35] as usize;
    let field_end: usize = if ext_offset != 0 {
        ext_offset
    } else {
        obj_size
    };
    let mut held: usize = field_end.saturating_sub(header_size as usize + CAN_FD_MSG_64_SIZE);
    if held > valid {
        held = valid;
    }
    Message {
        timestamp,
        arbitration_id: id & CAN_ID_MASK,
        is_extended_id: id & CAN_MSG_EXT != 0,
        is_remote_frame: fd_flags & 0x0010 != 0,
        is_rx: buf[at + 34] == 0,
        is_error_frame: false,
        is_fd: fd_flags & 0x1000 != 0,
        bitrate_switch: fd_flags & 0x2000 != 0,
        error_state_indicator: fd_flags & 0x4000 != 0,
        dlc: dlc2len(buf[at + 1]),
        data: read_fd64_data(buf, at + CAN_FD_MSG_64_SIZE, held, valid),
        channel: log_channel(buf[at] as u16),
    }
}

/// An object without a message.
fn pass_over(at: usize, obj_size: usize) -> (res: Result<ObjectStep, BlfError>)
    requires
        at + obj_size <= usize::MAX,
    ensures
        step_result(passed_over(at as int, obj_size as int), res),
{
    if obj_size == 0 {
        Err(BlfError::parse("object of size zero"))
    } else {
        Ok(ObjectStep::Object { end: at + obj_size, message: None })
    }
}

/// What an object holds whose start, size and fields are known.
fn read_content(buf: &[u8], at: usize, fields: usize, start_millis: i64) -> (res: Result<
    ObjectStep,
    BlfError,
>)
    requires
        at + 32 <= fields <= buf@.len(),
        at + u32_at(buf@, at + 8) <= buf@.len(),
    ensures
        step_result(object_content(buf@, at as int, fields as int, start_millis), res),
{
    assert(buf@.len() == buf.len());
    let obj_size: usize = get_u32(buf, at + 8) as usize;
    let obj_type: u32 = get_u32(buf, at + 12);
    let end: usize = at + obj_size;
    let unit: TickUnit = if get_u32(buf, at + 16) == TIME_TEN_MICS {
        TickUnit::TenMicroseconds
    } else {
        TickUnit::Nanosecond
    };
    let time: BlfTime = BlfTime { start_millis, ticks: get_u64(buf, at + 24), unit };
    if obj_type == CAN_MESSAGE || obj_type == CAN_MESSAGE2 {
        if end < fields || end - fields < CAN_MSG_SIZE {
            return Err(BlfError::parse("CAN message too small"));
        }
        Ok(ObjectStep::Object { end, message: Some(read_can_message(buf, fields, time)) })
    } else if obj_type == CAN_ERROR_EXT {
        if end < fields || end - fields < CAN_ERROR_EXT_SIZE {
            return Err(BlfError::parse("CAN error frame too small"));
        }
        Ok(ObjectStep::Object { end, message: Some(read_error_message(buf, fields, time)) })
    } else if obj_type == CAN_FD_MESSAGE {
        if end < fields || end - fields < CAN_FD_MSG_SIZE {
            return Err(BlfError::parse("CAN FD message too small"));
        }
        Ok(ObjectStep::Object { end, message: Some(read_fd_message(buf, fields, time)) })
    } else if obj_type == CAN_FD_MESSAGE_64 {
        if end < fields || end - fields < CAN_FD_MSG_64_SIZE {
            return Err(BlfError::parse("CAN FD 64 message too small"));
        }
        let header_size: u16 = get_u16(buf, at + 4);
        let msg: Message<BlfTime> = read_fd64_message(buf, fields, header_size, obj_size, time);
        Ok(ObjectStep::Object { end, message: Some(msg) })
    } else {
        pass_over(at, obj_size)
    }
}

/// What comes next in the inner stream at `pos`: an object with or without a message,
/// or the need for more bytes. An object of size zero without a message is an error,
/// since it could never be passed.
pub fn read_object(buf: &[u8], pos: usize, start_millis: i64) -> (res: Result<
    ObjectStep,
    BlfError,
>)
    requires
        pos <= buf@.len(),
    ensures
        step_result(step(buf@, pos as int, start_millis), res),
{
    let at: usize = match find_mark(buf, pos) {
        Some(at) => at,
        None => {
            if buf.len() - pos < 8 {
                return Ok(ObjectStep::Incomplete);
            }
            return Err(BlfError::parse("could not find next object"));
        },
    };
    if buf.len() - at < OBJ_HEADER_BASE_SIZE {
        return Ok(ObjectStep::Incomplete);
    }
    let version: u16 = get_u16(buf, at + 6);
    let obj_size: u32 = get_u32(buf, at + 8);
    if obj_size as u64 > (buf.len() - at) as u64 {
        return Ok(ObjectStep::Incomplete);
    }
    let header: usize = if version == 1 {
        OBJ_HEADER_V1_SIZE
    } else if version == 2 {
        OBJ_HEADER_V2_SIZE
    } else {
        return pass_over(at, obj_size as usize);
    };
    if buf.len() - at < OBJ_HEADER_BASE_SIZE + header {
        return Ok(ObjectStep::Incomplete);
    }
    read_content(buf, at, at + OBJ_HEADER_BASE_SIZE + header, start_millis)
}

/// Puts the messages read so far in front of what the rest of the stream gives.
pub open spec fn prepend(
    read: Seq<MessageView<BlfTime>>,
    rest: Result<(Seq<MessageView<BlfTime>>, Seq<u8>), Seq<char>>,
) -> Result<(Seq<MessageView<BlfTime>>, Seq<u8>), Seq<char>> {
    match rest {
        Ok((messages, tail)) => Ok((read + messages, tail)),
        Err(reason) => Err(reason),
    }
}

/// The messages in a piece of the inner stream, and the bytes at its end that do not
/// make up a whole object yet.
pub fn parse_objects(buf: &[u8], start_millis: i64) -> (res: Result<
    (Vec<Message<BlfTime>>, Vec<u8>),
    BlfError,
>)
    ensures
        match res {
            Ok((messages, tail)) => parse(buf@, 0, start_millis) == Ok::<
                (Seq<MessageView<BlfTime>>, Seq<u8>),
                Seq<char>,
            >((views(messages@), tail@)),
            Err(e) => parse(buf@, 0, start_millis) matches Err(reason) && e@ == ErrorView::Parse(
                reason,
            ),
        },
{
    let mut messages: Vec<Message<BlfTime>> = Vec::new();
    let mut pos: usize = 0;
    let ghost whole = parse(buf@, 0, start_millis);
    assert(prepend(views(messages@), whole) == whole) by {
        if let Ok((ms, tail)) = whole {
            assert(views(messages@) + ms =~= ms);
        }
    }
    loop
        invariant
            pos <= buf@.len(),
            whole == parse(buf@, 0, start_millis),
            whole == prepend(views(messages@), parse(buf@, pos as int, start_millis)),
        decreases buf@.len() - pos,
    {
        proof {
            lemma_step_advances(buf@, pos as int, start_millis);
        }
        match read_object(buf, pos, start_millis) {
            Err(e) => {
                return Err(e);
            },
            Ok(ObjectStep::Incomplete) => {
                let tail: Vec<u8> = copy_bytes(buf, pos, buf.len() - pos);
                assert(tail@ =~= buf@.skip(pos as int));
                assert(views(messages@) + Seq::<MessageView<BlfTime>>::empty() =~= views(
                    messages@,
                ));
                return Ok((messages, tail));
            },
            Ok(ObjectStep::Object { end, message }) => {
                let ghost before = views(messages@);
                match message {
                    Some(msg) => {
                        messages.push(msg);
                        proof {
                            assert(views(messages@) =~= before.push(msg@));
                            if let Ok((rest, tail)) = parse(buf@, end as int, start_millis) {
                                assert(before + (seq![msg@] + rest) =~= views(messages@) + rest);
                            }
                        }
                    },
                    None => {},
                }
                pos = end;
            },
        }
    }
}

} // verus!
