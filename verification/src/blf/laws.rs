//! What reading gives back of what was written.

use vstd::prelude::*;

use crate::blf::format::{
    object_mark, BlfTime, TickUnit, BRS, CAN_ERROR_EXT, CAN_FD_MESSAGE, CAN_ID_MASK, CAN_MESSAGE,
    CAN_MSG_EXT, DIR, EDL, ESI, REMOTE_FLAG, TIME_ONE_NANS,
};
use crate::blf::object::{
    can_message, channel_from_log, error_message, fd_message, marked, object_content, object_time,
    step, Step,
};
use crate::blf::writer::{
    can_fields, channel_to_log, data_field, error_fields, fd_fields, fd_flags_field, flags_field,
    id_field, message_object, object_bytes,
};
use crate::bytes::{
    law_u64_read_back, lemma_u16_here, lemma_u32_here, u16_at, u16_bytes, u32_at, u32_bytes, u64_at,
    u64_bytes,
};
use crate::dlc::{fd_code, fd_length};
use crate::message::MessageView;
use crate::number::at_most;

verus! {

/// The data of a frame with room for 8 bytes, as it is read back: as many bytes as the
/// length code says, filled up with zeros.
pub open spec fn short_data(data: Seq<u8>, dlc: int) -> Seq<u8> {
    data_field(data, 8).take(at_most(dlc, 8))
}

/// What a written message is read back as.
pub open spec fn recorded<T>(m: MessageView<T>, timestamp: BlfTime) -> MessageView<BlfTime> {
    let id = id_field(m.arbitration_id, m.is_extended_id);
    let code = fd_code(m.dlc as int);
    let fd = !m.is_error_frame && m.is_fd;
    MessageView {
        timestamp,
        arbitration_id: id & CAN_ID_MASK,
        is_extended_id: id & CAN_MSG_EXT != 0,
        is_remote_frame: !m.is_error_frame && m.is_remote_frame,
        is_rx: m.is_error_frame || m.is_rx,
        is_error_frame: m.is_error_frame,
        is_fd: fd,
        bitrate_switch: fd && m.bitrate_switch,
        error_state_indicator: fd && m.error_state_indicator,
        dlc: if m.is_error_frame {
            code as u8
        } else if m.is_fd {
            fd_length(code) as u8
        } else {
            m.dlc
        },
        data: if m.is_error_frame {
            short_data(m.data, code)
        } else if m.is_fd {
            m.data.take(at_most(m.data.len() as int, 64))
        } else {
            short_data(m.data, m.dlc as int)
        },
        channel: channel_from_log(channel_to_log(m.channel) as int),
    }
}

/// Whether a log can hold all that a message says: the id has 29 bits, the channel is
/// not the very last, the length code fits the data, and nothing is set that the kind
/// of frame has no place for.
pub open spec fn representable<T>(m: MessageView<T>) -> bool {
    &&& m.arbitration_id <= CAN_ID_MASK
    &&& m.channel < u16::MAX
    &&& if m.is_error_frame {
        &&& m.is_rx && !m.is_remote_frame && !m.is_fd
        &&& !m.bitrate_switch && !m.error_state_indicator
        &&& fd_code(m.dlc as int) == m.dlc
        &&& m.data.len() == at_most(m.dlc as int, 8)
    } else if m.is_fd {
        &&& fd_length(fd_code(m.dlc as int)) == m.dlc
        &&& m.data.len() <= 64
    } else {
        &&& !m.bitrate_switch && !m.error_state_indicator
        &&& m.data.len() == at_most(m.dlc as int, 8)
    }
}

proof fn lemma_id_bits(id: u32)
    ensures
        (id | CAN_MSG_EXT) & CAN_ID_MASK == id & CAN_ID_MASK,
        (id | CAN_MSG_EXT) & CAN_MSG_EXT != 0,
        id & CAN_ID_MASK == id <==> id <= CAN_ID_MASK,
        id <= CAN_ID_MASK ==> id & CAN_MSG_EXT == 0,
{
    assert((id | 0x8000_0000) & 0x1fff_ffff == id & 0x1fff_ffff && (id | 0x8000_0000) & 0x8000_0000
        != 0) by (bit_vector);
    assert((id & 0x1fff_ffff == id <==> id <= 0x1fff_ffff) && (id <= 0x1fff_ffff ==> id
        & 0x8000_0000 == 0)) by (bit_vector);
}

proof fn lemma_flag_bits(is_remote: bool, is_rx: bool, brs: bool, esi: bool)
    ensures
        flags_field(is_remote, is_rx) & REMOTE_FLAG != 0 <==> is_remote,
        flags_field(is_remote, is_rx) & DIR == 0 <==> is_rx,
        fd_flags_field(brs, esi) & EDL != 0,
        fd_flags_field(brs, esi) & BRS != 0 <==> brs,
        fd_flags_field(brs, esi) & ESI != 0 <==> esi,
{
    assert(0u8 & 0x80 == 0 && 1u8 & 0x80 == 0 && 0x80u8 & 0x80 != 0 && 0x81u8 & 0x80 != 0)
        by (bit_vector);
    assert(0u8 & 1 == 0 && 1u8 & 1 != 0 && 0x80u8 & 1 == 0 && 0x81u8 & 1 != 0) by (bit_vector);
    assert(3u8 & 1 != 0 && 5u8 & 1 != 0 && 7u8 & 1 != 0) by (bit_vector);
    assert(1u8 & 2 == 0 && 3u8 & 2 != 0 && 5u8 & 2 == 0 && 7u8 & 2 != 0) by (bit_vector);
    assert(1u8 & 4 == 0 && 3u8 & 4 == 0 && 5u8 & 4 != 0 && 7u8 & 4 != 0) by (bit_vector);
}

/// The messages that are read back unchanged, but for their time, are those that a log
/// can hold, and no others.
pub proof fn law_representable_is_kept<T>(m: MessageView<T>, timestamp: BlfTime)
    ensures
        recorded(m, timestamp) == m.at(timestamp) <==> representable(m),
{
    lemma_id_bits(m.arbitration_id);
    if representable(m) {
        if m.is_error_frame {
            assert(short_data(m.data, fd_code(m.dlc as int)) =~= m.data);
        } else if m.is_fd {
            assert(m.data.take(m.data.len() as int) =~= m.data);
        } else {
            assert(short_data(m.data, m.dlc as int) =~= m.data);
        }
    }
    assert(short_data(m.data, m.dlc as int).len() == at_most(m.dlc as int, 8));
    assert(short_data(m.data, fd_code(m.dlc as int)).len() == at_most(fd_code(m.dlc as int), 8));
}

/// The fields of a classic frame are read as the frame that they were written for.
proof fn lemma_can_fields<T>(m: MessageView<T>, timestamp: BlfTime)
    requires
        !m.is_error_frame,
        !m.is_fd,
    ensures
        can_fields(m).len() == 16,
        can_message(can_fields(m), 0, timestamp) == recorded(m, timestamp),
{
    let f = can_fields(m);
    lemma_flag_bits(m.is_remote_frame, m.is_rx, false, false);
    let id = id_field(m.arbitration_id, m.is_extended_id);
    assert(f.subrange(0, 2) =~= u16_bytes(channel_to_log(m.channel)));
    lemma_u16_here(f, 0, channel_to_log(m.channel));
    assert(f[2] == flags_field(m.is_remote_frame, m.is_rx));
    assert(f[3] == m.dlc);
    assert(f.subrange(4, 8) =~= u32_bytes(id));
    lemma_u32_here(f, 4, id);
    assert(f.subrange(8, 16) =~= data_field(m.data, 8));
    assert(f.subrange(8, 8 + at_most(m.dlc as int, 8)) =~= short_data(m.data, m.dlc as int));
}

/// The fields of an error frame are read as the frame that they were written for.
proof fn lemma_error_fields<T>(m: MessageView<T>, timestamp: BlfTime)
    requires
        m.is_error_frame,
    ensures
        error_fields(m).len() == 32,
        error_message(error_fields(m), 0, timestamp) == recorded(m, timestamp),
{
    let f = error_fields(m);
    let id = id_field(m.arbitration_id, m.is_extended_id);
    let code = fd_code(m.dlc as int);
    assert(f.subrange(0, 2) =~= u16_bytes(channel_to_log(m.channel)));
    lemma_u16_here(f, 0, channel_to_log(m.channel));
    assert(f[10] == code);
    assert(f.subrange(16, 20) =~= u32_bytes(id));
    lemma_u32_here(f, 16, id);
    assert(f.subrange(24, 32) =~= data_field(m.data, 8));
    assert(f.subrange(24, 24 + at_most(code, 8)) =~= short_data(m.data, code));
}

/// The fields of a CAN FD frame are read as the frame that they were written for.
proof fn lemma_fd_fields<T>(m: MessageView<T>, timestamp: BlfTime)
    requires
        !m.is_error_frame,
        m.is_fd,
    ensures
        fd_fields(m).len() == 84,
        fd_message(fd_fields(m), 0, timestamp) == recorded(m, timestamp),
{
    let f = fd_fields(m);
    lemma_flag_bits(m.is_remote_frame, m.is_rx, m.bitrate_switch, m.error_state_indicator);
    let id = id_field(m.arbitration_id, m.is_extended_id);
    let code = fd_code(m.dlc as int);
    let n = at_most(m.data.len() as int, 64);
    assert(f.subrange(0, 2) =~= u16_bytes(channel_to_log(m.channel)));
    lemma_u16_here(f, 0, channel_to_log(m.channel));
    assert(f[2] == flags_field(m.is_remote_frame, m.is_rx));
    assert(f[3] == code);
    assert(f.subrange(4, 8) =~= u32_bytes(id));
    lemma_u32_here(f, 4, id);
    assert(f[13] == fd_flags_field(m.bitrate_switch, m.error_state_indicator));
    assert(f[14] == n);
    assert(f.subrange(20, 84) =~= data_field(m.data, 64));
    assert(f.subrange(20, 20 + n) =~= m.data.take(n));
}

/// The number of bytes of the object for a message.
pub open spec fn object_size<T>(m: MessageView<T>) -> int {
    if m.is_error_frame {
        64
    } else if m.is_fd {
        116
    } else {
        48
    }
}

/// The object for a message has the size that its kind of frame has.
pub proof fn law_object_size<T>(m: MessageView<T>, offset_nanos: u64)
    ensures
        message_object(m, offset_nanos).len() == object_size(m),
{
    reveal(message_object);
}

/// The time of an object that was written `offset_nanos` after the start of a log.
pub open spec fn time_after(start_millis: i64, offset_nanos: u64) -> BlfTime {
    BlfTime { start_millis, ticks: offset_nanos, unit: TickUnit::Nanosecond }
}

/// Whether bytes are read as an object of the given type, fields and time.
pub(crate) open spec fn reads_as(
    obj: Seq<u8>,
    obj_type: u32,
    fields: Seq<u8>,
    offset_nanos: u64,
) -> bool {
    &&& obj.len() == 32 + fields.len()
    &&& obj.subrange(0, 4) == object_mark()
    &&& u16_at(obj, 4) == 32
    &&& u16_at(obj, 6) == 1
    &&& u32_at(obj, 8) == 32 + fields.len()
    &&& u32_at(obj, 12) == obj_type
    &&& u32_at(obj, 16) == TIME_ONE_NANS
    &&& u64_at(obj, 24) == offset_nanos
    &&& obj.skip(32) == fields
}

/// What stands before the time of a written object.
spec fn object_head(obj_type: u32, size: u32) -> Seq<u8> {
    object_mark() + u16_bytes(32) + u16_bytes(1) + u32_bytes(size) + u32_bytes(obj_type)
        + u32_bytes(TIME_ONE_NANS) + u16_bytes(0) + u16_bytes(0)
}

/// What stands before the time of a written object is read as it was written.
proof fn lemma_object_head(obj_type: u32, size: u32)
    ensures
        ({
            let head = object_head(obj_type, size);
            &&& head.len() == 24
            &&& head.take(4) == object_mark()
            &&& u16_at(head, 4) == 32
            &&& u16_at(head, 6) == 1
            &&& u32_at(head, 8) == size
            &&& u32_at(head, 12) == obj_type
            &&& u32_at(head, 16) == TIME_ONE_NANS
        }),
{
    let head = object_head(obj_type, size);
    assert(head.take(4) =~= object_mark());
    assert(head.subrange(4, 6) =~= u16_bytes(32));
    assert(head.subrange(6, 8) =~= u16_bytes(1));
    assert(head.subrange(8, 12) =~= u32_bytes(size));
    assert(head.subrange(12, 16) =~= u32_bytes(obj_type));
    assert(head.subrange(16, 20) =~= u32_bytes(TIME_ONE_NANS));
    lemma_u16_here(head, 4, 32);
    lemma_u16_here(head, 6, 1);
    lemma_u32_here(head, 8, size);
    lemma_u32_here(head, 12, obj_type);
    lemma_u32_here(head, 16, TIME_ONE_NANS);
}

/// The header of a written object is read as it was written.
pub(crate) proof fn lemma_object_header(obj_type: u32, fields: Seq<u8>, offset_nanos: u64)
    requires
        fields.len() <= 84,
        fields.len() % 4 == 0,
    ensures
        reads_as(object_bytes(obj_type, fields, offset_nanos), obj_type, fields, offset_nanos),
{
    let size = (32 + fields.len()) as u32;
    let head = object_head(obj_type, size);
    let obj = head + u64_bytes(offset_nanos) + fields;
    assert(object_bytes(obj_type, fields, offset_nanos) =~= obj);
    lemma_object_head(obj_type, size);
    lemma_head_read_back(head, obj_type, fields, offset_nanos);
}

/// The header of an object is read as it was written, given what stands before the
/// time.
proof fn lemma_head_read_back(head: Seq<u8>, obj_type: u32, fields: Seq<u8>, offset_nanos: u64)
    requires
        head.len() == 24,
        head.take(4) == object_mark(),
        u16_at(head, 4) == 32,
        u16_at(head, 6) == 1,
        u32_at(head, 8) == 32 + fields.len(),
        u32_at(head, 12) == obj_type,
        u32_at(head, 16) == TIME_ONE_NANS,
    ensures
        reads_as(head + u64_bytes(offset_nanos) + fields, obj_type, fields, offset_nanos),
{
    let obj = head + u64_bytes(offset_nanos) + fields;
    law_u64_read_back(head, offset_nanos, fields);
    assert forall|k: int| 0 <= k < 24 implies #[trigger] head[k] == obj[k] by {}
    assert(obj.subrange(0, 4) =~= head.take(4));
    assert(obj.skip(32) =~= fields);
}

/// Fields are read the same wherever they stand.
proof fn lemma_fields_within(buf: Seq<u8>, at: int, n: int, timestamp: BlfTime)
    requires
        0 <= at,
        0 <= n,
        at + n <= buf.len(),
    ensures
        n >= 16 ==> can_message(buf, at, timestamp) == can_message(
            buf.subrange(at, at + n),
            0,
            timestamp,
        ),
        n >= 32 ==> error_message(buf, at, timestamp) == error_message(
            buf.subrange(at, at + n),
            0,
            timestamp,
        ),
        n >= 84 ==> fd_message(buf, at, timestamp) == fd_message(
            buf.subrange(at, at + n),
            0,
            timestamp,
        ),
{
    let f = buf.subrange(at, at + n);
    assert forall|k: int| 0 <= k < n implies #[trigger] f[k] == buf[at + k] by {}
    if n >= 16 {
        assert(f.subrange(8, 8 + at_most(f[3] as int, 8)) =~= buf.subrange(
            at + 8,
            at + 8 + at_most(buf[at + 3] as int, 8),
        ));
    }
    if n >= 32 {
        assert(f.subrange(24, 24 + at_most(f[10] as int, 8)) =~= buf.subrange(
            at + 24,
            at + 24 + at_most(buf[at + 10] as int, 8),
        ));
    }
    if n >= 84 {
        assert(f.subrange(20, 20 + at_most(f[14] as int, 64)) =~= buf.subrange(
            at + 20,
            at + 20 + at_most(buf[at + 14] as int, 64),
        ));
    }
}

/// An object is read the same wherever it stands.
proof fn lemma_object_within(
    buf: Seq<u8>,
    pos: int,
    obj: Seq<u8>,
    obj_type: u32,
    fields: Seq<u8>,
    offset_nanos: u64,
    start_millis: i64,
)
    requires
        0 <= pos,
        pos + obj.len() <= buf.len(),
        buf.subrange(pos, pos + obj.len()) == obj,
        reads_as(obj, obj_type, fields, offset_nanos),
    ensures
        step(buf, pos, start_millis) == object_content(buf, pos, pos + 32, start_millis),
        u32_at(buf, pos + 8) == 32 + fields.len(),
        u32_at(buf, pos + 12) == obj_type,
        object_time(buf, pos, start_millis) == time_after(start_millis, offset_nanos),
        buf.subrange(pos + 32, pos + 32 + fields.len()) == fields,
{
    let n = fields.len() as int;
    assert forall|k: int| 0 <= k < 32 + n implies #[trigger] obj[k] == buf[pos + k] by {
        assert(buf.subrange(pos, pos + obj.len())[k] == buf[pos + k]);
    }
    assert(buf.subrange(pos, pos + 4) =~= obj.subrange(0, 4));
    assert(marked(buf, pos));
    assert(u16_at(buf, pos + 6) == u16_at(obj, 6));
    assert(u32_at(buf, pos + 8) == u32_at(obj, 8));
    assert(u32_at(buf, pos + 12) == u32_at(obj, 12));
    assert(u32_at(buf, pos + 16) == u32_at(obj, 16));
    assert(u64_at(buf, pos + 24) == u64_at(obj, 24)) by {
        assert(u32_at(buf, pos + 24) == u32_at(obj, 24));
        assert(u32_at(buf, pos + 28) == u32_at(obj, 28));
    }
    assert(buf.subrange(pos + 32, pos + 32 + n) =~= obj.skip(32)) by {
        assert forall|k: int| 0 <= k < n implies #[trigger] buf.subrange(pos + 32, pos + 32 + n)[k]
            == obj.skip(32)[k] by {
            assert(obj[32 + k] == buf[pos + (32 + k)]);
        }
    }
}

/// An object that was written for a message is read as what was recorded of the
/// message, wherever in the stream it stands.
pub proof fn law_object_read_back<T>(
    buf: Seq<u8>,
    pos: int,
    m: MessageView<T>,
    offset_nanos: u64,
    start_millis: i64,
)
    requires
        0 <= pos,
        pos + object_size(m) <= buf.len(),
        buf.subrange(pos, pos + object_size(m)) == message_object(m, offset_nanos),
    ensures
        step(buf, pos, start_millis) == (Step::Object {
            end: pos + object_size(m),
            message: Some(recorded(m, time_after(start_millis, offset_nanos))),
        }),
{
    reveal(message_object);
    let time = time_after(start_millis, offset_nanos);
    let obj = message_object(m, offset_nanos);
    if m.is_error_frame {
        let fields = error_fields(m);
        lemma_error_fields(m, time);
        lemma_object_header(CAN_ERROR_EXT, fields, offset_nanos);
        lemma_object_within(buf, pos, obj, CAN_ERROR_EXT, fields, offset_nanos, start_millis);
        lemma_fields_within(buf, pos + 32, 32, time);
    } else if m.is_fd {
        let fields = fd_fields(m);
        lemma_fd_fields(m, time);
        lemma_object_header(CAN_FD_MESSAGE, fields, offset_nanos);
        lemma_object_within(buf, pos, obj, CAN_FD_MESSAGE, fields, offset_nanos, start_millis);
        lemma_fields_within(buf, pos + 32, 84, time);
    } else {
        let fields = can_fields(m);
        lemma_can_fields(m, time);
        lemma_object_header(CAN_MESSAGE, fields, offset_nanos);
        lemma_object_within(buf, pos, obj, CAN_MESSAGE, fields, offset_nanos, start_millis);
        lemma_fields_within(buf, pos + 32, 16, time);
    }
}

} // verus!
