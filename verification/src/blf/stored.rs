//! Which bytes a writer makes.

use vstd::prelude::*;

use crate::blf::format::{CAN_ERROR_EXT, CAN_FD_MESSAGE, CAN_MESSAGE};
use crate::blf::laws::lemma_object_header;
use crate::blf::session::lemma_u16_list;
use crate::blf::wire::{
    frame_lengths, has_letters, law_integers_are_little_endian, law_lengths_by_code, least, number,
};
use crate::blf::writer::{
    can_fields, channel_to_log, container_bytes, data_field, error_fields, fd_fields,
    fd_flags_field, flags_field, flush_of, header_bytes, id_field, message_object, new_writer,
    next_piece, object_bytes, receive_of, stored_of, u16_list_bytes, WriterView, DEFAULT_LEVEL,
};
use crate::bytes::{
    law_u32_read_back, law_u64_read_back, lemma_u16_here, lemma_u32_here, u16_at, u16_bytes, u32_at,
    u32_bytes, u64_bytes, zeros,
};
use crate::calendar::system_time;
use crate::dlc::{fd_code, law_smallest_code};
use crate::error::ErrorView;
use crate::message::{MessageView, Timestamp};
use crate::zlib::zlib_deflated;

verus! {

/// Whether the bytes from `at` up to, not including, `end` are zero.
pub open spec fn empty_between(s: Seq<u8>, at: int, end: int) -> bool {
    forall|i: int| at <= i < end ==> #[trigger] s[i] == 0
}

/// Whether bytes are an object of a type, of a size that counts its header of 32 bytes, seen
/// so many nanoseconds after the start of the log.
pub open spec fn is_written(obj: Seq<u8>, obj_type: int, size: int, offset_nanos: int) -> bool {
    &&& obj.len() == size
    &&& has_letters(obj, 0)
    &&& number(obj, 4, 2) == 32
    &&& number(obj, 6, 2) == 1
    &&& number(obj, 8, 4) == size
    &&& number(obj, 12, 4) == obj_type
    &&& number(obj, 16, 4) == 2
    &&& empty_between(obj, 20, 24)
    &&& number(obj, 24, 8) == offset_nanos
}

/// Whether `room` bytes from `at` on are those of data, as far as these go, and then zero.
pub open spec fn holds_data(s: Seq<u8>, at: int, room: int, data: Seq<u8>) -> bool {
    forall|i: int|
        0 <= i < room ==> #[trigger] s[at + i] == if i < data.len() {
            data[i]
        } else {
            0
        }
}

/// The id field for an id: its highest bit is set for an extended one.
pub open spec fn marked_id(id: u32, extended: bool) -> int {
    if extended && id < 0x8000_0000 {
        id + 0x8000_0000
    } else {
        id as int
    }
}

/// Whether a byte is the code for a length: the smallest whose frames have room for it, or 15.
pub open spec fn is_code_for(code: int, length: int) -> bool {
    &&& 0 <= code <= 15
    &&& code == 15 || length <= frame_lengths()[code]
    &&& forall|smaller: int|
        0 <= smaller < code ==> #[trigger] frame_lengths()[smaller] < length
}

proof fn lemma_marked_id(id: u32)
    ensures
        id_field(id, true) == marked_id(id, true),
        id_field(id, false) == marked_id(id, false),
{
    assert(id | 0x8000_0000 == if id < 0x8000_0000 {
        (id + 0x8000_0000) as u32
    } else {
        id
    }) by (bit_vector);
}

/// The code that a writer writes is the smallest with room.
pub proof fn law_codes_have_room(length: int)
    requires
        0 <= length,
    ensures
        is_code_for(fd_code(length), length),
{
    law_smallest_code(length, 0);
    law_lengths_by_code(fd_code(length));
    assert forall|smaller: int| 0 <= smaller < fd_code(length) implies
        #[trigger] frame_lengths()[smaller] < length by {
        law_smallest_code(length, smaller);
        law_lengths_by_code(smaller);
    }
}

#[verifier::rlimit(40)]
proof fn lemma_written(obj_type: u32, fields: Seq<u8>, offset_nanos: u64)
    requires
        fields.len() <= 84,
        fields.len() % 4 == 0,
    ensures
        ({
            let obj = object_bytes(obj_type, fields, offset_nanos);
            &&& is_written(obj, obj_type as int, (32 + fields.len()) as int, offset_nanos as int)
            &&& forall|i: int| 0 <= i < fields.len() ==> obj[32 + i] == #[trigger] fields[i]
            &&& forall|i: int| 32 <= i < obj.len() ==> #[trigger] obj[i] == fields[i - 32]
        }),
{
    let obj = object_bytes(obj_type, fields, offset_nanos);
    lemma_object_header(obj_type, fields, offset_nanos);
    let s = obj.subrange(0, 4);
    assert(s[0] == obj[0] && s[1] == obj[1] && s[2] == obj[2] && s[3] == obj[3]);
    law_integers_are_little_endian(obj, 4);
    law_integers_are_little_endian(obj, 6);
    law_integers_are_little_endian(obj, 8);
    law_integers_are_little_endian(obj, 12);
    law_integers_are_little_endian(obj, 16);
    law_integers_are_little_endian(obj, 24);
    assert(empty_between(obj, 20, 24));
    assert forall|i: int| 0 <= i < fields.len() implies obj[32 + i] == #[trigger] fields[i] by {
        assert(obj.skip(32)[i] == fields[i]);
    }
    assert forall|i: int| 32 <= i < obj.len() implies #[trigger] obj[i] == fields[i - 32] by {
        assert(obj.skip(32)[i - 32] == fields[i - 32]);
    }
}

/// Numbers of fields are where they are in the object.
proof fn lemma_numbers_behind(obj: Seq<u8>, fields: Seq<u8>, at: int)
    requires
        0 <= at,
        at + 4 <= fields.len(),
        obj.len() == 32 + fields.len(),
        forall|i: int| 0 <= i < fields.len() ==> obj[32 + i] == #[trigger] fields[i],
    ensures
        number(obj, 32 + at, 2) == u16_at(fields, at),
        number(obj, 32 + at, 4) == u32_at(fields, at),
{
    law_integers_are_little_endian(obj, 32 + at);
    assert(obj[32 + at] == fields[at] && obj[32 + (at + 1)] == fields[at + 1]);
    assert(obj[32 + (at + 2)] == fields[at + 2] && obj[32 + (at + 3)] == fields[at + 3]);
}

/// The fields of a classic frame.
proof fn lemma_can_field_bytes<T>(m: MessageView<T>)
    ensures
        ({
            let f = can_fields(m);
            &&& f.len() == 16
            &&& u16_at(f, 0) == channel_to_log(m.channel)
            &&& f[2] == flags_field(m.is_remote_frame, m.is_rx)
            &&& f[3] == m.dlc
            &&& u32_at(f, 4) == id_field(m.arbitration_id, m.is_extended_id)
            &&& holds_data(f, 8, 8, m.data)
        }),
{
    let f = can_fields(m);
    let id = id_field(m.arbitration_id, m.is_extended_id);
    assert(f.subrange(0, 2) =~= u16_bytes(channel_to_log(m.channel)));
    lemma_u16_here(f, 0, channel_to_log(m.channel));
    assert(f.subrange(4, 8) =~= u32_bytes(id));
    lemma_u32_here(f, 4, id);
    assert forall|i: int| 0 <= i < 8 implies #[trigger] f[8 + i] == if i < m.data.len() {
        m.data[i]
    } else {
        0
    } by {
        assert(f[8 + i] == data_field(m.data, 8)[i]);
    }
}

/// Data are the same in an object as in its fields.
proof fn lemma_data_behind(obj: Seq<u8>, fields: Seq<u8>, at: int, room: int, data: Seq<u8>)
    requires
        0 <= at,
        at + room <= fields.len(),
        obj.len() == 32 + fields.len(),
        forall|i: int| 0 <= i < fields.len() ==> obj[32 + i] == #[trigger] fields[i],
        holds_data(fields, at, room, data),
    ensures
        holds_data(obj, 32 + at, room, data),
{
    assert forall|i: int| 0 <= i < room implies #[trigger] obj[32 + at + i] == if i < data.len() {
        data[i]
    } else {
        0
    } by {
        assert(obj[32 + (at + i)] == fields[at + i]);
    }
}

/// A classic frame is written as an object of type 1 and 48 bytes: the channel, counted from
/// 1, the flags, the length code, the id, and eight bytes of data.
#[verifier::rlimit(40)]
pub proof fn law_classic_bytes<T>(m: MessageView<T>, offset_nanos: u64)
    requires
        !m.is_error_frame,
        !m.is_fd,
    ensures
        ({
            let obj = message_object(m, offset_nanos);
            &&& is_written(obj, 1, 48, offset_nanos as int)
            &&& number(obj, 32, 2) == least(m.channel + 1, 65_535)
            &&& obj[34] == (if m.is_remote_frame {
                128int
            } else {
                0
            }) + (if m.is_rx {
                0int
            } else {
                1
            })
            &&& obj[35] == m.dlc
            &&& number(obj, 36, 4) == marked_id(m.arbitration_id, m.is_extended_id)
            &&& holds_data(obj, 40, 8, m.data)
        }),
{
    reveal(message_object);
    let f = can_fields(m);
    let obj = message_object(m, offset_nanos);
    lemma_marked_id(m.arbitration_id);
    lemma_can_field_bytes(m);
    lemma_written(CAN_MESSAGE, f, offset_nanos);
    lemma_numbers_behind(obj, f, 0);
    lemma_numbers_behind(obj, f, 4);
    lemma_data_behind(obj, f, 8, 8, m.data);
    assert(obj[34] == f[2] && obj[35] == f[3]);
}

/// A CAN FD frame is written as an object of type 100 and 116 bytes: the channel, the flags,
/// the smallest code with room for its length, the id, the CAN FD flags, the number of data
/// bytes, and 64 bytes of data.
#[verifier::rlimit(40)]
pub proof fn law_fd_bytes<T>(m: MessageView<T>, offset_nanos: u64)
    requires
        !m.is_error_frame,
        m.is_fd,
    ensures
        ({
            let obj = message_object(m, offset_nanos);
            &&& is_written(obj, 100, 116, offset_nanos as int)
            &&& number(obj, 32, 2) == least(m.channel + 1, 65_535)
            &&& obj[34] == (if m.is_remote_frame {
                128int
            } else {
                0
            }) + (if m.is_rx {
                0int
            } else {
                1
            })
            &&& is_code_for(obj[35] as int, m.dlc as int)
            &&& number(obj, 36, 4) == marked_id(m.arbitration_id, m.is_extended_id)
            &&& empty_between(obj, 40, 45)
            &&& obj[45] == 1 + (if m.bitrate_switch {
                2int
            } else {
                0
            }) + (if m.error_state_indicator {
                4int
            } else {
                0
            })
            &&& obj[46] == least(m.data.len() as int, 64)
            &&& empty_between(obj, 47, 52)
            &&& holds_data(obj, 52, 64, m.data)
        }),
{
    reveal(message_object);
    let f = fd_fields(m);
    let obj = message_object(m, offset_nanos);
    lemma_marked_id(m.arbitration_id);
    law_codes_have_room(m.dlc as int);
    assert(f.len() == 84);
    lemma_written(CAN_FD_MESSAGE, f, offset_nanos);
    let id = id_field(m.arbitration_id, m.is_extended_id);
    assert(f.subrange(0, 2) =~= u16_bytes(channel_to_log(m.channel)));
    lemma_u16_here(f, 0, channel_to_log(m.channel));
    assert(f.subrange(4, 8) =~= u32_bytes(id));
    lemma_u32_here(f, 4, id);
    lemma_numbers_behind(obj, f, 0);
    lemma_numbers_behind(obj, f, 4);
    assert(f[2] == flags_field(m.is_remote_frame, m.is_rx) && f[3] == fd_code(m.dlc as int));
    assert(obj[34] == f[2] && obj[35] == f[3]);
    assert(f[13] == fd_flags_field(m.bitrate_switch, m.error_state_indicator));
    assert(obj[45] == f[13] && obj[46] == f[14]);
    assert forall|i: int| 40 <= i < 45 implies #[trigger] obj[i] == 0 by {
        assert(f[i - 32] == zeros(5)[i - 40]);
    }
    assert forall|i: int| 47 <= i < 52 implies #[trigger] obj[i] == 0 by {
        assert(f[i - 32] == zeros(5)[i - 47]);
    }
    assert forall|i: int| 0 <= i < 64 implies #[trigger] obj[52 + i] == if i < m.data.len() {
        m.data[i]
    } else {
        0
    } by {
        assert(obj[52 + i] == f[20 + i]);
        assert(f[20 + i] == data_field(m.data, 64)[i]);
    }
}

/// An error frame is written as an object of type 73 and 64 bytes.
#[verifier::rlimit(40)]
pub proof fn law_error_bytes<T>(m: MessageView<T>, offset_nanos: u64)
    requires
        m.is_error_frame,
    ensures
        ({
            let obj = message_object(m, offset_nanos);
            &&& is_written(obj, 73, 64, offset_nanos as int)
            &&& number(obj, 32, 2) == least(m.channel + 1, 65_535)
            &&& empty_between(obj, 34, 42)
            &&& is_code_for(obj[42] as int, m.dlc as int)
            &&& empty_between(obj, 43, 48)
            &&& number(obj, 48, 4) == marked_id(m.arbitration_id, m.is_extended_id)
            &&& empty_between(obj, 52, 56)
            &&& holds_data(obj, 56, 8, m.data)
        }),
{
    reveal(message_object);
    let f = error_fields(m);
    let obj = message_object(m, offset_nanos);
    lemma_marked_id(m.arbitration_id);
    law_codes_have_room(m.dlc as int);
    assert(f.len() == 32);
    lemma_written(CAN_ERROR_EXT, f, offset_nanos);
    let id = id_field(m.arbitration_id, m.is_extended_id);
    assert(f.subrange(0, 2) =~= u16_bytes(channel_to_log(m.channel)));
    lemma_u16_here(f, 0, channel_to_log(m.channel));
    assert(f.subrange(16, 20) =~= u32_bytes(id));
    lemma_u32_here(f, 16, id);
    lemma_numbers_behind(obj, f, 0);
    lemma_numbers_behind(obj, f, 16);
    assert(f[10] == fd_code(m.dlc as int) && f[11] == 0);
    assert(obj[42] == f[10] && obj[43] == f[11]);
    assert forall|i: int| 34 <= i < 42 implies #[trigger] obj[i] == 0 by {
        assert(f[i - 32] == zeros(8)[i - 34]);
    }
    assert forall|i: int| 43 <= i < 48 implies #[trigger] obj[i] == 0 by {
        if i > 43 {
            assert(f[i - 32] == zeros(4)[i - 44]);
        }
    }
    assert forall|i: int| 52 <= i < 56 implies #[trigger] obj[i] == 0 by {
        assert(f[i - 32] == zeros(4)[i - 52]);
    }
    assert forall|i: int| 0 <= i < 8 implies #[trigger] obj[56 + i] == if i < m.data.len() {
        m.data[i]
    } else {
        0
    } by {
        assert(obj[56 + i] == f[24 + i]);
        assert(f[24 + i] == data_field(m.data, 8)[i]);
    }
}

/// How a container stores a piece at a compression level: as it is at level 0, as a zlib
/// stream of that level above, and of level 6 below.
pub open spec fn is_stored_as(level: i32, piece: Seq<u8>, method: int, data: Seq<u8>) -> bool {
    if level == 0 {
        method == 0 && data == piece
    } else {
        method == 2 && zlib_deflated(
            piece,
            if level < 0 {
                6
            } else {
                level as u32
            },
        ) == Ok::<Seq<u8>, std::io::Error>(data)
    }
}

/// Whether bytes are a container of a piece that it stores as `data`: a header that says its
/// size, its type 10 and its method, the number of bytes of the piece, and behind 32 bytes the
/// data and as many zeros as the size is beyond a multiple of four.
pub open spec fn is_container(
    bytes: Seq<u8>,
    method: int,
    data: Seq<u8>,
    piece_len: int,
) -> bool {
    let size = number(bytes, 8, 4);
    &&& 32 + data.len() <= u32::MAX ==> size == 32 + data.len()
    &&& bytes.len() == 32 + data.len() + size % 4
    &&& has_letters(bytes, 0)
    &&& number(bytes, 4, 2) == 16
    &&& number(bytes, 6, 2) == 1
    &&& number(bytes, 12, 4) == 10
    &&& number(bytes, 16, 2) == method
    &&& empty_between(bytes, 18, 24)
    &&& number(bytes, 24, 4) == piece_len
    &&& empty_between(bytes, 28, 32)
    &&& forall|i: int| 0 <= i < data.len() ==> #[trigger] bytes[32 + i] == data[i]
    &&& empty_between(bytes, (32 + data.len()) as int, bytes.len() as int)
}

/// What stands before the stored bytes.
proof fn lemma_container_front(method: u16, size: u32, piece_len: u32)
    ensures
        ({
            let head = crate::blf::session::container_head(method, size, piece_len);
            &&& head.len() == 32
            &&& has_letters(head, 0)
            &&& number(head, 4, 2) == 16
            &&& number(head, 6, 2) == 1
            &&& number(head, 8, 4) == size
            &&& number(head, 12, 4) == 10
            &&& number(head, 16, 2) == method
            &&& empty_between(head, 18, 24)
            &&& number(head, 24, 4) == piece_len
            &&& empty_between(head, 28, 32)
        }),
{
    let head = crate::blf::session::container_head(method, size, piece_len);
    assert(head.subrange(4, 6) =~= u16_bytes(16));
    assert(head.subrange(6, 8) =~= u16_bytes(1));
    assert(head.subrange(8, 12) =~= u32_bytes(size));
    assert(head.subrange(12, 16) =~= u32_bytes(10));
    assert(head.subrange(16, 18) =~= u16_bytes(method));
    assert(head.subrange(24, 28) =~= u32_bytes(piece_len));
    lemma_u16_here(head, 4, 16);
    lemma_u16_here(head, 6, 1);
    lemma_u32_here(head, 8, size);
    lemma_u32_here(head, 12, 10);
    lemma_u16_here(head, 16, method);
    lemma_u32_here(head, 24, piece_len);
    law_integers_are_little_endian(head, 4);
    law_integers_are_little_endian(head, 6);
    law_integers_are_little_endian(head, 8);
    law_integers_are_little_endian(head, 12);
    law_integers_are_little_endian(head, 16);
    law_integers_are_little_endian(head, 24);
}

/// A number is the same where its bytes are.
proof fn lemma_same_number(a: Seq<u8>, b: Seq<u8>, at: int, n: int)
    requires
        forall|i: int| at <= i < at + n ==> #[trigger] a[i] == b[i],
    ensures
        number(a, at, n) == number(b, at, n),
    decreases n,
{
    if n > 0 {
        lemma_same_number(a, b, at + 1, n - 1);
    }
}

/// The bytes of a container are what they are meant to be.
pub proof fn law_container_bytes(method: u16, data: Seq<u8>, piece_len: int)
    requires
        0 <= piece_len <= u32::MAX,
    ensures
        is_container(container_bytes(method, data, piece_len), method as int, data, piece_len),
{
    let bytes = container_bytes(method, data, piece_len);
    let size = (32 + data.len()) as u32;
    let head = crate::blf::session::container_head(method, size, piece_len as u32);
    lemma_container_front(method, size, piece_len as u32);
    let pad = zeros(size as int % 4);
    assert(bytes =~= head + data + pad);
    assert forall|i: int| 0 <= i < 32 implies #[trigger] bytes[i] == head[i] by {}
    lemma_same_number(bytes, head, 4, 2);
    lemma_same_number(bytes, head, 6, 2);
    lemma_same_number(bytes, head, 8, 4);
    lemma_same_number(bytes, head, 12, 4);
    lemma_same_number(bytes, head, 16, 2);
    lemma_same_number(bytes, head, 24, 4);
    assert forall|i: int| 32 + data.len() <= i < bytes.len() implies #[trigger] bytes[i] == 0 by {
        assert(bytes[i] == pad[i - 32 - data.len()]);
    }
}

/// A flush takes the first 131072 bytes that a writer has, or all where it has fewer, and
/// gives a container of them, whose header says how many they are; the rest stays. Where the
/// piece cannot be compressed it is lost, and the error is handed on. Nothing but the buffer
/// changes, and what the container adds when it is stored.
pub proof fn law_flushes(w: WriterView)
    ensures
        w.buffer.len() == 0 ==> flush_of(w).0 == Ok::<Seq<u8>, ErrorView>(Seq::empty())
            && flush_of(w).1 == (WriterView { unstored: 0, ..w }),
        w.buffer.len() > 0 ==> {
            let n = least(w.buffer.len() as int, 131_072);
            let piece = w.buffer.subrange(0, n);
            let rest = w.buffer.subrange(n, w.buffer.len() as int);
            match flush_of(w) {
                (Ok(bytes), after) => {
                    &&& exists|method: int, data: Seq<u8>| #[trigger]
                        is_stored_as(w.compression_level, piece, method, data) && is_container(
                            bytes,
                            method,
                            data,
                            n,
                        )
                    &&& number(bytes, 24, 4) == n
                    &&& after == (WriterView { buffer: rest, unstored: (32 + n) as u64, ..w })
                },
                (Err(e), after) => {
                    &&& w.compression_level != 0
                    &&& e matches ErrorView::Io(why) && zlib_deflated(
                        piece,
                        if w.compression_level < 0 {
                            6
                        } else {
                            w.compression_level as u32
                        },
                    ) == Err::<Seq<u8>, std::io::Error>(why)
                    &&& after == (WriterView { buffer: rest, unstored: 0, ..w })
                },
            }
        },
{
    if w.buffer.len() > 0 {
        let n = least(w.buffer.len() as int, 131_072);
        let piece = w.buffer.subrange(0, n);
        assert(next_piece(w) =~= piece);
        assert(w.buffer.skip(n) =~= w.buffer.subrange(n, w.buffer.len() as int));
        if let Ok((method, data)) = crate::blf::writer::stored(w.compression_level, piece) {
            law_container_bytes(method, data, n);
            assert(is_stored_as(w.compression_level, piece, method as int, data));
        }
    }
}

/// A writer that receives a message appends its object, counts it, and keeps its time as the
/// last; the first message also sets the start of the log. Where it then has 131072 bytes or
/// more it flushes, and else gives nothing.
pub proof fn law_receiving(
    w: WriterView,
    m: MessageView<Timestamp>,
    start: Timestamp,
    offset_nanos: u64,
)
    ensures
        ({
            let added = WriterView {
                buffer: w.buffer + message_object(m, offset_nanos),
                object_count: if w.object_count == u32::MAX {
                    0
                } else {
                    (w.object_count + 1) as u32
                },
                start_timestamp: if w.start_timestamp is None {
                    Some(start)
                } else {
                    w.start_timestamp
                },
                stop_timestamp: Some(m.timestamp),
                unstored: 0,
                ..w
            };
            receive_of(w, m, start, offset_nanos) == if added.buffer.len() >= 131_072 {
                flush_of(added)
            } else {
                (Ok::<Seq<u8>, ErrorView>(Seq::empty()), added)
            }
        }),
{
    crate::blf::laws::law_object_size(m, offset_nanos);
}

/// A new writer has nothing and counts the 144 bytes of its header; what is stored adds to
/// that.
pub proof fn law_what_is_counted(level: i32, w: WriterView)
    ensures
        ({
            let fresh = new_writer(level);
            &&& fresh.compression_level == level
            &&& fresh.buffer.len() == 0 && fresh.object_count == 0 && fresh.unstored == 0
            &&& fresh.uncompressed_size == 144
            &&& fresh.start_timestamp is None && fresh.stop_timestamp is None && !fresh.finished
        }),
        DEFAULT_LEVEL as int == -1,
        w.uncompressed_size + w.unstored <= u64::MAX ==> stored_of(w) == (WriterView {
            uncompressed_size: (w.uncompressed_size + w.unstored) as u64,
            unstored: 0,
            ..w
        }),
{
}

/// The file header of a log has 144 bytes: the letters `LOGG`, its own size, who made the log,
/// the size of the log, its uncompressed size and its number of objects, and the eight numbers
/// each of the moments at which it starts and stops.
#[verifier::rlimit(40)]
pub proof fn law_file_header_bytes(w: WriterView, file_size: u64)
    ensures
        ({
            let h = header_bytes(w, file_size);
            &&& h.len() == 144
            &&& h[0] == 76 && h[1] == 79 && h[2] == 71 && h[3] == 71
            &&& number(h, 4, 4) == 144
            &&& h[8] == 5 && h[9] == 0 && h[10] == 0 && h[11] == 0
            &&& h[12] == 2 && h[13] == 6 && h[14] == 8 && h[15] == 1
            &&& number(h, 16, 8) == file_size
            &&& number(h, 24, 8) == w.uncompressed_size
            &&& number(h, 32, 4) == w.object_count
            &&& empty_between(h, 36, 40)
            &&& forall|i: int|
                0 <= i < 8 ==> #[trigger] number(h, 40 + 2 * i, 2) == system_time(
                    w.start_timestamp,
                )[i]
            &&& forall|i: int|
                0 <= i < 8 ==> #[trigger] number(h, 56 + 2 * i, 2) == system_time(
                    w.stop_timestamp,
                )[i]
            &&& empty_between(h, 72, 144)
        }),
{
    let h = header_bytes(w, file_size);
    let start = u16_list_bytes(system_time(w.start_timestamp));
    let stop = u16_list_bytes(system_time(w.stop_timestamp));
    lemma_u16_list(system_time(w.start_timestamp));
    lemma_u16_list(system_time(w.stop_timestamp));
    let head = header_head(w, file_size);
    lemma_header_head(w, file_size);
    assert(h =~= head + start + stop + zeros(72));
    assert forall|i: int| 0 <= i < 40 implies #[trigger] h[i] == head[i] by {}
    lemma_same_number(h, head, 4, 4);
    lemma_same_number(h, head, 16, 8);
    lemma_same_number(h, head, 24, 8);
    lemma_same_number(h, head, 32, 4);
    assert forall|i: int| 0 <= i < 8 implies #[trigger] number(h, 40 + 2 * i, 2) == system_time(
        w.start_timestamp,
    )[i] by {
        assert(u16_at(start, 2 * i) == system_time(w.start_timestamp)[i]);
        assert(h[40 + 2 * i] == start[2 * i] && h[40 + 2 * i + 1] == start[2 * i + 1]);
        law_integers_are_little_endian(h, 40 + 2 * i);
    }
    assert forall|i: int| 0 <= i < 8 implies #[trigger] number(h, 56 + 2 * i, 2) == system_time(
        w.stop_timestamp,
    )[i] by {
        assert(u16_at(stop, 2 * i) == system_time(w.stop_timestamp)[i]);
        assert(h[56 + 2 * i] == stop[2 * i] && h[56 + 2 * i + 1] == stop[2 * i + 1]);
        law_integers_are_little_endian(h, 56 + 2 * i);
    }
    assert forall|i: int| 72 <= i < 144 implies #[trigger] h[i] == 0 by {
        assert(h[i] == zeros(72)[i - 72]);
    }
}

/// The file header up to its moments.
spec fn header_head(w: WriterView, file_size: u64) -> Seq<u8> {
    seq![76u8, 79u8, 71u8, 71u8] + u32_bytes(144) + seq![5u8, 0u8, 0u8, 0u8, 2u8, 6u8, 8u8, 1u8]
        + u64_bytes(file_size) + u64_bytes(w.uncompressed_size) + u32_bytes(w.object_count)
        + u32_bytes(0)
}

proof fn lemma_header_head(w: WriterView, file_size: u64)
    ensures
        ({
            let h = header_head(w, file_size);
            &&& h.len() == 40
            &&& h[0] == 76 && h[1] == 79 && h[2] == 71 && h[3] == 71
            &&& number(h, 4, 4) == 144
            &&& h[8] == 5 && h[9] == 0 && h[10] == 0 && h[11] == 0
            &&& h[12] == 2 && h[13] == 6 && h[14] == 8 && h[15] == 1
            &&& number(h, 16, 8) == file_size
            &&& number(h, 24, 8) == w.uncompressed_size
            &&& number(h, 32, 4) == w.object_count
            &&& empty_between(h, 36, 40)
        }),
{
    let h = header_head(w, file_size);
    let a = seq![76u8, 79u8, 71u8, 71u8];
    let b = a + u32_bytes(144) + seq![5u8, 0u8, 0u8, 0u8, 2u8, 6u8, 8u8, 1u8];
    let c = b + u64_bytes(file_size);
    let d = c + u64_bytes(w.uncompressed_size);
    assert(h =~= a + u32_bytes(144) + h.skip(8));
    law_u32_read_back(a, 144, h.skip(8));
    assert(h =~= b + u64_bytes(file_size) + h.skip(24));
    law_u64_read_back(b, file_size, h.skip(24));
    assert(h =~= c + u64_bytes(w.uncompressed_size) + h.skip(32));
    law_u64_read_back(c, w.uncompressed_size, h.skip(32));
    assert(h =~= d + u32_bytes(w.object_count) + h.skip(36));
    law_u32_read_back(d, w.object_count, h.skip(36));
    law_integers_are_little_endian(h, 4);
    law_integers_are_little_endian(h, 16);
    law_integers_are_little_endian(h, 24);
    law_integers_are_little_endian(h, 32);
}

} // verus!
