//! Writing of a log.

use vstd::prelude::*;
use vstd::slice::slice_subrange;

use crate::blf::format::{
    file_mark, object_mark, BRS, CAN_ERROR_EXT, CAN_FD_MESSAGE, CAN_MESSAGE, CAN_MSG_EXT, DIR, EDL,
    ESI, FILE_HEADER_SIZE, LOG_CONTAINER, LOG_CONTAINER_SIZE, MAX_CONTAINER_SIZE, NO_COMPRESSION,
    OBJ_HEADER_BASE_SIZE, OBJ_HEADER_V1_SIZE, REMOTE_FLAG, TIME_ONE_NANS, ZLIB_DEFLATE,
};
use crate::blf::laws::{law_object_size, object_size};
use crate::blf::session::{holds, lemma_container_holds, Chunk};
use crate::bytes::{
    push_slice, push_u16, push_u32, push_u64, push_zeros, u16_bytes, u32_bytes, u64_bytes, zeros,
};
use crate::calendar::{system_time, timestamp_to_systemtime};
use crate::dlc::{fd_code, len2dlc};
use crate::error::{BlfError, ErrorView};
use crate::message::{Message, MessageView, Timestamp};
use crate::number::at_most;
use crate::zlib::{default_level, deflate, zlib_deflated, MAX_LEVEL};

verus! {

impl View for Message<Timestamp> {
    type V = MessageView<Timestamp>;

    open spec fn view(&self) -> MessageView<Timestamp> {
        self.with_time(self.timestamp)
    }
}

/// A writer of one log. It is given messages and hands back the bytes to store.
pub struct BlfWriter {
    compression_level: i32,
    buffer: Vec<u8>,
    object_count: u32,
    uncompressed_size: u64,
    unstored: u64,
    start_timestamp: Option<Timestamp>,
    stop_timestamp: Option<Timestamp>,
    finished: bool,
}

/// A [`BlfWriter`] as contracts see it.
pub struct WriterView {
    /// Below zero for the default, zero for none.
    pub compression_level: i32,
    /// The part of the inner stream that is in no container yet.
    pub buffer: Seq<u8>,
    /// The number of objects written, modulo 2^32.
    pub object_count: u32,
    /// The size of the log as it is stored, if nothing in it were compressed.
    pub uncompressed_size: u64,
    /// What the bytes that were handed out last add to that size when they are stored.
    pub unstored: u64,
    /// The time of the first message.
    pub start_timestamp: Option<Timestamp>,
    /// The time of the last message.
    pub stop_timestamp: Option<Timestamp>,
    /// Whether the log is complete.
    pub finished: bool,
}

impl View for BlfWriter {
    type V = WriterView;

    closed spec fn view(&self) -> WriterView {
        WriterView {
            compression_level: self.compression_level,
            buffer: self.buffer@,
            object_count: self.object_count,
            uncompressed_size: self.uncompressed_size,
            unstored: self.unstored,
            start_timestamp: self.start_timestamp,
            stop_timestamp: self.stop_timestamp,
            finished: self.finished,
        }
    }
}

/// Stands for the default compression level.
pub const DEFAULT_LEVEL: i32 = -1;

/// What one container adds at most to the uncompressed size.
pub const CONTAINER_GROWTH: u64 = 131_104;

impl WriterView {
    /// Whether a container can be written: the compression level exists, and the
    /// uncompressed size can still grow.
    pub open spec fn usable(self) -> bool {
        self.compression_level <= MAX_LEVEL && self.uncompressed_size <= u64::MAX
            - CONTAINER_GROWTH
    }

    /// Whether a flush is possible: no container has to be written, or one can be.
    pub open spec fn can_flush(self) -> bool {
        self.buffer.len() == 0 || self.usable()
    }

    /// Whether the uncompressed size can grow by what was handed out last. So it is after
    /// every container that could be written.
    pub open spec fn can_store(self) -> bool {
        self.uncompressed_size + self.unstored <= u64::MAX
    }
}

/// A writer that was given nothing yet.
pub open spec fn new_writer(compression_level: i32) -> WriterView {
    WriterView {
        compression_level,
        buffer: Seq::empty(),
        object_count: 0,
        uncompressed_size: FILE_HEADER_SIZE as u64,
        unstored: 0,
        start_timestamp: None,
        stop_timestamp: None,
        finished: false,
    }
}

/// A channel as logs count it.
pub open spec fn channel_to_log(channel: u16) -> u16 {
    if channel == u16::MAX {
        u16::MAX
    } else {
        (channel + 1) as u16
    }
}

/// The id field for an id.
pub open spec fn id_field(id: u32, is_extended: bool) -> u32 {
    if is_extended {
        id | CAN_MSG_EXT
    } else {
        id
    }
}

/// The flags field of a frame.
pub open spec fn flags_field(is_remote: bool, is_rx: bool) -> u8 {
    ((if is_remote {
        REMOTE_FLAG
    } else {
        0
    }) + (if is_rx {
        0
    } else {
        DIR
    })) as u8
}

/// The flags field for the CAN FD properties of a frame.
pub open spec fn fd_flags_field(bitrate_switch: bool, error_state_indicator: bool) -> u8 {
    (EDL + (if bitrate_switch {
        BRS
    } else {
        0
    }) + (if error_state_indicator {
        ESI
    } else {
        0
    })) as u8
}

/// The first `n` bytes of data, filled up with zeros.
pub open spec fn data_field(data: Seq<u8>, n: int) -> Seq<u8> {
    data.take(at_most(data.len() as int, n)) + zeros(n - at_most(data.len() as int, n))
}

/// The fields of a classic frame.
pub open spec fn can_fields<T>(m: MessageView<T>) -> Seq<u8> {
    u16_bytes(channel_to_log(m.channel)) + seq![flags_field(m.is_remote_frame, m.is_rx), m.dlc]
        + u32_bytes(id_field(m.arbitration_id, m.is_extended_id)) + data_field(m.data, 8)
}

/// The fields of a CAN FD frame.
pub open spec fn fd_fields<T>(m: MessageView<T>) -> Seq<u8> {
    u16_bytes(channel_to_log(m.channel)) + seq![
        flags_field(m.is_remote_frame, m.is_rx),
        fd_code(m.dlc as int) as u8,
    ] + u32_bytes(id_field(m.arbitration_id, m.is_extended_id)) + zeros(5) + seq![
        fd_flags_field(m.bitrate_switch, m.error_state_indicator),
        at_most(m.data.len() as int, 64) as u8,
    ] + zeros(5) + data_field(m.data, 64)
}

/// The fields of an error frame.
pub open spec fn error_fields<T>(m: MessageView<T>) -> Seq<u8> {
    u16_bytes(channel_to_log(m.channel)) + zeros(8) + seq![fd_code(m.dlc as int) as u8, 0u8]
        + zeros(4) + u32_bytes(id_field(m.arbitration_id, m.is_extended_id)) + zeros(4)
        + data_field(m.data, 8)
}

/// An object of the inner stream, `offset_nanos` after the start of the log.
pub open spec fn object_bytes(obj_type: u32, fields: Seq<u8>, offset_nanos: u64) -> Seq<u8> {
    object_mark() + u16_bytes(32) + u16_bytes(1) + u32_bytes((32 + fields.len()) as u32)
        + u32_bytes(obj_type) + u32_bytes(TIME_ONE_NANS) + u16_bytes(0) + u16_bytes(0) + u64_bytes(
        offset_nanos,
    ) + fields + zeros(fields.len() as int % 4)
}

/// The object for a message.
#[verifier::opaque]
pub open spec fn message_object<T>(m: MessageView<T>, offset_nanos: u64) -> Seq<u8> {
    if m.is_error_frame {
        object_bytes(CAN_ERROR_EXT, error_fields(m), offset_nanos)
    } else if m.is_fd {
        object_bytes(CAN_FD_MESSAGE, fd_fields(m), offset_nanos)
    } else {
        object_bytes(CAN_MESSAGE, can_fields(m), offset_nanos)
    }
}

/// How a container stores a piece of the inner stream: the method and the stored
/// bytes; or why it cannot be compressed.
pub open spec fn stored(compression_level: i32, piece: Seq<u8>) -> Result<
    (u16, Seq<u8>),
    std::io::Error,
> {
    if compression_level == 0 {
        Ok((NO_COMPRESSION, piece))
    } else {
        let level = if compression_level < 0 {
            6
        } else {
            compression_level as u32
        };
        match zlib_deflated(piece, level) {
            Ok(out) => Ok((ZLIB_DEFLATE, out)),
            Err(e) => Err(e),
        }
    }
}

/// A log container.
pub open spec fn container_bytes(method: u16, data: Seq<u8>, piece_len: int) -> Seq<u8> {
    let obj_size = (32 + data.len()) as u32;
    object_mark() + u16_bytes(OBJ_HEADER_BASE_SIZE as u16) + u16_bytes(1) + u32_bytes(obj_size)
        + u32_bytes(LOG_CONTAINER) + u16_bytes(method) + zeros(6) + u32_bytes(piece_len as u32)
        + zeros(4) + data + zeros(obj_size as int % 4)
}

/// The piece of the inner stream that the next container holds.
pub open spec fn next_piece(w: WriterView) -> Seq<u8> {
    w.buffer.take(at_most(w.buffer.len() as int, MAX_CONTAINER_SIZE as int))
}

/// Whether a reader gets a piece of the inner stream back from the bytes to append, if
/// there are any and their number fits the container's size field.
pub open spec fn gives_back(bytes: Seq<u8>, piece: Seq<u8>) -> bool {
    0 < bytes.len() <= u32::MAX ==> holds(Chunk { bytes, piece })
}

/// The bytes of the next container, and the writer after it. Where the piece cannot be
/// compressed there are none, and the piece is lost.
pub open spec fn flush_of(w: WriterView) -> (Result<Seq<u8>, ErrorView>, WriterView) {
    if w.buffer.len() == 0 {
        (Ok(Seq::empty()), WriterView { unstored: 0, ..w })
    } else {
        let piece = next_piece(w);
        let rest = w.buffer.skip(piece.len() as int);
        match stored(w.compression_level, piece) {
            Ok((method, data)) => (
                Ok(container_bytes(method, data, piece.len() as int)),
                WriterView { buffer: rest, unstored: (32 + piece.len()) as u64, ..w },
            ),
            Err(e) => (Err(ErrorView::Io(e)), WriterView { buffer: rest, unstored: 0, ..w }),
        }
    }
}

/// The writer after the bytes that it handed out last were stored.
pub open spec fn stored_of(w: WriterView) -> WriterView {
    WriterView {
        uncompressed_size: (w.uncompressed_size + w.unstored) as u64,
        unstored: 0,
        ..w
    }
}

/// The writer with a message added to its buffer.
pub open spec fn with_message(
    w: WriterView,
    m: MessageView<Timestamp>,
    start: Timestamp,
    offset_nanos: u64,
) -> WriterView {
    WriterView {
        buffer: w.buffer + message_object(m, offset_nanos),
        object_count: ((w.object_count + 1) % 0x1_0000_0000) as u32,
        start_timestamp: Some(
            match w.start_timestamp {
                Some(s) => s,
                None => start,
            },
        ),
        stop_timestamp: Some(m.timestamp),
        unstored: 0,
        ..w
    }
}

/// What a writer gives to be stored when it receives a message, and what it is
/// afterwards.
pub open spec fn receive_of(
    w: WriterView,
    m: MessageView<Timestamp>,
    start: Timestamp,
    offset_nanos: u64,
) -> (Result<Seq<u8>, ErrorView>, WriterView) {
    let after = with_message(w, m, start, offset_nanos);
    if w.buffer.len() + object_size(m) >= MAX_CONTAINER_SIZE {
        flush_of(after)
    } else {
        (Ok(Seq::empty()), after)
    }
}

/// Whether a writer can receive a message: it fills no container, or one can be written.
pub open spec fn can_receive_of(w: WriterView, m: MessageView<Timestamp>) -> bool {
    w.buffer.len() + object_size(m) < MAX_CONTAINER_SIZE || w.usable()
}

/// The bytes of 16-bit integers, one after the other.
pub open spec fn u16_list_bytes(list: Seq<u16>) -> Seq<u8>
    decreases list.len(),
{
    if list.len() == 0 {
        Seq::empty()
    } else {
        u16_list_bytes(list.drop_last()) + u16_bytes(list.last())
    }
}

/// The file header of a log of the given size.
pub open spec fn header_bytes(w: WriterView, file_size: u64) -> Seq<u8> {
    file_mark() + u32_bytes(FILE_HEADER_SIZE) + seq![5u8, 0u8, 0u8, 0u8, 2u8, 6u8, 8u8, 1u8]
        + u64_bytes(file_size) + u64_bytes(w.uncompressed_size) + u32_bytes(w.object_count)
        + u32_bytes(0) + u16_list_bytes(system_time(w.start_timestamp)) + u16_list_bytes(
        system_time(w.stop_timestamp),
    ) + zeros(72)
}

/// Appends the file or object mark given by its four bytes.
fn push_mark(buf: &mut Vec<u8>, b0: u8, b1: u8, b2: u8, b3: u8)
    ensures
        final(buf)@ == old(buf)@ + seq![b0, b1, b2, b3],
{
    buf.push(b0);
    buf.push(b1);
    buf.push(b2);
    buf.push(b3);
    assert(buf@ =~= old(buf)@ + seq![b0, b1, b2, b3]);
}

/// Appends two bytes.
fn push_two(buf: &mut Vec<u8>, a: u8, b: u8)
    ensures
        final(buf)@ == old(buf)@ + seq![a, b],
{
    buf.push(a);
    buf.push(b);
    assert(buf@ =~= old(buf)@ + seq![a, b]);
}

/// Appends the first `n` bytes of data, filled up with zeros.
fn push_data(buf: &mut Vec<u8>, data: &[u8], n: usize)
    ensures
        final(buf)@ == old(buf)@ + data_field(data@, n as int),
{
    let len: usize = if data.len() <= n {
        data.len()
    } else {
        n
    };
    let first: &[u8] = slice_subrange(data, 0, len);
    assert(first@ =~= data@.take(len as int));
    push_slice(buf, first);
    push_zeros(buf, n - len);
    assert(buf@ =~= old(buf)@ + data_field(data@, n as int));
}

/// The id field for a message.
fn message_id_field(msg: &Message<Timestamp>) -> (id: u32)
    ensures
        id == id_field(msg.arbitration_id, msg.is_extended_id),
{
    if msg.is_extended_id {
        msg.arbitration_id | CAN_MSG_EXT
    } else {
        msg.arbitration_id
    }
}

/// The flags field for a message.
fn message_flags_field(msg: &Message<Timestamp>) -> (flags: u8)
    ensures
        flags == flags_field(msg.is_remote_frame, msg.is_rx),
{
    let remote: u8 = if msg.is_remote_frame {
        REMOTE_FLAG
    } else {
        0
    };
    let direction: u8 = if msg.is_rx {
        0
    } else {
        DIR
    };
    remote + direction
}

/// The flags field for the CAN FD properties of a message.
fn message_fd_flags_field(msg: &Message<Timestamp>) -> (flags: u8)
    ensures
        flags == fd_flags_field(msg.bitrate_switch, msg.error_state_indicator),
{
    let brs: u8 = if msg.bitrate_switch {
        BRS
    } else {
        0
    };
    let esi: u8 = if msg.error_state_indicator {
        ESI
    } else {
        0
    };
    EDL + brs + esi
}

/// The fields of a classic frame.
fn write_can_message(msg: &Message<Timestamp>) -> (fields: Vec<u8>)
    ensures
        fields@ == can_fields(msg@),
        fields@.len() == 16,
{
    let mut fields: Vec<u8> = Vec::new();
    push_u16(&mut fields, msg.channel.saturating_add(1));
    push_two(&mut fields, message_flags_field(msg), msg.dlc);
    push_u32(&mut fields, message_id_field(msg));
    push_data(&mut fields, &msg.data, 8);
    assert(fields@ =~= can_fields(msg@));
    fields
}

/// The fields of a CAN FD frame.
fn write_can_fd_message(msg: &Message<Timestamp>) -> (fields: Vec<u8>)
    ensures
        fields@ == fd_fields(msg@),
        fields@.len() == 84,
{
    let valid: u8 = if msg.data.len() <= 64 {
        msg.data.len() as u8
    } else {
        64
    };
    let mut fields: Vec<u8> = Vec::new();
    push_u16(&mut fields, msg.channel.saturating_add(1));
    push_two(&mut fields, message_flags_field(msg), len2dlc(msg.dlc));
    push_u32(&mut fields, message_id_field(msg));
    push_zeros(&mut fields, 5);
    push_two(&mut fields, message_fd_flags_field(msg), valid);
    push_zeros(&mut fields, 5);
    push_data(&mut fields, &msg.data, 64);
    assert(fields@ =~= fd_fields(msg@));
    fields
}

/// The fields of an error frame.
fn write_can_error_ext(msg: &Message<Timestamp>) -> (fields: Vec<u8>)
    ensures
        fields@ == error_fields(msg@),
        fields@.len() == 32,
{
    let mut fields: Vec<u8> = Vec::new();
    push_u16(&mut fields, msg.channel.saturating_add(1));
    push_zeros(&mut fields, 8);
    push_two(&mut fields, len2dlc(msg.dlc), 0);
    push_zeros(&mut fields, 4);
    push_u32(&mut fields, message_id_field(msg));
    push_zeros(&mut fields, 4);
    push_data(&mut fields, &msg.data, 8);
    assert(fields@ =~= error_fields(msg@));
    fields
}

/// Appends an object of the inner stream.
fn push_object(buf: &mut Vec<u8>, obj_type: u32, fields: &[u8], offset_nanos: u64)
    requires
        fields@.len() <= 84,
    ensures
        final(buf)@ == old(buf)@ + object_bytes(obj_type, fields@, offset_nanos),
{
    let header_size: usize = OBJ_HEADER_BASE_SIZE + OBJ_HEADER_V1_SIZE;
    push_mark(buf, 0x4c, 0x4f, 0x42, 0x4a);
    push_u16(buf, header_size as u16);
    push_u16(buf, 1);
    push_u32(buf, (header_size + fields.len()) as u32);
    push_u32(buf, obj_type);
    push_u32(buf, TIME_ONE_NANS);
    push_u16(buf, 0);
    push_u16(buf, 0);
    push_u64(buf, offset_nanos);
    push_slice(buf, fields);
    push_zeros(buf, fields.len() % 4);
    assert(buf@ =~= old(buf)@ + object_bytes(obj_type, fields@, offset_nanos));
}

/// A log container that stores the given bytes for a piece of the inner stream.
pub fn container(method: u16, data: &[u8], piece_len: usize) -> (bytes: Vec<u8>)
    requires
        piece_len <= MAX_CONTAINER_SIZE,
    ensures
        bytes@ == container_bytes(method, data@, piece_len as int),
{
    let header_size: usize = OBJ_HEADER_BASE_SIZE + LOG_CONTAINER_SIZE;
    let obj_size: u32 = (header_size as u128 + data.len() as u128) as u32;
    let mut bytes: Vec<u8> = Vec::new();
    push_mark(&mut bytes, 0x4c, 0x4f, 0x42, 0x4a);
    push_u16(&mut bytes, OBJ_HEADER_BASE_SIZE as u16);
    push_u16(&mut bytes, 1);
    push_u32(&mut bytes, obj_size);
    push_u32(&mut bytes, LOG_CONTAINER);
    push_u16(&mut bytes, method);
    push_zeros(&mut bytes, 6);
    push_u32(&mut bytes, piece_len as u32);
    push_zeros(&mut bytes, 4);
    push_slice(&mut bytes, data);
    push_zeros(&mut bytes, (obj_size % 4) as usize);
    assert(bytes@ =~= container_bytes(method, data@, piece_len as int));
    bytes
}

/// Appends 16-bit integers.
fn push_u16_list(buf: &mut Vec<u8>, list: &[u16])
    ensures
        final(buf)@ == old(buf)@ + u16_list_bytes(list@),
{
    let mut i: usize = 0;
    assert(buf@ =~= old(buf)@ + u16_list_bytes(list@.take(0)));
    while i < list.len()
        invariant
            i <= list@.len(),
            buf@ == old(buf)@ + u16_list_bytes(list@.take(i as int)),
        decreases list@.len() - i,
    {
        let ghost next = list@.take(i + 1);
        assert(next.drop_last() =~= list@.take(i as int));
        push_u16(buf, list[i]);
        i = i + 1;
        assert(buf@ =~= old(buf)@ + u16_list_bytes(next));
    }
    assert(list@.take(i as int) =~= list@);
}

impl BlfWriter {
    /// A writer of a log at the default compression level, and the file header with
    /// which the log starts for now.
    pub fn create() -> (res: (BlfWriter, Vec<u8>))
        ensures
            res.0@ == new_writer(DEFAULT_LEVEL),
            res.1@ == header_bytes(new_writer(DEFAULT_LEVEL), FILE_HEADER_SIZE as u64),
            res.1@.len() == FILE_HEADER_SIZE,
    {
        BlfWriter::create_with_level(DEFAULT_LEVEL)
    }

    /// A writer of a log at the given compression level, and the file header with
    /// which the log starts for now. Level 0 stores the messages uncompressed, and a
    /// level below 0 stands for the default.
    pub fn create_with_level(compression_level: i32) -> (res: (BlfWriter, Vec<u8>))
        ensures
            res.0@ == new_writer(compression_level),
            res.1@ == header_bytes(new_writer(compression_level), FILE_HEADER_SIZE as u64),
            res.1@.len() == FILE_HEADER_SIZE,
    {
        let writer = BlfWriter {
            compression_level,
            buffer: Vec::new(),
            object_count: 0,
            uncompressed_size: FILE_HEADER_SIZE as u64,
            unstored: 0,
            start_timestamp: None,
            stop_timestamp: None,
            finished: false,
        };
        assert(writer.buffer@ =~= Seq::empty());
        let header: Vec<u8> = writer.header(FILE_HEADER_SIZE as u64);
        (writer, header)
    }

    /// Whether a container can be written: the compression level exists, and the
    /// uncompressed size can still grow.
    fn is_usable(&self) -> (res: bool)
        ensures
            res == self@.usable(),
    {
        (self.compression_level < 0 || self.compression_level as u32 <= MAX_LEVEL)
            && self.uncompressed_size <= u64::MAX - CONTAINER_GROWTH
    }

    /// Whether a flush is possible: no container has to be written, or one can be.
    pub fn can_flush(&self) -> (res: bool)
        ensures
            res == self@.can_flush(),
    {
        self.buffer.len() == 0 || self.is_usable()
    }

    /// Whether a message can be received: it fills no container, or one can be written.
    pub fn can_receive(&self, msg: &Message<Timestamp>) -> (res: bool)
        ensures
            res == can_receive_of(self@, msg@),
    {
        let size: usize = if msg.is_error_frame {
            64
        } else if msg.is_fd {
            116
        } else {
            48
        };
        self.buffer.len() < MAX_CONTAINER_SIZE - size || self.is_usable()
    }

    /// The moment from which the times of messages are counted, once there is one.
    pub fn start_timestamp(&self) -> (start: Option<Timestamp>)
        ensures
            start == self@.start_timestamp,
    {
        self.start_timestamp
    }

    /// Adds a message that was seen `offset_nanos` after the start of the log, and
    /// gives the bytes to append to the log and then to mark as stored: those of a
    /// container where one is full, else none. `start` becomes the start of the log with
    /// the first message.
    pub fn on_message_received(
        &mut self,
        msg: &Message<Timestamp>,
        start: Timestamp,
        offset_nanos: u64,
    ) -> (res: Result<Vec<u8>, BlfError>)
        requires
            can_receive_of(old(self)@, msg@),
        ensures
            final(self)@ == receive_of(old(self)@, msg@, start, offset_nanos).1,
            match res {
                Ok(bytes) => receive_of(old(self)@, msg@, start, offset_nanos).0 == Ok::<
                    Seq<u8>,
                    ErrorView,
                >(bytes@) && gives_back(
                    bytes@,
                    next_piece(with_message(old(self)@, msg@, start, offset_nanos)),
                ),
                Err(e) => receive_of(old(self)@, msg@, start, offset_nanos).0 == Err::<
                    Seq<u8>,
                    ErrorView,
                >(e@),
            },
    {
        proof {
            law_object_size(msg@, offset_nanos);
            reveal(message_object);
        }
        if msg.is_error_frame {
            let fields: Vec<u8> = write_can_error_ext(msg);
            push_object(&mut self.buffer, CAN_ERROR_EXT, &fields, offset_nanos);
        } else if msg.is_fd {
            let fields: Vec<u8> = write_can_fd_message(msg);
            push_object(&mut self.buffer, CAN_FD_MESSAGE, &fields, offset_nanos);
        } else {
            let fields: Vec<u8> = write_can_message(msg);
            push_object(&mut self.buffer, CAN_MESSAGE, &fields, offset_nanos);
        }
        if self.start_timestamp.is_none() {
            self.start_timestamp = Some(start);
        }
        self.stop_timestamp = Some(msg.timestamp);
        self.object_count = self.object_count.wrapping_add(1);
        self.unstored = 0;
        assert(self@ == with_message(old(self)@, msg@, start, offset_nanos));
        if self.buffer.len() >= MAX_CONTAINER_SIZE {
            self.flush()
        } else {
            let none: Vec<u8> = Vec::new();
            assert(none@ =~= Seq::empty());
            Ok(none)
        }
    }

    /// Moves the next piece of what was added into a container, and gives the bytes
    /// to append to the log; none where nothing is left.
    pub fn flush(&mut self) -> (res: Result<Vec<u8>, BlfError>)
        requires
            old(self)@.can_flush(),
        ensures
            final(self)@ == flush_of(old(self)@).1,
            match res {
                Ok(bytes) => flush_of(old(self)@).0 == Ok::<Seq<u8>, ErrorView>(bytes@)
                    && gives_back(bytes@, next_piece(old(self)@)),
                Err(e) => flush_of(old(self)@).0 == Err::<Seq<u8>, ErrorView>(e@),
            },
    {
        let ghost before = self@;
        self.unstored = 0;
        if self.buffer.len() == 0 {
            let none: Vec<u8> = Vec::new();
            assert(none@ =~= Seq::empty());
            return Ok(none);
        }
        let len: usize = if self.buffer.len() <= MAX_CONTAINER_SIZE {
            self.buffer.len()
        } else {
            MAX_CONTAINER_SIZE
        };
        let rest: Vec<u8> = self.buffer.split_off(len);
        let mut piece: Vec<u8> = rest;
        std::mem::swap(&mut piece, &mut self.buffer);
        assert(piece@ =~= next_piece(before));
        assert(self.buffer@ =~= before.buffer.skip(len as int));
        let (method, data): (u16, Vec<u8>) = if self.compression_level == 0 {
            (NO_COMPRESSION, piece)
        } else {
            let level: u32 = if self.compression_level < 0 {
                default_level()
            } else {
                self.compression_level as u32
            };
            match deflate(&piece, level) {
                Ok(out) => (ZLIB_DEFLATE, out),
                Err(e) => {
                    return Err(BlfError::from(e));
                },
            }
        };
        self.unstored = 32 + len as u64;
        let bytes: Vec<u8> = container(method, &data, len);
        proof {
            if bytes@.len() <= u32::MAX {
                lemma_container_holds(method, data@, len as int, next_piece(before));
            }
        }
        Ok(bytes)
    }

    /// Tells the writer that the bytes which it handed out last are stored: they then count
    /// in the uncompressed size.
    pub fn mark_stored(&mut self)
        requires
            old(self)@.can_store(),
        ensures
            final(self)@ == stored_of(old(self)@),
    {
        self.uncompressed_size = self.uncompressed_size + self.unstored;
        self.unstored = 0;
    }

    /// Ends the log: gives the bytes to append, after which they are to be marked as
    /// stored, the file header written anew and [`BlfWriter::complete`] called. A complete
    /// log gives nothing.
    pub fn finish(&mut self) -> (res: Result<Option<Vec<u8>>, BlfError>)
        requires
            old(self)@.finished || old(self)@.can_flush(),
        ensures
            old(self)@.finished ==> final(self)@ == old(self)@ && res matches Ok(None),
            !old(self)@.finished ==> {
                &&& final(self)@ == flush_of(old(self)@).1
                &&& match res {
                    Ok(Some(bytes)) => flush_of(old(self)@).0 == Ok::<Seq<u8>, ErrorView>(bytes@)
                        && gives_back(bytes@, next_piece(old(self)@)),
                    Ok(None) => false,
                    Err(e) => flush_of(old(self)@).0 == Err::<Seq<u8>, ErrorView>(e@),
                }
            },
    {
        if self.finished {
            return Ok(None);
        }
        match self.flush() {
            Ok(bytes) => Ok(Some(bytes)),
            Err(e) => Err(e),
        }
    }

    /// The file header for a log of the given size.
    pub fn header(&self, file_size: u64) -> (bytes: Vec<u8>)
        ensures
            bytes@ == header_bytes(self@, file_size),
            bytes@.len() == FILE_HEADER_SIZE,
    {
        let start: [u16; 8] = timestamp_to_systemtime(self.start_timestamp);
        let stop: [u16; 8] = timestamp_to_systemtime(self.stop_timestamp);
        let mut bytes: Vec<u8> = Vec::new();
        push_mark(&mut bytes, 0x4c, 0x4f, 0x47, 0x47);
        push_u32(&mut bytes, FILE_HEADER_SIZE);
        push_mark(&mut bytes, 5, 0, 0, 0);
        push_mark(&mut bytes, 2, 6, 8, 1);
        push_u64(&mut bytes, file_size);
        push_u64(&mut bytes, self.uncompressed_size);
        push_u32(&mut bytes, self.object_count);
        push_u32(&mut bytes, 0);
        push_u16_list(&mut bytes, &start);
        push_u16_list(&mut bytes, &stop);
        push_zeros(&mut bytes, 72);
        proof {
            reveal_with_fuel(u16_list_bytes, 9);
            assert(bytes@ =~= header_bytes(self@, file_size));
        }
        bytes
    }

    /// Marks the log as complete.
    pub fn complete(&mut self)
        ensures
            final(self)@ == (WriterView { finished: true, ..old(self)@ }),
    {
        self.finished = true;
    }
}

} // verus!
