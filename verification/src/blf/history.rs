//! What the calls of a writer amount to, and what a reader gives of the log.

use vstd::prelude::*;

use crate::blf::format::{
    file_mark, BlfTime, CAN_ID_MASK, FILE_HEADER_SIZE, MAX_CONTAINER_SIZE, NO_COMPRESSION,
};
use crate::blf::laws::{
    law_object_size, law_representable_is_kept, object_size, recorded, time_after,
};
use crate::blf::reader::{next_container, open_of, Container, OpenView};
use crate::blf::session::{
    all_hold, flushed_chunk, holds, joined_bytes, joined_pieces, law_log_counts, law_log_read_back,
    law_pieces_make_up_stream, lemma_joined_push, lemma_received, lemma_u16_list, readings,
    received, stream, whole_log, yields, Chunk, Sent,
};
use crate::blf::writer::{
    can_receive_of, container_bytes, flush_of, gives_back, header_bytes, new_writer, next_piece,
    receive_of, stored, stored_of, u16_list_bytes, with_message, WriterView,
};
use crate::bytes::{law_u32_read_back, law_u64_read_back, u32_at, u32_bytes, u64_at, u64_bytes};
use crate::calendar::{millis_of_system_time, system_time};
use crate::dlc::{fd_code, fd_length};
use crate::error::ErrorView;
use crate::message::MessageView;
use crate::number::at_most;

verus! {

/// A call that handed a writer a message, and the bytes that came back.
pub struct Receipt {
    pub sent: Sent,
    pub bytes: Seq<u8>,
}

/// Whether a writer may be handed a message and gives these bytes: what
/// `BlfWriter::on_message_received` requires, and what it ensures where it succeeds.
pub open spec fn is_receipt(w: WriterView, call: Receipt) -> bool {
    let item = call.sent;
    &&& can_receive_of(w, item.message)
    &&& receive_of(w, item.message, item.start, item.offset_nanos).0 == Ok::<Seq<u8>, ErrorView>(
        call.bytes,
    )
    &&& gives_back(
        call.bytes,
        next_piece(with_message(w, item.message, item.start, item.offset_nanos)),
    )
}

/// Whether a flush is possible and gives these bytes: what `BlfWriter::flush` and, of a log
/// that is not complete, `BlfWriter::finish` require, and what they ensure where they
/// succeed.
pub open spec fn is_flush(w: WriterView, bytes: Seq<u8>) -> bool {
    &&& w.can_flush()
    &&& flush_of(w).0 == Ok::<Seq<u8>, ErrorView>(bytes)
    &&& gives_back(bytes, next_piece(w))
}

/// The writer after calls whose bytes were stored.
pub open spec fn writer_after(w: WriterView, calls: Seq<Receipt>) -> WriterView
    decreases calls.len(),
{
    if calls.len() == 0 {
        w
    } else {
        let before = writer_after(w, calls.drop_last());
        let item = calls.last().sent;
        stored_of(receive_of(before, item.message, item.start, item.offset_nanos).1)
    }
}

/// Whether every call succeeded.
pub open spec fn are_receipts(w: WriterView, calls: Seq<Receipt>) -> bool
    decreases calls.len(),
{
    calls.len() == 0 || {
        &&& are_receipts(w, calls.drop_last())
        &&& is_receipt(writer_after(w, calls.drop_last()), calls.last())
    }
}

/// The bytes that came back from calls, one after the other.
pub open spec fn returned(calls: Seq<Receipt>) -> Seq<u8>
    decreases calls.len(),
{
    if calls.len() == 0 {
        Seq::empty()
    } else {
        returned(calls.drop_last()) + calls.last().bytes
    }
}

/// Whether the number of bytes that came back from every call fits the size field of a
/// container.
pub open spec fn are_countable(calls: Seq<Receipt>) -> bool {
    forall|i: int| 0 <= i < calls.len() ==> (#[trigger] calls[i]).bytes.len() <= u32::MAX
}

/// The life of a writer: it is made, handed messages, and finished.
pub struct History {
    pub level: i32,
    pub calls: Seq<Receipt>,
    /// The bytes that came back when it was finished.
    pub last: Seq<u8>,
}

impl History {
    /// The messages that were handed over.
    pub open spec fn sent(self) -> Seq<Sent> {
        Seq::new(self.calls.len(), |i: int| self.calls[i].sent)
    }

    /// The writer before it is finished.
    pub open spec fn before_end(self) -> WriterView {
        writer_after(new_writer(self.level), self.calls)
    }

    /// The writer after it was finished.
    pub open spec fn end(self) -> WriterView {
        stored_of(flush_of(self.before_end()).1)
    }

    /// Whether every call succeeded.
    #[verifier::opaque]
    pub open spec fn succeeded(self) -> bool {
        are_receipts(new_writer(self.level), self.calls) && is_flush(self.before_end(), self.last)
    }

    /// Whether the number of bytes of every container fits its size field. It always does
    /// where nothing is compressed.
    pub open spec fn countable(self) -> bool {
        self.level == 0 || (are_countable(self.calls) && self.last.len() <= u32::MAX)
    }

    /// What stands behind the file header of the log.
    pub open spec fn body(self) -> Seq<u8> {
        returned(self.calls) + self.last
    }

    /// The log, with the file header that is written last.
    pub open spec fn file(self) -> Seq<u8> {
        header_bytes(self.end(), (FILE_HEADER_SIZE + self.body().len()) as u64) + self.body()
    }
}

/// A container has a header at least.
proof fn lemma_container_not_empty(w: WriterView)
    requires
        w.buffer.len() > 0,
    ensures
        flush_of(w).0 matches Ok(bytes) ==> bytes.len() > 0,
{
    if let Ok((method, data)) = stored(w.compression_level, next_piece(w)) {
        let bytes = container_bytes(method, data, next_piece(w).len() as int);
        assert(bytes.len() >= data.len() + 32);
    }
}

/// A container that is not compressed fits its size field.
proof fn lemma_plain_fits(w: WriterView)
    requires
        w.compression_level == 0,
    ensures
        flush_of(w).0 matches Ok(bytes) && bytes.len() <= u32::MAX,
{
    let piece = next_piece(w);
    let bytes = container_bytes(NO_COMPRESSION, piece, piece.len() as int);
    assert(bytes.len() <= piece.len() + 35);
}

/// Calls at which nothing is compressed give bytes that fit.
proof fn lemma_plain_countable(calls: Seq<Receipt>)
    requires
        are_receipts(new_writer(0), calls),
    ensures
        are_countable(calls),
        writer_after(new_writer(0), calls).compression_level == 0,
    decreases calls.len(),
{
    if calls.len() > 0 {
        let earlier = calls.drop_last();
        lemma_plain_countable(earlier);
        let item = calls.last().sent;
        let before = writer_after(new_writer(0), earlier);
        lemma_plain_fits(with_message(before, item.message, item.start, item.offset_nanos));
        assert forall|i: int| 0 <= i < calls.len() implies (#[trigger] calls[i]).bytes.len()
            <= u32::MAX by {
            if i < earlier.len() {
                assert(earlier[i] == calls[i]);
            }
        }
    }
}

/// What the containers add to the uncompressed size of a log.
pub open spec fn total(chunks: Seq<Chunk>) -> int
    decreases chunks.len(),
{
    if chunks.len() == 0 {
        0
    } else {
        total(chunks.drop_last()) + 32 + chunks.last().piece.len()
    }
}

/// Calls that succeed are those that make containers.
proof fn lemma_receipts(level: i32, calls: Seq<Receipt>)
    requires
        are_receipts(new_writer(level), calls),
    ensures
        ({
            let items = Seq::new(calls.len(), |i: int| calls[i].sent);
            let w = writer_after(new_writer(level), calls);
            &&& received(new_writer(level), items) matches Some((chunks, after))
            &&& after == w
            &&& joined_bytes(chunks) == returned(calls)
            &&& w.unstored == 0
            &&& w.uncompressed_size == FILE_HEADER_SIZE + total(chunks)
            &&& are_countable(calls) ==> all_hold(chunks)
        }),
    decreases calls.len(),
{
    let w0 = new_writer(level);
    let items = Seq::new(calls.len(), |i: int| calls[i].sent);
    if calls.len() > 0 {
        let earlier = calls.drop_last();
        let item = calls.last().sent;
        lemma_receipts(level, earlier);
        assert(items.drop_last() =~= Seq::new(earlier.len(), |i: int| earlier[i].sent));
        let before = writer_after(w0, earlier);
        let full = with_message(before, item.message, item.start, item.offset_nanos);
        law_object_size(item.message, item.offset_nanos);
        if are_countable(calls) {
            assert(are_countable(earlier)) by {
                assert forall|i: int| 0 <= i < earlier.len() implies (
                #[trigger] earlier[i]).bytes.len() <= u32::MAX by {
                    assert(earlier[i] == calls[i]);
                }
            }
            assert(calls[calls.len() - 1].bytes.len() <= u32::MAX);
        }
        if let Some((chunks, _)) = received(w0, items.drop_last()) {
            if before.buffer.len() + object_size(item.message) < MAX_CONTAINER_SIZE {
                assert(returned(calls) =~= returned(earlier));
            } else {
                lemma_container_not_empty(full);
                let chunk = Chunk { bytes: calls.last().bytes, piece: next_piece(full) };
                assert(flushed_chunk(full) == Some(chunk));
                lemma_joined_push(chunks, chunk);
                assert(chunks.push(chunk).drop_last() =~= chunks);
            }
        }
    } else {
        assert(items =~= Seq::empty());
    }
}

/// The life of a writer whose calls succeed is a whole log.
proof fn lemma_history(h: History)
    requires
        h.succeeded(),
    ensures
        ({
            &&& whole_log(h.level, h.sent()) matches Some((chunks, w))
            &&& w == h.end()
            &&& joined_bytes(chunks) == h.body()
            &&& w.uncompressed_size == FILE_HEADER_SIZE + total(chunks)
            &&& w.buffer.len() == 0
            &&& h.countable() ==> all_hold(chunks)
        }),
{
    reveal(History::succeeded);
    lemma_receipts(h.level, h.calls);
    lemma_received(h.level, h.sent());
    let w = h.before_end();
    if h.level == 0 {
        lemma_plain_countable(h.calls);
        lemma_plain_fits(w);
    }
    if let Some((chunks, _)) = received(new_writer(h.level), h.sent()) {
        if w.buffer.len() == 0 {
            assert(h.body() =~= returned(h.calls));
        } else {
            lemma_container_not_empty(w);
            let chunk = Chunk { bytes: h.last, piece: next_piece(w) };
            assert(flushed_chunk(w) == Some(chunk));
            lemma_joined_push(chunks, chunk);
            assert(chunks.push(chunk).drop_last() =~= chunks);
        }
    }
}

/// What a writer was handed is what a reader gives of the log, in the same order and then
/// the end, as far as the log can hold it; at every compression level. The calls are those
/// that make the log, all of which succeeded.
pub proof fn law_calls_read_back(h: History)
    ensures
        h.succeeded() && h.countable() ==> {
            &&& open_of(h.file(), true) matches OpenView::Ready(r)
            &&& r.start_millis == millis_of_system_time(
                system_time(h.end().start_timestamp),
            ) as i64
            &&& yields(r, readings(h.sent(), r.start_millis))
        },
{
    if h.succeeded() {
        lemma_history(h);
        law_log_read_back(h.level, h.sent(), (FILE_HEADER_SIZE + h.body().len()) as u64);
    }
}

/// Whether a log keeps all of a message that its kind of frame has: the id has 29 bits, the
/// channel is not the very last, and the data is as long as the length code says. A CAN FD
/// frame has at most 64 bytes.
pub open spec fn is_kept<T>(m: MessageView<T>) -> bool {
    &&& m.arbitration_id <= CAN_ID_MASK
    &&& m.channel < u16::MAX
    &&& if m.is_error_frame {
        &&& fd_code(m.dlc as int) == m.dlc
        &&& m.data.len() == at_most(m.dlc as int, 8)
    } else if m.is_fd {
        m.data.len() <= 64
    } else {
        &&& !m.bitrate_switch && !m.error_state_indicator
        &&& m.data.len() == at_most(m.dlc as int, 8)
    }
}

/// What a message that is kept comes back as. A classic frame comes back unchanged but for
/// its time. The length of a CAN FD frame comes back as the next one that such frames can
/// have. An error frame has no direction and no other flags.
pub open spec fn kept<T>(m: MessageView<T>, timestamp: BlfTime) -> MessageView<BlfTime> {
    if m.is_error_frame {
        MessageView {
            is_rx: true,
            is_remote_frame: false,
            is_fd: false,
            bitrate_switch: false,
            error_state_indicator: false,
            ..m.at(timestamp)
        }
    } else if m.is_fd {
        MessageView { dlc: fd_length(fd_code(m.dlc as int)) as u8, ..m.at(timestamp) }
    } else {
        m.at(timestamp)
    }
}

/// What is recorded of a message that is kept is the message, as far as its kind of frame
/// goes.
pub proof fn law_kept_as_frames_go<T>(m: MessageView<T>, timestamp: BlfTime)
    requires
        is_kept(m),
    ensures
        recorded(m, timestamp) == kept(m, timestamp),
{
    law_representable_is_kept(m, timestamp);
    let plain = MessageView {
        is_rx: true,
        is_remote_frame: false,
        is_fd: false,
        bitrate_switch: false,
        error_state_indicator: false,
        ..m
    };
    law_representable_is_kept(plain, timestamp);
    if m.is_fd && !m.is_error_frame {
        let rounded = MessageView { dlc: fd_length(fd_code(m.dlc as int)) as u8, ..m };
        law_representable_is_kept(rounded, timestamp);
    }
}

/// Every message that a log can keep comes back from it: the reader of a log whose calls
/// all succeeded hands out the messages in the order in which the writer was handed them,
/// each as its kind of frame keeps it, and then says that the log ends.
pub proof fn law_messages_come_back(h: History)
    requires
        forall|i: int| 0 <= i < h.calls.len() ==> is_kept(#[trigger] h.sent()[i].message),
    ensures
        h.succeeded() && h.countable() ==> {
            &&& open_of(h.file(), true) matches OpenView::Ready(r)
            &&& yields(
                r,
                Seq::new(
                    h.calls.len(),
                    |i: int|
                        kept(
                            h.sent()[i].message,
                            time_after(r.start_millis, h.sent()[i].offset_nanos),
                        ),
                ),
            )
        },
{
    if h.succeeded() && h.countable() {
        law_calls_read_back(h);
        if let OpenView::Ready(r) = open_of(h.file(), true) {
            let expected = Seq::new(
                h.calls.len(),
                |i: int|
                    kept(
                        h.sent()[i].message,
                        time_after(r.start_millis, h.sent()[i].offset_nanos),
                    ),
            );
            assert forall|i: int| 0 <= i < h.calls.len() implies #[trigger] readings(
                h.sent(),
                r.start_millis,
            )[i] == expected[i] by {
                let item = h.sent()[i];
                law_kept_as_frames_go(item.message, time_after(r.start_millis, item.offset_nanos));
            }
            assert(readings(h.sent(), r.start_millis) =~= expected);
        }
    }
}

/// A flush that succeeded gives bytes from which a reader gets the next piece of what the
/// writer had, whatever follows and at every compression level, and reads no further.
pub proof fn law_flush_read_back(w: WriterView, bytes: Seq<u8>, rest: Seq<u8>, closed: bool)
    requires
        w.buffer.len() > 0,
    ensures
        is_flush(w, bytes) && (w.compression_level == 0 || bytes.len() <= u32::MAX)
            ==> next_container(bytes + rest, closed) == (Container::Piece {
            data: w.buffer.take(at_most(w.buffer.len() as int, MAX_CONTAINER_SIZE as int)),
            rest,
        }),
{
    lemma_container_not_empty(w);
    if w.compression_level == 0 {
        lemma_plain_fits(w);
    }
    if is_flush(w, bytes) && bytes.len() <= u32::MAX {
        assert(holds(Chunk { bytes, piece: next_piece(w) }));
    }
}

/// Whether a file starts as a log does, with a header that says how long the log is, how
/// long it would be uncompressed and how many objects it has.
#[verifier::opaque]
pub open spec fn header_says(f: Seq<u8>, size: int, uncompressed: int, count: int) -> bool {
    &&& f.take(4) == file_mark()
    &&& u32_at(f, 4) == FILE_HEADER_SIZE
    &&& u64_at(f, 16) == size
    &&& u64_at(f, 24) == uncompressed
    &&& u32_at(f, 32) == count
}

/// The numbers in a file header are read as they were written.
proof fn lemma_header_numbers(w: WriterView, file_size: u64, body: Seq<u8>)
    ensures
        (header_bytes(w, file_size) + body).len() == FILE_HEADER_SIZE + body.len(),
        header_says(
            header_bytes(w, file_size) + body,
            file_size as int,
            w.uncompressed_size as int,
            w.object_count as int,
        ),
{
    reveal(header_says);
    let f = header_bytes(w, file_size) + body;
    let a = file_mark();
    let b = a + u32_bytes(FILE_HEADER_SIZE) + seq![5u8, 0u8, 0u8, 0u8, 2u8, 6u8, 8u8, 1u8];
    let c = b + u64_bytes(file_size);
    let d = c + u64_bytes(w.uncompressed_size);
    lemma_times_size(w);
    assert(f.take(4) =~= a);
    assert(f =~= a + u32_bytes(FILE_HEADER_SIZE) + f.skip(8));
    law_u32_read_back(a, FILE_HEADER_SIZE, f.skip(8));
    assert(f =~= b + u64_bytes(file_size) + f.skip(24));
    law_u64_read_back(b, file_size, f.skip(24));
    assert(f =~= c + u64_bytes(w.uncompressed_size) + f.skip(32));
    law_u64_read_back(c, w.uncompressed_size, f.skip(32));
    assert(f =~= d + u32_bytes(w.object_count) + f.skip(36));
    law_u32_read_back(d, w.object_count, f.skip(36));
}

/// The two times in a file header take up their places.
proof fn lemma_times_size(w: WriterView)
    ensures
        u16_list_bytes(system_time(w.start_timestamp)).len() == 16,
        u16_list_bytes(system_time(w.stop_timestamp)).len() == 16,
{
    lemma_u16_list(system_time(w.start_timestamp));
    lemma_u16_list(system_time(w.stop_timestamp));
}

/// The numbers in the file header of a finished log.
proof fn lemma_file_numbers(h: History)
    requires
        FILE_HEADER_SIZE + h.body().len() <= u64::MAX,
    ensures
        header_says(
            h.file(),
            h.file().len() as int,
            h.end().uncompressed_size as int,
            h.end().object_count as int,
        ),
{
    let file_size = (FILE_HEADER_SIZE + h.body().len()) as u64;
    lemma_header_numbers(h.end(), file_size, h.body());
}

/// What the writer has counted when a log is finished.
proof fn lemma_finished(h: History)
    requires
        h.succeeded(),
    ensures
        h.end().object_count == h.calls.len() % 0x1_0000_0000,
        h.end().buffer.len() == 0,
        whole_log(h.level, h.sent()) is Some,
        ({
            let chunks = whole_log(h.level, h.sent())->Some_0.0;
            &&& joined_bytes(chunks) == h.body()
            &&& joined_pieces(chunks) == stream(h.sent())
            &&& h.end().uncompressed_size == FILE_HEADER_SIZE + total(chunks)
        }),
{
    lemma_history(h);
    law_log_counts(h.level, h.sent());
    law_pieces_make_up_stream(h.level, h.sent());
}

/// Whether a finished log is what its containers and its header say: the pieces in the
/// containers make up the stream of the messages, and the header says how long the log is,
/// how many messages it has and how long it would be uncompressed.
pub open spec fn adds_up(h: History, chunks: Seq<Chunk>) -> bool {
    &&& joined_bytes(chunks) == h.body()
    &&& joined_pieces(chunks) == stream(h.sent())
    &&& header_says(
        h.file(),
        h.file().len() as int,
        FILE_HEADER_SIZE + total(chunks),
        h.calls.len() as int,
    )
}

/// The file header of a finished log says how long the log is, how many messages it has
/// and how long it would be uncompressed: the header itself, and for every container its
/// header and its piece of the inner stream. All pieces together are that stream, and
/// nothing is left over.
pub proof fn law_finished_log(h: History)
    requires
        h.calls.len() <= u32::MAX,
        FILE_HEADER_SIZE + h.body().len() <= u64::MAX,
    ensures
        h.succeeded() ==> {
            &&& h.end().buffer.len() == 0
            &&& whole_log(h.level, h.sent()) matches Some((chunks, w))
            &&& adds_up(h, chunks)
        },
{
    lemma_file_numbers(h);
    if h.succeeded() {
        lemma_finished(h);
        assert(h.end().object_count == h.calls.len());
    }
}

} // verus!
