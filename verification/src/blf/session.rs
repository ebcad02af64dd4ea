//! Whole logs: what a reader gives of a log that a writer made.

use vstd::prelude::*;

use crate::blf::format::{
    file_mark, object_mark, BlfTime, FILE_HEADER_SIZE, LOG_CONTAINER, LOG_CONTAINER_SIZE,
    MAX_CONTAINER_SIZE, NO_COMPRESSION, OBJ_HEADER_BASE_SIZE, ZLIB_DEFLATE,
};
use crate::blf::laws::{law_object_read_back, law_object_size, object_size, recorded, time_after};
use crate::blf::object::{marked, next_mark, parse, step, Step};
use crate::blf::reader::{
    header_start, next_container, next_of, open_of, padded_size, Container, NextView, OpenView,
    ReaderView,
};
use crate::blf::writer::{
    container_bytes, flush_of, header_bytes, message_object, new_writer, next_piece, receive_of,
    stored, stored_of, u16_list_bytes, with_message, WriterView,
};
use crate::bytes::{
    law_u16_read_back, lemma_u16_here, lemma_u32_here, u16_at, u16_bytes, u32_at, u32_bytes,
    u64_bytes, zeros,
};
use crate::calendar::{millis_of_system_time, system_time};
use crate::error::ErrorView;
use crate::message::{MessageView, Timestamp};
use crate::zlib::{inflates_to, zlib_inflated};

verus! {

/// One message as a writer receives it.
pub struct Sent {
    pub message: MessageView<Timestamp>,
    pub start: Timestamp,
    pub offset_nanos: u64,
}

/// The inner stream for messages.
pub open spec fn stream(items: Seq<Sent>) -> Seq<u8>
    decreases items.len(),
{
    if items.len() == 0 {
        Seq::empty()
    } else {
        message_object(items[0].message, items[0].offset_nanos) + stream(items.drop_first())
    }
}

/// What is read back of messages, in their order.
pub open spec fn readings(items: Seq<Sent>, start_millis: i64) -> Seq<MessageView<BlfTime>> {
    Seq::new(
        items.len(),
        |i: int| recorded(items[i].message, time_after(start_millis, items[i].offset_nanos)),
    )
}

/// The number of messages whose objects lie in the first `n` bytes of their stream.
pub open spec fn completed(items: Seq<Sent>, n: int) -> int
    decreases items.len(),
{
    if items.len() == 0 || n < object_size(items[0].message) {
        0
    } else {
        1 + completed(items.drop_first(), n - object_size(items[0].message))
    }
}

/// The bytes that the first `n` bytes of a stream hold beyond whole objects.
pub open spec fn remainder(items: Seq<Sent>, n: int) -> Seq<u8>
    decreases items.len(),
{
    if items.len() == 0 || n < object_size(items[0].message) {
        stream(items).take(n)
    } else {
        remainder(items.drop_first(), n - object_size(items[0].message))
    }
}

/// Messages that are added later come later in the stream.
proof fn lemma_stream_push(items: Seq<Sent>, item: Sent)
    ensures
        stream(items.push(item)) == stream(items) + message_object(item.message, item.offset_nanos),
    decreases items.len(),
{
    let obj = message_object(item.message, item.offset_nanos);
    let all = items.push(item);
    if items.len() == 0 {
        assert(all.drop_first() =~= Seq::<Sent>::empty());
        assert(stream(all.drop_first()) =~= Seq::<u8>::empty());
        assert(stream(all) =~= stream(items) + obj);
    } else {
        lemma_stream_push(items.drop_first(), item);
        assert(all.drop_first() =~= items.drop_first().push(item));
        assert(stream(all) =~= stream(items) + obj);
    }
}

/// A piece of the stream that ends inside an object asks for more.
proof fn lemma_incomplete(buf: Seq<u8>, pos: int, items: Seq<Sent>, start_millis: i64)
    requires
        0 <= pos <= buf.len(),
        buf.len() - pos <= stream(items).len(),
        buf.skip(pos) == stream(items).take(buf.len() - pos),
        items.len() == 0 || buf.len() - pos < object_size(items[0].message),
    ensures
        step(buf, pos, start_millis) == Step::Incomplete,
{
    let n = buf.len() - pos;
    if n >= 4 {
        let item = items[0];
        law_object_size(item.message, item.offset_nanos);
        let obj = message_object(item.message, item.offset_nanos);
        assert forall|k: int| 0 <= k < n implies #[trigger] obj[k] == buf[pos + k] by {
            assert(buf.skip(pos)[k] == stream(items).take(n)[k]);
        }
        lemma_object_start(item.message, item.offset_nanos);
        assert(buf.subrange(pos, pos + 4) =~= obj.take(4));
        assert(marked(buf, pos));
        assert(next_mark(buf, pos) == Some(pos));
        if n >= 16 {
            assert(u32_at(buf, pos + 8) == u32_at(obj, 8));
        }
    }
}

/// The object for a message starts with its mark and says its size.
proof fn lemma_object_start<T>(m: MessageView<T>, offset_nanos: u64)
    ensures
        message_object(m, offset_nanos).take(4) == object_mark(),
        u32_at(message_object(m, offset_nanos), 8) == object_size(m),
{
    reveal(message_object);
    let obj = message_object(m, offset_nanos);
    assert(obj.take(4) =~= object_mark());
    let size = object_size(m) as u32;
    assert(obj.subrange(8, 12) =~= u32_bytes(size));
    lemma_u32_here(obj, 8, size);
}

/// The messages of a stream are read from any first part of it as far as that part
/// holds them, and the rest is kept for later.
pub proof fn law_stream_prefix_read_back(
    buf: Seq<u8>,
    pos: int,
    items: Seq<Sent>,
    start_millis: i64,
)
    requires
        0 <= pos <= buf.len(),
        buf.len() - pos <= stream(items).len(),
        buf.skip(pos) == stream(items).take(buf.len() - pos),
    ensures
        0 <= completed(items, buf.len() - pos) <= items.len(),
        parse(buf, pos, start_millis) == Ok::<(Seq<MessageView<BlfTime>>, Seq<u8>), Seq<char>>(
            (
                readings(items.take(completed(items, buf.len() - pos)), start_millis),
                remainder(items, buf.len() - pos),
            ),
        ),
    decreases items.len(),
{
    let n = buf.len() - pos;
    if items.len() == 0 || n < object_size(items[0].message) {
        lemma_incomplete(buf, pos, items, start_millis);
        assert(readings(items.take(0), start_millis) =~= Seq::empty());
    } else {
        let item = items[0];
        let size = object_size(item.message);
        let obj = message_object(item.message, item.offset_nanos);
        law_object_size(item.message, item.offset_nanos);
        assert(buf.subrange(pos, pos + size) =~= obj) by {
            assert forall|k: int| 0 <= k < size implies #[trigger] buf.subrange(
                pos,
                pos + size,
            )[k] == obj[k] by {
                assert(buf.skip(pos)[k] == stream(items).take(n)[k]);
            }
        }
        law_object_read_back(buf, pos, item.message, item.offset_nanos, start_millis);
        let rest = items.drop_first();
        assert(buf.skip(pos + size) =~= stream(rest).take(n - size)) by {
            assert forall|k: int| 0 <= k < n - size implies #[trigger] buf.skip(pos + size)[k]
                == stream(rest).take(n - size)[k] by {
                assert(buf.skip(pos)[size + k] == stream(items).take(n)[size + k]);
            }
        }
        law_stream_prefix_read_back(buf, pos + size, rest, start_millis);
        let c = completed(rest, n - size);
        assert(seq![recorded(item.message, time_after(start_millis, item.offset_nanos))]
            + readings(rest.take(c), start_millis) =~= readings(items.take(c + 1), start_millis));
    }
}

/// What is left of the stream's first part is where the messages not yet read start.
proof fn lemma_remainder(items: Seq<Sent>, n: int)
    requires
        0 <= n <= stream(items).len(),
    ensures
        ({
            let c = completed(items, n);
            let left = remainder(items, n);
            &&& 0 <= c <= items.len()
            &&& left.len() <= n
            &&& completed(items.skip(c), left.len() as int) == 0
            &&& left + stream(items).skip(n) == stream(items.skip(c))
        }),
    decreases items.len(),
{
    if items.len() == 0 || n < object_size(items[0].message) {
        assert(items.skip(0) =~= items);
        assert(stream(items).take(n) + stream(items).skip(n) =~= stream(items));
    } else {
        let item = items[0];
        let size = object_size(item.message);
        let rest = items.drop_first();
        law_object_size(item.message, item.offset_nanos);
        lemma_remainder(rest, n - size);
        let c = completed(rest, n - size);
        assert(items.skip(c + 1) =~= rest.skip(c));
        assert(stream(items).skip(n) =~= stream(rest).skip(n - size));
    }
}

/// A container of a log and the piece of the inner stream that it is meant to hold.
pub struct Chunk {
    pub bytes: Seq<u8>,
    pub piece: Seq<u8>,
}

/// Whether a container holds its piece, for whoever reads a log from there on.
pub open spec fn holds(chunk: Chunk) -> bool {
    forall|rest: Seq<u8>, closed: bool|
        #[trigger] next_container(chunk.bytes + rest, closed) == (Container::Piece {
            data: chunk.piece,
            rest,
        })
}

/// Whether every container holds its piece.
pub open spec fn all_hold(chunks: Seq<Chunk>) -> bool {
    forall|i: int| 0 <= i < chunks.len() ==> holds(#[trigger] chunks[i])
}

/// The bytes of containers, one after the other.
pub open spec fn joined_bytes(chunks: Seq<Chunk>) -> Seq<u8>
    decreases chunks.len(),
{
    if chunks.len() == 0 {
        Seq::empty()
    } else {
        chunks[0].bytes + joined_bytes(chunks.drop_first())
    }
}

/// The pieces of containers, one after the other.
pub open spec fn joined_pieces(chunks: Seq<Chunk>) -> Seq<u8>
    decreases chunks.len(),
{
    if chunks.len() == 0 {
        Seq::empty()
    } else {
        chunks[0].piece + joined_pieces(chunks.drop_first())
    }
}

/// Whether a reader that is asked again and again hands out these messages in this
/// order and then says that the log ends.
pub open spec fn yields(r: ReaderView, messages: Seq<MessageView<BlfTime>>) -> bool
    decreases messages.len(),
{
    if messages.len() == 0 {
        next_of(r).0 == Ok::<NextView, ErrorView>(NextView::End)
    } else {
        &&& next_of(r).0 == Ok::<NextView, ErrorView>(NextView::Message(messages[0]))
        &&& yields(next_of(r).1, messages.drop_first())
    }
}

/// A reader that comes to a container answers as if the messages in it were pending.
pub(crate) proof fn lemma_next_of_piece(
    r: ReaderView,
    data: Seq<u8>,
    rest: Seq<u8>,
    messages: Seq<MessageView<BlfTime>>,
    tail: Seq<u8>,
)
    requires
        r.pending.len() == 0,
        next_container(r.input, r.closed) == (Container::Piece { data, rest }),
        parse(r.tail + data, 0, r.start_millis) == Ok::<
            (Seq<MessageView<BlfTime>>, Seq<u8>),
            Seq<char>,
        >((messages, tail)),
    ensures
        next_of(r) == next_of(ReaderView { input: rest, tail, pending: messages, ..r }),
{
    if messages.len() == 0 {
        assert(messages =~= r.pending);
    }
}

/// A first part of the stream that ends in the middle is read as far as it goes.
proof fn lemma_piece(tail: Seq<u8>, piece: Seq<u8>, later: Seq<u8>, items: Seq<Sent>, start: i64)
    requires
        tail + (piece + later) == stream(items),
    ensures
        ({
            let n = (tail + piece).len() as int;
            let c = completed(items, n);
            let left = remainder(items, n);
            &&& 0 <= c <= items.len()
            &&& parse(tail + piece, 0, start) == Ok::<
                (Seq<MessageView<BlfTime>>, Seq<u8>),
                Seq<char>,
            >((readings(items.take(c), start), left))
            &&& left + later == stream(items.skip(c))
            &&& completed(items.skip(c), left.len() as int) == 0
        }),
{
    let buf = tail + piece;
    let n = buf.len() as int;
    assert(buf + later =~= stream(items));
    assert(buf.skip(0) =~= stream(items).take(n));
    assert(stream(items).skip(n) =~= later);
    law_stream_prefix_read_back(buf, 0, items, start);
    lemma_remainder(items, n);
}

/// A reader with pending messages hands out the first of them.
proof fn lemma_yields_pending(r: ReaderView, later: Seq<MessageView<BlfTime>>)
    requires
        r.pending.len() > 0,
        yields(ReaderView { pending: r.pending.drop_first(), ..r }, r.pending.drop_first() + later),
    ensures
        yields(r, r.pending + later),
{
    assert((r.pending + later).drop_first() =~= r.pending.drop_first() + later);
}

/// Readers that answer the same hand out the same.
proof fn lemma_yields_same(a: ReaderView, b: ReaderView, messages: Seq<MessageView<BlfTime>>)
    requires
        next_of(a) == next_of(b),
        yields(b, messages),
    ensures
        yields(a, messages),
{
}

/// A reader at the end of a log hands out nothing.
proof fn lemma_yields_nothing(r: ReaderView)
    requires
        r.pending.len() == 0,
        r.input.len() == 0,
        r.closed,
    ensures
        yields(r, Seq::empty()),
{
}

/// Where the tail is the whole stream, and holds no message, there is none.
proof fn lemma_nothing_left(items: Seq<Sent>)
    requires
        completed(items, stream(items).len() as int) == 0,
    ensures
        items.len() == 0,
{
    if items.len() > 0 {
        law_object_size(items[0].message, items[0].offset_nanos);
        let rest = items.drop_first();
        lemma_remainder(rest, stream(rest).len() as int);
    }
}

/// The first container is read, and the others are left.
proof fn lemma_first_chunk(r: ReaderView, chunks: Seq<Chunk>)
    requires
        chunks.len() > 0,
        all_hold(chunks),
        r.input == joined_bytes(chunks),
    ensures
        next_container(r.input, r.closed) == (Container::Piece {
            data: chunks[0].piece,
            rest: joined_bytes(chunks.drop_first()),
        }),
        all_hold(chunks.drop_first()),
{
    let chunk = chunks[0];
    let others = chunks.drop_first();
    let rest = joined_bytes(others);
    assert(holds(chunk));
    assert(next_container(chunk.bytes + rest, r.closed) == (Container::Piece {
        data: chunk.piece,
        rest,
    }));
    assert forall|i: int| 0 <= i < others.len() implies holds(#[trigger] others[i]) by {
        assert(others[i] == chunks[i + 1]);
    }
}

/// A reader hands out all messages whose stream its pending messages, its tail and the
/// containers ahead of it make up.
proof fn lemma_drain(r: ReaderView, chunks: Seq<Chunk>, items: Seq<Sent>)
    requires
        all_hold(chunks),
        r.closed,
        r.input == joined_bytes(chunks),
        r.tail + joined_pieces(chunks) == stream(items),
        completed(items, r.tail.len() as int) == 0,
    ensures
        yields(r, r.pending + readings(items, r.start_millis)),
    decreases chunks.len(), r.pending.len(),
{
    let all = r.pending + readings(items, r.start_millis);
    if r.pending.len() > 0 {
        lemma_drain(ReaderView { pending: r.pending.drop_first(), ..r }, chunks, items);
        lemma_yields_pending(r, readings(items, r.start_millis));
    } else if chunks.len() == 0 {
        assert(r.tail =~= stream(items));
        lemma_nothing_left(items);
        assert(all =~= Seq::empty());
        lemma_yields_nothing(r);
    } else {
        let others = chunks.drop_first();
        let rest = joined_bytes(others);
        let piece = chunks[0].piece;
        lemma_first_chunk(r, chunks);
        lemma_piece(r.tail, piece, joined_pieces(others), items, r.start_millis);
        let n = (r.tail + piece).len() as int;
        let c = completed(items, n);
        let messages = readings(items.take(c), r.start_millis);
        let tail = remainder(items, n);
        lemma_next_of_piece(r, piece, rest, messages, tail);
        let later = ReaderView { input: rest, tail, pending: messages, ..r };
        lemma_drain(later, others, items.skip(c));
        assert(messages + readings(items.skip(c), r.start_millis) =~= all);
        lemma_yields_same(r, later, all);
    }
}

/// Containers that are added later come later.
pub(crate) proof fn lemma_joined_push(chunks: Seq<Chunk>, chunk: Chunk)
    ensures
        joined_bytes(chunks.push(chunk)) == joined_bytes(chunks) + chunk.bytes,
        joined_pieces(chunks.push(chunk)) == joined_pieces(chunks) + chunk.piece,
    decreases chunks.len(),
{
    let all = chunks.push(chunk);
    if chunks.len() == 0 {
        assert(all.drop_first() =~= Seq::<Chunk>::empty());
        assert(joined_bytes(all.drop_first()) =~= Seq::<u8>::empty());
        assert(joined_pieces(all.drop_first()) =~= Seq::<u8>::empty());
    } else {
        lemma_joined_push(chunks.drop_first(), chunk);
        assert(all.drop_first() =~= chunks.drop_first().push(chunk));
    }
    assert(joined_bytes(all) =~= joined_bytes(chunks) + chunk.bytes);
    assert(joined_pieces(all) =~= joined_pieces(chunks) + chunk.piece);
}

/// The container with which a writer answers a flush, if it writes one.
pub open spec fn flushed_chunk(w: WriterView) -> Option<Chunk> {
    match flush_of(w).0 {
        Ok(bytes) => Some(Chunk { bytes, piece: next_piece(w) }),
        Err(_) => None,
    }
}

/// The containers that a writer writes, and marks as stored, while it receives messages,
/// and what it is afterwards; none where some piece cannot be compressed.
pub open spec fn received(w: WriterView, items: Seq<Sent>) -> Option<(Seq<Chunk>, WriterView)>
    decreases items.len(),
{
    if items.len() == 0 {
        Some((Seq::empty(), w))
    } else {
        match received(w, items.drop_last()) {
            Some((chunks, before)) => {
                let item = items.last();
                let full = with_message(before, item.message, item.start, item.offset_nanos);
                let after = stored_of(
                    receive_of(before, item.message, item.start, item.offset_nanos).1,
                );
                if before.buffer.len() + object_size(item.message) < MAX_CONTAINER_SIZE {
                    Some((chunks, after))
                } else {
                    match flushed_chunk(full) {
                        Some(chunk) => Some((chunks.push(chunk), after)),
                        None => None,
                    }
                }
            },
            None => None,
        }
    }
}

/// The containers of the log that a new writer makes of messages and finishes, and
/// what the writer is afterwards; none where some piece cannot be compressed.
pub open spec fn whole_log(level: i32, items: Seq<Sent>) -> Option<(Seq<Chunk>, WriterView)> {
    match received(new_writer(level), items) {
        Some((chunks, w)) => if w.buffer.len() == 0 {
            Some((chunks, w))
        } else {
            match flushed_chunk(w) {
                Some(chunk) => Some((chunks.push(chunk), stored_of(flush_of(w).1))),
                None => None,
            }
        },
        None => None,
    }
}

/// While messages are received, less than a full container stays in the buffer.
pub proof fn law_buffer_stays_small(
    w: WriterView,
    m: MessageView<Timestamp>,
    start: Timestamp,
    offset_nanos: u64,
)
    requires
        w.buffer.len() < MAX_CONTAINER_SIZE,
    ensures
        receive_of(w, m, start, offset_nanos).1.buffer.len() < MAX_CONTAINER_SIZE,
{
    law_object_size(m, offset_nanos);
}

/// Finishing leaves nothing in the buffer.
pub proof fn law_finish_empties_buffer(w: WriterView)
    requires
        w.buffer.len() < MAX_CONTAINER_SIZE,
    ensures
        flush_of(w).1.buffer.len() == 0,
{
}

/// What a writer has in containers and in its buffer is the stream of the messages
/// that it received.
pub(crate) proof fn lemma_received(level: i32, items: Seq<Sent>)
    ensures
        received(new_writer(level), items) matches Some((chunks, w)) ==> joined_pieces(chunks)
            + w.buffer == stream(items) && w.buffer.len() < MAX_CONTAINER_SIZE
            && w.compression_level == level,
    decreases items.len(),
{
    let w0 = new_writer(level);
    if items.len() == 0 {
        assert(Seq::<u8>::empty() + w0.buffer =~= Seq::<u8>::empty());
    } else {
        lemma_received(level, items.drop_last());
        if let Some((chunks, before)) = received(w0, items.drop_last()) {
            let item = items.last();
            let full = with_message(before, item.message, item.start, item.offset_nanos);
            let obj = message_object(item.message, item.offset_nanos);
            law_object_size(item.message, item.offset_nanos);
            law_buffer_stays_small(before, item.message, item.start, item.offset_nanos);
            lemma_stream_push(items.drop_last(), item);
            assert(items.drop_last().push(item) =~= items);
            assert(joined_pieces(chunks) + (before.buffer + obj) =~= joined_pieces(chunks)
                + before.buffer + obj);
            if full.buffer.len() >= MAX_CONTAINER_SIZE {
                if let Some(chunk) = flushed_chunk(full) {
                    lemma_joined_push(chunks, chunk);
                    let rest = full.buffer.skip(MAX_CONTAINER_SIZE as int);
                    assert(joined_pieces(chunks) + chunk.piece + rest =~= joined_pieces(chunks)
                        + full.buffer);
                }
            }
        }
    }
}

/// The pieces in the containers of a whole log make up the stream of its messages.
pub proof fn law_pieces_make_up_stream(level: i32, items: Seq<Sent>)
    ensures
        whole_log(level, items) matches Some((chunks, w)) ==> joined_pieces(chunks) == stream(
            items,
        ),
{
    lemma_received(level, items);
    if let Some((chunks, w)) = received(new_writer(level), items) {
        if w.buffer.len() == 0 {
            assert(joined_pieces(chunks) + w.buffer =~= joined_pieces(chunks));
        } else if let Some(chunk) = flushed_chunk(w) {
            lemma_joined_push(chunks, chunk);
            assert(next_piece(w) =~= w.buffer);
        }
    }
}

/// What stands before the stored bytes of a container is read as it was written.
proof fn lemma_container_head(method: u16, obj_size: u32, piece_len: u32)
    ensures
        ({
            let head = container_head(method, obj_size, piece_len);
            &&& head.len() == 32
            &&& head.take(4) == object_mark()
            &&& u32_at(head, 8) == obj_size
            &&& u32_at(head, 12) == LOG_CONTAINER
            &&& u16_at(head, 16) == method
        }),
{
    let head = container_head(method, obj_size, piece_len);
    assert(head.take(4) =~= object_mark());
    assert(head.subrange(8, 12) =~= u32_bytes(obj_size));
    assert(head.subrange(12, 16) =~= u32_bytes(LOG_CONTAINER));
    assert(head.subrange(16, 18) =~= u16_bytes(method));
    lemma_u32_here(head, 8, obj_size);
    lemma_u32_here(head, 12, LOG_CONTAINER);
    lemma_u16_here(head, 16, method);
}

/// What stands before the stored bytes of a container.
pub(crate) open spec fn container_head(method: u16, obj_size: u32, piece_len: u32) -> Seq<u8> {
    object_mark() + u16_bytes(OBJ_HEADER_BASE_SIZE as u16) + u16_bytes(1) + u32_bytes(obj_size)
        + u32_bytes(LOG_CONTAINER) + u16_bytes(method) + zeros(6) + u32_bytes(piece_len) + zeros(4)
}

/// A container whose stored bytes give back a piece holds that piece.
pub(crate) proof fn lemma_container_holds(
    method: u16,
    data: Seq<u8>,
    piece_len: int,
    piece: Seq<u8>,
)
    requires
        32 + data.len() <= u32::MAX,
        (method == NO_COMPRESSION && data == piece) || (method == ZLIB_DEFLATE && inflates_to(
            data,
            piece,
        )),
    ensures
        holds(Chunk { bytes: container_bytes(method, data, piece_len), piece }),
{
    let size = (32 + data.len()) as u32;
    let head = container_head(method, size, piece_len as u32);
    let pad = zeros(size as int % 4);
    let bytes = container_bytes(method, data, piece_len);
    lemma_container_head(method, size, piece_len as u32);
    assert(bytes =~= head + data + pad);
    assert forall|rest: Seq<u8>, closed: bool|
        #[trigger] next_container(bytes + rest, closed) == (Container::Piece { data: piece, rest })
        by {
        lemma_container_read_back(head, data, pad, rest, closed, method, size);
    }
}

/// A container is read as it was written, given what stands before the stored bytes.
proof fn lemma_container_read_back(
    head: Seq<u8>,
    data: Seq<u8>,
    pad: Seq<u8>,
    rest: Seq<u8>,
    closed: bool,
    method: u16,
    size: u32,
)
    requires
        head.len() == 32,
        head.take(4) == object_mark(),
        u32_at(head, 8) == size,
        u32_at(head, 12) == LOG_CONTAINER,
        u16_at(head, 16) == method,
        size == 32 + data.len(),
        pad.len() == size % 4,
    ensures
        ({
            let found = next_container(head + data + pad + rest, closed);
            &&& method == NO_COMPRESSION ==> found == (Container::Piece { data, rest })
            &&& method == ZLIB_DEFLATE ==> found == match zlib_inflated(data) {
                Ok(out) => Container::Piece { data: out, rest },
                Err(e) => Container::Malformed { error: ErrorView::Io(e), rest },
            }
        }),
{
    let input = head + data + pad + rest;
    assert forall|k: int| 0 <= k < 32 implies #[trigger] head[k] == input[k] by {}
    assert(input.take(4) =~= head.take(4));
    assert(u32_at(input, 8) == u32_at(head, 8));
    assert(u32_at(input, 12) == u32_at(head, 12));
    let content = input.subrange(16, size as int);
    assert(content[0] == head[16] && content[1] == head[17]);
    assert(u16_at(content, 0) == method);
    assert(content.skip(LOG_CONTAINER_SIZE as int) =~= data);
    assert(input.skip(padded_size(size as int)) =~= rest);
}

/// The start of a log's file header is read as it was written.
proof fn lemma_header_head(w: WriterView, file_size: u64)
    ensures
        header_bytes(w, file_size).len() == 144,
        header_bytes(w, file_size).take(4) == file_mark(),
        u32_at(header_bytes(w, file_size), 4) == 144,
        header_start(header_bytes(w, file_size)) == system_time(w.start_timestamp),
{
    let head = file_mark() + u32_bytes(FILE_HEADER_SIZE) + seq![
        5u8,
        0u8,
        0u8,
        0u8,
        2u8,
        6u8,
        8u8,
        1u8,
    ] + u64_bytes(file_size) + u64_bytes(w.uncompressed_size) + u32_bytes(w.object_count)
        + u32_bytes(0);
    let start = u16_list_bytes(system_time(w.start_timestamp));
    let stop = u16_list_bytes(system_time(w.stop_timestamp));
    let h = header_bytes(w, file_size);
    lemma_u16_list(system_time(w.start_timestamp));
    lemma_u16_list(system_time(w.stop_timestamp));
    assert(h =~= head + start + stop + zeros(72));
    assert(head.len() == 40);
    assert(h.take(4) =~= file_mark());
    assert(h.subrange(4, 8) =~= u32_bytes(FILE_HEADER_SIZE));
    lemma_u32_here(h, 4, FILE_HEADER_SIZE);
    assert forall|i: int| 0 <= i < 8 implies #[trigger] header_start(h)[i] == system_time(
        w.start_timestamp,
    )[i] by {
        assert(u16_at(start, 2 * i) == system_time(w.start_timestamp)[i]);
        assert(h[40 + 2 * i] == start[2 * i]);
        assert(h[40 + 2 * i + 1] == start[2 * i + 1]);
    }
}

/// 16-bit integers in a row are read as they were written.
pub(crate) proof fn lemma_u16_list(list: Seq<u16>)
    ensures
        u16_list_bytes(list).len() == 2 * list.len(),
        forall|i: int|
            0 <= i < list.len() ==> #[trigger] u16_at(u16_list_bytes(list), 2 * i) == list[i],
    decreases list.len(),
{
    if list.len() > 0 {
        let before = list.drop_last();
        lemma_u16_list(before);
        let s = u16_list_bytes(list);
        assert forall|i: int| 0 <= i < list.len() implies #[trigger] u16_at(s, 2 * i)
            == list[i] by {
            if i < list.len() - 1 {
                assert(u16_at(u16_list_bytes(before), 2 * i) == before[i]);
            } else {
                law_u16_read_back(u16_list_bytes(before), list.last(), Seq::empty());
                assert(s + Seq::<u8>::empty() =~= s);
            }
        }
    }
}

/// A reader that opens a log finds the start that the writer recorded and stands
/// before the first container.
pub proof fn law_header_read_back(w: WriterView, file_size: u64, body: Seq<u8>, closed: bool)
    ensures
        open_of(header_bytes(w, file_size) + body, closed) == OpenView::Ready(
            ReaderView {
                start_millis: millis_of_system_time(system_time(w.start_timestamp)) as i64,
                input: body,
                closed,
                tail: Seq::empty(),
                pending: Seq::empty(),
                error: None,
            },
        ),
{
    lemma_header_head(w, file_size);
    let h = header_bytes(w, file_size);
    let bytes = h + body;
    assert forall|k: int| 0 <= k < 144 implies #[trigger] h[k] == bytes[k] by {}
    assert(bytes.take(4) =~= h.take(4));
    assert(u32_at(bytes, 4) == u32_at(h, 4));
    assert(header_start(bytes) =~= header_start(h));
    assert(bytes.skip(144) =~= body);
}

/// Whether what is compressed at a level decompresses to itself, in fewer bytes than
/// the size field of a container can count.
pub open spec fn zlib_restores(level: i32) -> bool {
    forall|piece: Seq<u8>|
        #[trigger] stored(level, piece) matches Ok((method, data)) ==> method == ZLIB_DEFLATE
            ==> inflates_to(data, piece) && 32 + data.len() <= u32::MAX
}

/// The containers that a writer makes hold their pieces.
proof fn lemma_flushed_chunk_holds(w: WriterView)
    requires
        w.buffer.len() > 0,
        w.compression_level == 0 || zlib_restores(w.compression_level),
    ensures
        flushed_chunk(w) matches Some(chunk) ==> holds(chunk),
        w.compression_level == 0 ==> flushed_chunk(w) is Some,
{
    let piece = next_piece(w);
    if let Ok((method, data)) = stored(w.compression_level, piece) {
        lemma_container_holds(method, data, piece.len() as int, piece);
    }
}

/// The containers that a writer makes while it receives messages hold their pieces.
proof fn lemma_received_hold(level: i32, items: Seq<Sent>)
    requires
        level == 0 || zlib_restores(level),
    ensures
        received(new_writer(level), items) matches Some((chunks, w)) ==> all_hold(chunks),
        level == 0 ==> received(new_writer(level), items) is Some,
    decreases items.len(),
{
    if items.len() > 0 {
        lemma_received_hold(level, items.drop_last());
        lemma_received(level, items.drop_last());
        if let Some((chunks, before)) = received(new_writer(level), items.drop_last()) {
            let item = items.last();
            let full = with_message(before, item.message, item.start, item.offset_nanos);
            law_object_size(item.message, item.offset_nanos);
            if full.buffer.len() >= MAX_CONTAINER_SIZE {
                lemma_flushed_chunk_holds(full);
            }
        }
    }
}

/// Every container of a log holds its piece: always where nothing is compressed, and
/// else where zlib gives back what it was given. Nothing can go wrong where nothing is
/// compressed.
pub proof fn law_containers_hold(level: i32, items: Seq<Sent>)
    ensures
        level == 0 ==> whole_log(level, items) is Some,
        level == 0 || zlib_restores(level) ==> (whole_log(level, items) matches Some((chunks, w))
            ==> all_hold(chunks)),
{
    if level == 0 || zlib_restores(level) {
        lemma_received_hold(level, items);
        lemma_received(level, items);
        if let Some((chunks, w)) = received(new_writer(level), items) {
            if w.buffer.len() > 0 {
                lemma_flushed_chunk_holds(w);
            }
        }
    }
}

/// Reading a finished log gives what was recorded of every message, in order, and then
/// the end; provided that its containers hold their pieces.
pub proof fn law_log_read_back(level: i32, items: Seq<Sent>, file_size: u64)
    ensures
        whole_log(level, items) matches Some((chunks, w)) ==> all_hold(chunks) ==> {
            &&& open_of(header_bytes(w, file_size) + joined_bytes(chunks), true) matches
                OpenView::Ready(r)
            &&& r.start_millis == millis_of_system_time(system_time(w.start_timestamp)) as i64
            &&& yields(r, readings(items, r.start_millis))
        },
{
    if let Some((chunks, w)) = whole_log(level, items) {
        if all_hold(chunks) {
            let body = joined_bytes(chunks);
            law_header_read_back(w, file_size, body, true);
            law_pieces_make_up_stream(level, items);
            if let OpenView::Ready(r) = open_of(header_bytes(w, file_size) + body, true) {
                assert(r.tail + joined_pieces(chunks) =~= stream(items));
                lemma_nothing_completed(items);
                lemma_drain(r, chunks, items);
                assert(r.pending + readings(items, r.start_millis) =~= readings(
                    items,
                    r.start_millis,
                ));
            }
        }
    }
}

/// No message lies in no bytes.
proof fn lemma_nothing_completed(items: Seq<Sent>)
    ensures
        completed(items, 0) == 0,
{
}

/// A log starts with its first message and ends with its last.
pub proof fn law_log_times(level: i32, items: Seq<Sent>)
    requires
        items.len() > 0,
    ensures
        whole_log(level, items) matches Some((chunks, w)) ==> w.start_timestamp == Some(
            items[0].start,
        ) && w.stop_timestamp == Some(items.last().message.timestamp),
{
    lemma_received_times(level, items);
}

proof fn lemma_received_times(level: i32, items: Seq<Sent>)
    ensures
        received(new_writer(level), items) matches Some((chunks, w)) ==> if items.len() == 0 {
            w.start_timestamp is None
        } else {
            w.start_timestamp == Some(items[0].start) && w.stop_timestamp == Some(
                items.last().message.timestamp,
            )
        },
    decreases items.len(),
{
    if items.len() > 0 {
        lemma_received_times(level, items.drop_last());
        if items.len() > 1 {
            assert(items.drop_last()[0] == items[0]);
        }
    }
}

/// A log counts its messages, modulo 2^32.
pub proof fn law_log_counts(level: i32, items: Seq<Sent>)
    ensures
        whole_log(level, items) matches Some((chunks, w)) ==> w.object_count == items.len()
            % 0x1_0000_0000,
{
    lemma_received_counts(level, items);
}

proof fn lemma_received_counts(level: i32, items: Seq<Sent>)
    ensures
        received(new_writer(level), items) matches Some((chunks, w)) ==> w.object_count
            == items.len() % 0x1_0000_0000,
    decreases items.len(),
{
    if items.len() > 0 {
        lemma_received_counts(level, items.drop_last());
    }
}

} // verus!
