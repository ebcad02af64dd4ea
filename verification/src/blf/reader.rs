//! Reading of a whole log.

use std::collections::VecDeque;

use vstd::prelude::*;
use vstd::slice::slice_subrange;

use crate::blf::format::{
    file_mark, object_mark, BlfTime, FILE_HEADER_STRUCT_SIZE, LOG_CONTAINER, LOG_CONTAINER_SIZE,
    NO_COMPRESSION, OBJ_HEADER_BASE_SIZE, ZLIB_DEFLATE,
};
use crate::blf::object::{is_marked, parse, parse_objects, views};
use crate::bytes::{get_u16, get_u32, push_slice, u16_at, u32_at};
use crate::calendar::{millis_of_system_time, systemtime_to_timestamp};
use crate::error::{truncation, BlfError, ErrorView};
use crate::message::{Message, MessageView};
use crate::zlib::{inflate, zlib_inflated};

verus! {

/// Bytes of which a first part has been read.
struct Unread {
    bytes: Vec<u8>,
    pos: usize,
}

impl View for Unread {
    type V = Seq<u8>;

    closed spec fn view(&self) -> Seq<u8> {
        self.bytes@.skip(self.pos as int)
    }
}

impl Unread {
    #[verifier::type_invariant]
    spec fn inv(self) -> bool {
        self.pos <= self.bytes@.len()
    }

    fn new(bytes: Vec<u8>) -> (res: Unread)
        ensures
            res@ == bytes@,
    {
        assert(bytes@.skip(0) =~= bytes@);
        Unread { bytes, pos: 0 }
    }

    /// The bytes that have not been read.
    fn rest(&self) -> (res: &[u8])
        ensures
            res@ == self@,
    {
        proof {
            use_type_invariant(self);
        }
        slice_subrange(self.bytes.as_slice(), self.pos, self.bytes.len())
    }

    /// Marks bytes as read.
    fn advance(&mut self, n: usize)
        requires
            n <= old(self)@.len(),
        ensures
            final(self)@ == old(self)@.skip(n as int),
    {
        proof {
            use_type_invariant(&*self);
        }
        assert(self.bytes@.len() == self.bytes.len());
        self.pos = self.pos + n;
        assert(self@ =~= old(self)@.skip(n as int));
    }

    /// Appends bytes.
    fn extend(&mut self, more: &[u8])
        ensures
            final(self)@ == old(self)@ + more@,
    {
        let mut bytes: Vec<u8> = bytes_from(self.rest(), 0);
        assert(bytes@ =~= self@);
        push_slice(&mut bytes, more);
        self.pos = 0;
        self.bytes = bytes;
        assert(self@ =~= bytes@);
    }
}

/// A reader of one log. It is fed the bytes of the log piece by piece and hands out
/// the messages in them.
pub struct BlfReader {
    start_millis: i64,
    input: Unread,
    closed: bool,
    tail: Vec<u8>,
    pending: VecDeque<Message<BlfTime>>,
    error: Option<BlfError>,
}

/// A [`BlfReader`] as contracts see it.
pub struct ReaderView {
    /// When the log starts, in milliseconds since the epoch.
    pub start_millis: i64,
    /// The bytes that were fed and have not been read.
    pub input: Seq<u8>,
    /// Whether the log ends with those bytes.
    pub closed: bool,
    /// The part of the inner stream that does not make up a whole object yet.
    pub tail: Seq<u8>,
    /// Messages that were read and not handed out.
    pub pending: Seq<MessageView<BlfTime>>,
    /// The error that stopped the reader, if one did.
    pub error: Option<ErrorView>,
}

/// What a reader does when it is asked for a message.
pub enum BlfNext {
    /// It has the next message.
    Message(Message<BlfTime>),
    /// It needs this many more bytes of the log, or to be told that there are none.
    NeedInput(u64),
    /// The log has no more messages.
    End,
}

/// A [`BlfNext`] as contracts see it.
pub enum NextView {
    Message(MessageView<BlfTime>),
    NeedInput(int),
    End,
}

impl View for BlfNext {
    type V = NextView;

    open spec fn view(&self) -> NextView {
        match self {
            BlfNext::Message(m) => NextView::Message(m@),
            BlfNext::NeedInput(n) => NextView::NeedInput(*n as int),
            BlfNext::End => NextView::End,
        }
    }
}

impl View for BlfReader {
    type V = ReaderView;

    closed spec fn view(&self) -> ReaderView {
        ReaderView {
            start_millis: self.start_millis,
            input: self.input@,
            closed: self.closed,
            tail: self.tail@,
            pending: views(self.pending@),
            error: match self.error {
                Some(e) => Some(e@),
                None => None,
            },
        }
    }
}

/// What the bytes of a log start with, past the file header.
pub enum Container {
    /// This many more bytes are needed to tell.
    NeedInput(int),
    /// The log ends here.
    End,
    /// The log cannot be read here; reading can go on with `rest`.
    Malformed { error: ErrorView, rest: Seq<u8> },
    /// An object that holds nothing of the inner stream.
    Other { rest: Seq<u8> },
    /// A container with a piece of the inner stream.
    Piece { data: Seq<u8>, rest: Seq<u8> },
}

/// What the data of an object of the outer stream holds.
pub open spec fn container_content(obj_type: u32, data: Seq<u8>, rest: Seq<u8>) -> Container {
    if obj_type != LOG_CONTAINER {
        Container::Other { rest }
    } else if data.len() < LOG_CONTAINER_SIZE {
        Container::Malformed { error: ErrorView::Parse("container header too small"@), rest }
    } else if u16_at(data, 0) == NO_COMPRESSION {
        Container::Piece { data: data.skip(LOG_CONTAINER_SIZE as int), rest }
    } else if u16_at(data, 0) == ZLIB_DEFLATE {
        match zlib_inflated(data.skip(LOG_CONTAINER_SIZE as int)) {
            Ok(out) => Container::Piece { data: out, rest },
            Err(e) => Container::Malformed { error: ErrorView::Io(e), rest },
        }
    } else {
        Container::Other { rest }
    }
}

/// The bytes that an object takes up with its padding.
pub open spec fn padded_size(obj_size: int) -> int {
    obj_size + obj_size % 4
}

/// What the bytes of a log start with, past the file header.
pub open spec fn next_container(input: Seq<u8>, closed: bool) -> Container {
    if input.len() < OBJ_HEADER_BASE_SIZE {
        if !closed {
            Container::NeedInput(OBJ_HEADER_BASE_SIZE - input.len())
        } else if input.len() == 0 {
            Container::End
        } else {
            Container::Malformed { error: ErrorView::Parse("unexpected EOF"@), rest: Seq::empty() }
        }
    } else if input.take(4) != object_mark() {
        Container::Malformed {
            error: ErrorView::Parse("unexpected object signature"@),
            rest: input.skip(OBJ_HEADER_BASE_SIZE as int),
        }
    } else {
        let obj_size = u32_at(input, 8) as int;
        if obj_size < OBJ_HEADER_BASE_SIZE {
            Container::Malformed {
                error: ErrorView::Parse("invalid object size"@),
                rest: input.skip(OBJ_HEADER_BASE_SIZE as int),
            }
        } else if input.len() < padded_size(obj_size) {
            if !closed {
                Container::NeedInput(padded_size(obj_size) - input.len())
            } else {
                Container::Malformed { error: truncation(), rest: Seq::empty() }
            }
        } else {
            container_content(
                u32_at(input, 12),
                input.subrange(OBJ_HEADER_BASE_SIZE as int, obj_size),
                input.skip(padded_size(obj_size)),
            )
        }
    }
}

/// What is left of the input after the object it starts with.
pub open spec fn container_rest(c: Container) -> Option<Seq<u8>> {
    match c {
        Container::NeedInput(_) => None,
        Container::End => None,
        Container::Malformed { error, rest } => Some(rest),
        Container::Other { rest } => Some(rest),
        Container::Piece { data, rest } => Some(rest),
    }
}

/// Every object of the outer stream takes up bytes.
pub proof fn lemma_container_advances(input: Seq<u8>, closed: bool)
    ensures
        container_rest(next_container(input, closed)) matches Some(rest) ==> rest.len()
            < input.len(),
{
}

/// What a reader answers when it is asked for a message, and what it is afterwards.
pub open spec fn next_of(r: ReaderView) -> (Result<NextView, ErrorView>, ReaderView)
    decreases r.input.len(),
{
    if r.pending.len() > 0 {
        (
            Ok(NextView::Message(r.pending[0])),
            ReaderView { pending: r.pending.drop_first(), ..r },
        )
    } else {
        proof {
            lemma_container_advances(r.input, r.closed);
        }
        match next_container(r.input, r.closed) {
            Container::NeedInput(n) => (Ok(NextView::NeedInput(n)), r),
            Container::End => (Ok(NextView::End), r),
            Container::Malformed { error, rest } => (Err(error), ReaderView { input: rest, ..r }),
            Container::Other { rest } => next_of(ReaderView { input: rest, ..r }),
            Container::Piece { data, rest } => match parse(r.tail + data, 0, r.start_millis) {
                Err(reason) => (
                    Err(ErrorView::Parse(reason)),
                    ReaderView { input: rest, tail: Seq::empty(), ..r },
                ),
                Ok((messages, tail)) => {
                    let after = ReaderView { input: rest, tail, ..r };
                    if messages.len() == 0 {
                        next_of(after)
                    } else {
                        (
                            Ok(NextView::Message(messages[0])),
                            ReaderView { pending: messages.drop_first(), ..after },
                        )
                    }
                },
            },
        }
    }
}

/// What a reader that stops at its first error gives, and what it is afterwards.
pub open spec fn iterate(r: ReaderView) -> (NextView, ReaderView) {
    if r.error is Some {
        (NextView::End, r)
    } else {
        match next_of(r) {
            (Ok(next), after) => (next, after),
            (Err(e), after) => (NextView::End, ReaderView { error: Some(e), ..after }),
        }
    }
}

/// What an attempt to open a log gives.
pub enum BlfOpen {
    /// This many more bytes of the log are needed.
    NeedInput(u64),
    /// The reader of the log, past the file header.
    Ready(BlfReader),
}

/// What an attempt to open a log gives, as contracts see it.
pub enum OpenView {
    NeedInput(int),
    Ready(ReaderView),
    Malformed(ErrorView),
}

/// The eight numbers of the moment at which a log starts, in its file header.
pub open spec fn header_start(bytes: Seq<u8>) -> Seq<u16> {
    Seq::new(8, |i: int| u16_at(bytes, 40 + 2 * i))
}

/// What the first bytes of a log, or all of them, give.
pub open spec fn open_of(bytes: Seq<u8>, closed: bool) -> OpenView {
    if bytes.len() < FILE_HEADER_STRUCT_SIZE {
        if !closed {
            OpenView::NeedInput(FILE_HEADER_STRUCT_SIZE - bytes.len())
        } else if bytes.len() == 0 {
            OpenView::Malformed(ErrorView::Parse("empty file"@))
        } else {
            OpenView::Malformed(ErrorView::Parse("unexpected EOF"@))
        }
    } else if bytes.take(4) != file_mark() {
        OpenView::Malformed(ErrorView::Parse("unexpected file signature"@))
    } else {
        let header_size = u32_at(bytes, 4);
        if header_size < FILE_HEADER_STRUCT_SIZE {
            OpenView::Malformed(ErrorView::Parse("invalid header size"@))
        } else if bytes.len() < header_size {
            if !closed {
                OpenView::NeedInput(header_size - bytes.len())
            } else {
                OpenView::Malformed(truncation())
            }
        } else {
            OpenView::Ready(
                ReaderView {
                    start_millis: millis_of_system_time(header_start(bytes)) as i64,
                    input: bytes.skip(header_size as int),
                    closed,
                    tail: Seq::empty(),
                    pending: Seq::empty(),
                    error: None,
                },
            )
        }
    }
}

/// Whether the file starts as a log does.
fn has_file_mark(bytes: &[u8]) -> (res: bool)
    requires
        4 <= bytes@.len(),
    ensures
        res == (bytes@.take(4) == file_mark()),
{
    let res: bool = bytes[0] == 0x4c && bytes[1] == 0x4f && bytes[2] == 0x47 && bytes[3] == 0x47;
    proof {
        let s = bytes@.take(4);
        assert(s[0] == bytes@[0] && s[1] == bytes@[1] && s[2] == bytes@[2] && s[3] == bytes@[3]);
        if res {
            assert(s =~= file_mark());
        }
    }
    res
}

/// When a log starts, in milliseconds since the epoch.
fn read_start(bytes: &[u8]) -> (millis: i64)
    requires
        FILE_HEADER_STRUCT_SIZE <= bytes@.len(),
    ensures
        millis == millis_of_system_time(header_start(bytes@)),
{
    let numbers: [u16; 8] = [
        get_u16(bytes, 40),
        get_u16(bytes, 42),
        get_u16(bytes, 44),
        get_u16(bytes, 46),
        get_u16(bytes, 48),
        get_u16(bytes, 50),
        get_u16(bytes, 52),
        get_u16(bytes, 54),
    ];
    assert(numbers@ =~= header_start(bytes@));
    systemtime_to_timestamp(numbers)
}

/// A copy of the bytes from `at` on.
fn bytes_from(bytes: &[u8], at: usize) -> (out: Vec<u8>)
    requires
        at <= bytes@.len(),
    ensures
        out@ == bytes@.skip(at as int),
{
    let mut out: Vec<u8> = Vec::new();
    push_slice(&mut out, slice_subrange(bytes, at, bytes.len()));
    assert(out@ =~= bytes@.skip(at as int));
    out
}

/// What the input starts with, in code.
enum Outer {
    NeedInput(u64),
    End,
    Malformed { error: BlfError, next: usize },
    Other { next: usize },
    Piece { data: Vec<u8>, next: usize },
}

/// Whether the start of the input was read as the log says; `next` is where reading
/// goes on.
spec fn outer_result(expected: Container, res: Outer, input: Seq<u8>) -> bool {
    match (expected, res) {
        (Container::NeedInput(n), Outer::NeedInput(m)) => m == n,
        (Container::End, Outer::End) => true,
        (Container::Malformed { error, rest }, Outer::Malformed { error: e, next }) => e@ == error
            && next <= input.len() && rest == input.skip(next as int),
        (Container::Other { rest }, Outer::Other { next }) => next <= input.len() && rest
            == input.skip(next as int),
        (Container::Piece { data, rest }, Outer::Piece { data: d, next }) => d@ == data && next
            <= input.len() && rest == input.skip(next as int),
        _ => false,
    }
}

/// What the data of an object of the outer stream holds.
fn read_container(obj_type: u32, data: &[u8], next: usize, Ghost(input): Ghost<Seq<u8>>) -> (res:
    Outer)
    requires
        next <= input.len(),
    ensures
        outer_result(container_content(obj_type, data@, input.skip(next as int)), res, input),
{
    if obj_type != LOG_CONTAINER {
        return Outer::Other { next };
    }
    if data.len() < LOG_CONTAINER_SIZE {
        return Outer::Malformed { error: BlfError::parse("container header too small"), next };
    }
    let method: u16 = get_u16(data, 0);
    if method == NO_COMPRESSION {
        Outer::Piece { data: bytes_from(data, LOG_CONTAINER_SIZE), next }
    } else if method == ZLIB_DEFLATE {
        let stream: &[u8] = slice_subrange(data, LOG_CONTAINER_SIZE, data.len());
        assert(stream@ =~= data@.skip(LOG_CONTAINER_SIZE as int));
        match inflate(stream) {
            Ok(out) => Outer::Piece { data: out, next },
            Err(e) => Outer::Malformed { error: BlfError::from(e), next },
        }
    } else {
        Outer::Other { next }
    }
}

/// What the input starts with.
fn read_next_container(input: &[u8], closed: bool) -> (res: Outer)
    ensures
        outer_result(next_container(input@, closed), res, input@),
{
    let len: usize = input.len();
    assert(input@.skip(len as int) =~= Seq::<u8>::empty());
    if len < OBJ_HEADER_BASE_SIZE {
        if !closed {
            return Outer::NeedInput((OBJ_HEADER_BASE_SIZE - len) as u64);
        }
        if len == 0 {
            return Outer::End;
        }
        return Outer::Malformed { error: BlfError::parse("unexpected EOF"), next: len };
    }
    assert(input@.subrange(0, 4) =~= input@.take(4));
    if !is_marked(input, 0) {
        return Outer::Malformed {
            error: BlfError::parse("unexpected object signature"),
            next: OBJ_HEADER_BASE_SIZE,
        };
    }
    let obj_size: u32 = get_u32(input, 8);
    if (obj_size as u64) < OBJ_HEADER_BASE_SIZE as u64 {
        return Outer::Malformed {
            error: BlfError::parse("invalid object size"),
            next: OBJ_HEADER_BASE_SIZE,
        };
    }
    let total: u64 = obj_size as u64 + (obj_size % 4) as u64;
    if (len as u64) < total {
        if !closed {
            return Outer::NeedInput(total - len as u64);
        }
        return Outer::Malformed { error: BlfError::truncated(), next: len };
    }
    let data: &[u8] = slice_subrange(input, OBJ_HEADER_BASE_SIZE, obj_size as usize);
    read_container(get_u32(input, 12), data, total as usize, Ghost(input@))
}

impl BlfReader {
    /// Opens a log whose first bytes, or all of them where `closed`, are given: says
    /// how many more are needed, or gives the reader.
    pub fn open(bytes: &[u8], closed: bool) -> (res: Result<BlfOpen, BlfError>)
        ensures
            match res {
                Ok(BlfOpen::NeedInput(n)) => open_of(bytes@, closed) == OpenView::NeedInput(
                    n as int,
                ),
                Ok(BlfOpen::Ready(reader)) => open_of(bytes@, closed) == OpenView::Ready(reader@),
                Err(e) => open_of(bytes@, closed) == OpenView::Malformed(e@),
            },
    {
        let len: usize = bytes.len();
        if len < FILE_HEADER_STRUCT_SIZE {
            if !closed {
                return Ok(BlfOpen::NeedInput((FILE_HEADER_STRUCT_SIZE - len) as u64));
            }
            if len == 0 {
                return Err(BlfError::parse("empty file"));
            }
            return Err(BlfError::parse("unexpected EOF"));
        }
        if !has_file_mark(bytes) {
            return Err(BlfError::parse("unexpected file signature"));
        }
        let header_size: u32 = get_u32(bytes, 4);
        if (header_size as u64) < FILE_HEADER_STRUCT_SIZE as u64 {
            return Err(BlfError::parse("invalid header size"));
        }
        if (len as u64) < header_size as u64 {
            if !closed {
                return Ok(BlfOpen::NeedInput(header_size as u64 - len as u64));
            }
            return Err(BlfError::truncated());
        }
        let reader = BlfReader {
            start_millis: read_start(bytes),
            input: Unread::new(bytes_from(bytes, header_size as usize)),
            closed,
            tail: Vec::new(),
            pending: VecDeque::new(),
            error: None,
        };
        proof {
            assert(views(reader.pending@) =~= Seq::empty());
            assert(reader.tail@ =~= Seq::empty());
        }
        Ok(BlfOpen::Ready(reader))
    }

    /// Hands the reader more bytes of the log.
    pub fn feed(&mut self, bytes: &[u8])
        ensures
            final(self)@ == (ReaderView { input: old(self)@.input + bytes@, ..old(self)@ }),
    {
        self.input.extend(bytes);
    }

    /// Tells the reader that the log ends with the bytes fed so far.
    pub fn end_of_input(&mut self)
        ensures
            final(self)@ == (ReaderView { closed: true, ..old(self)@ }),
    {
        self.closed = true;
    }

    /// The next message; or that the log has no more, or that more of its bytes are
    /// needed.
    pub fn next_message(&mut self) -> (res: Result<BlfNext, BlfError>)
        ensures
            final(self)@ == next_of(old(self)@).1,
            match res {
                Ok(next) => next_of(old(self)@).0 == Ok::<NextView, ErrorView>(next@),
                Err(e) => next_of(old(self)@).0 == Err::<NextView, ErrorView>(e@),
            },
    {
        let ghost before = self@;
        if let Some(msg) = self.pending.pop_front() {
            assert(views(self.pending@) =~= before.pending.drop_first());
            return Ok(BlfNext::Message(msg));
        }
        assert(views(self.pending@) =~= before.pending);
        loop
            invariant
                before == old(self)@,
                self@.pending.len() == 0,
                next_of(before) == next_of(self@),
            decreases self@.input.len(),
        {
            proof {
                lemma_container_advances(self@.input, self@.closed);
            }
            match read_next_container(self.input.rest(), self.closed) {
                Outer::NeedInput(n) => {
                    return Ok(BlfNext::NeedInput(n));
                },
                Outer::End => {
                    return Ok(BlfNext::End);
                },
                Outer::Malformed { error, next } => {
                    self.input.advance(next);
                    return Err(error);
                },
                Outer::Other { next } => {
                    self.input.advance(next);
                },
                Outer::Piece { data, next } => {
                    self.input.advance(next);
                    match self.parse_container(&data) {
                        Err(e) => {
                            return Err(e);
                        },
                        Ok(messages) => {
                            if messages.len() > 0 {
                                let first: Message<BlfTime> = self.hold(messages);
                                return Ok(BlfNext::Message(first));
                            }
                            assert(views(messages@) =~= Seq::empty());
                        },
                    }
                },
            }
        }
    }

    /// The messages that a piece of the inner stream completes. What it leaves
    /// incomplete is kept for the next piece.
    fn parse_container(&mut self, data: &[u8]) -> (res: Result<Vec<Message<BlfTime>>, BlfError>)
        ensures
            match parse(old(self)@.tail + data@, 0, old(self)@.start_millis) {
                Ok((messages, tail)) => {
                    &&& res matches Ok(ms)
                    &&& views(ms@) == messages
                    &&& final(self)@ == (ReaderView { tail, ..old(self)@ })
                },
                Err(reason) => {
                    &&& res matches Err(e)
                    &&& e@ == ErrorView::Parse(reason)
                    &&& final(self)@ == (ReaderView { tail: Seq::empty(), ..old(self)@ })
                },
            },
    {
        let mut buffer: Vec<u8> = Vec::new();
        buffer.append(&mut self.tail);
        assert(buffer@ =~= old(self)@.tail);
        push_slice(&mut buffer, data);
        match parse_objects(&buffer, self.start_millis) {
            Ok((messages, tail)) => {
                self.tail = tail;
                Ok(messages)
            },
            Err(e) => Err(e),
        }
    }

    /// Keeps all messages but the first, and gives that one.
    fn hold(&mut self, messages: Vec<Message<BlfTime>>) -> (first: Message<BlfTime>)
        requires
            messages@.len() > 0,
        ensures
            first@ == views(messages@)[0],
            final(self)@ == (ReaderView { pending: views(messages@).drop_first(), ..old(self)@ }),
    {
        let mut rest: Vec<Message<BlfTime>> = messages;
        let first: Message<BlfTime> = rest.remove(0);
        let mut pending: VecDeque<Message<BlfTime>> = VecDeque::new();
        assert(rest@ + pending@ =~= messages@.drop_first());
        while rest.len() > 0
            invariant
                rest@ + pending@ == messages@.drop_first(),
            decreases rest@.len(),
        {
            if let Some(msg) = rest.pop() {
                pending.push_front(msg);
            }
            assert(rest@ + pending@ =~= messages@.drop_first());
        }
        assert(pending@ =~= messages@.drop_first());
        assert(views(pending@) =~= views(messages@).drop_first());
        self.pending = pending;
        first
    }

    /// The next message, or the end of the log where there is none or an error stopped
    /// the reader; an error that comes up now is kept and stops it. It too may say that
    /// more bytes are needed.
    pub fn next(&mut self) -> (next: BlfNext)
        ensures
            (next@, final(self)@) == iterate(old(self)@),
    {
        if self.error.is_some() {
            return BlfNext::End;
        }
        match self.next_message() {
            Ok(next) => next,
            Err(e) => {
                self.error = Some(e);
                BlfNext::End
            },
        }
    }

    /// Stops the reader with an error that came up outside.
    pub fn fail(&mut self, error: BlfError)
        ensures
            final(self)@ == (ReaderView { error: Some(error@), ..old(self)@ }),
    {
        self.error = Some(error);
    }

    /// The error that stopped the reader. The reader can then go on.
    pub fn take_error(&mut self) -> (error: Option<BlfError>)
        ensures
            match error {
                Some(e) => old(self)@.error == Some(e@),
                None => old(self)@.error is None,
            },
            final(self)@ == (ReaderView { error: None, ..old(self)@ }),
    {
        self.error.take()
    }
}

} // verus!
