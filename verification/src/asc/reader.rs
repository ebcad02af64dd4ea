//! Reading of a log, line by line.

use vstd::prelude::*;

use crate::asc::clock::{
    has_wild_hour, hour_overflows, local_instant, may_be_local, moment_of, parse_date,
};
use crate::blf::object::{channel_from_log, log_channel};
use crate::dlc::{dlc2len, fd_length};
use crate::error::{BlfError, ErrorView};
use crate::message::{empty_message, Message, MessageView};
use crate::number::{at_most, parse_unsigned, unsigned_of};
use crate::text::{
    chars_of, contains, find_char, has_only_digits, has_part, has_prefix, is_float, is_float_text,
    lowercase, only_digits, part, place_of, same_but_case, same_letters, same_text, split_words,
    starts_with, text_of, to_lowercase, trim, trimmed, word_views, words,
};

verus! {

/// The base of the numbers in a log.
#[derive(Clone, Copy, Debug, PartialEq, Eq, Structural)]
pub enum Base {
    Hex,
    Dec,
}

impl Base {
    /// The number of digits of the base.
    pub open spec fn size(self) -> int {
        match self {
            Base::Hex => 16,
            Base::Dec => 10,
        }
    }

    /// The number of digits of the base.
    pub fn radix(&self) -> (n: u32)
        ensures
            n == self.size(),
            2 <= n <= 36,
    {
        match self {
            Base::Hex => 16,
            Base::Dec => 10,
        }
    }
}

/// When a message was seen: the number of seconds that its line says, counted from a
/// moment that is so many seconds and nanoseconds after the epoch.
#[derive(Clone, Debug)]
pub struct AscTime {
    /// The number of seconds as the line writes it.
    pub text: String,
    pub start_seconds: i64,
    pub start_nanos: u32,
}

/// An [`AscTime`] as contracts see it.
pub struct AscTimeView {
    pub text: Seq<char>,
    pub start: (i64, u32),
}

impl View for AscTime {
    type V = AscTimeView;

    open spec fn view(&self) -> AscTimeView {
        AscTimeView { text: self.text@, start: (self.start_seconds, self.start_nanos) }
    }
}

impl View for Message<AscTime> {
    type V = MessageView<AscTimeView>;

    open spec fn view(&self) -> MessageView<AscTimeView> {
        self.with_time(self.timestamp@)
    }
}

/// A reader of one log. It is handed the lines of the log one by one.
pub struct AscReader {
    base: Base,
    relative_timestamp: bool,
    start: (i64, u32),
    header_parsed: bool,
    error: Option<BlfError>,
}

/// An [`AscReader`] as contracts see it.
pub struct AscView {
    pub base: Base,
    /// Whether times count from the start of a block of events, and not from the epoch.
    pub relative_timestamp: bool,
    /// The moment from which times count.
    pub start: (i64, u32),
    /// Whether the header of the log has been read.
    pub header_parsed: bool,
    /// The error that stopped the reader, if one did.
    pub error: Option<ErrorView>,
}

impl View for AscReader {
    type V = AscView;

    closed spec fn view(&self) -> AscView {
        AscView {
            base: self.base,
            relative_timestamp: self.relative_timestamp,
            start: self.start,
            header_parsed: self.header_parsed,
            error: match self.error {
                Some(e) => Some(e@),
                None => None,
            },
        }
    }
}

/// What a line gives.
pub enum AscNext {
    /// A message.
    Message(Message<AscTime>),
    /// No message; the next line may have one.
    Nothing,
    /// The log has ended.
    End,
}

/// An [`AscNext`] as contracts see it.
pub enum AscNextView {
    Message(MessageView<AscTimeView>),
    Nothing,
    End,
}

impl View for AscNext {
    type V = AscNextView;

    open spec fn view(&self) -> AscNextView {
        match self {
            AscNext::Message(m) => AscNextView::Message(m@),
            AscNext::Nothing => AscNextView::Nothing,
            AscNext::End => AscNextView::End,
        }
    }
}

/// The base that a word names.
pub open spec fn base_of(s: Seq<char>) -> Option<Base> {
    if s == "hex"@ || s == "HEX"@ || s == "Hex"@ {
        Some(Base::Hex)
    } else if s == "dec"@ || s == "DEC"@ || s == "Dec"@ {
        Some(Base::Dec)
    } else {
        None
    }
}

/// What a line of the header is.
pub enum HeaderLine {
    /// Empty, or a comment.
    Skipped,
    /// The date.
    Date,
    /// The base of numbers.
    Base,
    /// The last line of the header.
    Last,
    /// Not of the header any more.
    Beyond,
}

/// What a line of the header is, given trimmed and in lower case.
pub open spec fn header_line(line: Seq<char>, lower: Seq<char>) -> HeaderLine {
    if line.len() == 0 {
        HeaderLine::Skipped
    } else if has_prefix(lower, "date "@) {
        HeaderLine::Date
    } else if has_prefix(lower, "base "@) {
        HeaderLine::Base
    } else if has_prefix(line, "//"@) {
        HeaderLine::Skipped
    } else if has_part(lower, "internal events logged"@) {
        HeaderLine::Last
    } else {
        HeaderLine::Beyond
    }
}

/// The part of a line behind its second space.
pub open spec fn behind_second_space(line: Seq<char>) -> Seq<char> {
    let i = place_of(line, ' ', 0);
    let j = place_of(line, ' ', i + 1);
    if i >= line.len() || j >= line.len() {
        Seq::empty()
    } else {
        line.skip(j + 1)
    }
}

/// The base after a line of the header that names one.
pub open spec fn new_base(base: Base, line: Seq<char>) -> Base {
    let w = words(line);
    if w.len() >= 2 {
        match base_of(w[1]) {
            Some(b) => b,
            None => base,
        }
    } else {
        base
    }
}

/// Whether a line starts a block of events, given in lower case.
pub open spec fn starts_block(lower: Seq<char>) -> bool {
    has_prefix(lower, "begin triggerblock"@)
}

/// The words of the date that a line gives as the moment from which times count, where
/// they do not count from the start of a block.
pub open spec fn start_words(v: AscView, line: Seq<char>, lower: Seq<char>) -> Option<
    Seq<Seq<char>>,
> {
    if v.relative_timestamp || line.len() == 0 {
        None
    } else if !v.header_parsed && !(header_line(line, lower) is Beyond) {
        if header_line(line, lower) is Date {
            Some(words(behind_second_space(line)))
        } else {
            None
        }
    } else if starts_block(lower) && words(line).len() >= 4 {
        Some(words(line).skip(3))
    } else {
        None
    }
}

/// The id that a word stands for, and whether it is an extended one, which an `x` at the
/// end says.
pub open spec fn id_of(s: Seq<char>, base: Base) -> Option<(u32, bool)> {
    let extended = s.len() > 0 && (s.last() == 'x' || s.last() == 'X');
    let digits = if extended {
        s.drop_last()
    } else {
        s
    };
    match unsigned_of(trimmed(digits), base.size(), u32::MAX as int) {
        Some(id) => Some((id as u32, extended)),
        None => None,
    }
}

/// The byte that a word stands for, or 0.
pub open spec fn byte_or_zero(s: Seq<char>, base: Base) -> u8 {
    match unsigned_of(s, base.size(), 255) {
        Some(b) => b as u8,
        None => 0,
    }
}

/// The bytes that the first `count` words stand for, up to the first that stands for
/// none.
pub open spec fn bytes_of(w: Seq<Seq<char>>, count: int, base: Base) -> Seq<u8>
    decreases w.len(),
{
    if count <= 0 || w.len() == 0 {
        Seq::empty()
    } else {
        match unsigned_of(w[0], base.size(), 255) {
            Some(b) => seq![b as u8] + bytes_of(w.drop_first(), count - 1, base),
            None => Seq::empty(),
        }
    }
}

/// The channel that a word numbers.
pub open spec fn channel_of(s: Seq<char>) -> Option<int> {
    unsigned_of(s, 10, 65_535)
}

/// Where the flags of a CAN FD frame start among its words: behind the id, and behind
/// a name of the message where one is given.
pub open spec fn fd_flags_at(w: Seq<Seq<char>>) -> int {
    if w.len() > 5 && !only_digits(w[5]) {
        6
    } else {
        5
    }
}

/// The number of data bytes that the words of a CAN FD frame say.
pub open spec fn fd_count(w: Seq<Seq<char>>) -> int {
    match unsigned_of(w[fd_flags_at(w) + 3], 10, usize::MAX as int) {
        Some(n) => n,
        None => 0,
    }
}

/// The CAN FD frame that words stand for, its id being known.
pub open spec fn fd_frame(
    time: AscTimeView,
    w: Seq<Seq<char>>,
    base: Base,
    channel: int,
    id: u32,
    extended: bool,
) -> MessageView<AscTimeView> {
    let at = fd_flags_at(w);
    let count = fd_count(w);
    MessageView {
        timestamp: time,
        arbitration_id: id,
        is_extended_id: extended,
        is_remote_frame: count == 0,
        is_rx: same_but_case(w[3], "Rx"@),
        is_error_frame: false,
        is_fd: true,
        bitrate_switch: w[at] == "1"@,
        error_state_indicator: w[at + 1] == "1"@,
        dlc: if count == 0 {
            byte_or_zero(w[at + 2], base)
        } else {
            count as u8
        },
        data: bytes_of(w.skip(at + 4), count, base),
        channel: channel_from_log(channel),
    }
}

/// What the words of a CAN FD line give.
pub open spec fn fd_line(time: AscTimeView, w: Seq<Seq<char>>, base: Base) -> Result<
    AscNextView,
    ErrorView,
> {
    if w.len() < 5 {
        Ok(AscNextView::Nothing)
    } else {
        match channel_of(w[2]) {
            None => Ok(AscNextView::Nothing),
            Some(channel) => if same_but_case(w[4], "errorframe"@) {
                Ok(
                    AscNextView::Message(
                        MessageView {
                            is_fd: true,
                            is_error_frame: true,
                            is_rx: same_but_case(w[3], "Rx"@),
                            channel: channel_from_log(channel),
                            ..empty_message(time)
                        },
                    ),
                )
            } else {
                match id_of(w[4], base) {
                    None => Err(ErrorView::Parse("invalid CAN id"@)),
                    Some((id, extended)) => Ok(
                        AscNextView::Message(fd_frame(time, w, base, channel, id, extended)),
                    ),
                }
            },
        }
    }
}

/// The classic frame that words stand for, its id being known; none where they say
/// neither data nor a request for data.
pub open spec fn classic_frame(
    time: AscTimeView,
    w: Seq<Seq<char>>,
    base: Base,
    channel: int,
    id: u32,
    extended: bool,
) -> AscNextView {
    let frame = MessageView {
        arbitration_id: id,
        is_extended_id: extended,
        is_rx: same_but_case(w[3], "Rx"@),
        channel: channel_from_log(channel),
        ..empty_message(time)
    };
    let code = byte_or_zero(w[5], base);
    if same_but_case(w[4], "r"@) {
        AscNextView::Message(MessageView { is_remote_frame: true, dlc: code, ..frame })
    } else if same_but_case(w[4], "d"@) {
        let dlc = fd_length(code as int);
        AscNextView::Message(
            MessageView {
                dlc: dlc as u8,
                data: bytes_of(w.skip(6), at_most(dlc, 8), base),
                ..frame
            },
        )
    } else {
        AscNextView::Nothing
    }
}

/// What the words of a line for a classic frame give.
pub open spec fn classic_line(time: AscTimeView, w: Seq<Seq<char>>, base: Base) -> Result<
    AscNextView,
    ErrorView,
> {
    if w.len() < 3 {
        Ok(AscNextView::Nothing)
    } else {
        match channel_of(w[1]) {
            None => Ok(AscNextView::Nothing),
            Some(channel) => if same_but_case(w[2], "errorframe"@) {
                Ok(
                    AscNextView::Message(
                        MessageView {
                            is_error_frame: true,
                            channel: channel_from_log(channel),
                            ..empty_message(time)
                        },
                    ),
                )
            } else if w.len() < 6 {
                Ok(AscNextView::Nothing)
            } else {
                match id_of(w[2], base) {
                    None => Err(ErrorView::Parse("invalid CAN id"@)),
                    Some((id, extended)) => Ok(
                        classic_frame(time, w, base, channel, id, extended),
                    ),
                }
            },
        }
    }
}

/// What the words of an event give.
pub open spec fn event_of(start: (i64, u32), w: Seq<Seq<char>>, base: Base) -> Result<
    AscNextView,
    ErrorView,
> {
    let time = AscTimeView { text: w[0], start };
    if w.len() < 2 || !is_float_text(w[0]) {
        Ok(AscNextView::Nothing)
    } else if same_but_case(w[1], "canfd"@) {
        fd_line(time, w, base)
    } else if only_digits(w[1]) {
        classic_line(time, w, base)
    } else {
        Ok(AscNextView::Nothing)
    }
}

/// Whether the words of an event are a CAN FD frame that breaks off before its data, or
/// that claims more data than there can be.
pub open spec fn breaks_off(w: Seq<Seq<char>>, base: Base) -> bool {
    &&& w.len() >= 5
    &&& is_float_text(w[0])
    &&& same_but_case(w[1], "canfd"@)
    &&& channel_of(w[2]) is Some
    &&& !same_but_case(w[4], "errorframe"@)
    &&& id_of(w[4], base) is Some
    &&& w.len() < fd_flags_at(w) + 4 || fd_count(w) > isize::MAX
}

/// What a line behind the header is.
pub enum BodyLine {
    /// Empty, the end of a block, or the start of the measurement.
    Skipped,
    /// The start of a block.
    Block,
    /// An event.
    Event,
}

/// What a line behind the header is, given trimmed and in lower case.
pub open spec fn body_line(line: Seq<char>, lower: Seq<char>) -> BodyLine {
    if line.len() == 0 {
        BodyLine::Skipped
    } else if starts_block(lower) {
        BodyLine::Block
    } else if has_prefix(lower, "end triggerblock"@) || has_part(lower, "start of measurement"@) {
        BodyLine::Skipped
    } else {
        BodyLine::Event
    }
}

/// Whether a line is read as one behind the header.
pub open spec fn is_body(v: AscView, line: Seq<char>, lower: Seq<char>) -> bool {
    v.header_parsed || header_line(line, lower) is Beyond
}

/// Whether a line is no CAN FD frame that breaks off.
pub open spec fn is_whole(v: AscView, line: Seq<char>, lower: Seq<char>) -> bool {
    is_body(v, line, lower) && body_line(line, lower) is Event ==> !breaks_off(words(line), v.base)
}

/// Whether a line can be read: its date has no hour out of all bounds, and no CAN FD
/// frame breaks off.
pub open spec fn readable(v: AscView, line: Seq<char>, lower: Seq<char>) -> bool {
    &&& start_words(v, line, lower) matches Some(parts) ==> !hour_overflows(parts)
    &&& is_whole(v, line, lower)
}

/// What a line behind the header gives. `instant` is the moment that the line gives as
/// the one from which times count, if it gives one.
pub open spec fn body_of(
    v: AscView,
    line: Seq<char>,
    lower: Seq<char>,
    instant: Option<(i64, u32)>,
) -> (Result<AscNextView, ErrorView>, AscView) {
    match body_line(line, lower) {
        BodyLine::Skipped => (Ok(AscNextView::Nothing), v),
        BodyLine::Block => (
            Ok(AscNextView::Nothing),
            if v.relative_timestamp {
                AscView { start: (0, 0), ..v }
            } else {
                started(v, instant)
            },
        ),
        BodyLine::Event => (event_of(v.start, words(line), v.base), v),
    }
}

/// The reader after a line that gives a moment from which times count, or none.
pub open spec fn started(v: AscView, instant: Option<(i64, u32)>) -> AscView {
    match instant {
        Some(i) => AscView { start: i, ..v },
        None => v,
    }
}

/// What a line gives, and what the reader is afterwards.
pub open spec fn line_of(
    v: AscView,
    line: Seq<char>,
    lower: Seq<char>,
    instant: Option<(i64, u32)>,
) -> (Result<AscNextView, ErrorView>, AscView) {
    if v.header_parsed {
        body_of(v, line, lower, instant)
    } else {
        match header_line(line, lower) {
            HeaderLine::Skipped => (Ok(AscNextView::Nothing), v),
            HeaderLine::Date => (Ok(AscNextView::Nothing), started(v, instant)),
            HeaderLine::Base => (
                Ok(AscNextView::Nothing),
                AscView { base: new_base(v.base, line), ..v },
            ),
            HeaderLine::Last => (Ok(AscNextView::Nothing), AscView { header_parsed: true, ..v }),
            HeaderLine::Beyond => body_of(
                AscView { header_parsed: true, ..v },
                line,
                lower,
                instant,
            ),
        }
    }
}

/// Whether an instant may be the one that a line gives as the moment from which times
/// count: none where the line gives no date.
pub open spec fn may_start(
    v: AscView,
    line: Seq<char>,
    lower: Seq<char>,
    instant: Option<(i64, u32)>,
) -> bool {
    match start_words(v, line, lower) {
        Some(parts) => match moment_of(parts) {
            Some((c, nanos)) => may_be_local(c, nanos, instant),
            None => instant is None,
        },
        None => instant is None,
    }
}

/// The base that a word names.
fn find_base(s: &[char]) -> (res: Option<Base>)
    ensures
        res == base_of(s@),
{
    if same_text(s, "hex") || same_text(s, "HEX") || same_text(s, "Hex") {
        Some(Base::Hex)
    } else if same_text(s, "dec") || same_text(s, "DEC") || same_text(s, "Dec") {
        Some(Base::Dec)
    } else {
        None
    }
}

/// The base that a word names.
pub fn check_base(base: &str) -> (res: Result<Base, BlfError>)
    ensures
        match res {
            Ok(b) => base_of(base@) == Some(b),
            Err(e) => base_of(base@) is None && e@ == ErrorView::Parse(
                "base should be either hex or dec"@,
            ),
        },
{
    let chars: Vec<char> = chars_of(base);
    match find_base(&chars) {
        Some(b) => Ok(b),
        None => Err(BlfError::parse("base should be either hex or dec")),
    }
}

/// The id that a word stands for, and whether it is an extended one.
pub fn parse_can_id(s: &[char], base: Base) -> (res: Result<(u32, bool), BlfError>)
    ensures
        match res {
            Ok(id) => id_of(s@, base) == Some(id),
            Err(e) => id_of(s@, base) is None && e@ == ErrorView::Parse("invalid CAN id"@),
        },
{
    let len: usize = s.len();
    let extended: bool = len > 0 && (s[len - 1] == 'x' || s[len - 1] == 'X');
    let end: usize = if extended {
        len - 1
    } else {
        len
    };
    let digits: Vec<char> = part(s, 0, end);
    proof {
        if extended {
            assert(digits@ =~= s@.drop_last());
        } else {
            assert(digits@ =~= s@);
        }
    }
    match parse_unsigned(&trim(&digits), base.radix(), u32::MAX as u64) {
        Some(id) => Ok((id as u32, extended)),
        None => Err(BlfError::parse("invalid CAN id")),
    }
}

/// The byte that a word stands for, or 0.
fn parse_byte(s: &[char], base: Base) -> (b: u8)
    ensures
        b == byte_or_zero(s@, base),
{
    match parse_unsigned(s, base.radix(), 255) {
        Some(b) => b as u8,
        None => 0,
    }
}

/// The channel that a word numbers.
fn parse_channel(s: &[char]) -> (channel: Option<u16>)
    ensures
        match channel {
            Some(n) => channel_of(s@) == Some(n as int),
            None => channel_of(s@) is None,
        },
{
    match parse_unsigned(s, 10, 65_535) {
        Some(n) => Some(n as u16),
        None => None,
    }
}

/// The bytes that `count` words from `from` on stand for, up to the first that stands
/// for none.
pub fn parse_data_tokens(tokens: &[Vec<char>], from: usize, count: usize, base: Base) -> (data: Vec<
    u8,
>)
    requires
        from <= tokens@.len(),
    ensures
        data@ == bytes_of(word_views(tokens@).skip(from as int), count as int, base),
{
    let ghost w = word_views(tokens@);
    let ghost whole = bytes_of(w.skip(from as int), count as int, base);
    let mut data: Vec<u8> = Vec::new();
    let mut at: usize = from;
    let mut left: usize = count;
    assert(data@ + whole =~= whole);
    while left > 0 && at < tokens.len()
        invariant
            from <= at <= tokens@.len(),
            w == word_views(tokens@),
            whole == bytes_of(w.skip(from as int), count as int, base),
            data@ + bytes_of(w.skip(at as int), left as int, base) == whole,
        decreases left,
    {
        let ghost before = data@;
        assert(w.skip(at as int)[0] == tokens@[at as int]@);
        assert(w.skip(at as int).drop_first() =~= w.skip(at + 1));
        match parse_unsigned(&tokens[at], base.radix(), 255) {
            Some(b) => {
                data.push(b as u8);
                proof {
                    let rest = bytes_of(w.skip(at + 1), left - 1, base);
                    assert(before + (seq![b as u8] + rest) =~= data@ + rest);
                }
            },
            None => {
                assert(data@ + Seq::<u8>::empty() =~= data@);
                return data;
            },
        }
        at = at + 1;
        left = left - 1;
    }
    assert(bytes_of(w.skip(at as int), left as int, base) =~= Seq::empty());
    assert(data@ + Seq::<u8>::empty() =~= data@);
    data
}

/// The number of data bytes that the words of a CAN FD frame say.
fn parse_fd_count(tokens: &[Vec<char>], at: usize) -> (count: usize)
    requires
        at + 3 < tokens@.len(),
        at == fd_flags_at(word_views(tokens@)),
    ensures
        count == fd_count(word_views(tokens@)),
{
    assert(tokens@.len() == tokens.len());
    assert(word_views(tokens@)[at + 3] == tokens@[at + 3]@);
    match parse_unsigned(&tokens[at + 3], 10, usize::MAX as u64) {
        Some(n) => n as usize,
        None => 0,
    }
}

/// Where the flags of a CAN FD frame start among its words.
fn find_fd_flags(tokens: &[Vec<char>]) -> (at: usize)
    ensures
        at == fd_flags_at(word_views(tokens@)),
{
    if tokens.len() > 5 {
        assert(word_views(tokens@)[5] == tokens@[5]@);
        if !has_only_digits(&tokens[5]) {
            return 6;
        }
    }
    5
}

/// What an attempt to read an event gave, as contracts see it.
pub open spec fn outcome(res: Result<AscNext, BlfError>) -> Result<AscNextView, ErrorView> {
    match res {
        Ok(next) => Ok(next@),
        Err(e) => Err(e@),
    }
}

/// What the words of a CAN FD line give.
fn read_fd_line(time: AscTime, tokens: &[Vec<char>], base: Base) -> (res: Result<
    AscNext,
    BlfError,
>)
    requires
        word_views(tokens@).len() >= 2,
        is_float_text(word_views(tokens@)[0]),
        same_but_case(word_views(tokens@)[1], "canfd"@),
        !breaks_off(word_views(tokens@), base),
    ensures
        outcome(res) == fd_line(time@, word_views(tokens@), base),
{
    let ghost w = word_views(tokens@);
    if tokens.len() < 5 {
        return Ok(AscNext::Nothing);
    }
    assert(w[2] == tokens@[2]@ && w[3] == tokens@[3]@ && w[4] == tokens@[4]@);
    let channel: u16 = match parse_channel(&tokens[2]) {
        Some(n) => n,
        None => {
            return Ok(AscNext::Nothing);
        },
    };
    let is_rx: bool = same_letters(&tokens[3], "Rx");
    if same_letters(&tokens[4], "errorframe") {
        let msg: Message<AscTime> = Message {
            is_fd: true,
            is_error_frame: true,
            is_rx,
            channel: log_channel(channel),
            ..Message::empty_at(time)
        };
        return Ok(AscNext::Message(msg));
    }
    let (id, extended): (u32, bool) = match parse_can_id(&tokens[4], base) {
        Ok(id) => id,
        Err(e) => {
            return Err(e);
        },
    };
    let at: usize = find_fd_flags(tokens);
    assert(w.len() >= at + 4);
    assert(w[at as int] == tokens@[at as int]@ && w[at + 1] == tokens@[at + 1]@ && w[at + 2]
        == tokens@[at + 2]@);
    let count: usize = parse_fd_count(tokens, at);
    let msg: Message<AscTime> = Message {
        timestamp: time,
        arbitration_id: id,
        is_extended_id: extended,
        is_remote_frame: count == 0,
        is_rx,
        is_error_frame: false,
        is_fd: true,
        bitrate_switch: same_text(&tokens[at], "1"),
        error_state_indicator: same_text(&tokens[at + 1], "1"),
        dlc: if count == 0 {
            parse_byte(&tokens[at + 2], base)
        } else {
            count as u8
        },
        data: parse_data_tokens(tokens, at + 4, count, base),
        channel: log_channel(channel),
    };
    Ok(AscNext::Message(msg))
}

/// What the words of a line for a classic frame give.
fn read_classic_line(time: AscTime, tokens: &[Vec<char>], base: Base) -> (res: Result<
    AscNext,
    BlfError,
>)
    ensures
        outcome(res) == classic_line(time@, word_views(tokens@), base),
{
    let ghost w = word_views(tokens@);
    if tokens.len() < 3 {
        return Ok(AscNext::Nothing);
    }
    assert(w[1] == tokens@[1]@ && w[2] == tokens@[2]@);
    let channel: u16 = match parse_channel(&tokens[1]) {
        Some(n) => n,
        None => {
            return Ok(AscNext::Nothing);
        },
    };
    if same_letters(&tokens[2], "errorframe") {
        let msg: Message<AscTime> = Message {
            is_error_frame: true,
            channel: log_channel(channel),
            ..Message::empty_at(time)
        };
        return Ok(AscNext::Message(msg));
    }
    if tokens.len() < 6 {
        return Ok(AscNext::Nothing);
    }
    assert(w[3] == tokens@[3]@ && w[4] == tokens@[4]@ && w[5] == tokens@[5]@);
    let (id, extended): (u32, bool) = match parse_can_id(&tokens[2], base) {
        Ok(id) => id,
        Err(e) => {
            return Err(e);
        },
    };
    let is_rx: bool = same_letters(&tokens[3], "Rx");
    let code: u8 = parse_byte(&tokens[5], base);
    if same_letters(&tokens[4], "r") {
        let msg: Message<AscTime> = Message {
            arbitration_id: id,
            is_extended_id: extended,
            is_remote_frame: true,
            is_rx,
            dlc: code,
            channel: log_channel(channel),
            ..Message::empty_at(time)
        };
        Ok(AscNext::Message(msg))
    } else if same_letters(&tokens[4], "d") {
        let dlc: u8 = dlc2len(code);
        let count: usize = if dlc <= 8 {
            dlc as usize
        } else {
            8
        };
        let msg: Message<AscTime> = Message {
            arbitration_id: id,
            is_extended_id: extended,
            is_rx,
            dlc,
            data: parse_data_tokens(tokens, 6, count, base),
            channel: log_channel(channel),
            ..Message::empty_at(time)
        };
        Ok(AscNext::Message(msg))
    } else {
        Ok(AscNext::Nothing)
    }
}

/// What the words of an event give.
fn read_event(start: (i64, u32), tokens: &[Vec<char>], base: Base) -> (res: Result<
    AscNext,
    BlfError,
>)
    requires
        !breaks_off(word_views(tokens@), base),
    ensures
        outcome(res) == event_of(start, word_views(tokens@), base),
{
    if tokens.len() < 2 {
        return Ok(AscNext::Nothing);
    }
    assert(word_views(tokens@)[0] == tokens@[0]@);
    assert(word_views(tokens@)[1] == tokens@[1]@);
    if !is_float(&tokens[0]) {
        return Ok(AscNext::Nothing);
    }
    let time: AscTime = AscTime {
        text: text_of(&tokens[0]),
        start_seconds: start.0,
        start_nanos: start.1,
    };
    if same_letters(&tokens[1], "canfd") {
        read_fd_line(time, tokens, base)
    } else if has_only_digits(&tokens[1]) {
        read_classic_line(time, tokens, base)
    } else {
        Ok(AscNext::Nothing)
    }
}

/// What a line of the header is.
fn find_header_line(line: &[char], lower: &[char]) -> (kind: HeaderLine)
    ensures
        kind == header_line(line@, lower@),
{
    if line.len() == 0 {
        HeaderLine::Skipped
    } else if starts_with(lower, "date ") {
        HeaderLine::Date
    } else if starts_with(lower, "base ") {
        HeaderLine::Base
    } else if starts_with(line, "//") {
        HeaderLine::Skipped
    } else if contains(lower, "internal events logged") {
        HeaderLine::Last
    } else {
        HeaderLine::Beyond
    }
}

/// What a line behind the header is.
fn find_body_line(line: &[char], lower: &[char]) -> (kind: BodyLine)
    ensures
        kind == body_line(line@, lower@),
{
    if line.len() == 0 {
        BodyLine::Skipped
    } else if starts_with(lower, "begin triggerblock") {
        BodyLine::Block
    } else if starts_with(lower, "end triggerblock") || contains(lower, "start of measurement") {
        BodyLine::Skipped
    } else {
        BodyLine::Event
    }
}

/// The part of a line behind its second space.
fn find_behind_second_space(line: &[char]) -> (rest: Vec<char>)
    ensures
        rest@ == behind_second_space(line@),
{
    let i: usize = find_char(line, ' ', 0);
    if i < line.len() {
        let j: usize = find_char(line, ' ', i + 1);
        if j < line.len() {
            let rest: Vec<char> = part(line, j + 1, line.len());
            assert(rest@ =~= line@.skip(j + 1));
            return rest;
        }
    }
    let rest: Vec<char> = Vec::new();
    assert(rest@ =~= Seq::empty());
    rest
}

/// The words from the given one on.
fn words_from(list: Vec<Vec<char>>, at: usize) -> (rest: Vec<Vec<char>>)
    requires
        at <= list@.len(),
    ensures
        word_views(rest@) == word_views(list@).skip(at as int),
{
    let mut all: Vec<Vec<char>> = list;
    let rest: Vec<Vec<char>> = all.split_off(at);
    assert(word_views(rest@) =~= word_views(list@).skip(at as int));
    rest
}

/// A reader that has seen no line yet.
pub open spec fn new_reader(base: Base, relative_timestamp: bool) -> AscView {
    AscView { base, relative_timestamp, start: (0, 0), header_parsed: false, error: None }
}

/// Whether a reader may answer a line in this way, and be this afterwards: as the line
/// says, for some moment that the line's date may be in local time.
pub open spec fn may_answer(
    v: AscView,
    text: Seq<char>,
    answer: Result<AscNextView, ErrorView>,
    after: AscView,
) -> bool {
    let line = trimmed(text);
    let lower = lowercase(line);
    exists|instant: Option<(i64, u32)>| #[trigger]
        may_start(v, line, lower, instant) && (answer, after) == line_of(v, line, lower, instant)
}

/// Whether a line can be read, given as it stands in the log.
pub open spec fn can_read(v: AscView, text: Seq<char>) -> bool {
    readable(v, trimmed(text), lowercase(trimmed(text)))
}

impl AscReader {
    /// A reader of a log with hexadecimal numbers, unless the log says otherwise, whose
    /// times count from the start of a block of events.
    pub fn open() -> (res: Result<AscReader, BlfError>)
        ensures
            res matches Ok(reader) && reader@ == new_reader(Base::Hex, true),
    {
        AscReader::open_with_options("hex", true)
    }

    /// A reader of a log with numbers of the given base, `hex` or `dec`, unless the log
    /// says otherwise. Times count from the start of a block of events, or from the
    /// epoch.
    pub fn open_with_options(base: &str, relative_timestamp: bool) -> (res: Result<
        AscReader,
        BlfError,
    >)
        ensures
            match res {
                Ok(reader) => base_of(base@) matches Some(b) && reader@ == new_reader(
                    b,
                    relative_timestamp,
                ),
                Err(e) => base_of(base@) is None && e@ == ErrorView::Parse(
                    "base should be either hex or dec"@,
                ),
            },
    {
        match check_base(base) {
            Ok(base) => Ok(
                AscReader {
                    base,
                    relative_timestamp,
                    start: (0, 0),
                    header_parsed: false,
                    error: None,
                },
            ),
            Err(e) => Err(e),
        }
    }

    /// The words of the date that a line gives as the moment from which times count.
    fn find_start_words(&self, line: &[char], lower: &[char]) -> (res: Option<Vec<Vec<char>>>)
        ensures
            match res {
                Some(parts) => start_words(self@, line@, lower@) == Some(word_views(parts@)),
                None => start_words(self@, line@, lower@) is None,
            },
    {
        if self.relative_timestamp || line.len() == 0 {
            return None;
        }
        if !self.header_parsed {
            match find_header_line(line, lower) {
                HeaderLine::Beyond => {},
                HeaderLine::Date => {
                    let rest: Vec<char> = find_behind_second_space(line);
                    return Some(split_words(&rest));
                },
                _ => {
                    return None;
                },
            }
        }
        if starts_with(lower, "begin triggerblock") {
            let list: Vec<Vec<char>> = split_words(line);
            if list.len() >= 4 {
                return Some(words_from(list, 3));
            }
        }
        None
    }

    /// Whether a line, given trimmed and in lower case, can be read.
    fn is_readable(&self, line: &[char], lower: &[char]) -> (res: bool)
        ensures
            res == readable(self@, line@, lower@),
    {
        if let Some(parts) = self.find_start_words(line, lower) {
            if has_wild_hour(&parts) {
                return false;
            }
        }
        let body: bool = self.header_parsed || match find_header_line(line, lower) {
            HeaderLine::Beyond => true,
            _ => false,
        };
        if !body {
            return true;
        }
        match find_body_line(line, lower) {
            BodyLine::Event => {
                let tokens: Vec<Vec<char>> = split_words(line);
                !is_broken_off(&tokens, self.base)
            },
            _ => true,
        }
    }

    /// Takes a line, given trimmed and in lower case. `instant` is the moment that the
    /// line gives as the one from which times count, if it gives one.
    pub fn take_line(
        &mut self,
        line: &[char],
        lower: &[char],
        instant: Option<(i64, u32)>,
    ) -> (res: Result<AscNext, BlfError>)
        requires
            is_whole(old(self)@, line@, lower@),
        ensures
            (outcome(res), final(self)@) == line_of(old(self)@, line@, lower@, instant),
    {
        if !self.header_parsed {
            match find_header_line(line, lower) {
                HeaderLine::Skipped => {
                    return Ok(AscNext::Nothing);
                },
                HeaderLine::Date => {
                    if let Some(i) = instant {
                        self.start = i;
                    }
                    return Ok(AscNext::Nothing);
                },
                HeaderLine::Base => {
                    let list: Vec<Vec<char>> = split_words(line);
                    if list.len() >= 2 {
                        assert(word_views(list@)[1] == list@[1]@);
                        if let Some(base) = find_base(&list[1]) {
                            self.base = base;
                        }
                    }
                    return Ok(AscNext::Nothing);
                },
                HeaderLine::Last => {
                    self.header_parsed = true;
                    return Ok(AscNext::Nothing);
                },
                HeaderLine::Beyond => {
                    self.header_parsed = true;
                },
            }
        }
        match find_body_line(line, lower) {
            BodyLine::Skipped => Ok(AscNext::Nothing),
            BodyLine::Block => {
                if self.relative_timestamp {
                    self.start = (0, 0);
                } else if let Some(i) = instant {
                    self.start = i;
                }
                Ok(AscNext::Nothing)
            },
            BodyLine::Event => {
                let tokens: Vec<Vec<char>> = split_words(line);
                read_event(self.start, &tokens, self.base)
            },
        }
    }

    /// Takes the next line of the log, as it stands there, or learns that there is none,
    /// and gives the message that the line holds, if it holds one.
    pub fn next_message(&mut self, line: Option<&str>) -> (res: Result<AscNext, BlfError>)
        requires
            line matches Some(text) ==> can_read(old(self)@, text@),
        ensures
            match line {
                Some(text) => may_answer(old(self)@, text@, outcome(res), final(self)@),
                None => res matches Ok(AscNext::End) && final(self)@ == (AscView {
                    header_parsed: true,
                    ..old(self)@
                }),
            },
    {
        match line {
            Some(text) => {
                let chars: Vec<char> = trim(&chars_of(text));
                let lower: Vec<char> = chars_of(to_lowercase(text_of(&chars).as_str()).as_str());
                assert(lower@ == lowercase(chars@));
                let instant: Option<(i64, u32)> = match self.find_start_words(&chars, &lower) {
                    Some(parts) => match parse_date(&parts) {
                        Some((c, nanos)) => local_instant(c, nanos),
                        None => None,
                    },
                    None => None,
                };
                assert(may_start(old(self)@, chars@, lower@, instant));
                self.take_line(&chars, &lower, instant)
            },
            None => {
                self.header_parsed = true;
                Ok(AscNext::End)
            },
        }
    }

    /// Takes the next line as [`AscReader::next_message`] does, if it can be read. Else
    /// there is no answer, and the reader stays as it was.
    pub fn try_next_message(&mut self, line: Option<&str>) -> (res: Option<
        Result<AscNext, BlfError>,
    >)
        ensures
            match line {
                Some(text) => match res {
                    Some(answer) => can_read(old(self)@, text@) && may_answer(
                        old(self)@,
                        text@,
                        outcome(answer),
                        final(self)@,
                    ),
                    None => !can_read(old(self)@, text@) && final(self)@ == old(self)@,
                },
                None => res matches Some(Ok(AscNext::End)) && final(self)@ == (AscView {
                    header_parsed: true,
                    ..old(self)@
                }),
            },
    {
        if let Some(text) = line {
            let chars: Vec<char> = trim(&chars_of(text));
            let lower: Vec<char> = chars_of(to_lowercase(text_of(&chars).as_str()).as_str());
            assert(lower@ == lowercase(chars@));
            if !self.is_readable(&chars, &lower) {
                return None;
            }
        }
        Some(self.next_message(line))
    }

    /// Takes the next line as [`AscReader::try_next_message`] does, unless an error
    /// stopped the reader, after which the log has ended for it. An error that comes up
    /// now is kept and stops the reader.
    pub fn next(&mut self, line: Option<&str>) -> (res: Option<AscNext>)
        ensures
            old(self)@.error is Some ==> (res matches Some(AscNext::End)) && final(self)@ == old(
                self,
            )@,
            old(self)@.error is None && line is None ==> (res matches Some(AscNext::End))
                && final(self)@ == (AscView { header_parsed: true, ..old(self)@ }),
            old(self)@.error is None ==> (line matches Some(text) ==> match res {
                Some(next) => can_read(old(self)@, text@) && may_settle(
                    old(self)@,
                    text@,
                    next@,
                    final(self)@,
                ),
                None => !can_read(old(self)@, text@) && final(self)@ == old(self)@,
            }),
    {
        if self.error.is_some() {
            return Some(AscNext::End);
        }
        match self.try_next_message(line) {
            Some(Ok(next)) => Some(next),
            Some(Err(e)) => {
                let ghost after = self@;
                let ghost why = e@;
                self.error = Some(e);
                assert(line matches Some(text) && may_answer(
                    old(self)@,
                    text@,
                    Err::<AscNextView, ErrorView>(why),
                    after,
                ));
                Some(AscNext::End)
            },
            None => None,
        }
    }

    /// Whether an error stopped the reader.
    pub fn has_failed(&self) -> (res: bool)
        ensures
            res == (self@.error is Some),
    {
        self.error.is_some()
    }

    /// Stops the reader with an error that came up outside.
    pub fn fail(&mut self, error: BlfError)
        ensures
            final(self)@ == (AscView { error: Some(error@), ..old(self)@ }),
    {
        self.error = Some(error);
    }

    /// The error that stopped the reader. The reader can then go on.
    pub fn take_error(&mut self) -> (error: Option<BlfError>)
        ensures
            match error {
                Some(e) => old(self)@.error == Some(e@),
                None => old(self)@.error is None,
            },
            final(self)@ == (AscView { error: None, ..old(self)@ }),
    {
        self.error.take()
    }
}

/// Whether a reader that stops at its first error may give this for a line, and be this
/// afterwards.
pub open spec fn may_settle(
    v: AscView,
    text: Seq<char>,
    next: AscNextView,
    after: AscView,
) -> bool {
    ||| may_answer(v, text, Ok(next), after)
    ||| next is End && exists|e: ErrorView, before: AscView|
        #[trigger] may_answer(v, text, Err::<AscNextView, ErrorView>(e), before) && after == (
        AscView { error: Some(e), ..before })
}

/// Whether the words of an event are a CAN FD frame that breaks off before its data, or
/// that claims more data than there can be.
fn is_broken_off(tokens: &[Vec<char>], base: Base) -> (res: bool)
    ensures
        res == breaks_off(word_views(tokens@), base),
{
    let ghost w = word_views(tokens@);
    if tokens.len() < 5 {
        return false;
    }
    assert(w[0] == tokens@[0]@ && w[1] == tokens@[1]@ && w[2] == tokens@[2]@ && w[4]
        == tokens@[4]@);
    if !is_float(&tokens[0]) || !same_letters(&tokens[1], "canfd") {
        return false;
    }
    if parse_channel(&tokens[2]).is_none() || same_letters(&tokens[4], "errorframe") {
        return false;
    }
    if parse_can_id(&tokens[4], base).is_err() {
        return false;
    }
    let at: usize = find_fd_flags(tokens);
    tokens.len() < at + 4 || parse_fd_count(tokens, at) > isize::MAX as usize
}

} // verus!
