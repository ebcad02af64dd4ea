//! Writing of a log, line by line.

use vstd::prelude::*;

use crate::asc::clock::{
    date_text, datetime_from_timestamp, format_header_datetime, is_moment, local_now, shows_moment,
    shows_some_moment, LocalStamp,
};
use crate::blf::writer::channel_to_log;
use crate::dlc::{fd_code, len2dlc};
use crate::message::{format_data, spaced_hex, Message, MessageView, Timestamp};
use crate::number::{
    decimal, format_decimal, format_hex_lower, format_hex_upper, hex_lower, hex_upper,
};
use crate::sentence::blanks;
use crate::text::chars_of;

verus! {

/// A writer of one log. It is given messages and hands back the lines to store.
pub struct AscWriter {
    channel: u16,
    header_written: bool,
    last_timestamp: Timestamp,
    started: Timestamp,
    finished: bool,
}

/// An [`AscWriter`] as contracts see it.
pub struct AscWriterView {
    /// The number of the channel for messages that name none. Every message names one.
    pub channel: u16,
    /// Whether the line that starts the block of events is stored.
    pub header_written: bool,
    /// The time of the last message.
    pub last_timestamp: Timestamp,
    /// The time from which the times of messages are counted.
    pub started: Timestamp,
    /// Whether the log is complete.
    pub finished: bool,
}

impl View for AscWriter {
    type V = AscWriterView;

    closed spec fn view(&self) -> AscWriterView {
        AscWriterView {
            channel: self.channel,
            header_written: self.header_written,
            last_timestamp: self.last_timestamp,
            started: self.started,
            finished: self.finished,
        }
    }
}

/// The start of the epoch.
pub open spec fn epoch() -> Timestamp {
    Timestamp { bits: 0, seconds: 0, millis: 0, nanos: 0 }
}

/// A writer that was given nothing yet.
pub open spec fn new_asc_writer(channel: u16) -> AscWriterView {
    AscWriterView {
        channel,
        header_written: false,
        last_timestamp: epoch(),
        started: epoch(),
        finished: false,
    }
}

/// A text with spaces in front of it, to a width.
pub open spec fn right_aligned(s: Seq<char>, width: int) -> Seq<char> {
    if s.len() < width {
        blanks(width - s.len()) + s
    } else {
        s
    }
}

/// A text with spaces behind it, to a width.
pub open spec fn left_aligned(s: Seq<char>, width: int) -> Seq<char> {
    if s.len() < width {
        s + blanks(width - s.len())
    } else {
        s
    }
}

/// `Rx` or `Tx`.
pub open spec fn direction_text(is_rx: bool) -> Seq<char> {
    if is_rx {
        "Rx"@
    } else {
        "Tx"@
    }
}

/// An id in hexadecimal, with an `x` behind an extended one.
pub open spec fn id_text(id: u32, extended: bool) -> Seq<char> {
    if extended {
        hex_upper(id as int).push('x')
    } else {
        hex_upper(id as int)
    }
}

/// `1` or `0`.
pub open spec fn flag_text(flag: bool) -> Seq<char> {
    if flag {
        seq!['1']
    } else {
        seq!['0']
    }
}

/// The data bytes of a frame, of which a request for data has none.
pub open spec fn data_text<T>(m: MessageView<T>) -> Seq<char> {
    if m.is_remote_frame {
        Seq::empty()
    } else {
        spaced_hex(m.data)
    }
}

/// The number of data bytes of a frame, of which a request for data has none.
pub open spec fn data_count<T>(m: MessageView<T>) -> int {
    if m.is_remote_frame {
        0
    } else {
        m.data.len() as int
    }
}

/// The flags of a CAN FD frame as one number.
pub open spec fn fd_flags_number(bitrate_switch: bool, error_state_indicator: bool) -> int {
    0x1000 + (if bitrate_switch {
        0x2000int
    } else {
        0
    }) + (if error_state_indicator {
        0x4000int
    } else {
        0
    })
}

/// What stands behind the data of a CAN FD frame.
pub open spec fn fd_trailer(bitrate_switch: bool, error_state_indicator: bool) -> Seq<char> {
    let zero = seq![' '] + right_aligned(seq!['0'], 8);
    zero + seq![' '] + right_aligned(seq!['0'], 4) + seq![' '] + right_aligned(
        hex_upper(fd_flags_number(bitrate_switch, error_state_indicator)),
        8,
    ) + zero + zero + zero + zero + zero
}

/// The event for a CAN FD frame.
pub open spec fn fd_text<T>(m: MessageView<T>) -> Seq<char> {
    "CANFD "@ + right_aligned(decimal(channel_to_log(m.channel) as int), 3) + seq![' ']
        + left_aligned(direction_text(m.is_rx), 4) + seq![' '] + right_aligned(
        id_text(m.arbitration_id, m.is_extended_id),
        8,
    ) + blanks(35) + flag_text(m.bitrate_switch) + seq![' '] + flag_text(m.error_state_indicator)
        + seq![' '] + hex_lower(fd_code(m.dlc as int)) + seq![' '] + right_aligned(
        decimal(data_count(m)),
        2,
    ) + seq![' '] + data_text(m) + fd_trailer(m.bitrate_switch, m.error_state_indicator)
}

/// The event for a classic frame.
pub open spec fn classic_text<T>(m: MessageView<T>) -> Seq<char> {
    decimal(channel_to_log(m.channel) as int) + blanks(2) + left_aligned(
        id_text(m.arbitration_id, m.is_extended_id),
        15,
    ) + seq![' '] + left_aligned(direction_text(m.is_rx), 4) + seq![' '] + seq![
        if m.is_remote_frame {
            'r'
        } else {
            'd'
        },
        ' ',
    ] + hex_lower(m.dlc as int) + seq![' '] + data_text(m)
}

/// The event for a message.
pub open spec fn event_text<T>(m: MessageView<T>) -> Seq<char> {
    if m.is_error_frame {
        decimal(channel_to_log(m.channel) as int) + "  ErrorFrame"@
    } else if m.is_fd {
        fd_text(m)
    } else {
        classic_text(m)
    }
}

/// The line of an event, `shown` being its time as it is shown.
pub open spec fn event_line(shown: Seq<char>, event: Seq<char>) -> Seq<char> {
    shown + seq![' '] + event + seq!['\n']
}

/// The line that starts a block of events.
pub open spec fn block_line(stamp: LocalStamp) -> Seq<char> {
    "Begin Triggerblock "@ + date_text(stamp) + seq!['\n']
}

/// The header of a log that was made at the given moment.
pub open spec fn header_text(stamp: LocalStamp) -> Seq<char> {
    "date "@ + date_text(stamp) + "\nbase hex  timestamps absolute\ninternal events logged\n"@
}

/// The time that is shown for a message of the given time, and the time from which it is
/// counted. A message of time zero has the time of the message before it.
pub open spec fn reading_of(w: AscWriterView, time: Timestamp) -> (Timestamp, Timestamp) {
    if !w.header_written {
        (time, time)
    } else if time.is_zero_spec() {
        (w.last_timestamp, w.started)
    } else {
        (time, w.started)
    }
}

/// The lines that a writer gives for an event, and what it is afterwards. The first event
/// starts the block of events and the measurement; the writer is to be told when the line
/// that starts the block is stored.
pub open spec fn log_of(
    w: AscWriterView,
    event: Seq<char>,
    time: Timestamp,
    shown: Seq<char>,
    stamp: LocalStamp,
) -> (Seq<char>, AscWriterView) {
    if w.header_written {
        (event_line(shown, event), AscWriterView { last_timestamp: time, ..w })
    } else {
        (
            block_line(stamp) + event_line(shown, "Start of measurement"@) + event_line(
                shown,
                event,
            ),
            AscWriterView { last_timestamp: time, started: time, ..w },
        )
    }
}

/// The writer after the line that starts the block of events was stored.
pub open spec fn begun(w: AscWriterView) -> AscWriterView {
    AscWriterView { header_written: true, ..w }
}

/// Whether a stamp may be that of a time: it shows the moment in local time, or the
/// present one where there is no such moment.
pub open spec fn may_stamp(time: Timestamp, stamp: LocalStamp) -> bool {
    if is_moment(time.seconds, time.nanos) {
        shows_moment(stamp, time.seconds, time.nanos)
    } else {
        shows_some_moment(stamp)
    }
}

/// Whether a writer may give these lines for an event, and be this afterwards.
pub open spec fn may_log(
    w: AscWriterView,
    event: Seq<char>,
    time: Timestamp,
    shown: Seq<char>,
    text: Seq<char>,
    after: AscWriterView,
) -> bool {
    exists|stamp: LocalStamp| #[trigger]
        log_of(w, event, time, shown, stamp) == (text, after) && (w.header_written || may_stamp(
            time,
            stamp,
        ))
}

/// Appends `n` spaces.
fn push_blanks(text: &mut String, n: usize)
    ensures
        final(text)@ == old(text)@ + blanks(n as int),
{
    let mut i: usize = 0;
    assert(text@ =~= old(text)@ + blanks(0));
    while i < n
        invariant
            i <= n,
            text@ == old(text)@ + blanks(i as int),
        decreases n - i,
    {
        text.push(' ');
        i = i + 1;
        assert(text@ =~= old(text)@ + blanks(i as int));
    }
}

/// Appends one character.
fn push_one(text: &mut String, c: char)
    ensures
        final(text)@ == old(text)@ + seq![c],
{
    text.push(c);
    assert(text@ =~= old(text)@ + seq![c]);
}

/// Appends a text with spaces in front of it.
fn push_right(text: &mut String, s: &str, width: usize)
    ensures
        final(text)@ == old(text)@ + right_aligned(s@, width as int),
{
    let len: usize = chars_of(s).len();
    if len < width {
        push_blanks(text, width - len);
    }
    text.append(s);
    assert(text@ =~= old(text)@ + right_aligned(s@, width as int));
}

/// Appends a text with spaces behind it.
fn push_left(text: &mut String, s: &str, width: usize)
    ensures
        final(text)@ == old(text)@ + left_aligned(s@, width as int),
{
    let len: usize = chars_of(s).len();
    text.append(s);
    if len < width {
        push_blanks(text, width - len);
    }
    assert(text@ =~= old(text)@ + left_aligned(s@, width as int));
}

/// Appends `1` or `0`.
fn push_flag(text: &mut String, flag: bool)
    ensures
        final(text)@ == old(text)@ + flag_text(flag),
{
    if flag {
        text.push('1');
    } else {
        text.push('0');
    }
    assert(text@ =~= old(text)@ + flag_text(flag));
}

/// An id in hexadecimal, with an `x` behind an extended one.
fn format_id(id: u32, extended: bool) -> (text: String)
    ensures
        text@ == id_text(id, extended),
{
    let mut text: String = format_hex_upper(id);
    if extended {
        text.push('x');
    }
    text
}

/// `Rx` or `Tx`.
fn format_direction(is_rx: bool) -> (text: &'static str)
    ensures
        text@ == direction_text(is_rx),
{
    if is_rx {
        "Rx"
    } else {
        "Tx"
    }
}

/// The data bytes of a frame.
fn format_frame_data(msg: &Message<Timestamp>) -> (text: String)
    ensures
        text@ == data_text(msg@),
{
    if msg.is_remote_frame {
        let text: String = String::new();
        assert(text@ =~= Seq::empty());
        text
    } else {
        format_data(&msg.data)
    }
}

/// Appends what stands behind the data of a CAN FD frame.
fn push_fd_trailer(text: &mut String, bitrate_switch: bool, error_state_indicator: bool)
    ensures
        final(text)@ == old(text)@ + fd_trailer(bitrate_switch, error_state_indicator),
{
    let brs: u32 = if bitrate_switch {
        0x2000
    } else {
        0
    };
    let esi: u32 = if error_state_indicator {
        0x4000
    } else {
        0
    };
    let flags: u32 = 0x1000 + brs + esi;
    let zero: String = format_decimal(0);
    assert(zero@ == seq!['0']);
    text.push(' ');
    push_right(text, zero.as_str(), 8);
    text.push(' ');
    push_right(text, zero.as_str(), 4);
    text.push(' ');
    push_right(text, format_hex_upper(flags).as_str(), 8);
    text.push(' ');
    push_right(text, zero.as_str(), 8);
    text.push(' ');
    push_right(text, zero.as_str(), 8);
    text.push(' ');
    push_right(text, zero.as_str(), 8);
    text.push(' ');
    push_right(text, zero.as_str(), 8);
    text.push(' ');
    push_right(text, zero.as_str(), 8);
    assert(text@ =~= old(text)@ + fd_trailer(bitrate_switch, error_state_indicator));
}

/// The event for a CAN FD frame.
fn format_fd(msg: &Message<Timestamp>) -> (text: String)
    ensures
        text@ == fd_text(msg@),
{
    let count: usize = if msg.is_remote_frame {
        0
    } else {
        msg.data.len()
    };
    let mut text: String = "CANFD ".to_owned();
    push_right(&mut text, format_decimal(msg.channel.saturating_add(1) as u64).as_str(), 3);
    push_one(&mut text, ' ');
    push_left(&mut text, format_direction(msg.is_rx), 4);
    push_one(&mut text, ' ');
    push_right(&mut text, format_id(msg.arbitration_id, msg.is_extended_id).as_str(), 8);
    push_blanks(&mut text, 35);
    push_flag(&mut text, msg.bitrate_switch);
    push_one(&mut text, ' ');
    push_flag(&mut text, msg.error_state_indicator);
    push_one(&mut text, ' ');
    text.append(format_hex_lower(len2dlc(msg.dlc) as u32).as_str());
    push_one(&mut text, ' ');
    push_right(&mut text, format_decimal(count as u64).as_str(), 2);
    push_one(&mut text, ' ');
    text.append(format_frame_data(msg).as_str());
    push_fd_trailer(&mut text, msg.bitrate_switch, msg.error_state_indicator);
    text
}

/// The event for a classic frame.
fn format_classic(msg: &Message<Timestamp>) -> (text: String)
    ensures
        text@ == classic_text(msg@),
{
    let mut text: String = format_decimal(msg.channel.saturating_add(1) as u64);
    push_blanks(&mut text, 2);
    push_left(&mut text, format_id(msg.arbitration_id, msg.is_extended_id).as_str(), 15);
    push_one(&mut text, ' ');
    push_left(&mut text, format_direction(msg.is_rx), 4);
    push_one(&mut text, ' ');
    if msg.is_remote_frame {
        text.push('r');
    } else {
        text.push('d');
    }
    push_one(&mut text, ' ');
    text.append(format_hex_lower(msg.dlc as u32).as_str());
    push_one(&mut text, ' ');
    text.append(format_frame_data(msg).as_str());
    assert(text@ =~= classic_text(msg@));
    text
}

/// The event for a message.
pub fn format_event(msg: &Message<Timestamp>) -> (text: String)
    ensures
        text@ == event_text(msg@),
{
    if msg.is_error_frame {
        let mut text: String = format_decimal(msg.channel.saturating_add(1) as u64);
        text.append("  ErrorFrame");
        text
    } else if msg.is_fd {
        format_fd(msg)
    } else {
        format_classic(msg)
    }
}

/// Appends the line of an event.
fn push_event_line(text: &mut String, shown: &str, event: &str)
    ensures
        final(text)@ == old(text)@ + event_line(shown@, event@),
{
    text.append(shown);
    text.push(' ');
    text.append(event);
    text.push('\n');
    assert(text@ =~= old(text)@ + event_line(shown@, event@));
}

impl AscWriter {
    /// A writer of a log, and the header with which the log starts.
    pub fn create() -> (res: (AscWriter, String))
        ensures
            res.0@ == new_asc_writer(1),
            exists|stamp: LocalStamp| #[trigger]
                shows_some_moment(stamp) && res.1@ == header_text(stamp),
    {
        AscWriter::create_with_channel(1)
    }

    /// A writer of a log, and the header with which the log starts: it says when it is
    /// made. `channel` is the number of the channel for messages that name none.
    pub fn create_with_channel(channel: u16) -> (res: (AscWriter, String))
        ensures
            res.0@ == new_asc_writer(channel),
            exists|stamp: LocalStamp| #[trigger]
                shows_some_moment(stamp) && res.1@ == header_text(stamp),
    {
        let stamp: LocalStamp = local_now();
        AscWriter::create_at(channel, &stamp)
    }

    /// A writer of a log that is made at the given moment, and the header with which the
    /// log starts.
    pub fn create_at(channel: u16, stamp: &LocalStamp) -> (res: (AscWriter, String))
        ensures
            res.0@ == new_asc_writer(channel),
            res.1@ == header_text(*stamp),
    {
        let zero: Timestamp = Timestamp { bits: 0, seconds: 0, millis: 0, nanos: 0 };
        let writer = AscWriter {
            channel,
            header_written: false,
            last_timestamp: zero,
            started: zero,
            finished: false,
        };
        let mut text: String = String::new();
        text.append("date ");
        text.append(format_header_datetime(stamp).as_str());
        text.append("\nbase hex  timestamps absolute\ninternal events logged\n");
        assert(text@ =~= header_text(*stamp));
        (writer, text)
    }

    /// The number of the channel for messages that name none.
    pub fn channel(&self) -> (channel: u16)
        ensures
            channel == self@.channel,
    {
        self.channel
    }

    /// The time that is to be shown for a message of the given time, and the time from
    /// which it is counted: what is shown is their difference in seconds, with six
    /// places behind the point and at least nine characters, or the former alone where
    /// it is the earlier.
    pub fn reading(&self, time: Timestamp) -> (res: (Timestamp, Timestamp))
        ensures
            res == reading_of(self@, time),
    {
        if !self.header_written {
            (time, time)
        } else if time.is_zero() {
            (self.last_timestamp, self.started)
        } else {
            (time, self.started)
        }
    }

    /// Whether the line that starts the block of events is stored. Where it is not, it is
    /// the first of the lines for the next event.
    pub fn has_begun(&self) -> (res: bool)
        ensures
            res == self@.header_written,
    {
        self.header_written
    }

    /// Tells the writer that the line which starts the block of events is stored.
    pub fn mark_begun(&mut self)
        ensures
            final(self)@ == begun(old(self)@),
    {
        self.header_written = true;
    }

    /// Adds a message, `shown` being its time as it is to be shown, and gives the lines to
    /// append to the log. Where the first of them starts the block of events,
    /// [`AscWriter::mark_begun`] is to be called when it is stored.
    pub fn on_message_received(&mut self, msg: &Message<Timestamp>, shown: &str) -> (text: String)
        ensures
            may_log(
                old(self)@,
                event_text(msg@),
                msg.timestamp,
                shown@,
                text@,
                final(self)@,
            ),
    {
        let event: String = format_event(msg);
        let stamp: LocalStamp = if self.header_written {
            LocalStamp { text: String::new(), millis: 0, year: String::new() }
        } else {
            datetime_from_timestamp(msg.timestamp)
        };
        self.log_event(event.as_str(), msg.timestamp, shown, &stamp)
    }

    /// Adds an event of the given time, `shown` being the time as it is to be shown and
    /// `stamp` as a date, and gives the lines to append to the log.
    pub fn log_event(
        &mut self,
        event: &str,
        time: Timestamp,
        shown: &str,
        stamp: &LocalStamp,
    ) -> (text: String)
        ensures
            log_of(old(self)@, event@, time, shown@, *stamp) == (text@, final(self)@),
    {
        let mut text: String = String::new();
        if !self.header_written {
            self.started = time;
            text.append("Begin Triggerblock ");
            text.append(format_header_datetime(stamp).as_str());
            text.push('\n');
            push_event_line(&mut text, shown, "Start of measurement");
            push_event_line(&mut text, shown, event);
            assert(text@ =~= block_line(*stamp) + event_line(shown@, "Start of measurement"@)
                + event_line(shown@, event@));
        } else {
            push_event_line(&mut text, shown, event);
            assert(text@ =~= event_line(shown@, event@));
        }
        self.last_timestamp = time;
        text
    }

    /// Ends the log: gives the line to append, after which [`AscWriter::complete`] is to
    /// be called. A complete log gives nothing.
    pub fn finish(&self) -> (text: Option<String>)
        ensures
            match text {
                Some(line) => !self@.finished && line@ == "End TriggerBlock\n"@,
                None => self@.finished,
            },
    {
        if self.finished {
            None
        } else {
            Some("End TriggerBlock\n".to_owned())
        }
    }

    /// Marks the log as complete.
    pub fn complete(&mut self)
        ensures
            final(self)@ == (AscWriterView { finished: true, ..old(self)@ }),
    {
        self.finished = true;
    }
}

} // verus!
