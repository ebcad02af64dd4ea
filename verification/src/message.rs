//! CAN messages as the logs hold them.

use vstd::prelude::*;

use crate::number::{byte_hex, format_hex_upper, hex_upper, push_byte_hex};

verus! {

/// One logged CAN frame. `T` says when it was seen: a reader hands out what the log
/// says of the time, a writer is given a [`Timestamp`].
#[derive(Clone, Debug)]
pub struct Message<T> {
    pub timestamp: T,
    pub arbitration_id: u32,
    pub is_extended_id: bool,
    pub is_remote_frame: bool,
    pub is_rx: bool,
    pub is_error_frame: bool,
    pub is_fd: bool,
    pub bitrate_switch: bool,
    pub error_state_indicator: bool,
    pub dlc: u8,
    pub data: Vec<u8>,
    /// Counted from 0; the logs count from 1.
    pub channel: u16,
}

/// A [`Message`] as contracts see it.
pub struct MessageView<T> {
    pub timestamp: T,
    pub arbitration_id: u32,
    pub is_extended_id: bool,
    pub is_remote_frame: bool,
    pub is_rx: bool,
    pub is_error_frame: bool,
    pub is_fd: bool,
    pub bitrate_switch: bool,
    pub error_state_indicator: bool,
    pub dlc: u8,
    pub data: Seq<u8>,
    pub channel: u16,
}

impl<T> MessageView<T> {
    /// The same message at another time.
    pub open spec fn at<S>(self, timestamp: S) -> MessageView<S> {
        MessageView {
            timestamp,
            arbitration_id: self.arbitration_id,
            is_extended_id: self.is_extended_id,
            is_remote_frame: self.is_remote_frame,
            is_rx: self.is_rx,
            is_error_frame: self.is_error_frame,
            is_fd: self.is_fd,
            bitrate_switch: self.bitrate_switch,
            error_state_indicator: self.error_state_indicator,
            dlc: self.dlc,
            data: self.data,
            channel: self.channel,
        }
    }
}

/// A moment given as a double-precision number of seconds since the epoch, described
/// by integers. Only `bits` tells two moments apart; the other fields are roundings
/// of it.
#[derive(Clone, Copy, Debug, PartialEq, Eq, Structural)]
pub struct Timestamp {
    /// The bit pattern of the number.
    pub bits: u64,
    /// The number rounded down.
    pub seconds: i64,
    /// The number of milliseconds, rounded to the nearest.
    pub millis: i64,
    /// The nanoseconds that `seconds` leaves over, rounded to the nearest.
    pub nanos: u32,
}

impl Timestamp {
    /// Whether the number is zero, of either sign.
    pub open spec fn is_zero_spec(self) -> bool {
        self.bits == 0 || self.bits == 0x8000_0000_0000_0000
    }

    /// Whether the number is zero, of either sign.
    pub fn is_zero(&self) -> (res: bool)
        ensures
            res == self.is_zero_spec(),
    {
        self.bits == 0 || self.bits == 0x8000_0000_0000_0000
    }
}

impl<T> Message<T> {
    /// The message with its time replaced.
    pub open spec fn with_time<S>(self, timestamp: S) -> MessageView<S> {
        MessageView {
            timestamp,
            arbitration_id: self.arbitration_id,
            is_extended_id: self.is_extended_id,
            is_remote_frame: self.is_remote_frame,
            is_rx: self.is_rx,
            is_error_frame: self.is_error_frame,
            is_fd: self.is_fd,
            bitrate_switch: self.bitrate_switch,
            error_state_indicator: self.error_state_indicator,
            dlc: self.dlc,
            data: self.data@,
            channel: self.channel,
        }
    }

    /// The data bytes in upper-case hexadecimal, two digits each, separated by spaces.
    pub fn data_hex(&self) -> (text: String)
        ensures
            text@ == spaced_hex(self.data@),
    {
        format_data(&self.data)
    }

    /// The arbitration id in upper-case hexadecimal.
    pub fn arbitration_id_hex(&self) -> (text: String)
        ensures
            text@ == hex_upper(self.arbitration_id as int),
    {
        format_hex_upper(self.arbitration_id)
    }
}

/// A received classic frame with id 0 and no data, on the first channel.
pub open spec fn empty_message<T>(timestamp: T) -> MessageView<T> {
    MessageView {
        timestamp,
        arbitration_id: 0,
        is_extended_id: false,
        is_remote_frame: false,
        is_rx: true,
        is_error_frame: false,
        is_fd: false,
        bitrate_switch: false,
        error_state_indicator: false,
        dlc: 0,
        data: Seq::empty(),
        channel: 0,
    }
}

impl<T> Message<T> {
    /// A received classic frame with id 0 and no data, on the first channel.
    pub fn empty_at(timestamp: T) -> (msg: Message<T>)
        ensures
            msg.timestamp == timestamp,
            msg.with_time(()) == empty_message(()),
    {
        let msg = Message {
            timestamp,
            arbitration_id: 0,
            is_extended_id: false,
            is_remote_frame: false,
            is_rx: true,
            is_error_frame: false,
            is_fd: false,
            bitrate_switch: false,
            error_state_indicator: false,
            dlc: 0,
            data: Vec::new(),
            channel: 0,
        };
        assert(msg.data@ =~= Seq::<u8>::empty());
        msg
    }
}

impl<T: Default> Default for Message<T> {
    fn default() -> (msg: Message<T>)
        ensures
            call_ensures(T::default, (), msg.timestamp),
            msg.with_time(()) == empty_message(()),
    {
        Message::empty_at(T::default())
    }
}

/// Bytes in upper-case hexadecimal, two digits each, separated by spaces.
pub open spec fn spaced_hex(data: Seq<u8>) -> Seq<char>
    decreases data.len(),
{
    if data.len() == 0 {
        Seq::empty()
    } else if data.len() == 1 {
        byte_hex(data[0])
    } else {
        spaced_hex(data.drop_last()) + seq![' '] + byte_hex(data.last())
    }
}

/// Bytes in upper-case hexadecimal, two digits each, separated by spaces.
pub fn format_data(data: &[u8]) -> (text: String)
    ensures
        text@ == spaced_hex(data@),
{
    let mut text: String = String::new();
    let mut i: usize = 0;
    while i < data.len()
        invariant
            i <= data@.len(),
            text@ == spaced_hex(data@.take(i as int)),
        decreases data@.len() - i,
    {
        let ghost next = data@.take(i + 1);
        assert(next.drop_last() =~= data@.take(i as int));
        if i > 0 {
            text.push(' ');
        }
        push_byte_hex(&mut text, data[i]);
        i = i + 1;
        assert(text@ =~= spaced_hex(next));
    }
    assert(data@.take(i as int) =~= data@);
    text
}

/// The empty message is received, of id 0, without data, on the first channel, and nothing
/// else is said of it.
pub proof fn law_empty_message<T>(timestamp: T)
    ensures
        ({
            let m = empty_message(timestamp);
            &&& m.timestamp == timestamp && m.arbitration_id == 0 && m.channel == 0 && m.is_rx
            &&& m.dlc == 0 && m.data.len() == 0
            &&& !m.is_extended_id && !m.is_remote_frame && !m.is_error_frame && !m.is_fd
            &&& !m.bitrate_switch && !m.error_state_indicator
        }),
{
}

/// Another time changes nothing else of a message, and setting it back gives the message.
pub proof fn law_time_alone_changes<T>(m: MessageView<T>, timestamp: T)
    ensures
        m.at(()).at(m.timestamp) == m,
        m.at(timestamp).timestamp == timestamp,
        m.at(timestamp).at(()) == m.at(()),
{
}

/// A number is zero where no bit but that of the sign is set.
pub proof fn law_zero_times(t: Timestamp)
    ensures
        t.is_zero_spec() <==> t.bits % 0x8000_0000_0000_0000 == 0,
{
}

} // verus!
