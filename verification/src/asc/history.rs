//! What the calls of a writer amount to, and what a reader gives of the log.

use vstd::prelude::*;

use crate::asc::clock::{is_moment, shows, shows_some_moment, LocalStamp};
use crate::asc::laws::{asc_representable, law_asc_representable_is_kept};
use crate::asc::reader::{can_read, may_answer, new_reader, AscNextView, AscTimeView, AscView, Base};
use crate::asc::session::{
    gives, is_line, item_line, item_lines, joined, law_asc_log_read_back, law_lines_are_lines,
    law_log_is_its_lines, lemma_item_lines, log_lines, received_text, well_shown, Shown,
};
use crate::asc::writer::{
    begun, event_text, header_text, log_of, may_log, may_stamp, new_asc_writer, AscWriterView,
};
use crate::calendar::CivilTime;
use crate::error::ErrorView;
use crate::message::MessageView;
use crate::sentence::blanks;

verus! {

/// A call that handed a writer a message, the lines that came back, and the writer
/// afterwards.
pub struct Logged {
    pub item: Shown,
    pub text: Seq<char>,
    pub after: AscWriterView,
}

/// The writer before a call. Before every call but the first the block has begun.
pub open spec fn before_call(w: AscWriterView, calls: Seq<Logged>, i: int) -> AscWriterView {
    if i == 0 {
        w
    } else {
        begun(calls[i - 1].after)
    }
}

/// Whether a writer may give this for a message: what `AscWriter::on_message_received`
/// ensures.
pub open spec fn is_logged(w: AscWriterView, call: Logged) -> bool {
    may_log(
        w,
        event_text(call.item.message),
        call.item.message.timestamp,
        blanks(call.item.blanks) + call.item.time,
        call.text,
        call.after,
    )
}

/// Whether a writer may give this for messages, one after the other.
pub open spec fn are_logged(w: AscWriterView, calls: Seq<Logged>) -> bool {
    forall|i: int|
        0 <= i < calls.len() ==> is_logged(before_call(w, calls, i), #[trigger] calls[i])
}

/// The messages that were handed over.
pub open spec fn items_of(calls: Seq<Logged>) -> Seq<Shown> {
    Seq::new(calls.len(), |i: int| calls[i].item)
}

/// The lines that came back.
pub open spec fn texts_of(calls: Seq<Logged>) -> Seq<Seq<char>> {
    Seq::new(calls.len(), |i: int| calls[i].text)
}

/// Whether a text is the header of a log that is made at some moment: what
/// `AscWriter::create` ensures.
pub open spec fn is_header(text: Seq<char>) -> bool {
    exists|stamp: LocalStamp| #[trigger]
        shows_some_moment(stamp) && text == header_text(stamp)
}

/// Whether lines make up a text, and a reader that is handed them gives what is recorded of
/// these messages.
pub open spec fn read_as(
    lines: Seq<Seq<char>>,
    text: Seq<char>,
    relative_timestamp: bool,
    items: Seq<Shown>,
) -> bool {
    &&& joined(lines) == text
    &&& forall|i: int| 0 <= i < lines.len() ==> is_line(#[trigger] lines[i])
    &&& gives(new_reader(Base::Hex, relative_timestamp), lines, items)
}

/// Once the block has begun a call gives the line of its message.
proof fn lemma_later_call(w: AscWriterView, call: Logged)
    requires
        w.header_written,
        is_logged(w, call),
    ensures
        call.text == item_line(call.item),
        call.after.header_written,
{
}

/// The first call begins the block, with the date that its message has.
proof fn lemma_first_call(w: AscWriterView, call: Logged) -> (res: (LocalStamp, CivilTime, bool))
    requires
        !w.header_written,
        is_logged(w, call),
    ensures
        res.1.valid(),
        shows(res.0, res.1, res.2),
        log_of(
            w,
            event_text(call.item.message),
            call.item.message.timestamp,
            blanks(call.item.blanks) + call.item.time,
            res.0,
        ) == (call.text, call.after),
{
    let time = call.item.message.timestamp;
    let event = event_text(call.item.message);
    let shown = blanks(call.item.blanks) + call.item.time;
    let stamp = choose|stamp: LocalStamp| #[trigger]
        log_of(w, event, time, shown, stamp) == (call.text, call.after) && (w.header_written
            || may_stamp(time, stamp));
    let leap = is_moment(time.seconds, time.nanos) && time.nanos
        >= 1_000_000_000;
    let c = choose|c: CivilTime| c.valid() && #[trigger] shows(stamp, c, leap);
    (stamp, c, leap)
}

/// The lines that come back from the calls are those of the messages.
pub(crate) proof fn lemma_texts(channel: u16, calls: Seq<Logged>, stamp: LocalStamp)
    requires
        are_logged(new_asc_writer(channel), calls),
        calls.len() > 0 ==> log_of(
            new_asc_writer(channel),
            event_text(calls[0].item.message),
            calls[0].item.message.timestamp,
            blanks(calls[0].item.blanks) + calls[0].item.time,
            stamp,
        ) == (calls[0].text, calls[0].after),
    ensures
        joined(texts_of(calls)) == received_text(new_asc_writer(channel), items_of(calls), stamp),
{
    let w = new_asc_writer(channel);
    if calls.len() > 0 {
        let rest = items_of(calls).drop_first();
        lemma_item_lines(begun(calls[0].after), rest, stamp);
        assert(texts_of(calls).drop_first() =~= item_lines(rest)) by {
            assert forall|i: int| 0 <= i < rest.len() implies #[trigger] texts_of(
                calls,
            ).drop_first()[i] == item_lines(rest)[i] by {
                assert(is_logged(before_call(w, calls, i + 1), calls[i + 1]));
                lemma_later_call(before_call(w, calls, i + 1), calls[i + 1]);
            }
        }
    }
}

/// What a writer was handed is what a reader gives of the log, in the same order, as far as
/// its lines can hold it. The calls are those that make the log; the reader is handed its
/// lines, and then that there are no more.
pub proof fn law_asc_calls_read_back(
    channel: u16,
    header: Seq<char>,
    calls: Seq<Logged>,
    relative_timestamp: bool,
)
    requires
        is_header(header),
        are_logged(new_asc_writer(channel), calls),
        well_shown(items_of(calls)),
    ensures
        exists|lines: Seq<Seq<char>>| #[trigger]
            read_as(
                lines,
                header + joined(texts_of(calls)) + "End TriggerBlock\n"@,
                relative_timestamp,
                items_of(calls),
            ),
{
    let w = new_asc_writer(channel);
    let items = items_of(calls);
    let made = choose|stamp: LocalStamp| #[trigger]
        shows_some_moment(stamp) && header == header_text(stamp);
    let made_at = choose|c: CivilTime| c.valid() && #[trigger] shows(made, c, false);
    let (stamp, stamp_at, leap) = if calls.len() == 0 {
        (made, made_at, false)
    } else {
        assert(is_logged(before_call(w, calls, 0), calls[0]));
        lemma_first_call(w, calls[0])
    };
    lemma_texts(channel, calls, stamp);
    let lines = log_lines(made, items, stamp);
    law_log_is_its_lines(channel, made, items, stamp);
    law_asc_log_read_back(relative_timestamp, made, made_at, items, stamp, stamp_at, leap);
    assert forall|i: int| 0 <= i < lines.len() implies is_line(#[trigger] lines[i]) by {
        law_lines_are_lines(made, made_at, items, stamp, stamp_at, leap, i);
    }
    assert(read_as(
        lines,
        header + joined(texts_of(calls)) + "End TriggerBlock\n"@,
        relative_timestamp,
        items,
    ));
}

/// Whether a reader that is handed these lines gives these messages, in this order and
/// unchanged but for their time, whatever the zone of the machine is.
pub open spec fn gives_unchanged(v: AscView, lines: Seq<Seq<char>>, items: Seq<Shown>) -> bool
    decreases lines.len(),
{
    if lines.len() == 0 {
        items.len() == 0
    } else {
        &&& can_read(v, lines[0])
        &&& forall|answer: Result<AscNextView, ErrorView>, after: AscView| #[trigger]
            may_answer(v, lines[0], answer, after) ==> match answer {
                Ok(AscNextView::Nothing) => gives_unchanged(after, lines.drop_first(), items),
                Ok(AscNextView::Message(m)) => {
                    &&& items.len() > 0
                    &&& m == items[0].message.at(
                        AscTimeView { text: items[0].time, start: v.start },
                    )
                    &&& gives_unchanged(after, lines.drop_first(), items.drop_first())
                },
                _ => false,
            }
    }
}

proof fn lemma_unchanged(v: AscView, lines: Seq<Seq<char>>, items: Seq<Shown>)
    requires
        forall|i: int| 0 <= i < items.len() ==> asc_representable(#[trigger] items[i].message),
        gives(v, lines, items),
    ensures
        gives_unchanged(v, lines, items),
    decreases lines.len(),
{
    if lines.len() > 0 {
        assert forall|answer: Result<AscNextView, ErrorView>, after: AscView| #[trigger]
            may_answer(v, lines[0], answer, after) implies match answer {
            Ok(AscNextView::Nothing) => gives_unchanged(after, lines.drop_first(), items),
            Ok(AscNextView::Message(m)) => {
                &&& items.len() > 0
                &&& m == items[0].message.at(AscTimeView { text: items[0].time, start: v.start })
                &&& gives_unchanged(after, lines.drop_first(), items.drop_first())
            },
            _ => false,
        } by {
            match answer {
                Ok(AscNextView::Nothing) => {
                    lemma_unchanged(after, lines.drop_first(), items);
                },
                Ok(AscNextView::Message(m)) => {
                    law_asc_representable_is_kept(
                        items[0].message,
                        AscTimeView { text: items[0].time, start: v.start },
                    );
                    let rest = items.drop_first();
                    assert forall|i: int| 0 <= i < rest.len() implies asc_representable(
                        #[trigger] rest[i].message,
                    ) by {
                        assert(rest[i] == items[i + 1]);
                    }
                    lemma_unchanged(after, lines.drop_first(), rest);
                },
                _ => {},
            }
        }
    }
}

/// Whether lines make up a text, and a reader that is handed them gives these messages.
pub open spec fn read_unchanged(
    lines: Seq<Seq<char>>,
    text: Seq<char>,
    relative_timestamp: bool,
    items: Seq<Shown>,
) -> bool {
    &&& joined(lines) == text
    &&& forall|i: int| 0 <= i < lines.len() ==> is_line(#[trigger] lines[i])
    &&& gives_unchanged(new_reader(Base::Hex, relative_timestamp), lines, items)
}

/// Messages that lines can hold come back unchanged but for their time, in the order in
/// which the writer was handed them. A classic frame whose data is as long as its length
/// says, up to 8 bytes, or a request without data, is such a message, and so is a CAN FD
/// frame whose length is that of its data.
pub proof fn law_asc_messages_come_back(
    channel: u16,
    header: Seq<char>,
    calls: Seq<Logged>,
    relative_timestamp: bool,
)
    requires
        is_header(header),
        are_logged(new_asc_writer(channel), calls),
        well_shown(items_of(calls)),
        forall|i: int|
            0 <= i < calls.len() ==> asc_representable(#[trigger] items_of(calls)[i].message),
    ensures
        exists|lines: Seq<Seq<char>>| #[trigger]
            read_unchanged(
                lines,
                header + joined(texts_of(calls)) + "End TriggerBlock\n"@,
                relative_timestamp,
                items_of(calls),
            ),
{
    law_asc_calls_read_back(channel, header, calls, relative_timestamp);
    let text = header + joined(texts_of(calls)) + "End TriggerBlock\n"@;
    let lines = choose|lines: Seq<Seq<char>>| #[trigger]
        read_as(lines, text, relative_timestamp, items_of(calls));
    lemma_unchanged(new_reader(Base::Hex, relative_timestamp), lines, items_of(calls));
    assert(read_unchanged(lines, text, relative_timestamp, items_of(calls)));
}

/// The frames of which a line holds everything: classic ones whose data is as long as their
/// length says, up to 8 bytes, or which request data and have none, and CAN FD ones with
/// data as long as their length says.
pub proof fn law_common_frames_fit_lines<T>(m: MessageView<T>)
    requires
        m.channel < u16::MAX,
        !m.is_error_frame,
        if m.is_fd {
            !m.is_remote_frame && 1 <= m.data.len() == m.dlc
        } else {
            &&& !m.bitrate_switch && !m.error_state_indicator
            &&& if m.is_remote_frame {
                m.data.len() == 0
            } else {
                m.data.len() == m.dlc <= 8
            }
        },
    ensures
        asc_representable(m),
{
}

} // verus!
