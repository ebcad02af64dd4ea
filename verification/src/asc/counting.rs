//! From which moment the times of a log count when they count from the epoch.

use vstd::prelude::*;

use crate::asc::clock::{is_moment, may_be_local, shows, shows_some_moment, LocalStamp};
use crate::asc::dates::{law_block_line_read_back, law_date_line_read_back, stamp_nanos};
use crate::asc::history::{
    are_logged, before_call, is_header, is_logged, items_of, lemma_texts, texts_of, Logged,
};
use crate::asc::laws::{asc_recorded, law_event_read_back};
use crate::asc::reader::{can_read, may_answer, new_reader, AscNextView, AscTimeView, AscView, Base};
use crate::asc::session::{
    block_lines, header_lines, is_line, item_line, item_lines, joined, keeps, law_lines_are_lines,
    law_log_is_its_lines, lemma_end_passes, lemma_header_passes, lemma_measurement_passes,
    log_lines, well_shown, Shown,
};
use crate::asc::writer::{
    block_line, data_count, event_line, event_text, header_text, log_of, may_stamp, new_asc_writer,
};
use crate::calendar::CivilTime;
use crate::error::ErrorView;
use crate::message::Timestamp;
use crate::sentence::blanks;
use crate::text::is_float_text;

verus! {

/// The dates in a log: when it was made, and the date of its first message, each as it is
/// written and as a date and time of day.
pub struct LogDates {
    pub made: LocalStamp,
    pub made_at: CivilTime,
    pub stamp: LocalStamp,
    pub stamp_at: CivilTime,
}

/// Whether these are the dates of a log with this header whose first message has this time.
pub open spec fn are_dates(d: LogDates, header: Seq<char>, first: Timestamp) -> bool {
    &&& shows_some_moment(d.made)
    &&& header == header_text(d.made)
    &&& shows(d.made, d.made_at, false) && d.made_at.valid()
    &&& may_stamp(first, d.stamp)
    &&& shows(d.stamp, d.stamp_at, false) && d.stamp_at.valid()
    &&& is_moment(first.seconds, first.nanos) ==> -86_400 < d.stamp_at.seconds() - first.seconds
        < 86_400
}

/// Whether the header may have times count from here: from a moment at which a clock in local
/// time may show when the log was made, or from the epoch if there is none.
pub open spec fn header_counts_from(d: LogDates, start: (i64, u32)) -> bool {
    exists|instant: Option<(i64, u32)>| #[trigger]
        may_be_local(d.made_at, stamp_nanos(d.made), instant) && start == match instant {
            Some(i) => i,
            None => (0i64, 0u32),
        }
}

/// Whether the block may have times count from here, where the header has them count from
/// `before`: from a moment at which a clock in local time may show the date of the first
/// message, or from where they did if there is none.
pub open spec fn block_counts_from(d: LogDates, before: (i64, u32), start: (i64, u32)) -> bool {
    exists|instant: Option<(i64, u32)>| #[trigger]
        may_be_local(d.stamp_at, stamp_nanos(d.stamp), instant) && start == match instant {
            Some(i) => i,
            None => before,
        }
}

/// Whether the times of the messages of a log may count from here.
pub open spec fn counts_from(d: LogDates, start: (i64, u32)) -> bool {
    exists|before: (i64, u32)| #[trigger]
        header_counts_from(d, before) && block_counts_from(d, before, start)
}

/// Whether a reader that is handed these lines gives what is recorded of these messages, in
/// this order; and the times of all of them count from one moment, from which those of a log
/// with these dates may count.
pub open spec fn gives_counted(
    v: AscView,
    lines: Seq<Seq<char>>,
    items: Seq<Shown>,
    d: LogDates,
) -> bool
    decreases lines.len(),
{
    if lines.len() == 0 {
        items.len() == 0
    } else {
        &&& can_read(v, lines[0])
        &&& forall|answer: Result<AscNextView, ErrorView>, after: AscView| #[trigger]
            may_answer(v, lines[0], answer, after) ==> match answer {
                Ok(AscNextView::Nothing) => gives_counted(after, lines.drop_first(), items, d),
                Ok(AscNextView::Message(m)) => {
                    &&& items.len() > 0
                    &&& m == asc_recorded(
                        items[0].message,
                        AscTimeView { text: items[0].time, start: v.start },
                    )
                    &&& counts_from(d, m.timestamp.start)
                    &&& after.start == m.timestamp.start
                    &&& gives_counted(after, lines.drop_first(), items.drop_first(), d)
                },
                _ => false,
            }
    }
}

proof fn lemma_kept(
    v: AscView,
    lines: Seq<Seq<char>>,
    header_parsed: bool,
    items: Seq<Shown>,
    d: LogDates,
)
    requires
        lines.len() > 0,
        keeps(v, lines[0], header_parsed),
        gives_counted(AscView { header_parsed, ..v }, lines.drop_first(), items, d),
    ensures
        gives_counted(v, lines, items, d),
{
}

/// The lines of messages, and the end of the block.
proof fn lemma_items_counted(v: AscView, items: Seq<Shown>, d: LogDates)
    requires
        v.header_parsed,
        v.base == Base::Hex,
        well_shown(items),
        items.len() > 0 ==> counts_from(d, v.start),
    ensures
        gives_counted(v, item_lines(items) + seq!["End TriggerBlock\n"@], items, d),
    decreases items.len(),
{
    let end = "End TriggerBlock\n"@;
    let lines = item_lines(items) + seq![end];
    if items.len() == 0 {
        lemma_end_passes(v);
        assert(lines =~= seq![end]);
        assert(lines.drop_first() =~= Seq::<Seq<char>>::empty());
        lemma_kept(v, lines, true, items, d);
    } else {
        let item = items[0];
        let rest = items.drop_first();
        assert(well_shown(rest)) by {
            assert forall|i: int| 0 <= i < rest.len() implies (#[trigger] rest[i]).blanks >= 0
                && is_float_text(rest[i].time) && data_count(rest[i].message) <= isize::MAX by {
                assert(rest[i] == items[i + 1]);
            }
        }
        lemma_items_counted(v, rest, d);
        law_event_read_back(v, item.message, item.blanks, item.time);
        assert(lines[0] == item_line(item));
        assert(lines.drop_first() =~= item_lines(rest) + seq![end]);
    }
}

/// The lines of a block, where the header has times count from some moment.
proof fn lemma_block_counted(v: AscView, items: Seq<Shown>, d: LogDates)
    requires
        v.header_parsed,
        v.base == Base::Hex,
        !v.relative_timestamp,
        header_counts_from(d, v.start),
        shows(d.stamp, d.stamp_at, false),
        d.stamp_at.valid(),
        items.len() > 0 ==> d.stamp.millis < 1000,
        well_shown(items),
    ensures
        gives_counted(v, block_lines(items, d.stamp) + seq!["End TriggerBlock\n"@], items, d),
{
    let end = seq!["End TriggerBlock\n"@];
    let lines = block_lines(items, d.stamp) + end;
    if items.len() == 0 {
        lemma_items_counted(v, items, d);
        assert(lines =~= item_lines(items) + end);
    } else {
        let n = items[0].blanks;
        let time = items[0].time;
        let l1 = lines.drop_first();
        let l2 = l1.drop_first();
        assert(lines[0] == block_line(d.stamp));
        assert(l1[0] == event_line(blanks(n) + time, "Start of measurement"@));
        assert(l2 =~= item_lines(items) + end);
        law_block_line_read_back(v, d.stamp, d.stamp_at, Ok(AscNextView::Nothing), v);
        assert forall|answer: Result<AscNextView, ErrorView>, after: AscView| #[trigger]
            may_answer(v, lines[0], answer, after) implies answer == Ok::<AscNextView, ErrorView>(
            AscNextView::Nothing,
        ) && gives_counted(after, l1, items, d) by {
            law_block_line_read_back(v, d.stamp, d.stamp_at, answer, after);
            assert(block_counts_from(d, v.start, after.start));
            assert(counts_from(d, after.start));
            lemma_measurement_passes(after, n, time);
            lemma_items_counted(after, items, d);
            lemma_kept(after, l1, true, items, d);
        }
    }
}

/// The lines of a log.
proof fn lemma_log_counted(items: Seq<Shown>, d: LogDates)
    requires
        shows_some_moment(d.made),
        shows(d.made, d.made_at, false),
        d.made_at.valid(),
        shows(d.stamp, d.stamp_at, false),
        d.stamp_at.valid(),
        items.len() > 0 ==> d.stamp.millis < 1000,
        well_shown(items),
    ensures
        gives_counted(new_reader(Base::Hex, false), log_lines(d.made, items, d.stamp), items, d),
{
    let v = new_reader(Base::Hex, false);
    let head = header_lines(d.made);
    let lines = log_lines(d.made, items, d.stamp);
    let l1 = lines.drop_first();
    let l2 = l1.drop_first();
    let l3 = l2.drop_first();
    assert(l3 =~= block_lines(items, d.stamp) + seq!["End TriggerBlock\n"@]);
    assert(lines[0] == head[0] && l1[0] == head[1] && l2[0] == head[2]);
    law_date_line_read_back(v, d.made, d.made_at, Ok(AscNextView::Nothing), v);
    assert forall|answer: Result<AscNextView, ErrorView>, after: AscView| #[trigger]
        may_answer(v, lines[0], answer, after) implies answer == Ok::<AscNextView, ErrorView>(
        AscNextView::Nothing,
    ) && gives_counted(after, l1, items, d) by {
        law_date_line_read_back(v, d.made, d.made_at, answer, after);
        assert(header_counts_from(d, after.start));
        lemma_header_passes(after, d.made, d.made_at);
        let behind = AscView { header_parsed: true, ..after };
        lemma_block_counted(behind, items, d);
        lemma_kept(after, l2, true, items, d);
        lemma_kept(after, l1, false, items, d);
    }
}

/// Whether lines make up a text, and a reader for which times count from the epoch gives
/// these messages of them, counted from one moment that the dates allow.
pub open spec fn read_counted(
    lines: Seq<Seq<char>>,
    d: LogDates,
    text: Seq<char>,
    items: Seq<Shown>,
) -> bool {
    &&& joined(lines) == text
    &&& forall|i: int| 0 <= i < lines.len() ==> is_line(#[trigger] lines[i])
    &&& gives_counted(new_reader(Base::Hex, false), lines, items, d)
}

/// The first call begins the block, with the date that its message has.
proof fn lemma_first_date(channel: u16, call: Logged) -> (res: (LocalStamp, CivilTime))
    requires
        is_logged(new_asc_writer(channel), call),
        !in_leap_second(call.item.message.timestamp),
    ensures
        ({
            let time = call.item.message.timestamp;
            let (stamp, c) = res;
            &&& may_stamp(time, stamp)
            &&& stamp.millis < 1000
            &&& shows(stamp, c, false) && c.valid()
            &&& is_moment(time.seconds, time.nanos) ==> -86_400 < c.seconds() - time.seconds
                < 86_400
            &&& log_of(
                new_asc_writer(channel),
                event_text(call.item.message),
                time,
                blanks(call.item.blanks) + call.item.time,
                stamp,
            ) == (call.text, call.after)
        }),
{
    let w = new_asc_writer(channel);
    let time = call.item.message.timestamp;
    let event = event_text(call.item.message);
    let shown = blanks(call.item.blanks) + call.item.time;
    let stamp = choose|stamp: LocalStamp| #[trigger]
        log_of(w, event, time, shown, stamp) == (call.text, call.after) && (w.header_written
            || may_stamp(time, stamp));
    let c = choose|c: CivilTime|
        c.valid() && (is_moment(time.seconds, time.nanos) ==> -86_400 < c.seconds() - time.seconds
            < 86_400) && #[trigger] shows(stamp, c, false);
    (stamp, c)
}

/// Whether a time lies in a leap second.
pub open spec fn in_leap_second(time: Timestamp) -> bool {
    is_moment(time.seconds, time.nanos) && time.nanos >= 1_000_000_000
}

/// Where times count from the epoch, those of a log count from the date of its first message:
/// from a moment at which a clock in local time may show that date, or, if there is none,
/// from where the header has them count: from such a moment of the date on which the log was
/// made, or else from the epoch. The calls are those that make the log. A first message in a
/// leap second is left out: the second that its date shows need not be one of a day.
pub proof fn law_asc_absolute_times(channel: u16, header: Seq<char>, calls: Seq<Logged>)
    requires
        is_header(header),
        calls.len() > 0,
        are_logged(new_asc_writer(channel), calls),
        well_shown(items_of(calls)),
        !in_leap_second(calls[0].item.message.timestamp),
    ensures
        exists|lines: Seq<Seq<char>>, d: LogDates| #[trigger]
            read_counted(
                lines,
                d,
                header + joined(texts_of(calls)) + "End TriggerBlock\n"@,
                items_of(calls),
            ) && are_dates(d, header, calls[0].item.message.timestamp),
{
    let w = new_asc_writer(channel);
    let items = items_of(calls);
    let made = choose|stamp: LocalStamp| #[trigger]
        shows_some_moment(stamp) && header == header_text(stamp);
    let made_at = choose|c: CivilTime| c.valid() && #[trigger] shows(made, c, false);
    assert(is_logged(before_call(w, calls, 0), calls[0]));
    let (stamp, stamp_at) = lemma_first_date(channel, calls[0]);
    let d = LogDates { made, made_at, stamp, stamp_at };
    lemma_texts(channel, calls, stamp);
    law_log_is_its_lines(channel, made, items, stamp);
    lemma_log_counted(items, d);
    let lines = log_lines(made, items, stamp);
    assert forall|i: int| 0 <= i < lines.len() implies is_line(#[trigger] lines[i]) by {
        law_lines_are_lines(made, made_at, items, stamp, stamp_at, false, i);
    }
    assert(read_counted(
        lines,
        d,
        header + joined(texts_of(calls)) + "End TriggerBlock\n"@,
        items,
    ));
}

} // verus!
