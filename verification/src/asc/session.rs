//! Whole logs: what a reader gives of a log that a writer made.

use vstd::prelude::*;

use crate::asc::clock::{date_text, shows, LocalStamp};
use crate::asc::dates::{
    lemma_block_line, lemma_date_hour, lemma_date_in_line, lemma_date_line, lemma_trimmed_line,
};
use crate::asc::laws::{
    asc_recorded, law_event_read_back, lemma_event_plain, lemma_no_prefix, lemma_time_chars,
    lemma_time_word,
};
use crate::asc::reader::{
    can_read, header_line, may_answer, new_base, new_reader, AscNextView, AscTimeView, AscView,
    Base,
};
use crate::asc::writer::{
    begun, block_line, data_count, event_line, event_text, header_text, log_of, new_asc_writer,
    AscWriterView,
};
use crate::calendar::CivilTime;
use crate::error::ErrorView;
use crate::message::{MessageView, Timestamp};
use crate::sentence::{blanks, lemma_first_word};
use crate::text::{
    has_part, is_ascii_char, is_ascii_text, is_float_text, lower_char, lowercase, stands_at,
    trimmed, words,
};

verus! {

/// One message as a writer receives it, with its time as it is shown: spaces and a number
/// of seconds.
pub struct Shown {
    pub message: MessageView<Timestamp>,
    pub blanks: int,
    pub time: Seq<char>,
}

/// Whether the times are shown as numbers, and the data is no more than memory can hold.
pub open spec fn well_shown(items: Seq<Shown>) -> bool {
    forall|i: int|
        0 <= i < items.len() ==> (#[trigger] items[i]).blanks >= 0 && is_float_text(items[i].time)
            && data_count(items[i].message) <= isize::MAX
}

/// The lines that a writer gives for messages, `stamp` being the date of the first. The
/// writer is told when the block is begun.
pub open spec fn received_text(w: AscWriterView, items: Seq<Shown>, stamp: LocalStamp) -> Seq<char>
    decreases items.len(),
{
    if items.len() == 0 {
        Seq::empty()
    } else {
        let item = items[0];
        let (text, after) = log_of(
            w,
            event_text(item.message),
            item.message.timestamp,
            blanks(item.blanks) + item.time,
            stamp,
        );
        text + received_text(begun(after), items.drop_first(), stamp)
    }
}

/// The text of a log that is made at one moment and finished.
pub open spec fn whole_text(
    channel: u16,
    made: LocalStamp,
    items: Seq<Shown>,
    stamp: LocalStamp,
) -> Seq<char> {
    header_text(made) + received_text(new_asc_writer(channel), items, stamp)
        + "End TriggerBlock\n"@
}

/// The line of one message.
pub open spec fn item_line(item: Shown) -> Seq<char> {
    event_line(blanks(item.blanks) + item.time, event_text(item.message))
}

/// The lines of messages.
pub open spec fn item_lines(items: Seq<Shown>) -> Seq<Seq<char>> {
    Seq::new(items.len(), |i: int| item_line(items[i]))
}

/// The lines of the header.
pub open spec fn header_lines(made: LocalStamp) -> Seq<Seq<char>> {
    seq![
        "date "@ + date_text(made) + seq!['\n'],
        "base hex  timestamps absolute\n"@,
        "internal events logged\n"@,
    ]
}

/// The lines of a block of events.
pub open spec fn block_lines(items: Seq<Shown>, stamp: LocalStamp) -> Seq<Seq<char>> {
    if items.len() == 0 {
        Seq::empty()
    } else {
        seq![
            block_line(stamp),
            event_line(blanks(items[0].blanks) + items[0].time, "Start of measurement"@),
        ] + item_lines(items)
    }
}

/// The lines of a log.
pub open spec fn log_lines(made: LocalStamp, items: Seq<Shown>, stamp: LocalStamp) -> Seq<
    Seq<char>,
> {
    header_lines(made) + block_lines(items, stamp) + seq!["End TriggerBlock\n"@]
}

/// Texts one after the other.
pub open spec fn joined(lines: Seq<Seq<char>>) -> Seq<char>
    decreases lines.len(),
{
    if lines.len() == 0 {
        Seq::empty()
    } else {
        lines[0] + joined(lines.drop_first())
    }
}

proof fn lemma_joined_add(a: Seq<Seq<char>>, b: Seq<Seq<char>>)
    ensures
        joined(a + b) == joined(a) + joined(b),
    decreases a.len(),
{
    if a.len() == 0 {
        assert(a + b =~= b);
        assert(joined(a) + joined(b) =~= joined(b));
    } else {
        lemma_joined_add(a.drop_first(), b);
        assert((a + b).drop_first() =~= a.drop_first() + b);
        assert(joined(a + b) =~= joined(a) + joined(b));
    }
}

proof fn lemma_joined_one(a: Seq<char>)
    ensures
        joined(seq![a]) == a,
{
    assert(seq![a].drop_first() =~= Seq::<Seq<char>>::empty());
    assert(joined(seq![a].drop_first()) =~= Seq::<char>::empty());
    assert(joined(seq![a]) =~= a);
}

/// Once the block is started every message gives one line.
pub(crate) proof fn lemma_item_lines(w: AscWriterView, items: Seq<Shown>, stamp: LocalStamp)
    requires
        w.header_written,
    ensures
        received_text(w, items, stamp) == joined(item_lines(items)),
    decreases items.len(),
{
    if items.len() > 0 {
        let item = items[0];
        let after = log_of(
            w,
            event_text(item.message),
            item.message.timestamp,
            blanks(item.blanks) + item.time,
            stamp,
        ).1;
        lemma_item_lines(begun(after), items.drop_first(), stamp);
        assert(item_lines(items).drop_first() =~= item_lines(items.drop_first()));
    }
}

/// A log is made of its lines.
pub proof fn law_log_is_its_lines(
    channel: u16,
    made: LocalStamp,
    items: Seq<Shown>,
    stamp: LocalStamp,
)
    ensures
        whole_text(channel, made, items, stamp) == joined(log_lines(made, items, stamp)),
{
    let w = new_asc_writer(channel);
    let head = header_lines(made);
    let end = "End TriggerBlock\n"@;
    reveal_strlit("\nbase hex  timestamps absolute\ninternal events logged\n");
    reveal_strlit("base hex  timestamps absolute\n");
    reveal_strlit("internal events logged\n");
    assert(joined(head) == header_text(made)) by {
        let l2 = seq![head[1], head[2]];
        assert(head.drop_first() =~= l2);
        assert(l2.drop_first() =~= seq![head[2]]);
        lemma_joined_one(head[2]);
        assert(joined(l2) == head[1] + head[2]);
        assert(head[0] + (head[1] + head[2]) =~= header_text(made));
    }
    assert(joined(block_lines(items, stamp)) == received_text(w, items, stamp)) by {
        if items.len() > 0 {
            let item = items[0];
            let shown = blanks(item.blanks) + item.time;
            let (text, after) = log_of(
                w,
                event_text(item.message),
                item.message.timestamp,
                shown,
                stamp,
            );
            let two = seq![block_line(stamp), event_line(shown, "Start of measurement"@)];
            lemma_item_lines(begun(after), items.drop_first(), stamp);
            lemma_joined_add(two, item_lines(items));
            assert(two.drop_first() =~= seq![two[1]]);
            lemma_joined_one(two[1]);
            assert(joined(two) == two[0] + two[1]);
            assert(item_lines(items).drop_first() =~= item_lines(items.drop_first()));
            let rest = joined(item_lines(items.drop_first()));
            assert(two[0] + two[1] + (item_line(item) + rest) =~= two[0] + two[1] + item_line(item)
                + rest);
        }
    }
    lemma_joined_add(head, block_lines(items, stamp));
    lemma_joined_add(head + block_lines(items, stamp), seq![end]);
    lemma_joined_one(end);
}

/// Whether a text is one line, with its end.
pub open spec fn is_line(s: Seq<char>) -> bool {
    &&& s.len() > 0 && s.last() == '\n'
    &&& forall|i: int| 0 <= i < s.len() - 1 ==> #[trigger] s[i] != '\n'
}

/// Whether a reader that is handed these lines gives what is recorded of these messages,
/// in this order, whatever the zone of the machine is. The time of each counts from where
/// the reader has them count when it comes to the line.
pub open spec fn gives(v: AscView, lines: Seq<Seq<char>>, items: Seq<Shown>) -> bool
    decreases lines.len(),
{
    if lines.len() == 0 {
        items.len() == 0
    } else {
        &&& can_read(v, lines[0])
        &&& forall|answer: Result<AscNextView, ErrorView>, after: AscView| #[trigger]
            may_answer(v, lines[0], answer, after) ==> match answer {
                Ok(AscNextView::Nothing) => gives(after, lines.drop_first(), items),
                Ok(AscNextView::Message(m)) => {
                    &&& items.len() > 0
                    &&& m == asc_recorded(
                        items[0].message,
                        AscTimeView { text: items[0].time, start: v.start },
                    )
                    &&& gives(after, lines.drop_first(), items.drop_first())
                },
                _ => false,
            }
    }
}

/// Whether a line gives no message and leaves the reader as it was, but for where times
/// count from, and for the header, which may be over.
pub(crate) open spec fn passes(v: AscView, text: Seq<char>, header_parsed: bool) -> bool {
    &&& can_read(v, text)
    &&& forall|answer: Result<AscNextView, ErrorView>, after: AscView| #[trigger]
        may_answer(v, text, answer, after) ==> answer == Ok::<AscNextView, ErrorView>(
            AscNextView::Nothing,
        ) && after == (AscView { header_parsed, start: after.start, ..v })
}

/// Whether a line gives no message and leaves the reader as it was, but for the header, which
/// may be over.
pub(crate) open spec fn keeps(v: AscView, text: Seq<char>, header_parsed: bool) -> bool {
    &&& can_read(v, text)
    &&& forall|answer: Result<AscNextView, ErrorView>, after: AscView| #[trigger]
        may_answer(v, text, answer, after) ==> answer == Ok::<AscNextView, ErrorView>(
            AscNextView::Nothing,
        ) && after == (AscView { header_parsed, ..v })
}

proof fn lemma_gives_passed(
    v: AscView,
    lines: Seq<Seq<char>>,
    header_parsed: bool,
    items: Seq<Shown>,
)
    requires
        lines.len() > 0,
        passes(v, lines[0], header_parsed),
        forall|start: (i64, u32)|
            gives(#[trigger] starting(v, header_parsed, start), lines.drop_first(), items),
    ensures
        gives(v, lines, items),
{
    assert forall|answer: Result<AscNextView, ErrorView>, after: AscView| #[trigger]
        may_answer(v, lines[0], answer, after) implies gives(
        after,
        lines.drop_first(),
        items,
    ) by {
        assert(after == starting(v, header_parsed, after.start));
    }
}

/// A reader whose times count from somewhere else.
spec fn starting(v: AscView, header_parsed: bool, start: (i64, u32)) -> AscView {
    AscView { header_parsed, start, ..v }
}

/// A text in which every character is of ASCII is known in lower case.
proof fn lemma_lower_at(s: Seq<char>, lower: Seq<char>)
    requires
        is_ascii_text(s),
        lower == lowercase(s),
    ensures
        lower.len() == s.len(),
        forall|i: int| 0 <= i < s.len() ==> #[trigger] lower[i] == lower_char(s[i]),
{
}

/// The lines of the header.
pub(crate) proof fn lemma_header_passes(v: AscView, made: LocalStamp, c: CivilTime)
    requires
        !v.header_parsed,
        v.base == Base::Hex,
        shows(made, c, false),
        c.valid(),
    ensures
        passes(v, header_lines(made)[0], false),
        keeps(v, header_lines(made)[1], false),
        keeps(v, header_lines(made)[2], true),
{
    lemma_date_line(made, c, false);
    lemma_date_hour(c, false, made.millis as int);
    lemma_base_line(v);
    lemma_last_line();
}

proof fn lemma_base_line(v: AscView)
    ensures
        ({
            let line = trimmed("base hex  timestamps absolute\n"@);
            &&& header_line(line, lowercase(line)) is Base
            &&& new_base(v.base, line) == Base::Hex
        }),
{
    let body = "base hex  timestamps absolute"@;
    reveal_strlit("base hex  timestamps absolute\n");
    reveal_strlit("base hex  timestamps absolute");
    reveal_strlit("base ");
    reveal_strlit("date ");
    assert("base hex  timestamps absolute\n"@ =~= blanks(0) + body + seq!['\n']);
    lemma_trimmed_line(0, body);
    let lower = lowercase(body);
    lemma_lower_at(body, lower);
    lemma_no_prefix(lower, "date "@);
    assert(lower.subrange(0, 5) =~= "base "@);
    reveal_strlit("base");
    reveal_strlit("hex");
    reveal_strlit("  timestamps absolute");
    let tail = "  timestamps absolute"@;
    lemma_first_word(1, "hex"@, tail);
    let rest = blanks(1) + "hex"@ + tail;
    lemma_first_word(0, "base"@, rest);
    assert(body =~= blanks(0) + "base"@ + rest);
    assert(words(body)[1] == "hex"@);
    assert(words(body).len() >= 2);
}

proof fn lemma_last_line()
    ensures
        ({
            let line = trimmed("internal events logged\n"@);
            header_line(line, lowercase(line)) is Last
        }),
{
    let body = "internal events logged"@;
    reveal_strlit("internal events logged\n");
    reveal_strlit("internal events logged");
    reveal_strlit("base ");
    reveal_strlit("date ");
    reveal_strlit("//");
    assert("internal events logged\n"@ =~= blanks(0) + body + seq!['\n']);
    lemma_trimmed_line(0, body);
    let lower = lowercase(body);
    lemma_lower_at(body, lower);
    lemma_no_prefix(lower, "date "@);
    lemma_no_prefix(lower, "base "@);
    lemma_no_prefix(body, "//"@);
    assert(lower =~= body);
    assert(lower.subrange(0, 22) =~= body);
    assert(stands_at(lower, body, 0));
}

/// The line that says that a measurement starts.
pub(crate) proof fn lemma_measurement_passes(v: AscView, n: int, time: Seq<char>)
    requires
        v.header_parsed,
        n >= 0,
        is_float_text(time),
    ensures
        keeps(v, event_line(blanks(n) + time, "Start of measurement"@), true),
{
    let text = event_line(blanks(n) + time, "Start of measurement"@);
    let tail = seq![' '] + "Start of measurement"@;
    let body = time + tail;
    reveal_strlit("Start of measurement");
    reveal_strlit("start of measurement");
    reveal_strlit("begin triggerblock");
    lemma_time_chars(time);
    lemma_time_word(time);
    assert(body[0] == time[0]);
    assert(body.last() == "Start of measurement"@.last());
    lemma_trimmed_line(n, body);
    assert(text =~= blanks(n) + body + seq!['\n']);
    assert(is_ascii_text(body)) by {
        assert forall|i: int| 0 <= i < body.len() implies is_ascii_char(#[trigger] body[i]) by {
            if i < time.len() {
                assert(body[i] == time[i]);
            } else {
                assert(body[i] == tail[i - time.len()]);
            }
        }
    }
    let lower = lowercase(body);
    lemma_lower_at(body, lower);
    lemma_no_prefix(lower, "begin triggerblock"@);
    let at = time.len() as int + 1;
    let part = "start of measurement"@;
    assert(lower.subrange(at, at + part.len()) =~= part) by {
        assert forall|i: int| 0 <= i < part.len() implies #[trigger] lower.subrange(
            at,
            at + part.len(),
        )[i] == part[i] by {
            assert(body[at + i] == "Start of measurement"@[i]);
        }
    }
    assert(stands_at(lower, part, at));
    assert(has_part(lower, part));
}

/// The line that ends a block of events.
pub(crate) proof fn lemma_end_passes(v: AscView)
    requires
        v.header_parsed,
    ensures
        keeps(v, "End TriggerBlock\n"@, true),
{
    let body = "End TriggerBlock"@;
    reveal_strlit("End TriggerBlock\n");
    reveal_strlit("End TriggerBlock");
    reveal_strlit("begin triggerblock");
    reveal_strlit("end triggerblock");
    assert("End TriggerBlock\n"@ =~= blanks(0) + body + seq!['\n']);
    lemma_trimmed_line(0, body);
    let lower = lowercase(body);
    lemma_lower_at(body, lower);
    lemma_no_prefix(lower, "begin triggerblock"@);
    assert(lower.subrange(0, 16) =~= "end triggerblock"@);
}

/// The lines of messages, and the end of the block, give the messages.
proof fn lemma_items_given(v: AscView, items: Seq<Shown>)
    requires
        v.header_parsed,
        v.base == Base::Hex,
        well_shown(items),
    ensures
        gives(v, item_lines(items) + seq!["End TriggerBlock\n"@], items),
    decreases items.len(),
{
    let end = "End TriggerBlock\n"@;
    let lines = item_lines(items) + seq![end];
    if items.len() == 0 {
        lemma_end_passes(v);
        assert(lines =~= seq![end]);
        assert(lines.drop_first() =~= Seq::<Seq<char>>::empty());
        lemma_gives_passed(v, lines, true, items);
    } else {
        let item = items[0];
        let rest = items.drop_first();
        assert(well_shown(rest)) by {
            assert forall|i: int| 0 <= i < rest.len() implies (#[trigger] rest[i]).blanks >= 0
                && is_float_text(rest[i].time) && data_count(rest[i].message) <= isize::MAX by {
                assert(rest[i] == items[i + 1]);
            }
        }
        lemma_items_given(v, rest);
        law_event_read_back(v, item.message, item.blanks, item.time);
        assert(lines[0] == item_line(item));
        assert(lines.drop_first() =~= item_lines(rest) + seq![end]);
    }
}

/// The lines of a block of events give the messages.
proof fn lemma_block_given(
    v: AscView,
    items: Seq<Shown>,
    stamp: LocalStamp,
    c: CivilTime,
    leap: bool,
)
    requires
        v.header_parsed,
        v.base == Base::Hex,
        shows(stamp, c, leap),
        c.valid(),
        well_shown(items),
    ensures
        gives(v, block_lines(items, stamp) + seq!["End TriggerBlock\n"@], items),
{
    let end = seq!["End TriggerBlock\n"@];
    let lines = block_lines(items, stamp) + end;
    if items.len() == 0 {
        lemma_items_given(v, items);
        assert(lines =~= item_lines(items) + end);
    } else {
        let n = items[0].blanks;
        let time = items[0].time;
        lemma_block_line(stamp, c, leap);
        lemma_date_hour(c, leap, stamp.millis as int);
        assert(passes(v, block_line(stamp), true));
        let l1 = lines.drop_first();
        let l2 = l1.drop_first();
        assert(lines[0] == block_line(stamp));
        assert(l1[0] == event_line(blanks(n) + time, "Start of measurement"@));
        assert(l2 =~= item_lines(items) + end);
        assert forall|start: (i64, u32)| gives(#[trigger] starting(v, true, start), l1, items) by {
            let w = starting(v, true, start);
            lemma_measurement_passes(w, n, time);
            assert forall|other: (i64, u32)|
                gives(#[trigger] starting(w, true, other), l2, items) by {
                lemma_items_given(starting(w, true, other), items);
            }
            lemma_gives_passed(w, l1, true, items);
        }
        lemma_gives_passed(v, lines, true, items);
    }
}

/// Reading a finished log gives what is recorded of every message, in order, whether
/// times count from the start of the block or from the epoch.
pub proof fn law_asc_log_read_back(
    relative_timestamp: bool,
    made: LocalStamp,
    made_at: CivilTime,
    items: Seq<Shown>,
    stamp: LocalStamp,
    stamp_at: CivilTime,
    leap: bool,
)
    requires
        made_at.valid(),
        shows(made, made_at, false),
        stamp_at.valid(),
        shows(stamp, stamp_at, leap),
        well_shown(items),
    ensures
        gives(new_reader(Base::Hex, relative_timestamp), log_lines(made, items, stamp), items),
{
    let v = new_reader(Base::Hex, relative_timestamp);
    let head = header_lines(made);
    let lines = log_lines(made, items, stamp);
    let l1 = lines.drop_first();
    let l2 = l1.drop_first();
    let l3 = l2.drop_first();
    assert(l3 =~= block_lines(items, stamp) + seq!["End TriggerBlock\n"@]);
    assert(lines[0] == head[0] && l1[0] == head[1] && l2[0] == head[2]);
    assert forall|start: (i64, u32)| gives(#[trigger] starting(v, false, start), l2, items) by {
        let w = starting(v, false, start);
        lemma_header_passes(w, made, made_at);
        assert forall|other: (i64, u32)| gives(#[trigger] starting(w, true, other), l3, items) by {
            lemma_block_given(starting(w, true, other), items, stamp, stamp_at, leap);
        }
        lemma_gives_passed(w, l2, true, items);
    }
    assert forall|start: (i64, u32)| gives(#[trigger] starting(v, false, start), l1, items) by {
        let w = starting(v, false, start);
        lemma_header_passes(w, made, made_at);
        assert forall|other: (i64, u32)| gives(#[trigger] starting(w, false, other), l2, items) by {
            assert(starting(w, false, other) == starting(v, false, other));
        }
        lemma_gives_passed(w, l1, false, items);
    }
    lemma_header_passes(v, made, made_at);
    lemma_gives_passed(v, lines, false, items);
}

/// Where times count from the start of a block, they count from zero throughout.
pub proof fn law_relative_times_count_from_zero(
    v: AscView,
    text: Seq<char>,
    answer: Result<AscNextView, ErrorView>,
    after: AscView,
)
    requires
        v.relative_timestamp,
        v.start == (0i64, 0u32),
    ensures
        may_answer(v, text, answer, after) ==> {
            &&& after.relative_timestamp
            &&& after.start == (0i64, 0u32)
            &&& answer matches Ok(AscNextView::Message(m)) ==> m.timestamp.start == (0i64, 0u32)
        },
{
}

/// Every line of a log is one line: a log is cut into its lines where they end.
pub proof fn law_lines_are_lines(
    made: LocalStamp,
    made_at: CivilTime,
    items: Seq<Shown>,
    stamp: LocalStamp,
    stamp_at: CivilTime,
    leap: bool,
    i: int,
)
    requires
        made_at.valid(),
        shows(made, made_at, false),
        stamp_at.valid(),
        shows(stamp, stamp_at, leap),
        well_shown(items),
        0 <= i < log_lines(made, items, stamp).len(),
    ensures
        is_line(log_lines(made, items, stamp)[i]),
{
    let lines = log_lines(made, items, stamp);
    reveal_strlit("date ");
    reveal_strlit("base hex  timestamps absolute\n");
    reveal_strlit("internal events logged\n");
    reveal_strlit("End TriggerBlock\n");
    reveal_strlit("Begin Triggerblock ");
    reveal_strlit("Start of measurement");
    lemma_date_in_line(made, made_at, false);
    lemma_date_in_line(stamp, stamp_at, leap);
    if i == lines.len() - 1 {
        assert(lines[i] == "End TriggerBlock\n"@);
    } else if i >= 4 {
        if i == 4 {
            lemma_time_word(items[0].time);
            assert(lines[i] == event_line(
                blanks(items[0].blanks) + items[0].time,
                "Start of measurement"@,
            ));
        } else {
            let item = items[i - 5];
            lemma_time_word(item.time);
            lemma_event_plain(item.message);
            assert(lines[i] == item_line(item));
        }
    } else if i == 3 {
        assert(lines[i] == block_line(stamp));
    } else {
        assert(lines[i] == header_lines(made)[i]);
    }
}

} // verus!
