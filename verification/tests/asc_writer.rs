use blf_asc::asc::clock::{datetime_from_timestamp, format_header_datetime, LocalStamp};
use blf_asc::asc::reader::{AscNext, AscTime};
use blf_asc::asc::writer::format_event;
use blf_asc::{AscReader, AscWriter, Message, Timestamp};
use chrono::TimeZone;

fn time(ts: f64) -> Timestamp {
    let seconds = ts.floor() as i64;
    Timestamp {
        bits: ts.to_bits(),
        seconds,
        millis: (ts * 1000.0).round() as i64,
        nanos: ((ts - seconds as f64) * 1e9).round() as u32,
    }
}

fn message(ts: f64) -> Message<Timestamp> {
    Message {
        arbitration_id: 0x123,
        dlc: 3,
        data: vec![0x11, 0x22, 0x33],
        ..Message::empty_at(time(ts))
    }
}

fn shown(writer: &AscWriter, ts: f64) -> String {
    let (reading, started) = writer.reading(time(ts));
    let (r, s) = (f64::from_bits(reading.bits), f64::from_bits(started.bits));
    format!("{:9.6}", if r >= s { r - s } else { r })
}

fn add(writer: &mut AscWriter, msg: &Message<Timestamp>, ts: f64) -> String {
    let text = shown(writer, ts);
    let lines = writer.on_message_received(msg, &text);
    writer.mark_begun();
    lines
}

fn date_of(ts: f64) -> String {
    let whole = ts.floor();
    let dt = chrono::Local
        .timestamp_opt(whole as i64, ((ts - whole) * 1e9).round() as u32)
        .single()
        .unwrap();
    dt.format("%a %b %d %H:%M:%S%.3f %Y").to_string()
}

fn read_all(text: &str) -> Vec<Message<AscTime>> {
    let mut reader = AscReader::open().unwrap();
    let mut all = Vec::new();
    for line in text.split_inclusive('\n') {
        match reader.try_next_message(Some(line)) {
            Some(Ok(AscNext::Message(m))) => all.push(m),
            Some(Ok(_)) => {}
            _ => panic!("{line:?}"),
        }
    }
    all
}

fn same(a: &Message<Timestamp>, b: &Message<AscTime>) -> bool {
    a.arbitration_id == b.arbitration_id
        && a.is_extended_id == b.is_extended_id
        && a.is_remote_frame == b.is_remote_frame
        && a.is_rx == b.is_rx
        && a.is_error_frame == b.is_error_frame
        && a.is_fd == b.is_fd
        && a.bitrate_switch == b.bitrate_switch
        && a.error_state_indicator == b.error_state_indicator
        && a.dlc == b.dlc
        && a.data == b.data
        && a.channel == b.channel
}

#[test]
fn a_header_says_when_the_log_is_made() {
    let stamp = LocalStamp {
        text: "Sat Mar 09 16:00:00".to_string(),
        millis: 7,
        year: "2024".to_string(),
    };
    assert_eq!(format_header_datetime(&stamp), "Sat Mar 09 16:00:00.007 2024");
    let (writer, text) = AscWriter::create_at(5, &stamp);
    assert_eq!(
        text,
        "date Sat Mar 09 16:00:00.007 2024\nbase hex  timestamps absolute\ninternal events logged\n"
    );
    assert_eq!(writer.channel(), 5);
    let before = chrono::Local::now();
    let (writer, text) = AscWriter::create();
    let after = chrono::Local::now();
    assert_eq!(writer.channel(), 1);
    assert!(text.starts_with("date "));
    assert!(text.ends_with("\nbase hex  timestamps absolute\ninternal events logged\n"));
    let year = text.lines().next().unwrap().rsplit(' ').next().unwrap().to_string();
    let years = [before.format("%Y").to_string(), after.format("%Y").to_string()];
    assert!(years.contains(&year));
}

#[test]
fn moments_are_shown_in_local_time() {
    for ts in [1_710_000_000.123, 0.0, -1.5, 1_720_000_000.999] {
        let stamp = datetime_from_timestamp(time(ts));
        assert_eq!(format_header_datetime(&stamp), date_of(ts), "{ts}");
    }
    // a moment that there is not is replaced by the present one
    let none = Timestamp { bits: 0, seconds: i64::MAX, millis: i64::MAX, nanos: 0 };
    let year: i32 = datetime_from_timestamp(none).year.parse().unwrap();
    assert!(year >= 2024);
}

#[test]
fn the_first_message_starts_the_block() {
    let ts = 1_710_000_000.123;
    let (mut writer, _) = AscWriter::create();
    let text = add(&mut writer, &message(ts), ts);
    assert_eq!(
        text,
        format!(
            "Begin Triggerblock {}\n 0.000000 Start of measurement\n 0.000000 1  123             Rx   d 3 11 22 33\n",
            date_of(ts)
        )
    );
    let text = add(&mut writer, &message(ts + 1.25), ts + 1.25);
    assert_eq!(text, " 1.250000 1  123             Rx   d 3 11 22 33\n");
    // a message of time zero has the time of the one before it
    let text = add(&mut writer, &message(0.0), 0.0);
    assert_eq!(text, " 1.250000 1  123             Rx   d 3 11 22 33\n");
    // an earlier message is shown with its own time
    let text = add(&mut writer, &message(12.5), 12.5);
    assert_eq!(text, "12.500000 1  123             Rx   d 3 11 22 33\n");
}

#[test]
fn events() {
    let event = |m: &Message<Timestamp>| format_event(m);
    assert_eq!(
        event(&Message { is_error_frame: true, channel: 4, ..message(0.0) }),
        "5  ErrorFrame"
    );
    assert_eq!(
        event(&Message {
            is_extended_id: true,
            arbitration_id: 0x18fe_f1aa,
            is_rx: false,
            is_remote_frame: true,
            dlc: 10,
            channel: 65_535,
            ..message(0.0)
        }),
        "65535  18FEF1AAx       Tx   r a "
    );
    assert_eq!(
        event(&Message {
            is_fd: true,
            bitrate_switch: true,
            dlc: 12,
            ..message(0.0)
        }),
        format!(
            "CANFD   1 Rx        123{}1 0 9  3 11 22 33        0    0     3000        0        0        0        0        0",
            " ".repeat(35)
        )
    );
    assert_eq!(
        event(&Message {
            is_fd: true,
            is_remote_frame: true,
            error_state_indicator: true,
            dlc: 64,
            ..message(0.0)
        }),
        format!(
            "CANFD   1 Rx        123{}0 1 f  0         0    0     5000        0        0        0        0        0",
            " ".repeat(35)
        )
    );
}

#[test]
fn an_event_is_logged_as_given() {
    let stamp = LocalStamp { text: "Sat Mar 09 16:00:00".into(), millis: 123, year: "2024".into() };
    let (mut writer, _) = AscWriter::create_at(1, &stamp);
    assert_eq!(
        writer.log_event("something", time(3.0), "0.5", &stamp),
        "Begin Triggerblock Sat Mar 09 16:00:00.123 2024\n0.5 Start of measurement\n0.5 something\n"
    );
    // as long as the start of the block is not stored, it comes again
    assert!(!writer.has_begun());
    assert_eq!(
        writer.log_event("again", time(3.5), "0.7", &stamp),
        "Begin Triggerblock Sat Mar 09 16:00:00.123 2024\n0.7 Start of measurement\n0.7 again\n"
    );
    assert_eq!(writer.reading(time(5.0)), (time(5.0), time(5.0)));
    writer.mark_begun();
    assert!(writer.has_begun());
    assert_eq!(writer.reading(time(5.0)), (time(5.0), time(3.5)));
    assert_eq!(writer.log_event("more", time(4.0), "1.5", &stamp), "1.5 more\n");
}

#[test]
fn a_log_is_finished_once() {
    let (mut writer, _) = AscWriter::create();
    assert_eq!(writer.finish().unwrap(), "End TriggerBlock\n");
    assert_eq!(writer.finish().unwrap(), "End TriggerBlock\n");
    writer.complete();
    assert!(writer.finish().is_none());
}

#[test]
fn written_logs_are_read_back() {
    let list = vec![
        message(1_710_000_000.5),
        Message {
            arbitration_id: 0xffff_ffff,
            is_extended_id: true,
            is_rx: false,
            dlc: 8,
            data: vec![0, 1, 2, 3, 0x7f, 0x80, 0xfe, 0xff],
            channel: 65_534,
            ..message(1_710_000_000.75)
        },
        Message { is_remote_frame: true, dlc: 200, data: vec![], ..message(1_710_000_001.0) },
        Message {
            is_fd: true,
            bitrate_switch: true,
            error_state_indicator: true,
            dlc: 48,
            data: (0..48).collect(),
            ..message(1_710_000_002.0)
        },
        Message { is_fd: true, is_remote_frame: true, dlc: 8, data: vec![], ..message(1_710_000_003.0) },
        Message { is_error_frame: true, channel: 9, ..Message::empty_at(time(1_710_000_004.0)) },
    ];
    let (mut writer, mut text) = AscWriter::create();
    for m in &list {
        let ts = f64::from_bits(m.timestamp.bits);
        text.push_str(&add(&mut writer, m, ts));
    }
    text.push_str(&writer.finish().unwrap());
    let all = read_all(&text);
    assert_eq!(all.len(), list.len());
    let times: Vec<&str> = all.iter().map(|m| m.timestamp.text.as_str()).collect();
    assert_eq!(times, ["0.000000", "0.250000", "0.500000", "1.500000", "2.500000", "3.500000"]);
    for (a, b) in list.iter().zip(&all) {
        assert!(same(a, b), "{b:?}");
    }
}

#[test]
fn what_a_line_cannot_hold_is_not_read_back() {
    let read = |m: Message<Timestamp>| {
        let (mut writer, mut text) = AscWriter::create();
        text.push_str(&add(&mut writer, &m, 0.0));
        read_all(&text).remove(0)
    };
    let m = read(Message { is_error_frame: true, ..message(0.0) });
    assert_eq!((m.arbitration_id, m.dlc, m.data.len()), (0, 0, 0));
    let m = read(Message { is_fd: true, dlc: 12, data: vec![], ..message(0.0) });
    assert!(m.is_remote_frame);
    assert_eq!(m.dlc, 9);
    let m = read(Message { dlc: 12, data: vec![1; 12], ..message(0.0) });
    assert_eq!((m.dlc, m.data.len()), (24, 8));
    let m = read(Message { channel: 65_535, ..message(0.0) });
    assert_eq!(m.channel, 65_534);
}

#[test]
fn absolute_times_count_from_the_date_of_the_first_message() {
    let (mut writer, mut text) = AscWriter::create();
    for ts in [1_710_000_000.5, 1_710_000_000.75, 1_710_000_002.0] {
        text.push_str(&add(&mut writer, &message(ts), ts));
    }
    text.push_str(&writer.finish().unwrap());
    let mut reader = AscReader::open_with_options("hex", false).unwrap();
    let mut all = Vec::new();
    for line in text.split_inclusive('\n') {
        if let Some(Ok(AscNext::Message(m))) = reader.try_next_message(Some(line)) {
            let time = m.timestamp;
            all.push((time.start_seconds, time.start_nanos, time.text));
        }
    }
    let start = (1_710_000_000, 500_000_000);
    assert_eq!(
        all,
        [
            (start.0, start.1, "0.000000".to_string()),
            (start.0, start.1, "0.250000".to_string()),
            (start.0, start.1, "1.500000".to_string()),
        ]
    );
}
