use blf_asc::asc::clock::{parse_date, parse_month, parse_time};
use blf_asc::asc::reader::{check_base, parse_can_id, parse_data_tokens, AscNext, AscTime, Base};
use blf_asc::text::{chars_of, split_words};
use blf_asc::{AscReader, BlfError, Message};
use chrono::TimeZone;

fn month(s: &str) -> Option<u32> {
    parse_month(&chars_of(s), &chars_of(&s.to_lowercase()))
}

fn time_of_day(s: &str) -> Option<(u32, u32, u32, u32)> {
    parse_time(&chars_of(s))
}

fn lines_of(reader: &mut AscReader, text: &str) -> Vec<Message<AscTime>> {
    let mut all = Vec::new();
    for line in text.split_inclusive('\n') {
        match reader.try_next_message(Some(line)) {
            Some(Ok(AscNext::Message(m))) => all.push(m),
            Some(Ok(_)) => {}
            Some(Err(e)) => panic!("{line:?}: {}", e.message()),
            None => panic!("{line:?} cannot be read"),
        }
    }
    assert!(matches!(reader.next_message(None), Ok(AscNext::End)));
    all
}

fn one(line: &str) -> Option<Message<AscTime>> {
    let mut reader = AscReader::open().unwrap();
    let mut all = lines_of(&mut reader, line);
    assert!(all.len() <= 1);
    all.pop()
}

#[test]
fn bases() {
    for s in ["hex", "HEX", "Hex"] {
        assert_eq!(check_base(s).unwrap(), Base::Hex);
    }
    for s in ["dec", "DEC", "Dec"] {
        assert_eq!(check_base(s).unwrap(), Base::Dec);
    }
    let err = check_base("hEX").unwrap_err();
    assert_eq!(err.message(), "parse error: base should be either hex or dec");
    assert!(AscReader::open_with_options("oct", true).is_err());
    assert!(AscReader::open_with_options("dec", false).is_ok());
}

#[test]
fn months_by_name_and_number() {
    assert_eq!(month("Jan"), Some(1));
    assert_eq!(month("february"), Some(2));
    assert_eq!(month("MAR"), Some(3));
    assert_eq!(month("M\u{e4}rz"), Some(3));
    assert_eq!(month("M\u{c4}R"), Some(3));
    assert_eq!(month("Mai"), Some(5));
    assert_eq!(month("May"), Some(5));
    assert_eq!(month("Okt"), Some(10));
    assert_eq!(month("Oct"), Some(10));
    assert_eq!(month("Dez"), Some(12));
    assert_eq!(month("Dec"), Some(12));
    assert_eq!(month("7"), Some(7));
    assert_eq!(month("13"), Some(13));
    assert_eq!(month("Ju"), None);
    assert_eq!(month(""), None);
}

#[test]
fn times_of_day() {
    assert_eq!(time_of_day("16:00:01"), Some((16, 0, 1, 0)));
    assert_eq!(time_of_day("1:2:3.5"), Some((1, 2, 3, 500_000_000)));
    assert_eq!(time_of_day("01:02:03.123"), Some((1, 2, 3, 123_000_000)));
    assert_eq!(time_of_day("01:02:03.1234567899"), Some((1, 2, 3, 123_456_789)));
    assert_eq!(time_of_day("01:02:03.12ab"), Some((1, 2, 3, 120_000_000)));
    assert_eq!(time_of_day("01:02:03."), Some((1, 2, 3, 0)));
    assert_eq!(time_of_day("01:02:03:99"), Some((1, 2, 3, 0)));
    assert_eq!(time_of_day("99:99:99"), Some((99, 99, 99, 0)));
    assert_eq!(time_of_day("01:02"), None);
    assert_eq!(time_of_day("01:02:"), None);
    assert_eq!(time_of_day("01:x:03"), None);
    assert_eq!(time_of_day(""), None);
}

#[test]
fn dates() {
    let date = |s: &str| {
        parse_date(&split_words(&chars_of(s)))
            .map(|(c, n)| (c.year, c.month, c.day, c.hour, c.minute, c.second, n))
    };
    assert_eq!(date("Mar 09 16:00:01.123 2024"), Some((2024, 3, 9, 16, 0, 1, 123_000_000)));
    assert_eq!(date("M\u{c4}RZ 9 16:00:01 2024"), Some((2024, 3, 9, 16, 0, 1, 0)));
    assert_eq!(date("Mar 09 04:00:01.123 PM 2024"), Some((2024, 3, 9, 16, 0, 1, 123_000_000)));
    assert_eq!(date("Mar 09 12:00:01 am 2024"), Some((2024, 3, 9, 0, 0, 1, 0)));
    assert_eq!(date("Mar 09 12:00:01 pm 2024"), Some((2024, 3, 9, 12, 0, 1, 0)));
    assert_eq!(date("Mar 09 11:00:01 AM 2024"), Some((2024, 3, 9, 11, 0, 1, 0)));
    // four words only: the last is the year
    assert_eq!(date("Mar 09 11:00:01 AM"), None);
    assert_eq!(date("Mar 09 11:00:01"), None);
    assert_eq!(date("Mar x 11:00:01 2024"), None);
    assert_eq!(date("Xyz 1 11:00:01 2024"), None);
    assert_eq!(date("3 1 11:00:01 -5"), Some((-5, 3, 1, 11, 0, 1, 0)));
}

#[test]
fn ids() {
    let id = |s: &str, base: Base| parse_can_id(&chars_of(s), base).ok();
    assert_eq!(id("1A3", Base::Hex), Some((0x1a3, false)));
    assert_eq!(id("18FEF1AAx", Base::Hex), Some((0x18fe_f1aa, true)));
    assert_eq!(id("18fef1aaX", Base::Hex), Some((0x18fe_f1aa, true)));
    assert_eq!(id("419", Base::Dec), Some((419, false)));
    assert_eq!(id("419x", Base::Dec), Some((419, true)));
    assert_eq!(id("1A3", Base::Dec), None);
    assert_eq!(id("x", Base::Hex), None);
    assert_eq!(id("", Base::Hex), None);
    assert_eq!(id("100000000", Base::Hex), None);
    let err = parse_can_id(&chars_of("wheel"), Base::Hex).unwrap_err();
    assert_eq!(err.message(), "parse error: invalid CAN id");
}

#[test]
fn data_bytes() {
    let words = split_words(&chars_of("11 2 fF 100 33"));
    assert_eq!(parse_data_tokens(&words, 0, 5, Base::Hex), [0x11, 2, 0xff]);
    assert_eq!(parse_data_tokens(&words, 0, 2, Base::Hex), [0x11, 2]);
    assert_eq!(parse_data_tokens(&words, 4, 9, Base::Hex), [0x33]);
    assert_eq!(parse_data_tokens(&words, 5, 9, Base::Hex), []);
    assert_eq!(parse_data_tokens(&words, 0, 5, Base::Dec), [11, 2]);
}

#[test]
fn a_classic_line() {
    let m = one("   0.015991 2  18FEF1AAx       Tx   d 3 11 22 33  Length = 0\n").unwrap();
    assert_eq!(m.timestamp.text, "0.015991");
    assert_eq!((m.timestamp.start_seconds, m.timestamp.start_nanos), (0, 0));
    assert_eq!(m.arbitration_id, 0x18fe_f1aa);
    assert!(m.is_extended_id && !m.is_rx);
    assert!(!m.is_remote_frame && !m.is_error_frame && !m.is_fd);
    assert_eq!(m.dlc, 3);
    assert_eq!(m.data, [0x11, 0x22, 0x33]);
    assert_eq!(m.channel, 1);
    // a code above 8 stands for more bytes, of which a classic frame has 8
    let m = one("1 1 100 Rx d 9 1 2 3 4 5 6 7 8 9\n").unwrap();
    assert_eq!(m.dlc, 12);
    assert_eq!(m.data, [1, 2, 3, 4, 5, 6, 7, 8]);
    assert_eq!(m.channel, 0);
    assert!(m.is_rx);
    let m = one("1 0 100 rX D x\n").unwrap();
    assert_eq!((m.dlc, m.channel, m.is_rx), (0, 0, true));
    assert!(m.data.is_empty());
}

#[test]
fn a_line_for_a_remote_frame() {
    let m = one("1.5 1 300 Rx r 8\n").unwrap();
    assert!(m.is_remote_frame);
    assert_eq!((m.dlc, m.arbitration_id), (8, 0x300));
    assert!(m.data.is_empty());
    assert_eq!(one("1.5 1 300 Rx r what\n").unwrap().dlc, 0);
}

#[test]
fn a_line_for_an_error_frame() {
    let m = one("2.0 3  ErrorFrame\n").unwrap();
    assert!(m.is_error_frame && m.is_rx && !m.is_fd);
    assert_eq!(m.channel, 2);
    let m = one("2.0 CANFD 3 Tx ErrorFrame Not Acknowledge error\n").unwrap();
    assert!(m.is_error_frame && !m.is_rx && m.is_fd);
    assert_eq!(m.channel, 2);
}

#[test]
fn a_can_fd_line() {
    let m = one("30.005 CANFD 2 Rx 50005x 1 0 9 12 01 02 03 04 05 06 07 08 09 0a 0b 0c 0 0 3000\n")
        .unwrap();
    assert!(m.is_fd && m.is_rx && m.is_extended_id && !m.is_remote_frame);
    assert!(m.bitrate_switch && !m.error_state_indicator);
    assert_eq!(m.arbitration_id, 0x50005);
    assert_eq!(m.dlc, 12);
    assert_eq!(m.data, (1..=12).collect::<Vec<u8>>());
    assert_eq!(m.channel, 1);
    // with the name of the message
    let m = one("30.5 canfd 1 Tx 100 Wheel 0 1 8 2 aa bb\n").unwrap();
    assert!(!m.is_rx && !m.bitrate_switch && m.error_state_indicator);
    assert_eq!(m.data, [0xaa, 0xbb]);
    assert_eq!(m.dlc, 2);
    // without data it is a remote frame, and the code is the length
    let m = one("30.5 CANFD 1 Tx 100 0 0 a 0\n").unwrap();
    assert!(m.is_remote_frame);
    assert_eq!(m.dlc, 10);
    // the count is decimal and wraps in the length
    let m = one("30.5 CANFD 1 Tx 100 0 0 a 257 1\n").unwrap();
    assert_eq!((m.dlc, m.data.len()), (1, 1));
}

#[test]
fn lines_without_a_message() {
    for line in [
        "\n",
        "// comment\n",
        "Begin Triggerblock Sat Mar 09 16:00:00.123 2024\n",
        "End TriggerBlock\n",
        "0.000000 Start of measurement\n",
        "0.0\n",
        "word 1 100 Rx d 1 1\n",
        "0.0 1\n",
        "0.0 1 100 Rx d\n",
        "0.0 1 100 Rx q 1 1\n",
        "0.0 65536 100 Rx d 1 1\n",
        "0.0 LIN 1 2 3 4\n",
        "0.0 CANFD 1 Rx\n",
        "0.0 CANFD 65536 Rx 100 0 0 0 0\n",
    ] {
        assert!(one(line).is_none(), "{line:?}");
    }
}

#[test]
fn lines_with_a_wrong_id_are_errors() {
    for line in ["0.0 1 wheel Rx d 1 1\n", "0.0 CANFD 1 Rx wheel 0 0 0 0\n", "0.0 CANFD 1 Rx wheel\n"] {
        let mut reader = AscReader::open().unwrap();
        match reader.try_next_message(Some(line)) {
            Some(Err(e)) => assert_eq!(e.message(), "parse error: invalid CAN id"),
            _ => panic!("{line:?}"),
        }
    }
}

#[test]
fn lines_that_cannot_be_read() {
    let mut reader = AscReader::open_with_options("hex", false).unwrap();
    for line in [
        "0.0 CANFD 1 Rx 100\n",
        "0.0 CANFD 1 Rx 100 0 0 8\n",
        "0.0 CANFD 1 Rx 100 Wheel 0 0 8\n",
        "0.0 CANFD 1 Rx 100 0 0 8 9223372036854775808\n",
        "date Sat Mar 09 4294967295:00:00 PM 2024\n",
        "Begin Triggerblock Sat Mar 09 4294967284:00:00 PM 2024\n",
    ] {
        assert!(reader.try_next_message(Some(line)).is_none(), "{line:?}");
        assert!(reader.next(Some(line)).is_none(), "{line:?}");
    }
    // in relative time dates are not looked at
    let mut reader = AscReader::open().unwrap();
    let line = "date Sat Mar 09 4294967295:00:00 PM 2024\n";
    assert!(matches!(reader.try_next_message(Some(line)), Some(Ok(AscNext::Nothing))));
}

#[test]
fn a_log_with_its_header() {
    let text = "date Sat Mar 09 04:00:00.123 PM 2024\n\
                base dec  timestamps absolute\n\
                // made by hand\n\
                \n\
                internal events logged\n\
                Begin Triggerblock Sat Mar 09 04:00:00.123 PM 2024\n\
                0.000000 Start of measurement\n\
                0.100000 1  100             Rx   d 8 10 20 30 40 50 60 70 80\n\
                0.200000 1  255x            Tx   d 1 255\n\
                End TriggerBlock\n";
    let mut reader = AscReader::open().unwrap();
    let all = lines_of(&mut reader, text);
    assert_eq!(all.len(), 2);
    assert_eq!(all[0].arbitration_id, 100);
    assert_eq!(all[0].data, [10, 20, 30, 40, 50, 60, 70, 80]);
    assert_eq!(all[1].arbitration_id, 255);
    assert_eq!(all[1].data, [255]);
    assert_eq!((all[0].timestamp.start_seconds, all[0].timestamp.start_nanos), (0, 0));
}

#[test]
fn the_header_ends_with_the_first_other_line() {
    let text = "base dec\n0.1 1 100 Rx d 1 10\nbase hex\n0.2 1 100 Rx d 1 10\n";
    let mut reader = AscReader::open().unwrap();
    let all = lines_of(&mut reader, text);
    assert_eq!(all.len(), 2);
    assert_eq!((all[0].arbitration_id, all[0].data[0]), (100, 10));
    assert_eq!((all[1].arbitration_id, all[1].data[0]), (100, 10));
}

#[test]
fn absolute_times_count_from_the_dates_in_local_time() {
    let local = |h: u32, nanos: u32| {
        let naive = chrono::NaiveDate::from_ymd_opt(2024, 7, 9)
            .unwrap()
            .and_hms_nano_opt(h, 30, 1, nanos)
            .unwrap();
        chrono::Local.from_local_datetime(&naive).single().unwrap()
    };
    let header = "date Tue Jul 09 13:30:01.250 2024\ninternal events logged\n1.5 1 100 Rx d 0\n";
    let mut reader = AscReader::open_with_options("hex", false).unwrap();
    let all = lines_of(&mut reader, header);
    let t = &all[0].timestamp;
    assert_eq!(t.text, "1.5");
    assert_eq!(t.start_seconds, local(13, 0).timestamp());
    assert_eq!(t.start_nanos, 250_000_000);
    let block = "Begin Triggerblock Tue Jul 09 08:30:01.5 pm 2024\n1.5 1 100 Rx d 0\n";
    let all = lines_of(&mut reader, block);
    assert_eq!(all[0].timestamp.start_seconds, local(20, 0).timestamp());
    assert_eq!(all[0].timestamp.start_nanos, 500_000_000);
    // a date that does not exist changes nothing
    let block = "Begin Triggerblock Tue Feb 30 08:30:01.5 pm 2024\n1.5 1 100 Rx d 0\n";
    let all = lines_of(&mut reader, block);
    assert_eq!(all[0].timestamp.start_seconds, local(20, 0).timestamp());
    // nor does a block without a date
    let all = lines_of(&mut reader, "Begin Triggerblock\n1.5 1 100 Rx d 0\n");
    assert_eq!(all[0].timestamp.start_seconds, local(20, 0).timestamp());
}

#[test]
fn a_line_handled_with_a_given_moment() {
    let mut reader = AscReader::open_with_options("hex", false).unwrap();
    let line = chars_of("Begin Triggerblock Sat Mar 09 16:00:00.123 2024");
    let lower = chars_of("begin triggerblock sat mar 09 16:00:00.123 2024");
    let res = reader.take_line(&line, &lower, Some((1_710_000_000, 123_000_000)));
    assert!(matches!(res, Ok(AscNext::Nothing)));
    match reader.next_message(Some("0.5 1 100 Rx d 0\n")) {
        Ok(AscNext::Message(m)) => {
            assert_eq!(m.timestamp.start_seconds, 1_710_000_000);
            assert_eq!(m.timestamp.start_nanos, 123_000_000);
        }
        _ => panic!("no message"),
    }
}

#[test]
fn an_error_stops_the_reader_until_it_is_taken() {
    let mut reader = AscReader::open().unwrap();
    assert!(!reader.has_failed());
    assert!(matches!(reader.next(Some("0.0 1 wheel Rx d 1 1\n")), Some(AscNext::End)));
    assert!(reader.has_failed());
    assert!(matches!(reader.next(Some("0.0 1 100 Rx d 1 1\n")), Some(AscNext::End)));
    assert!(matches!(reader.take_error(), Some(BlfError::Parse(text)) if text == "invalid CAN id"));
    assert!(reader.take_error().is_none());
    assert!(matches!(reader.next(Some("0.0 1 100 Rx d 1 1\n")), Some(AscNext::Message(_))));
    assert!(matches!(reader.next(None), Some(AscNext::End)));
    reader.fail(BlfError::parse("from outside"));
    assert!(reader.has_failed());
}
