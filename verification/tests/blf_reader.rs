use blf_asc::blf::format::{BlfTime, TickUnit};
use blf_asc::blf::reader::{BlfNext, BlfOpen};
use blf_asc::{BlfError, BlfReader, Message};

fn file_header(start: [u16; 8], size: u32) -> Vec<u8> {
    let mut h = b"LOGG".to_vec();
    h.extend_from_slice(&size.to_le_bytes());
    h.resize(40, 0);
    for n in start {
        h.extend_from_slice(&n.to_le_bytes());
    }
    h.resize(size.max(72) as usize, 0);
    h
}

fn outer(obj_type: u32, data: &[u8]) -> Vec<u8> {
    let size = 16 + data.len() as u32;
    let mut o = b"LOBJ".to_vec();
    o.extend_from_slice(&16u16.to_le_bytes());
    o.extend_from_slice(&1u16.to_le_bytes());
    o.extend_from_slice(&size.to_le_bytes());
    o.extend_from_slice(&obj_type.to_le_bytes());
    o.extend_from_slice(data);
    o.resize(o.len() + size as usize % 4, 0);
    o
}

fn container(method: u16, data: &[u8]) -> Vec<u8> {
    let mut c = method.to_le_bytes().to_vec();
    c.resize(16, 0);
    c.extend_from_slice(data);
    outer(10, &c)
}

fn object(version: u16, obj_type: u32, flags: u32, ticks: u64, fields: &[u8]) -> Vec<u8> {
    let header: u16 = if version == 2 { 40 } else { 32 };
    let mut o = b"LOBJ".to_vec();
    o.extend_from_slice(&header.to_le_bytes());
    o.extend_from_slice(&version.to_le_bytes());
    o.extend_from_slice(&(header as u32 + fields.len() as u32).to_le_bytes());
    o.extend_from_slice(&obj_type.to_le_bytes());
    o.extend_from_slice(&flags.to_le_bytes());
    o.extend_from_slice(&[0; 4]);
    o.extend_from_slice(&ticks.to_le_bytes());
    o.resize(header as usize, 0);
    o.extend_from_slice(fields);
    o
}

fn can_fields(channel: u16, flags: u8, dlc: u8, id: u32, data: [u8; 8]) -> Vec<u8> {
    let mut f = channel.to_le_bytes().to_vec();
    f.push(flags);
    f.push(dlc);
    f.extend_from_slice(&id.to_le_bytes());
    f.extend_from_slice(&data);
    f
}

fn open(bytes: &[u8]) -> BlfReader {
    match BlfReader::open(bytes, true) {
        Ok(BlfOpen::Ready(reader)) => reader,
        Ok(BlfOpen::NeedInput(n)) => panic!("{n} bytes missing"),
        Err(e) => panic!("{}", e.message()),
    }
}

fn reader_of(pieces: &[Vec<u8>]) -> BlfReader {
    let mut bytes = file_header([0; 8], 144);
    for p in pieces {
        bytes.extend_from_slice(p);
    }
    open(&bytes)
}

fn messages(reader: &mut BlfReader) -> Vec<Message<BlfTime>> {
    let mut all = Vec::new();
    loop {
        match reader.next_message() {
            Ok(BlfNext::Message(m)) => all.push(m),
            Ok(BlfNext::End) => return all,
            Ok(BlfNext::NeedInput(n)) => panic!("{n} bytes missing"),
            Err(e) => panic!("{}", e.message()),
        }
    }
}

fn failure(pieces: &[Vec<u8>]) -> String {
    let mut reader = reader_of(pieces);
    loop {
        match reader.next_message() {
            Ok(BlfNext::Message(_)) => {}
            Ok(BlfNext::End) => return String::new(),
            Ok(BlfNext::NeedInput(n)) => panic!("{n} bytes missing"),
            Err(e) => return e.message(),
        }
    }
}

fn refusal(bytes: &[u8]) -> String {
    match BlfReader::open(bytes, true) {
        Ok(_) => String::new(),
        Err(e) => e.message(),
    }
}

#[test]
fn files_that_are_no_logs_are_refused() {
    assert_eq!(refusal(b""), "parse error: empty file");
    assert_eq!(refusal(b"LOGG"), "parse error: unexpected EOF");
    let mut wrong = file_header([0; 8], 144);
    wrong[3] = b'X';
    assert_eq!(refusal(&wrong), "parse error: unexpected file signature");
    assert_eq!(refusal(&file_header([0; 8], 71)), "parse error: invalid header size");
    let short = file_header([0; 8], 144);
    assert_eq!(refusal(&short[..143]), "io error: failed to fill whole buffer");
    assert_eq!(refusal(&file_header([0; 8], 72)), "");
}

#[test]
fn opening_asks_for_what_is_missing() {
    let header = file_header([0; 8], 144);
    assert!(matches!(BlfReader::open(&[], false), Ok(BlfOpen::NeedInput(72))));
    assert!(matches!(BlfReader::open(&header[..70], false), Ok(BlfOpen::NeedInput(2))));
    assert!(matches!(BlfReader::open(&header[..72], false), Ok(BlfOpen::NeedInput(72))));
    assert!(matches!(BlfReader::open(&header, false), Ok(BlfOpen::Ready(_))));
}

#[test]
fn a_classic_frame() {
    let fields = can_fields(2, 0x81, 3, 0x8000_0123, [1, 2, 3, 4, 5, 6, 7, 8]);
    let mut bytes = file_header([2024, 3, 6, 9, 16, 0, 0, 123], 144);
    bytes.extend_from_slice(&container(0, &object(1, 1, 2, 1_500_000, &fields)));
    let mut reader = open(&bytes);
    let all = messages(&mut reader);
    assert_eq!(all.len(), 1);
    let m = &all[0];
    assert_eq!(m.timestamp.start_millis, 1_710_000_000_123);
    assert_eq!(m.timestamp.ticks, 1_500_000);
    assert_eq!(m.timestamp.unit, TickUnit::Nanosecond);
    assert_eq!(m.arbitration_id, 0x123);
    assert!(m.is_extended_id);
    assert!(m.is_remote_frame);
    assert!(!m.is_rx);
    assert!(!m.is_error_frame && !m.is_fd && !m.bitrate_switch && !m.error_state_indicator);
    assert_eq!(m.dlc, 3);
    assert_eq!(m.data, [1, 2, 3]);
    assert_eq!(m.channel, 1);
}

#[test]
fn a_classic_frame_of_the_second_kind_and_header() {
    let fields = can_fields(0, 0, 12, 0x7ff, [1, 2, 3, 4, 5, 6, 7, 8]);
    let mut reader = reader_of(&[container(0, &object(2, 86, 1, 7, &fields))]);
    let all = messages(&mut reader);
    assert_eq!(all.len(), 1);
    assert_eq!(all[0].timestamp.unit, TickUnit::TenMicroseconds);
    assert_eq!(all[0].timestamp.ticks, 7);
    assert_eq!(all[0].timestamp.start_millis, 0);
    assert_eq!(all[0].dlc, 12);
    assert_eq!(all[0].data, [1, 2, 3, 4, 5, 6, 7, 8]);
    assert_eq!(all[0].channel, 0);
    assert!(all[0].is_rx);
}

#[test]
fn an_error_frame() {
    let mut fields = vec![0u8; 32];
    fields[0] = 3;
    fields[10] = 2;
    fields[16..20].copy_from_slice(&0x9fff_ffffu32.to_le_bytes());
    fields[24..32].copy_from_slice(&[9, 8, 7, 6, 5, 4, 3, 2]);
    let mut reader = reader_of(&[container(0, &object(1, 73, 2, 0, &fields))]);
    let all = messages(&mut reader);
    assert!(all[0].is_error_frame && all[0].is_rx && !all[0].is_remote_frame);
    assert_eq!(all[0].arbitration_id, 0x1fff_ffff);
    assert!(all[0].is_extended_id);
    assert_eq!(all[0].dlc, 2);
    assert_eq!(all[0].data, [9, 8]);
    assert_eq!(all[0].channel, 2);
}

#[test]
fn a_can_fd_frame() {
    let mut fields = vec![0u8; 84];
    fields[0] = 1;
    fields[2] = 0x01;
    fields[3] = 9;
    fields[4..8].copy_from_slice(&0x321u32.to_le_bytes());
    fields[13] = 0x07;
    fields[14] = 12;
    for i in 0..64 {
        fields[20 + i] = i as u8;
    }
    let mut reader = reader_of(&[container(0, &object(1, 100, 2, 0, &fields))]);
    let all = messages(&mut reader);
    assert!(all[0].is_fd && all[0].bitrate_switch && all[0].error_state_indicator);
    assert!(!all[0].is_rx && !all[0].is_remote_frame && !all[0].is_extended_id);
    assert_eq!(all[0].dlc, 12);
    assert_eq!(all[0].data, (0..12).collect::<Vec<u8>>());
    fields[13] = 0;
    fields[14] = 200;
    let mut reader = reader_of(&[container(0, &object(1, 100, 2, 0, &fields))]);
    let all = messages(&mut reader);
    assert!(!all[0].is_fd && !all[0].bitrate_switch && !all[0].error_state_indicator);
    assert_eq!(all[0].data.len(), 64);
}

#[test]
fn a_long_can_fd_frame() {
    let mut fields = vec![0u8; 40];
    fields[0] = 4;
    fields[1] = 9;
    fields[2] = 12;
    fields[4..8].copy_from_slice(&0x8000_0042u32.to_le_bytes());
    fields[12..16].copy_from_slice(&0x3010u32.to_le_bytes());
    fields[34] = 1;
    fields.extend_from_slice(&[1, 2, 3, 4, 5, 6, 7, 8]);
    let mut reader = reader_of(&[container(0, &object(1, 101, 2, 0, &fields))]);
    let all = messages(&mut reader);
    assert_eq!(all[0].arbitration_id, 0x42);
    assert!(all[0].is_extended_id && all[0].is_remote_frame && !all[0].is_rx);
    assert!(all[0].is_fd && all[0].bitrate_switch && !all[0].error_state_indicator);
    assert_eq!(all[0].dlc, 12);
    assert_eq!(all[0].channel, 3);
    // eight bytes are held, and twelve are valid
    assert_eq!(all[0].data, [1, 2, 3, 4, 5, 6, 7, 8, 0, 0, 0, 0]);
    // the data ends where the extended data starts
    fields[35] = 32 + 40 + 3;
    let mut reader = reader_of(&[container(0, &object(1, 101, 2, 0, &fields))]);
    assert_eq!(messages(&mut reader)[0].data, [1, 2, 3, 0, 0, 0, 0, 0, 0, 0, 0, 0]);
    // which may even be before the data
    fields[35] = 10;
    let mut reader = reader_of(&[container(0, &object(1, 101, 2, 0, &fields))]);
    assert_eq!(messages(&mut reader)[0].data, [0; 12]);
}

#[test]
fn objects_that_hold_no_message_are_passed_over() {
    let fields = can_fields(1, 0, 1, 5, [42, 0, 0, 0, 0, 0, 0, 0]);
    let mut stream = object(1, 999, 2, 0, &[0; 8]);
    stream.extend_from_slice(&object(7, 1, 2, 0, &fields));
    stream.extend_from_slice(&[0; 3]);
    stream.extend_from_slice(&object(1, 1, 2, 0, &fields));
    let mut reader = reader_of(&[
        outer(3, &[1, 2, 3, 4, 5]),
        container(9, &stream),
        container(0, &stream),
    ]);
    let all = messages(&mut reader);
    assert_eq!(all.len(), 1);
    assert_eq!(all[0].data, [42]);
}

#[test]
fn an_object_may_reach_over_containers() {
    let mut stream = Vec::new();
    for i in 0..5u8 {
        let fields = can_fields(1, 0, 1, i as u32, [i, 0, 0, 0, 0, 0, 0, 0]);
        stream.extend_from_slice(&object(1, 1, 2, i as u64, &fields));
    }
    for cut in 1..40 {
        let pieces: Vec<Vec<u8>> = stream.chunks(cut).map(|c| container(0, c)).collect();
        let mut reader = reader_of(&pieces);
        let ids: Vec<u32> = messages(&mut reader).iter().map(|m| m.arbitration_id).collect();
        assert_eq!(ids, [0, 1, 2, 3, 4], "cut every {cut} bytes");
    }
}

#[test]
fn bytes_may_come_in_any_pieces() {
    let mut bytes = file_header([0; 8], 144);
    for i in 0..3u8 {
        let fields = can_fields(1, 0, 1, i as u32, [i, 0, 0, 0, 0, 0, 0, 0]);
        bytes.extend_from_slice(&container(0, &object(1, 1, 2, 0, &fields)));
    }
    let mut fed = 144;
    let mut reader = match BlfReader::open(&bytes[..fed], false) {
        Ok(BlfOpen::Ready(reader)) => reader,
        _ => panic!("not opened"),
    };
    let mut ids = Vec::new();
    loop {
        match reader.next_message() {
            Ok(BlfNext::Message(m)) => ids.push(m.arbitration_id),
            Ok(BlfNext::End) => break,
            Ok(BlfNext::NeedInput(n)) => {
                assert!(n > 0);
                if fed == bytes.len() {
                    reader.end_of_input();
                } else {
                    reader.feed(&bytes[fed..fed + 1]);
                    fed += 1;
                }
            }
            Err(e) => panic!("{}", e.message()),
        }
    }
    assert_eq!(ids, [0, 1, 2]);
}

#[test]
fn malformed_outer_objects() {
    assert_eq!(failure(&[vec![1, 2, 3]]), "parse error: unexpected EOF");
    assert_eq!(failure(&[vec![0; 16]]), "parse error: unexpected object signature");
    let mut small = outer(10, &[]);
    small[8] = 15;
    assert_eq!(failure(&[small]), "parse error: invalid object size");
    assert_eq!(failure(&[outer(10, &[0; 15])]), "parse error: container header too small");
    let whole = container(0, &[0; 10]);
    assert_eq!(
        failure(&[whole[..whole.len() - 1].to_vec()]),
        "io error: failed to fill whole buffer"
    );
    assert!(failure(&[container(2, b"this is no zlib stream")]).starts_with("io error: "));
}

#[test]
fn malformed_inner_objects() {
    assert_eq!(failure(&[container(0, &[7; 8])]), "parse error: could not find next object");
    assert_eq!(
        failure(&[container(0, &object(1, 1, 2, 0, &[0; 15]))]),
        "parse error: CAN message too small"
    );
    assert_eq!(
        failure(&[container(0, &object(1, 73, 2, 0, &[0; 31]))]),
        "parse error: CAN error frame too small"
    );
    assert_eq!(
        failure(&[container(0, &object(1, 100, 2, 0, &[0; 83]))]),
        "parse error: CAN FD message too small"
    );
    assert_eq!(
        failure(&[container(0, &object(1, 101, 2, 0, &[0; 39]))]),
        "parse error: CAN FD 64 message too small"
    );
    let mut nothing = object(1, 999, 2, 0, &[0; 8]);
    nothing[8] = 0;
    assert_eq!(failure(&[container(0, &nothing)]), "parse error: object of size zero");
}

#[test]
fn an_incomplete_end_is_no_error() {
    assert_eq!(failure(&[container(0, &[7; 7])]), "");
    let whole = object(1, 1, 2, 0, &[0; 16]);
    for n in 0..whole.len() {
        assert_eq!(failure(&[container(0, &whole[..n])]), "");
    }
}

#[test]
fn an_error_stops_the_iteration_until_it_is_taken() {
    let good = object(1, 1, 2, 0, &can_fields(1, 0, 0, 1, [0; 8]));
    let mut reader = reader_of(&[
        container(0, &good),
        container(0, &[7; 8]),
        container(0, &good),
    ]);
    assert!(matches!(reader.next(), BlfNext::Message(_)));
    assert!(matches!(reader.next(), BlfNext::End));
    assert!(matches!(reader.next(), BlfNext::End));
    let err = reader.take_error();
    assert!(matches!(err, Some(BlfError::Parse(text)) if text == "could not find next object"));
    assert!(reader.take_error().is_none());
    assert!(matches!(reader.next(), BlfNext::Message(_)));
    assert!(matches!(reader.next(), BlfNext::End));
    assert!(reader.take_error().is_none());
    reader.fail(BlfError::parse("from outside"));
    assert!(matches!(reader.next(), BlfNext::End));
    assert!(matches!(reader.take_error(), Some(BlfError::Parse(text)) if text == "from outside"));
}

#[test]
fn the_error_that_stopped_the_reader_is_taken() {
    let cut = outer(10, &[0; 40]);
    let mut reader = reader_of(&[cut[..50].to_vec()]);
    assert!(matches!(reader.next(), BlfNext::End));
    match reader.take_error() {
        Some(BlfError::Io(e)) => assert_eq!(e.kind(), std::io::ErrorKind::UnexpectedEof),
        _ => panic!("no input error"),
    }
    let mut reader = reader_of(&[container(2, &[0xff; 8])]);
    assert!(matches!(reader.next(), BlfNext::End));
    match reader.take_error() {
        Some(BlfError::Io(e)) => assert_eq!(e.to_string(), "corrupt deflate stream"),
        _ => panic!("no input error"),
    }
    reader.fail(BlfError::from(std::io::Error::new(std::io::ErrorKind::Other, "unplugged")));
    match reader.take_error() {
        Some(BlfError::Io(e)) => assert_eq!(e.to_string(), "unplugged"),
        _ => panic!("no input error"),
    }
    assert!(reader.take_error().is_none());
}

#[test]
fn other_objects_are_skipped_without_effect() {
    let good = object(1, 1, 2, 0, &can_fields(1, 0, 0, 1, [0; 8]));
    let plain = container(0, &good);
    for other in [outer(65, &[1, 2, 3]), container(1, &good), container(9, &[])] {
        let mut reader = reader_of(&[other.clone(), plain.clone(), other]);
        assert_eq!(messages(&mut reader).len(), 1);
    }
}

#[test]
fn where_the_stream_is_cut_into_containers_does_not_matter() {
    let mut stream = object(1, 1, 2, 7, &can_fields(1, 0, 1, 1, [9; 8]));
    stream.extend(object(2, 100, 1, 8, &[0; 84]));
    stream.extend(object(1, 5, 2, 9, &[3; 12]));
    stream.extend(object(1, 86, 2, 10, &can_fields(2, 1, 2, 3, [8; 8])));
    for cut in 0..=stream.len() {
        let pieces = [container(0, &stream[..cut]), container(0, &stream[cut..])];
        let ticks: Vec<u64> =
            messages(&mut reader_of(&pieces)).iter().map(|m| m.timestamp.ticks).collect();
        assert_eq!(ticks, [7, 8, 10], "{cut}");
    }
}
