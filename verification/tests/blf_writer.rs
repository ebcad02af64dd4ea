use blf_asc::blf::format::BlfTime;
use blf_asc::blf::reader::{BlfNext, BlfOpen};
use blf_asc::blf::writer::container;
use blf_asc::{BlfReader, BlfWriter, Message, Timestamp};

fn time(ts: f64) -> Timestamp {
    let seconds = ts.floor() as i64;
    Timestamp {
        bits: ts.to_bits(),
        seconds,
        millis: (ts * 1000.0).round() as i64,
        nanos: ((ts - seconds as f64) * 1e9).round() as u32,
    }
}

fn message(ts: f64) -> Message<Timestamp> {
    Message {
        arbitration_id: 0x123,
        dlc: 3,
        data: vec![0x11, 0x22, 0x33],
        ..Message::empty_at(time(ts))
    }
}

fn read_all(bytes: &[u8]) -> Vec<Message<BlfTime>> {
    let mut reader = match BlfReader::open(bytes, true) {
        Ok(BlfOpen::Ready(reader)) => reader,
        _ => panic!("not opened"),
    };
    let mut all = Vec::new();
    loop {
        match reader.next_message() {
            Ok(BlfNext::Message(m)) => all.push(m),
            Ok(BlfNext::End) => return all,
            Ok(BlfNext::NeedInput(n)) => panic!("{n} bytes missing"),
            Err(e) => panic!("{}", e.message()),
        }
    }
}

fn write_all(level: i32, list: &[(Message<Timestamp>, u64)]) -> Vec<u8> {
    let (mut writer, mut file) = BlfWriter::create_with_level(level);
    for (msg, offset) in list {
        assert!(writer.can_receive(msg));
        let start = writer.start_timestamp().unwrap_or(msg.timestamp);
        file.extend(writer.on_message_received(msg, start, *offset).unwrap());
        writer.mark_stored();
    }
    assert!(writer.can_flush());
    file.extend(writer.finish().unwrap().unwrap());
    writer.mark_stored();
    let header = writer.header(file.len() as u64);
    file[..144].copy_from_slice(&header);
    writer.complete();
    assert!(writer.finish().unwrap().is_none());
    file
}

fn same(a: &Message<Timestamp>, b: &Message<BlfTime>) -> bool {
    a.arbitration_id == b.arbitration_id
        && a.is_extended_id == b.is_extended_id
        && a.is_remote_frame == b.is_remote_frame
        && a.is_rx == b.is_rx
        && a.is_error_frame == b.is_error_frame
        && a.is_fd == b.is_fd
        && a.bitrate_switch == b.bitrate_switch
        && a.error_state_indicator == b.error_state_indicator
        && a.dlc == b.dlc
        && a.data == b.data
        && a.channel == b.channel
}

#[test]
fn the_header_of_an_empty_log() {
    let (writer, header) = BlfWriter::create();
    assert_eq!(header.len(), 144);
    assert_eq!(&header[..16], b"LOGG\x90\0\0\0\x05\0\0\0\x02\x06\x08\x01");
    assert_eq!(&header[16..24], &144u64.to_le_bytes());
    assert_eq!(&header[24..32], &144u64.to_le_bytes());
    assert_eq!(&header[32..], &[0; 112]);
    assert!(writer.start_timestamp().is_none());
}

#[test]
fn the_bytes_of_an_uncompressed_log() {
    let (mut writer, _) = BlfWriter::create_with_level(0);
    let msg = message(1_710_000_000.123);
    let bytes = writer.on_message_received(&msg, time(1_710_000_000.123), 7).unwrap();
    assert!(bytes.is_empty());
    let bytes = writer.flush().unwrap();
    let mut expected = b"LOBJ\x10\0\x01\0".to_vec();
    expected.extend_from_slice(&80u32.to_le_bytes());
    expected.extend_from_slice(&10u32.to_le_bytes());
    expected.extend_from_slice(&[0; 8]);
    expected.extend_from_slice(&48u32.to_le_bytes());
    expected.extend_from_slice(&[0; 4]);
    expected.extend_from_slice(b"LOBJ\x20\0\x01\0");
    expected.extend_from_slice(&48u32.to_le_bytes());
    expected.extend_from_slice(&1u32.to_le_bytes());
    expected.extend_from_slice(&2u32.to_le_bytes());
    expected.extend_from_slice(&[0; 4]);
    expected.extend_from_slice(&7u64.to_le_bytes());
    expected.extend_from_slice(&[1, 0, 0, 3, 0x23, 1, 0, 0, 0x11, 0x22, 0x33, 0, 0, 0, 0, 0]);
    assert_eq!(bytes, expected);
    // only what is stored counts
    assert_eq!(&writer.header(224)[24..32], &144u64.to_le_bytes());
    writer.mark_stored();
    assert!(writer.flush().unwrap().is_empty());
    writer.mark_stored();
    let header = writer.header(224);
    assert_eq!(&header[16..24], &224u64.to_le_bytes());
    assert_eq!(&header[24..32], &(144u64 + 80).to_le_bytes());
    assert_eq!(&header[32..36], &1u32.to_le_bytes());
    let stamp: Vec<u8> =
        [2024u16, 3, 6, 9, 16, 0, 0, 123].iter().flat_map(|n| n.to_le_bytes()).collect();
    assert_eq!(&header[40..56], &stamp[..]);
    assert_eq!(&header[56..72], &stamp[..]);
}

#[test]
fn a_container_around_given_bytes() {
    let bytes = container(2, &[1, 2, 3], 77);
    let mut expected = b"LOBJ\x10\0\x01\0".to_vec();
    expected.extend_from_slice(&35u32.to_le_bytes());
    expected.extend_from_slice(&10u32.to_le_bytes());
    expected.extend_from_slice(&[2, 0, 0, 0, 0, 0, 0, 0]);
    expected.extend_from_slice(&77u32.to_le_bytes());
    expected.extend_from_slice(&[0; 4]);
    expected.extend_from_slice(&[1, 2, 3, 0, 0, 0]);
    assert_eq!(bytes, expected);
}

#[test]
fn every_kind_of_frame_is_read_back() {
    let mut list = vec![
        (message(1_710_000_000.0), 0),
        (
            Message {
                arbitration_id: 0x1fff_ffff,
                is_extended_id: true,
                is_remote_frame: true,
                is_rx: false,
                dlc: 8,
                data: vec![0; 8],
                channel: 65_534,
                ..message(1_710_000_000.5)
            },
            500_000_000,
        ),
        (
            Message {
                is_fd: true,
                bitrate_switch: true,
                error_state_indicator: true,
                dlc: 64,
                data: (0..64).collect(),
                ..message(1_710_000_001.0)
            },
            1_000_000_000,
        ),
        (
            Message { is_error_frame: true, dlc: 2, data: vec![5, 6], ..message(1_710_000_002.0) },
            u64::MAX,
        ),
    ];
    list.push((Message { is_fd: true, dlc: 12, data: vec![9; 5], ..message(1_710_000_003.0) }, 3));
    for level in [-1, 0, 1, 9, 10] {
        let file = write_all(level, &list);
        let all = read_all(&file);
        assert_eq!(all.len(), list.len());
        for ((msg, offset), read) in list.iter().zip(&all) {
            assert!(same(msg, read), "{read:?}");
            assert_eq!(read.timestamp.ticks, *offset);
            assert_eq!(read.timestamp.start_millis, 1_710_000_000_000);
        }
    }
}

#[test]
fn what_a_log_cannot_hold_is_not_read_back() {
    let list = vec![
        (Message { arbitration_id: 0x2000_0001, channel: 65_535, ..message(0.0) }, 0),
        (Message { dlc: 1, ..message(0.0) }, 0),
        (Message { dlc: 5, ..message(0.0) }, 0),
        (Message { is_error_frame: true, is_rx: false, dlc: 12, ..message(0.0) }, 0),
        (Message { is_fd: true, dlc: 10, ..message(0.0) }, 0),
    ];
    let all = read_all(&write_all(0, &list));
    assert_eq!(all[0].arbitration_id, 1);
    assert_eq!(all[0].channel, 65_534);
    assert_eq!(all[1].data, [0x11]);
    assert_eq!(all[2].data, [0x11, 0x22, 0x33, 0, 0]);
    assert_eq!(all[3].dlc, 9);
    assert_eq!(all[3].data, [0x11, 0x22, 0x33, 0, 0, 0, 0, 0]);
    assert!(all[3].is_rx);
    assert_eq!(all[4].dlc, 12);
    assert_eq!(all[4].data, [0x11, 0x22, 0x33]);
    // a start before 1990 is not recorded
    assert_eq!(all[0].timestamp.start_millis, 0);
}

#[test]
fn full_containers_are_written_as_they_fill() {
    let (mut writer, mut file) = BlfWriter::create_with_level(0);
    let msg = message(0.0);
    let mut sizes = Vec::new();
    for i in 0..6000u64 {
        let bytes = writer.on_message_received(&msg, msg.timestamp, i).unwrap();
        if !bytes.is_empty() {
            sizes.push((i, bytes.len()));
        }
        file.extend(bytes);
        writer.mark_stored();
    }
    // 2731 objects of 48 bytes are the first to reach 131072 bytes
    assert_eq!(sizes, [(2730, 131_104), (5461, 131_104)]);
    file.extend(writer.finish().unwrap().unwrap());
    writer.mark_stored();
    let header = writer.header(file.len() as u64);
    assert_eq!(&header[32..36], &6000u32.to_le_bytes());
    assert_eq!(&header[24..32], &(144u64 + 3 * 32 + 6000 * 48).to_le_bytes());
    let all = read_all(&file);
    assert_eq!(all.len(), 6000);
    assert!(all.iter().enumerate().all(|(i, m)| m.timestamp.ticks == i as u64));
}

#[test]
fn compression_makes_logs_smaller_and_keeps_them() {
    let list: Vec<(Message<Timestamp>, u64)> = (0..4000).map(|i| (message(0.0), i)).collect();
    let plain = write_all(0, &list);
    let packed = write_all(-1, &list);
    assert!(packed.len() < plain.len() / 4);
    assert_eq!(read_all(&packed).len(), 4000);
    let by_default = write_all(6, &list);
    assert_eq!(by_default, packed);
}

#[test]
fn levels_beyond_the_last_cannot_be_used() {
    for (level, usable) in [(i32::MIN, true), (10, true), (11, false), (i32::MAX, false)] {
        let (mut writer, _) = BlfWriter::create_with_level(level);
        let msg = message(0.0);
        assert!(writer.can_flush());
        assert!(writer.can_receive(&msg));
        assert!(writer.flush().unwrap().is_empty());
        writer.on_message_received(&msg, msg.timestamp, 0).unwrap();
        assert_eq!(writer.can_flush(), usable);
        // 2730 objects of 48 bytes leave 32 bytes of a container
        for _ in 1..2730 {
            assert!(writer.can_receive(&msg));
            writer.on_message_received(&msg, msg.timestamp, 0).unwrap();
        }
        assert_eq!(writer.can_receive(&msg), usable);
    }
}

#[test]
fn a_log_starts_with_its_first_message() {
    let (mut writer, _) = BlfWriter::create();
    let first = time(1_710_000_000.0);
    writer.on_message_received(&message(1_710_000_000.5), first, 0).unwrap();
    assert_eq!(writer.start_timestamp(), Some(first));
    writer.on_message_received(&message(1_710_000_001.5), time(5.0), 0).unwrap();
    assert_eq!(writer.start_timestamp(), Some(first));
}

#[test]
fn a_container_that_is_not_stored_does_not_count() {
    let (mut writer, _) = BlfWriter::create_with_level(0);
    let msg = message(0.0);
    writer.on_message_received(&msg, msg.timestamp, 0).unwrap();
    assert_eq!(writer.flush().unwrap().len(), 80);
    writer.on_message_received(&msg, msg.timestamp, 1).unwrap();
    writer.mark_stored();
    assert_eq!(&writer.header(144)[24..32], &144u64.to_le_bytes());
    assert_eq!(writer.flush().unwrap().len(), 80);
    writer.mark_stored();
    assert_eq!(&writer.header(224)[24..32], &224u64.to_le_bytes());
    assert_eq!(&writer.header(224)[32..36], &2u32.to_le_bytes());
}

#[test]
fn frames_come_back_as_their_kind_keeps_them() {
    let fd = Message {
        is_fd: true,
        is_rx: false,
        bitrate_switch: true,
        dlc: 13,
        data: (0..13).collect(),
        channel: 3,
        ..message(1_710_000_000.0)
    };
    let error = Message {
        is_error_frame: true,
        is_fd: true,
        is_remote_frame: true,
        is_rx: false,
        bitrate_switch: true,
        error_state_indicator: true,
        ..message(1_710_000_000.0)
    };
    for level in [-1, 0, 1, 9] {
        let list = [(message(1_710_000_000.0), 0), (fd.clone(), 5), (error.clone(), 6)];
        let all = read_all(&write_all(level, &list));
        assert_eq!(all.len(), 3);
        assert!(same(&list[0].0, &all[0]));
        // the length of a CAN FD frame is rounded up, its data is kept
        assert!(same(&Message { dlc: 16, ..fd.clone() }, &all[1]));
        // an error frame has no direction and no other flags
        assert!(same(&Message { is_error_frame: true, ..message(0.0) }, &all[2]));
    }
}
