use blf_asc::{Message, Timestamp};

#[test]
fn data_and_id_in_hexadecimal() {
    let msg = Message {
        arbitration_id: 0x123,
        data: vec![0x11, 0x22, 0x33],
        ..Message::<u8>::default()
    };
    assert_eq!(msg.data_hex(), "11 22 33");
    assert_eq!(msg.arbitration_id_hex(), "123");
    let msg = Message {
        arbitration_id: 0x18fe_f1ab,
        data: vec![0x0a],
        ..msg
    };
    assert_eq!(msg.data_hex(), "0A");
    assert_eq!(msg.arbitration_id_hex(), "18FEF1AB");
}

#[test]
fn the_default_message_is_an_empty_received_frame() {
    let msg = Message::<u64>::default();
    assert_eq!(msg.timestamp, 0);
    assert_eq!(msg.arbitration_id, 0);
    assert!(!msg.is_extended_id);
    assert!(!msg.is_remote_frame);
    assert!(msg.is_rx);
    assert!(!msg.is_error_frame);
    assert!(!msg.is_fd);
    assert!(!msg.bitrate_switch);
    assert!(!msg.error_state_indicator);
    assert_eq!(msg.dlc, 0);
    assert!(msg.data.is_empty());
    assert_eq!(msg.channel, 0);
    assert_eq!(msg.data_hex(), "");
    assert_eq!(msg.arbitration_id_hex(), "0");
}

#[test]
fn both_zeros_are_zero() {
    let zero = Timestamp { bits: 0.0f64.to_bits(), seconds: 0, millis: 0, nanos: 0 };
    let minus = Timestamp { bits: (-0.0f64).to_bits(), ..zero };
    let small = Timestamp { bits: f64::MIN_POSITIVE.to_bits(), ..zero };
    assert!(zero.is_zero());
    assert!(minus.is_zero());
    assert!(!small.is_zero());
}
