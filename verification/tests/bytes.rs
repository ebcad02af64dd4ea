use blf_asc::bytes::{push_u16, push_u32, push_u64, push_zeros, read_u16_le, read_u32_le, read_u64_le};

#[test]
fn little_endian_integers_are_read() {
    let data = [1u8, 2, 3, 4, 5, 6, 7, 8, 9];
    assert_eq!(read_u16_le(&data, 0).unwrap(), 0x0201);
    assert_eq!(read_u16_le(&data, 7).unwrap(), 0x0908);
    assert_eq!(read_u32_le(&data, 1).unwrap(), 0x0504_0302);
    assert_eq!(read_u64_le(&data, 1).unwrap(), 0x0908_0706_0504_0302);
}

#[test]
fn integers_beyond_the_end_are_refused() {
    let data = [1u8, 2, 3];
    assert_eq!(
        read_u16_le(&data, 2).unwrap_err().message(),
        "parse error: buffer too small for u16"
    );
    assert_eq!(
        read_u32_le(&data, 0).unwrap_err().message(),
        "parse error: buffer too small for u32"
    );
    assert_eq!(
        read_u64_le(&data, 0).unwrap_err().message(),
        "parse error: buffer too small for u64"
    );
    assert!(read_u16_le(&data, usize::MAX).is_err());
    assert!(read_u16_le(&[], 0).is_err());
}

#[test]
fn written_integers_are_read_back() {
    let mut buf: Vec<u8> = vec![0xaa];
    push_u16(&mut buf, 0xbeef);
    push_u32(&mut buf, 0xdead_beef);
    push_u64(&mut buf, 0x0123_4567_89ab_cdef);
    push_zeros(&mut buf, 3);
    assert_eq!(buf.len(), 1 + 2 + 4 + 8 + 3);
    assert_eq!(read_u16_le(&buf, 1).unwrap(), 0xbeef);
    assert_eq!(read_u32_le(&buf, 3).unwrap(), 0xdead_beef);
    assert_eq!(read_u64_le(&buf, 7).unwrap(), 0x0123_4567_89ab_cdef);
    assert_eq!(&buf[15..], &[0, 0, 0]);
}
