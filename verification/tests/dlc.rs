use blf_asc::dlc::{dlc2len, len2dlc};

#[test]
fn lengths_of_codes() {
    let expected: [u8; 16] = [0, 1, 2, 3, 4, 5, 6, 7, 8, 12, 16, 20, 24, 32, 48, 64];
    for (code, len) in expected.iter().enumerate() {
        assert_eq!(dlc2len(code as u8), *len);
        assert_eq!(len2dlc(*len), code as u8);
    }
    assert_eq!(dlc2len(16), 64);
    assert_eq!(dlc2len(255), 64);
}

#[test]
fn codes_of_lengths_between() {
    assert_eq!(len2dlc(9), 9);
    assert_eq!(len2dlc(13), 10);
    assert_eq!(len2dlc(33), 14);
    assert_eq!(len2dlc(49), 15);
    assert_eq!(len2dlc(65), 15);
    assert_eq!(len2dlc(255), 15);
}
