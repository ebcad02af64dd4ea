use blf_asc::BlfError;

#[test]
fn errors_show_what_is_wrong() {
    assert_eq!(BlfError::parse("empty file").message(), "parse error: empty file");
    assert_eq!(BlfError::truncated().message(), "io error: failed to fill whole buffer");
    let err = std::io::Error::new(std::io::ErrorKind::Other, "broken pipe");
    assert_eq!(BlfError::from(err).message(), "io error: broken pipe");
}

#[test]
fn a_truncated_input_is_an_unexpected_end() {
    match BlfError::truncated() {
        BlfError::Io(e) => assert_eq!(e.kind(), std::io::ErrorKind::UnexpectedEof),
        BlfError::Parse(_) => panic!("not an input error"),
    }
}
