use rns::web::stream::{MemoryStream, StreamError};

#[test]
fn lines_end_at_line_feed_with_optional_carriage_return() {
    let mut s = MemoryStream::new(Vec::from("a\r\nb\n\r\n\rc\r\r\nlast".as_bytes()));
    assert_eq!(s.read_line(), Ok(Some("a".to_string())));
    assert_eq!(s.read_line(), Ok(Some("b".to_string())));
    assert_eq!(s.read_line(), Ok(Some("".to_string())));
    assert_eq!(s.read_line(), Ok(Some("\rc\r".to_string())));
    assert_eq!(s.unread(), "last".as_bytes());
    assert_eq!(s.read_line(), Ok(Some("last".to_string())));
    assert_eq!(s.read_line(), Ok(None));
    assert_eq!(s.read_line(), Ok(None));
}

#[test]
fn unterminated_last_line_keeps_its_carriage_return() {
    let mut s = MemoryStream::new(Vec::from("tail\r".as_bytes()));
    assert_eq!(s.read_line(), Ok(Some("tail\r".to_string())));
    assert_eq!(s.read_line(), Ok(None));
}

#[test]
fn lines_are_decoded_as_utf8() {
    let mut s = MemoryStream::new(vec![0xC3, 0xA9, 0xE2, 0x82, 0xAC, b'\n', b'x']);
    let line = s.read_line().unwrap().unwrap();
    assert_eq!(line, "\u{e9}\u{20ac}");
    assert_eq!(line.chars().count(), 2);
}

#[test]
fn a_line_that_is_not_text_fails_and_is_consumed() {
    let mut s = MemoryStream::new(vec![0xFF, 0xFE, b'\n', b'o', b'k', b'\n']);
    assert_eq!(s.read_line(), Err(StreamError::NotText));
    assert_eq!(s.read_line(), Ok(Some("ok".to_string())));
}

#[test]
fn severed_stream_fails_where_more_bytes_are_needed() {
    let mut s = MemoryStream::with_limits(Vec::from("full\npart".as_bytes()), true, 10);
    assert!(s.is_severed());
    assert_eq!(s.read_line(), Ok(Some("full".to_string())));
    assert_eq!(s.read_line(), Err(StreamError::Severed));
    assert_eq!(s.unread(), "part".as_bytes());
    assert_eq!(s.read_to_end(), Err(StreamError::Severed));

    let mut empty = MemoryStream::with_limits(Vec::new(), true, 10);
    assert_eq!(empty.read_line(), Err(StreamError::Severed));
}

#[test]
fn read_to_end_takes_everything_verbatim() {
    let mut s = MemoryStream::new(vec![b'a', b'\n', 0xFF, b'\r', b'\n', 0]);
    assert_eq!(s.read_line(), Ok(Some("a".to_string())));
    assert_eq!(s.read_to_end(), Ok(vec![0xFF, b'\r', b'\n', 0]));
    assert_eq!(s.read_to_end(), Ok(Vec::new()));
    assert_eq!(s.read_line(), Ok(None));
}

#[test]
fn a_write_that_does_not_fit_writes_nothing() {
    let mut s = MemoryStream::with_limits(Vec::new(), false, 5);
    assert_eq!(s.write_all("abc".as_bytes()), Ok(()));
    assert_eq!(s.write_all("def".as_bytes()), Err(StreamError::Full));
    assert_eq!(s.written().as_slice(), "abc".as_bytes());
    assert_eq!(s.write_all("de".as_bytes()), Ok(()));
    assert_eq!(s.write_all("".as_bytes()), Ok(()));
    assert_eq!(s.write_all("f".as_bytes()), Err(StreamError::Full));
    assert_eq!(s.written().as_slice(), "abcde".as_bytes());
}
