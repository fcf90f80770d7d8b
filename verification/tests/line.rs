use bytes::BytesMut;
use protohackers::line::{frame_line, LineReader};

#[test]
fn frame_line_appends_a_newline() {
    assert_eq!(frame_line("hi"), "hi\n");
    assert_eq!(frame_line(""), "\n");
}

#[test]
fn reader_returns_trimmed_lines_and_keeps_the_rest() {
    let mut r = LineReader::new();
    let mut buf = BytesMut::from(&b"  alice \r\nhel"[..]);
    assert_eq!(r.poll_line(&mut buf), Some("alice".to_owned()));
    assert_eq!(&buf[..], b"hel");
    assert_eq!(r.poll_line(&mut buf), None);
    assert!(buf.is_empty());
    buf.extend_from_slice(b"lo\n");
    assert_eq!(r.poll_line(&mut buf), Some("hello".to_owned()));
    assert_eq!(r.poll_line(&mut buf), None);
}

#[test]
fn reader_reads_bytes_as_latin1() {
    let mut r = LineReader::new();
    let mut buf = BytesMut::from(&[0xe9u8, b'\n'][..]);
    assert_eq!(r.poll_line(&mut buf), Some("\u{e9}".to_owned()));
    let mut buf = BytesMut::from(&[0xa0u8, b'x', 0xa0, b'\n'][..]);
    assert_eq!(r.poll_line(&mut buf), Some("x".to_owned()));
}

#[test]
fn framed_line_reads_back() {
    let mut r = LineReader::new();
    let framed = frame_line("hello world");
    let mut buf = BytesMut::from(framed.as_bytes());
    assert_eq!(r.poll_line(&mut buf), Some("hello world".to_owned()));
    assert!(buf.is_empty());
}
