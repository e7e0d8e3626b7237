use cson::util::{encode_utf8_raw, read_at_least, read_byte, read_char, utf8_char_width, ReadBytes, ReadError, Source};

#[test]
fn char_widths() {
    assert_eq!(utf8_char_width(b'a'), 1);
    assert_eq!(utf8_char_width(0x80), 0);
    assert_eq!(utf8_char_width(0xC1), 0);
    assert_eq!(utf8_char_width(0xC2), 2);
    assert_eq!(utf8_char_width(0xE0), 3);
    assert_eq!(utf8_char_width(0xF4), 4);
    assert_eq!(utf8_char_width(0xF5), 0);
}

#[test]
fn encodes_like_std() {
    for c in ['a', '\u{e9}', '\u{4e2d}', '\u{1F600}', '\u{7f}', '\u{80}', '\u{7ff}', '\u{800}', '\u{ffff}', '\u{10000}'] {
        let mut buf = [0u8; 4];
        let n = encode_utf8_raw(c as u32, &mut buf).unwrap();
        let mut expected = [0u8; 4];
        assert_eq!(&buf[..n], c.encode_utf8(&mut expected).as_bytes());
    }
    let mut small = [0u8; 2];
    assert_eq!(encode_utf8_raw(0x4e2d, &mut small), None);
    assert_eq!(small, [0, 0]);
}

#[test]
fn reads_at_least() {
    let mut src = Source::new(b"hello".to_vec());
    let mut buf = [0u8; 3];
    assert!(matches!(read_at_least(&mut src, 2, &mut buf), Ok(ReadBytes::Enough(3))));
    assert_eq!(&buf, b"hel");
    let mut rest = [0u8; 4];
    assert!(matches!(read_at_least(&mut src, 4, &mut rest), Ok(ReadBytes::NotEnough(2))));
    assert_eq!(&rest[..2], b"lo");
    assert!(matches!(read_at_least(&mut src, 5, &mut rest), Err(ReadError::BufferTooShort)));
    assert_eq!(read_byte(&mut src), None);
}

#[test]
fn reads_bytes_and_chars() {
    let mut src = Source::new("a\u{e9}\u{1F600}".as_bytes().to_vec());
    assert_eq!(read_char(&mut src), Ok(Some('a')));
    assert_eq!(read_char(&mut src), Ok(Some('\u{e9}')));
    assert_eq!(read_byte(&mut src), Some(0xF0));
    assert_eq!(read_char(&mut src), Err(ReadError::InvalidUtf8));
    let mut cut = Source::new(vec![0xE4, 0xB8]);
    assert_eq!(read_char(&mut cut), Err(ReadError::InvalidUtf8));
    let mut empty = Source::new(vec![]);
    assert_eq!(read_char(&mut empty), Ok(None));
}
