use cson::ident::{is_id_end, is_id_end_byte, is_id_start, is_id_start_byte};
use cson::reader::Reader;
use cson::repr::{Atom, AtomObject, Key};
use cson::util::encode_utf8_raw;

fn valid(src: &str, expected: Atom) {
    let parsed = Reader::parse_value_from_buf(src.as_bytes());
    assert_eq!(parsed.unwrap(), expected);
}

fn valid_float(src: &str, expected: f64) {
    match Reader::parse_value_from_buf(src.as_bytes()).unwrap() {
        Atom::F64(text) => assert_eq!(text.parse::<f64>().unwrap(), expected),
        other => panic!("expected a float, got {:?}", other),
    }
}

fn invalid(src: &str) {
    assert!(Reader::parse_value_from_buf(src.as_bytes()).is_err());
}

fn string(s: &str) -> Atom {
    Atom::OwnedString(s.to_string())
}

fn object(members: Vec<(&str, Atom)>) -> Atom {
    let mut o = AtomObject::new();
    for (k, v) in members {
        o.insert(Key::new(k), v);
    }
    Atom::Object(o)
}

#[test]
fn test_is_id_start() {
    let mut present = [false; 256];
    for c in (0u32..0x110000).filter_map(char::from_u32).filter(|&c| is_id_start(c)) {
        assert!(is_id_end(c), "is_id_end('{}' /*{:x}*/) is false", c, c as u32);
        let mut buf = [0u8; 4];
        encode_utf8_raw(c as u32, &mut buf);
        present[buf[0] as usize] = true;
    }
    for b in 0usize..256 {
        assert!(
            is_id_start_byte(b as u8) == present[b],
            "is_id_start_byte({}): expected {}, get {}",
            b,
            is_id_start_byte(b as u8),
            present[b]
        );
    }
}

#[test]
fn test_is_id_end() {
    let mut present = [false; 256];
    for c in (0u32..0x110000).filter_map(char::from_u32).filter(|&c| is_id_end(c)) {
        let mut buf = [0u8; 4];
        encode_utf8_raw(c as u32, &mut buf);
        present[buf[0] as usize] = true;
    }
    for b in 0usize..256 {
        assert!(
            is_id_end_byte(b as u8) == present[b],
            "is_id_end_byte({}): expected {}, get {}",
            b,
            is_id_end_byte(b as u8),
            present[b]
        );
    }
}

#[test]
fn test_simple() {
    valid("null", Atom::Null);
    valid("true", Atom::True);
    valid("false", Atom::False);
    valid("0", Atom::I64(0));
    valid("42", Atom::I64(42));
    valid_float("0.0", 0.0);
    valid_float("42.0", 42.0);
    valid_float("0e3", 0.0);
    valid_float("42e3", 42000.0);
    valid_float("72057594037927936", 72057594037927936.0); // 2^56 exceeds integral range
    valid("[1, 2, 3]", Atom::Array(vec![Atom::I64(1), Atom::I64(2), Atom::I64(3)]));
    valid("[1\n 2\n 3]", Atom::Array(vec![Atom::I64(1), Atom::I64(2), Atom::I64(3)]));
    valid("[null]", Atom::Array(vec![Atom::Null]));
    valid("\"abc\"", string("abc"));
    valid("'abc'", string("abc"));
    valid("|abc\n|def", string("abc\ndef"));
    valid("[|a\n\n |b\n\n |c\n,|d\n]", Atom::Array(vec![string("a\nb\nc"), string("d")]));
    valid("{\"f\": 1, 'g': 2}", object(vec![("f", Atom::I64(1)), ("g", Atom::I64(2))]));
    valid("{f=1\n g=2}", object(vec![("f", Atom::I64(1)), ("g", Atom::I64(2))]));
}
