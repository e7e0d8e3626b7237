use cson::reader::Reader;
use cson::repr::{compare_bytes, Atom, AtomObject, Key, Slice};
use std::cmp::Ordering;

#[test]
fn slices_by_byte_offsets() {
    let base = "h\u{e9}llo";
    assert_eq!(Slice::new(base, 1, 3).0, "\u{e9}");
    assert_eq!(Slice::new(base, 3, 6).0, "llo");
    assert_eq!(Slice::new(base, 0, 0).0, "");
}

#[test]
fn keys_hold_their_text() {
    assert_eq!(Key::new("k\u{e9}y").0, "k\u{e9}y");
}

#[test]
fn byte_order() {
    assert_eq!(compare_bytes(b"a", b"b"), Ordering::Less);
    assert_eq!(compare_bytes(b"ab", b"a"), Ordering::Greater);
    assert_eq!(compare_bytes(b"", b""), Ordering::Equal);
    assert_eq!(compare_bytes(b"Z", b"a"), Ordering::Less);
    assert_eq!(compare_bytes("\u{e9}".as_bytes(), b"z"), Ordering::Greater);
}

#[test]
fn object_insert_replaces_and_sorts() {
    let mut o = AtomObject::new();
    assert_eq!(o.len(), 0);
    o.insert(Key::new("b"), Atom::I64(1));
    o.insert(Key::new("a"), Atom::I64(2));
    o.insert(Key::new("b"), Atom::I64(3));
    o.insert(Key::new("c"), Atom::Null);
    assert_eq!(o.len(), 3);
    assert_eq!(o.get("b"), Some(&Atom::I64(3)));
    let keys: Vec<&str> = o.entries().iter().map(|(k, _)| k.0.as_str()).collect();
    assert_eq!(keys, vec!["a", "b", "c"]);
}

#[test]
fn conversions_keep_the_atom() {
    let a = Reader::parse_document_from_buf(b"x = [1, 'two', {y: 3.5}]").unwrap();
    let b = Reader::parse_document_from_buf(b"x = [1, 'two', {y: 3.5}]").unwrap();
    assert_eq!(a.into_parsed(), b);
    let c = Reader::parse_document_from_buf(b"x = [1, 'two', {y: 3.5}]").unwrap();
    assert_eq!(c.into_owned(), Reader::parse_value_from_buf(b"{x: [1, \"two\", {y: 3.5}]}").unwrap());
}
