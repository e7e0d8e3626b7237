use cson::reader::Reader;
use cson::repr::{Atom, AtomObject, Key};

fn value(src: &str) -> Atom {
    Reader::parse_value_from_buf(src.as_bytes()).unwrap()
}

fn document(src: &str) -> Atom {
    Reader::parse_document_from_buf(src.as_bytes()).unwrap()
}

fn object(members: Vec<(&str, Atom)>) -> Atom {
    let mut o = AtomObject::new();
    for (k, v) in members {
        o.insert(Key::new(k), v);
    }
    Atom::Object(o)
}

fn float_text(a: Atom) -> String {
    match a {
        Atom::F64(t) => t,
        other => panic!("expected a float, got {:?}", other),
    }
}

#[test]
fn whitespace_and_trailing_comma_do_not_matter() {
    let expected = object(vec![("a", Atom::I64(1))]);
    assert_eq!(value("{a:1}"), expected);
    assert_eq!(value("{ a : 1 }"), expected);
    assert_eq!(value("{a:1,}"), expected);
}

#[test]
fn newline_separates_array_items() {
    let expected = Atom::Array(vec![Atom::I64(1), Atom::I64(2), Atom::I64(3)]);
    assert_eq!(value("[1\n2\n3]"), expected);
    assert_eq!(value("[1,2,3]"), expected);
}

#[test]
fn number_boundaries() {
    assert_eq!(value("0"), Atom::I64(0));
    assert!(Reader::parse_value_from_buf(b"00").is_err());
    assert_eq!(value("-0"), Atom::I64(0));
    let big = float_text(value("72057594037927936"));
    assert_eq!(big, "72057594037927936");
    assert_eq!(big.parse::<f64>().unwrap(), 72057594037927936.0);
    assert_eq!(float_text(value("1e3")).parse::<f64>().unwrap(), 1000.0);
}

#[test]
fn integral_range_is_below_two_to_the_53() {
    assert_eq!(value("9007199254740991"), Atom::I64(9007199254740991));
    assert_eq!(value("-9007199254740991"), Atom::I64(-9007199254740991));
    assert_eq!(float_text(value("9007199254740992")), "9007199254740992");
    assert_eq!(float_text(value("-9007199254740992")), "-9007199254740992");
    assert_eq!(float_text(value("123456789012345678901234567890")), "123456789012345678901234567890");
}

#[test]
fn number_forms() {
    assert_eq!(float_text(value("-1.5E+2")), "-1.5E+2");
    assert_eq!(float_text(value("2e-3")), "2e-3");
    assert_eq!(value("-42"), Atom::I64(-42));
    assert!(Reader::parse_value_from_buf(b"-").is_err());
    assert!(Reader::parse_value_from_buf(b"-x").is_err());
    assert!(Reader::parse_value_from_buf(b"1.").is_err());
    assert!(Reader::parse_value_from_buf(b"1.e3").is_err());
    assert!(Reader::parse_value_from_buf(b"1e").is_err());
    assert!(Reader::parse_value_from_buf(b"1e+").is_err());
    assert!(Reader::parse_value_from_buf(b"01").is_err());
    assert!(Reader::parse_value_from_buf(b"-01").is_err());
}

#[test]
fn duplicate_keys_keep_the_last_value() {
    match value("{a:1, a:2}") {
        Atom::Object(o) => {
            assert_eq!(o.len(), 1);
            assert_eq!(o.get("a"), Some(&Atom::I64(2)));
        }
        other => panic!("expected an object, got {:?}", other),
    }
}

#[test]
fn keys_are_sorted_by_bytes() {
    match value("{b:1, a:2, 'é':3, B:4, aa:5}") {
        Atom::Object(o) => {
            let keys: Vec<&str> = o.entries().iter().map(|(k, _)| k.0.as_str()).collect();
            assert_eq!(keys, vec!["B", "a", "aa", "b", "é"]);
            assert_eq!(o.get("aa"), Some(&Atom::I64(5)));
            assert_eq!(o.get("c"), None);
        }
        other => panic!("expected an object, got {:?}", other),
    }
}

#[test]
fn surrogate_pairs() {
    assert_eq!(value("\"\\uD83D\\uDE00\""), Atom::OwnedString("\u{1F600}".to_string()));
    assert!(Reader::parse_value_from_buf(b"\"\\uD800\"").is_err());
    assert!(Reader::parse_value_from_buf(b"\"\\uD800\\n\"").is_err());
    assert!(Reader::parse_value_from_buf(b"\"\\uDC00\"").is_err());
}

#[test]
fn escapes() {
    assert_eq!(
        value("'\\'\\\"\\\\\\/\\b\\f\\n\\r\\t\\u00e9\\u4E2D'"),
        Atom::OwnedString("'\"\\/\u{8}\u{c}\n\r\té中".to_string())
    );
    assert!(Reader::parse_value_from_buf(b"\"\\x\"").is_err());
    assert!(Reader::parse_value_from_buf(b"\"\\u12G4\"").is_err());
    assert!(Reader::parse_value_from_buf(b"\"\\u12").is_err());
    assert!(Reader::parse_value_from_buf(b"\"abc").is_err());
    assert!(Reader::parse_value_from_buf(b"'abc\"").is_err());
}

#[test]
fn quoted_strings_must_be_utf8() {
    assert_eq!(value("\"caf\u{e9}\""), Atom::OwnedString("café".to_string()));
    assert!(Reader::parse_value_from_buf(b"\"\xff\"").is_err());
    assert!(Reader::parse_value_from_buf(b"\"\xc3\"").is_err());
}

#[test]
fn verbatim_strings() {
    assert_eq!(value("|a\n|b"), Atom::OwnedString("a\nb".to_string()));
    assert_eq!(value("|a # b\n  # note\n|c"), Atom::OwnedString("a # b\nc".to_string()));
    assert_eq!(value("|\u{e9}t\u{e9}"), Atom::OwnedString("été".to_string()));
    assert!(Reader::parse_value_from_buf(b"|a\xff\n|b").is_err());
}

#[test]
fn bare_object_document() {
    let expected = object(vec![("f", Atom::I64(1)), ("g", Atom::I64(2))]);
    assert_eq!(document("f=1\ng=2"), expected);
    assert_eq!(document("{f=1\ng=2}"), expected);
    assert_eq!(document("# settings\n  f: 1 # one\n\n  g = 2\n"), expected);
}

#[test]
fn document_forms() {
    assert_eq!(document("[1]"), Atom::Array(vec![Atom::I64(1)]));
    assert_eq!(document("{}"), object(vec![]));
    assert!(Reader::parse_document_from_buf(b"").is_err());
    assert!(Reader::parse_document_from_buf(b"  # only a comment\n").is_err());
    assert!(Reader::parse_document_from_buf(b"f=1 g=2").is_err());
    assert!(Reader::parse_document_from_buf(b"{a:1} x").is_err());
}

#[test]
fn trailing_garbage_is_an_error() {
    let err = Reader::parse_value_from_buf(b"1 2").unwrap_err();
    assert_eq!(err.cause, "expected end of file");
    assert!(err.ioerr.is_none());
}

#[test]
fn literals_must_match_exactly() {
    assert_eq!(Reader::parse_value_from_buf(b"falsey").unwrap_err().cause, "expected end of file");
    assert_eq!(Reader::parse_value_from_buf(b"fals").unwrap_err().cause, "expected false");
    assert_eq!(Reader::parse_value_from_buf(b"nul").unwrap_err().cause, "expected null");
    assert_eq!(Reader::parse_value_from_buf(b"tru").unwrap_err().cause, "expected true");
}

#[test]
fn structural_errors() {
    assert_eq!(Reader::parse_value_from_buf(b"").unwrap_err().cause, "expected value");
    assert_eq!(Reader::parse_value_from_buf(b"[1 2]").unwrap_err().cause, "expected `]`");
    assert_eq!(Reader::parse_value_from_buf(b"{a:1 b:2}").unwrap_err().cause, "expected `}`");
    assert_eq!(Reader::parse_value_from_buf(b"{a 1}").unwrap_err().cause, "expected `:` or `=`");
    assert!(Reader::parse_value_from_buf(b"{a:}").is_err());
    assert!(Reader::parse_value_from_buf(b"x").is_err());
}

#[test]
fn bare_keys() {
    assert_eq!(
        value("{$x-y_z: 1, caf\u{e9}.2: 2, \u{1F600}: 3}"),
        object(vec![("$x-y_z", Atom::I64(1)), ("café.2", Atom::I64(2)), ("\u{1F600}", Atom::I64(3))])
    );
    // a middle dot may continue a bare key, not start one
    assert!(Reader::parse_value_from_buf("{\u{b7}a: 1}".as_bytes()).is_err());
    // invalid UTF-8 inside a bare key
    assert!(Reader::parse_value_from_buf(b"{a\xc3: 1}").is_err());
}

#[test]
fn comments_and_separators_mix() {
    assert_eq!(
        value("[ # first\n 1, # second\n 2\n\n 3 , ]"),
        Atom::Array(vec![Atom::I64(1), Atom::I64(2), Atom::I64(3)])
    );
    assert_eq!(value("[]"), Atom::Array(vec![]));
    assert_eq!(value("[ [ ], { } ]"), Atom::Array(vec![Atom::Array(vec![]), object(vec![])]));
}

#[test]
fn numbers_are_never_unsigned() {
    assert_eq!(float_text(value("18446744073709551615")), "18446744073709551615");
    assert_eq!(float_text(value("9223372036854775807")), "9223372036854775807");
    let doc = value("[0, -1, 1e2, 12345678901234567890, {a: 9007199254740993}]");
    fn walk(a: &Atom) {
        match a {
            Atom::U64(_) => panic!("unsigned integer in parsed output"),
            Atom::Array(l) => l.iter().for_each(walk),
            Atom::Object(o) => o.entries().iter().for_each(|(_, v)| walk(v)),
            _ => {}
        }
    }
    walk(&doc);
}
