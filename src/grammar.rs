//! The CSON format, defined over the input bytes.
//!
//! Each production is a function of the input `s` and a position `i` that
//! says what is read from `i` on and where reading stops.  The reader in
//! [`crate::reader`] is proved to agree with these definitions.
use vstd::prelude::*;
use vstd::utf8::*;
use crate::ident::{id_end, id_end_byte, id_start, id_start_byte};
use crate::repr::Value;
use crate::util::{lemma_utf8_raw_scalar, scalar_at, utf8_raw};

verus! {

/// The outcome of an optional production at some position.
pub enum Parsed<T> {
    /// The input is malformed here.
    Fail,
    /// The production does not start here; nothing is consumed.
    Absent,
    /// The production was read and ends just before the given position.
    Got(T, int),
}

/// Space, tab, line feed or carriage return.
pub open spec fn is_ws_byte(b: u8) -> bool {
    b == 0x20 || b == 0x09 || b == 0x0A || b == 0x0D
}

pub open spec fn is_newline_byte(b: u8) -> bool {
    b == 0x0A || b == 0x0D
}

pub open spec fn is_digit(b: u8) -> bool {
    0x30 <= b <= 0x39
}

/// Where a run of whitespace and `#` comments that starts at `i` ends;
/// `comment` tells whether `i` lies inside a comment.
pub open spec fn ws_end_from(s: Seq<u8>, i: int, comment: bool) -> int
    decreases s.len() - i,
{
    if i < 0 || i >= s.len() {
        i
    } else if comment {
        ws_end_from(s, i + 1, !is_newline_byte(s[i]))
    } else if is_ws_byte(s[i]) {
        ws_end_from(s, i + 1, false)
    } else if s[i] == 0x23 {
        ws_end_from(s, i + 1, true)
    } else {
        i
    }
}

/// Whether that run crosses a line terminator.
pub open spec fn ws_newline_from(s: Seq<u8>, i: int, comment: bool) -> bool
    decreases s.len() - i,
{
    if i < 0 || i >= s.len() {
        false
    } else if is_newline_byte(s[i]) {
        true
    } else if comment {
        ws_newline_from(s, i + 1, true)
    } else if is_ws_byte(s[i]) {
        ws_newline_from(s, i + 1, false)
    } else if s[i] == 0x23 {
        ws_newline_from(s, i + 1, true)
    } else {
        false
    }
}

pub open spec fn ws_end(s: Seq<u8>, i: int) -> int {
    ws_end_from(s, i, false)
}

pub open spec fn ws_newline(s: Seq<u8>, i: int) -> bool {
    ws_newline_from(s, i, false)
}

/// A value separator at `i`: whitespace, then a comma and more whitespace,
/// or else whitespace that crosses a line terminator.  Gives whether there is
/// one and where the whitespace read ends.
pub open spec fn separator(s: Seq<u8>, i: int) -> (bool, int) {
    let j = ws_end(s, i);
    if 0 <= j < s.len() && s[j] == 0x2C {
        (true, ws_end(s, j + 1))
    } else {
        (ws_newline(s, i), j)
    }
}

/// The first line terminator at or after `i`, or the end of the input.
pub open spec fn line_end(s: Seq<u8>, i: int) -> int
    decreases s.len() - i,
{
    if 0 <= i < s.len() && !is_newline_byte(s[i]) {
        line_end(s, i + 1)
    } else {
        i
    }
}

/// The first non-digit at or after `i`, or the end of the input.
pub open spec fn digits_end(s: Seq<u8>, i: int) -> int
    decreases s.len() - i,
{
    if 0 <= i < s.len() && is_digit(s[i]) {
        digits_end(s, i + 1)
    } else {
        i
    }
}

/// The number that a string of decimal digits denotes.
pub open spec fn digits_value(d: Seq<u8>) -> nat
    decreases d.len(),
{
    if d.len() == 0 {
        0
    } else {
        digits_value(d.drop_last()) * 10 + (d.last() - 0x30) as nat
    }
}

/// Magnitudes below this bound are read as integers.
pub open spec fn integral_bound() -> nat {
    0x20_0000_0000_0000
}

/// Where the integer part whose first digit is at `k` ends: a zero stands
/// alone, other digits run on.
pub open spec fn int_end(s: Seq<u8>, k: int) -> int {
    if s[k] == 0x30 {
        k + 1
    } else {
        digits_end(s, k + 1)
    }
}

/// Where the optional fraction `. 1*DIGIT` at `j` ends; `None` when a point
/// has no digit after it.
pub open spec fn fraction_end(s: Seq<u8>, j: int) -> Option<int> {
    if 0 <= j < s.len() && s[j] == 0x2E {
        if j + 1 < s.len() && is_digit(s[j + 1]) {
            Some(digits_end(s, j + 2))
        } else {
            None
        }
    } else {
        Some(j)
    }
}

/// Where the optional exponent `(e / E) [ + / - ] 1*DIGIT` at `j` ends;
/// `None` when the marker has no digit after it.
pub open spec fn exponent_end(s: Seq<u8>, j: int) -> Option<int> {
    if 0 <= j < s.len() && (s[j] == 0x65 || s[j] == 0x45) {
        let d = if j + 1 < s.len() && (s[j + 1] == 0x2B || s[j + 1] == 0x2D) {
            j + 2
        } else {
            j + 1
        };
        if d < s.len() && is_digit(s[d]) {
            Some(digits_end(s, d + 1))
        } else {
            None
        }
    } else {
        Some(j)
    }
}

/// The number literal that starts at `i` with a minus sign or a digit.
///
/// Grammar: `[ - ] ( 0 / 1-9 *DIGIT ) [ . 1*DIGIT ] [ (e / E) [ + / - ] 1*DIGIT ]`.
/// A literal with neither fraction nor exponent whose magnitude is below
/// 2^53 is an integer; any other is a float, kept as its text.
pub open spec fn number(s: Seq<u8>, i: int) -> Option<(Value, int)> {
    let neg = s[i] == 0x2D;
    let k = if neg {
        i + 1
    } else {
        i
    };
    if !(0 <= k < s.len() && is_digit(s[k])) {
        None
    } else {
        let n = int_end(s, k);
        match fraction_end(s, n) {
            None => None,
            Some(f) => match exponent_end(s, f) {
                None => None,
                Some(e) => {
                    let mag = digits_value(s.subrange(k, n));
                    if f == n && e == f && mag < integral_bound() {
                        Some(
                            (
                                Value::I64(
                                    if neg {
                                        -mag
                                    } else {
                                        mag as int
                                    },
                                ),
                                e,
                            ),
                        )
                    } else {
                        Some((Value::F64(decode_utf8(s.subrange(i, e))), e))
                    }
                },
            },
        }
    }
}

/// The value of a hexadecimal digit.
pub open spec fn hex_value(b: u8) -> Option<u32> {
    if 0x30 <= b <= 0x39 {
        Some((b - 0x30) as u32)
    } else if 0x61 <= b <= 0x66 {
        Some((b - 0x61 + 10) as u32)
    } else if 0x41 <= b <= 0x46 {
        Some((b - 0x41 + 10) as u32)
    } else {
        None
    }
}

/// The UTF-16 code unit of the escape whose letter is at `i` (just after the
/// backslash), or `None` for an unknown or incomplete escape.
pub open spec fn escape_unit(s: Seq<u8>, i: int) -> Option<u32> {
    if !(0 <= i < s.len()) {
        None
    } else if s[i] == 0x27 {
        Some(0x27)
    } else if s[i] == 0x22 {
        Some(0x22)
    } else if s[i] == 0x5C {
        Some(0x5C)
    } else if s[i] == 0x2F {
        Some(0x2F)
    } else if s[i] == 0x62 {
        Some(0x08)
    } else if s[i] == 0x66 {
        Some(0x0C)
    } else if s[i] == 0x6E {
        Some(0x0A)
    } else if s[i] == 0x72 {
        Some(0x0D)
    } else if s[i] == 0x74 {
        Some(0x09)
    } else if s[i] == 0x75 && i + 4 < s.len() && hex_value(s[i + 1]) is Some && hex_value(
        s[i + 2],
    ) is Some && hex_value(s[i + 3]) is Some && hex_value(s[i + 4]) is Some {
        Some(
            (hex_value(s[i + 1])->Some_0 * 4096 + hex_value(s[i + 2])->Some_0 * 256 + hex_value(
                s[i + 3],
            )->Some_0 * 16 + hex_value(s[i + 4])->Some_0) as u32,
        )
    } else {
        None
    }
}

/// Bytes taken by the escape whose letter is at `i`.
pub open spec fn escape_len(s: Seq<u8>, i: int) -> int {
    if s[i] == 0x75 {
        5
    } else {
        1
    }
}

pub open spec fn is_high_surrogate(u: u32) -> bool {
    0xD800 <= u <= 0xDBFF
}

pub open spec fn is_low_surrogate(u: u32) -> bool {
    0xDC00 <= u <= 0xDFFF
}

/// The scalar value of a UTF-16 surrogate pair.
pub open spec fn surrogate_pair(high: u32, low: u32) -> u32 {
    (0x10000 + (high - 0xD800) * 0x400 + (low - 0xDC00)) as u32
}

/// The scalar value of the escape whose letter is at `i`, with the
/// position after it: a high surrogate must be followed at once by an
/// escaped low surrogate, the two making one scalar value; a low surrogate
/// alone is an error.
pub open spec fn escaped_scalar(s: Seq<u8>, i: int) -> Option<(u32, int)> {
    match escape_unit(s, i) {
        None => None,
        Some(u) => {
            let j = i + escape_len(s, i);
            if is_high_surrogate(u) {
                if 0 <= j < s.len() && s[j] == 0x5C {
                    match escape_unit(s, j + 1) {
                        Some(low) => if is_low_surrogate(low) {
                            Some((surrogate_pair(u, low), j + 1 + escape_len(s, j + 1)))
                        } else {
                            None
                        },
                        None => None,
                    }
                } else {
                    None
                }
            } else if is_low_surrogate(u) {
                None
            } else {
                Some((u, j))
            }
        },
    }
}

/// The body of a quoted string from `i` on, up to and including the closing
/// `quote`: the bytes it stands for (appended to `acc`), and the position
/// after the closing quote.  Raw bytes are kept as they are; escapes become
/// the UTF-8 encoding of their scalar value.
pub open spec fn quoted(s: Seq<u8>, i: int, quote: u8, acc: Seq<u8>) -> Option<(Seq<u8>, int)>
    decreases s.len() - i,
{
    if !(0 <= i < s.len()) {
        None
    } else if s[i] == 0x5C {
        match escaped_scalar(s, i + 1) {
            None => None,
            Some((c, j)) => quoted(s, j, quote, acc + utf8_raw(c)),
        }
    } else if s[i] == quote {
        Some((acc, i + 1))
    } else {
        quoted(s, i + 1, quote, acc.push(s[i]))
    }
}

/// The quoted string whose opening quote is at `i`.
pub open spec fn string(s: Seq<u8>, i: int) -> Option<(Seq<char>, int)> {
    match quoted(s, i + 1, s[i], seq![]) {
        Some((b, e)) => if valid_utf8(b) {
            Some((decode_utf8(b), e))
        } else {
            None
        },
        None => None,
    }
}

/// The verbatim string whose first `|` is at `i`: the fragments read so
/// far are `acc`, joined by line feeds.  Each fragment runs from after a `|`
/// to the end of its line; whitespace and comments may stand between the
/// line terminator and the next `|`.
pub open spec fn verbatim(s: Seq<u8>, i: int, acc: Seq<u8>) -> Option<(Seq<u8>, int)>
    decreases s.len() - i,
{
    if !(0 <= i < s.len()) {
        None
    } else {
        let e = line_end(s, i + 1);
        let frag = s.subrange(i + 1, e);
        if !valid_utf8(frag) {
            None
        } else {
            let next = if e < s.len() {
                e + 1
            } else {
                e
            };
            let k = ws_end(s, next);
            proof {
                lemma_line_end(s, i + 1);
                lemma_ws_end(s, next, false);
            }
            if 0 <= k < s.len() && s[k] == 0x7C {
                verbatim(s, k, acc + frag + seq![0x0Au8])
            } else {
                Some((acc + frag, k))
            }
        }
    }
}

/// The rest of a bare string from `i` on: identifier-continuation scalar
/// values for as long as their first byte could start one.  Gives where it
/// ends.
pub open spec fn bare_rest(s: Seq<u8>, i: int) -> Option<int>
    decreases s.len() - i,
{
    if 0 <= i < s.len() && id_end_byte(s[i]) {
        match scalar_at(s, i) {
            Some((c, w)) => if id_end(c as u32) && w > 0 {
                bare_rest(s, i + w)
            } else {
                None
            },
            None => None,
        }
    } else {
        Some(i)
    }
}

/// The bare string that starts at `i`.
pub open spec fn bare(s: Seq<u8>, i: int) -> Option<(Seq<char>, int)> {
    match scalar_at(s, i) {
        Some((c, w)) => if id_start(c as u32) {
            match bare_rest(s, i + w) {
                Some(e) => Some((decode_utf8(s.subrange(i, e)), e)),
                None => None,
            }
        } else {
            None
        },
        None => None,
    }
}

/// A member name at `i`: a quoted string, or a bare string.
pub open spec fn name(s: Seq<u8>, i: int) -> Parsed<Seq<char>> {
    if 0 <= i < s.len() && (s[i] == 0x22 || s[i] == 0x27) {
        match string(s, i) {
            Some((t, e)) => Parsed::Got(t, e),
            None => Parsed::Fail,
        }
    } else if 0 <= i < s.len() && id_start_byte(s[i]) {
        match bare(s, i) {
            Some((t, e)) => Parsed::Got(t, e),
            None => Parsed::Fail,
        }
    } else {
        Parsed::Absent
    }
}

/// Whether the bytes of `t` stand at `i`.
pub open spec fn has_token(s: Seq<u8>, i: int, t: Seq<u8>) -> bool {
    0 <= i && i + t.len() <= s.len() && s.subrange(i, i + t.len()) == t
}

/// A value at `i`, which is not whitespace.
pub open spec fn value(s: Seq<u8>, i: int) -> Parsed<Value>
    decreases s.len() - i, 0int,
{
    if !(0 <= i < s.len()) {
        Parsed::Absent
    } else if s[i] == 0x66 {
        if has_token(s, i, seq![0x66u8, 0x61, 0x6C, 0x73, 0x65]) {
            Parsed::Got(Value::False, i + 5)
        } else {
            Parsed::Fail
        }
    } else if s[i] == 0x6E {
        if has_token(s, i, seq![0x6Eu8, 0x75, 0x6C, 0x6C]) {
            Parsed::Got(Value::Null, i + 4)
        } else {
            Parsed::Fail
        }
    } else if s[i] == 0x74 {
        if has_token(s, i, seq![0x74u8, 0x72, 0x75, 0x65]) {
            Parsed::Got(Value::True, i + 4)
        } else {
            Parsed::Fail
        }
    } else if s[i] == 0x7B {
        let j = ws_end(s, i + 1);
        proof {
            lemma_ws_end(s, i + 1, false);
        }
        match members(s, j, Map::empty()) {
            Parsed::Got(m, k) => if 0 <= k < s.len() && s[k] == 0x7D {
                Parsed::Got(Value::Object(m), k + 1)
            } else {
                Parsed::Fail
            },
            _ => Parsed::Fail,
        }
    } else if s[i] == 0x5B {
        let j = ws_end(s, i + 1);
        proof {
            lemma_ws_end(s, i + 1, false);
        }
        match elements(s, j, seq![]) {
            Parsed::Got(a, k) => if 0 <= k < s.len() && s[k] == 0x5D {
                Parsed::Got(Value::Array(a), k + 1)
            } else {
                Parsed::Fail
            },
            _ => Parsed::Fail,
        }
    } else if s[i] == 0x2D || is_digit(s[i]) {
        match number(s, i) {
            Some((v, e)) => Parsed::Got(v, e),
            None => Parsed::Fail,
        }
    } else if s[i] == 0x22 || s[i] == 0x27 {
        match string(s, i) {
            Some((t, e)) => Parsed::Got(Value::Str(t), e),
            None => Parsed::Fail,
        }
    } else if s[i] == 0x7C {
        match verbatim(s, i, seq![]) {
            Some((b, e)) => Parsed::Got(Value::Str(decode_utf8(b)), e),
            None => Parsed::Fail,
        }
    } else {
        Parsed::Absent
    }
}

/// A member at `i`: a name, whitespace, `:` or `=`, whitespace, a value.
pub open spec fn member(s: Seq<u8>, i: int) -> Parsed<(Seq<char>, Value)>
    decreases s.len() - i, 1int,
{
    match name(s, i) {
        Parsed::Fail => Parsed::Fail,
        Parsed::Absent => Parsed::Absent,
        Parsed::Got(k, a) => {
            let b = ws_end(s, a);
            if 0 <= b < s.len() && (s[b] == 0x3A || s[b] == 0x3D) {
                let c = ws_end(s, b + 1);
                proof {
                    lemma_name_end(s, i);
                    lemma_ws_end(s, a, false);
                    lemma_ws_end(s, b + 1, false);
                }
                match value(s, c) {
                    Parsed::Got(v, e) => Parsed::Got((k, v), e),
                    _ => Parsed::Fail,
                }
            } else {
                Parsed::Fail
            }
        },
    }
}

/// Members from `i` on, separated by value separators, inserted in turn
/// into `acc`; a later member replaces an earlier one with the same key.
/// A value always spans at least one byte; the test on the end position only
/// keeps the definition well-founded.
pub open spec fn members(s: Seq<u8>, i: int, acc: Map<Seq<char>, Value>) -> Parsed<
    Map<Seq<char>, Value>,
>
    decreases s.len() - i, 2int,
{
    match member(s, i) {
        Parsed::Fail => Parsed::Fail,
        Parsed::Absent => Parsed::Got(acc, i),
        Parsed::Got((k, v), e) => if !(0 <= i < e <= s.len()) {
            Parsed::Fail
        } else {
            let (more, n) = separator(s, e);
            proof {
                lemma_separator(s, e);
            }
            if more {
                members(s, n, acc.insert(k, v))
            } else {
                Parsed::Got(acc.insert(k, v), n)
            }
        },
    }
}

/// Values from `i` on, separated by value separators, appended to `acc`.
pub open spec fn elements(s: Seq<u8>, i: int, acc: Seq<Value>) -> Parsed<Seq<Value>>
    decreases s.len() - i, 2int,
{
    match value(s, i) {
        Parsed::Fail => Parsed::Fail,
        Parsed::Absent => Parsed::Got(acc, i),
        Parsed::Got(v, e) => if !(0 <= i < e <= s.len()) {
            Parsed::Fail
        } else {
            let (more, n) = separator(s, e);
            proof {
                lemma_separator(s, e);
            }
            if more {
                elements(s, n, acc.push(v))
            } else {
                Parsed::Got(acc.push(v), n)
            }
        },
    }
}

/// The body of a document at `j`, which is not whitespace: an object or an
/// array, or else the members of an object without braces.
pub open spec fn document_body(s: Seq<u8>, j: int) -> Parsed<Value> {
    if s[j] == 0x7B || s[j] == 0x5B {
        value(s, j)
    } else {
        match members(s, j, Map::empty()) {
            Parsed::Got(m, k) => Parsed::Got(Value::Object(m), k),
            _ => Parsed::Fail,
        }
    }
}

/// A whole document, with only whitespace around its body.
pub open spec fn document(s: Seq<u8>) -> Option<Value> {
    let j = ws_end(s, 0);
    if j >= s.len() {
        None
    } else {
        match document_body(s, j) {
            Parsed::Got(v, k) => if ws_end(s, k) == s.len() {
                Some(v)
            } else {
                None
            },
            _ => None,
        }
    }
}

/// A single value with only whitespace around it.
pub open spec fn single_value(s: Seq<u8>) -> Option<Value> {
    match value(s, ws_end(s, 0)) {
        Parsed::Got(v, k) => if ws_end(s, k) == s.len() {
            Some(v)
        } else {
            None
        },
        _ => None,
    }
}

pub proof fn lemma_ws_end(s: Seq<u8>, i: int, comment: bool)
    requires
        0 <= i,
    ensures
        i <= ws_end_from(s, i, comment),
        i <= s.len() ==> ws_end_from(s, i, comment) <= s.len(),
    decreases s.len() - i,
{
    if 0 <= i < s.len() {
        lemma_ws_end(s, i + 1, !is_newline_byte(s[i]));
        lemma_ws_end(s, i + 1, false);
        lemma_ws_end(s, i + 1, true);
    }
}

pub proof fn lemma_line_end(s: Seq<u8>, i: int)
    requires
        0 <= i,
    ensures
        i <= line_end(s, i),
        i <= s.len() ==> line_end(s, i) <= s.len(),
    decreases s.len() - i,
{
    if 0 <= i < s.len() {
        lemma_line_end(s, i + 1);
    }
}

pub proof fn lemma_separator(s: Seq<u8>, i: int)
    requires
        0 <= i,
    ensures
        i <= separator(s, i).1,
        i <= s.len() ==> separator(s, i).1 <= s.len(),
{
    lemma_ws_end(s, i, false);
    lemma_ws_end(s, ws_end(s, i) + 1, false);
}

proof fn lemma_quoted_end(s: Seq<u8>, i: int, quote: u8, acc: Seq<u8>)
    requires
        0 <= i,
    ensures
        quoted(s, i, quote, acc) matches Some((_, e)) ==> i < e,
    decreases s.len() - i,
{
    if 0 <= i < s.len() {
        if s[i] == 0x5C {
            if let Some((c, j)) = escaped_scalar(s, i + 1) {
                lemma_quoted_end(s, j, quote, acc + utf8_raw(c));
            }
        } else if s[i] != quote {
            lemma_quoted_end(s, i + 1, quote, acc.push(s[i]));
        }
    }
}

proof fn lemma_bare_rest(s: Seq<u8>, i: int)
    requires
        0 <= i,
    ensures
        bare_rest(s, i) matches Some(e) ==> i <= e,
    decreases s.len() - i,
{
    if 0 <= i < s.len() && id_end_byte(s[i]) {
        if let Some((c, w)) = scalar_at(s, i) {
            if w > 0 {
                lemma_bare_rest(s, i + w);
            }
        }
    }
}

/// A name that was read spans at least one byte.
pub proof fn lemma_name_end(s: Seq<u8>, i: int)
    requires
        0 <= i,
    ensures
        name(s, i) matches Parsed::Got(_, e) ==> i < e,
{
    if 0 <= i < s.len() {
        lemma_quoted_end(s, i + 1, s[i], seq![]);
        if let Some((c, w)) = scalar_at(s, i) {
            lemma_bare_rest(s, i + w);
        }
    }
}

/// A quoted string that was read spans at least two bytes.
pub proof fn lemma_string_end(s: Seq<u8>, i: int)
    requires
        0 <= i < s.len(),
    ensures
        string(s, i) matches Some((_, e)) ==> i < e <= s.len(),
{
    lemma_quoted_end(s, i + 1, s[i], seq![]);
    lemma_quoted_bound(s, i + 1, s[i], seq![]);
}

proof fn lemma_quoted_bound(s: Seq<u8>, i: int, quote: u8, acc: Seq<u8>)
    ensures
        quoted(s, i, quote, acc) matches Some((_, e)) ==> e <= s.len(),
    decreases s.len() - i,
{
    if 0 <= i < s.len() {
        if s[i] == 0x5C {
            if let Some((c, j)) = escaped_scalar(s, i + 1) {
                lemma_quoted_bound(s, j, quote, acc + utf8_raw(c));
            }
        } else if s[i] != quote {
            lemma_quoted_bound(s, i + 1, quote, acc.push(s[i]));
        }
    }
}

/// A verbatim string that was read spans at least one byte.
pub proof fn lemma_verbatim_end(s: Seq<u8>, i: int, acc: Seq<u8>)
    requires
        0 <= i,
    ensures
        verbatim(s, i, acc) matches Some((_, e)) ==> i < e <= s.len(),
    decreases s.len() - i,
{
    if 0 <= i < s.len() {
        let e = line_end(s, i + 1);
        lemma_line_end(s, i + 1);
        let next = if e < s.len() {
            e + 1
        } else {
            e
        };
        lemma_ws_end(s, next, false);
        let k = ws_end(s, next);
        if 0 <= k < s.len() && s[k] == 0x7C {
            lemma_verbatim_end(s, k, acc + s.subrange(i + 1, e) + seq![0x0Au8]);
        }
    }
}

/// No part of `v` is an unsigned integer.
pub open spec fn no_u64(v: Value) -> bool
    decreases v,
{
    match v {
        Value::U64(_) => false,
        Value::Array(a) => forall|j: int| 0 <= j < a.len() ==> no_u64(#[trigger] a[j]),
        Value::Object(m) => forall|k: Seq<char>| m.dom().contains(k) ==> no_u64(#[trigger] m[k]),
        _ => true,
    }
}

proof fn lemma_value_no_u64(s: Seq<u8>, i: int)
    ensures
        value(s, i) matches Parsed::Got(v, _) ==> no_u64(v),
    decreases s.len() - i, 0int,
{
    if 0 <= i < s.len() {
        if s[i] == 0x7B {
            lemma_ws_end(s, i + 1, false);
            lemma_members_no_u64(s, ws_end(s, i + 1), Map::empty());
        } else if s[i] == 0x5B {
            lemma_ws_end(s, i + 1, false);
            lemma_elements_no_u64(s, ws_end(s, i + 1), seq![]);
        }
    }
}

proof fn lemma_member_no_u64(s: Seq<u8>, i: int)
    ensures
        member(s, i) matches Parsed::Got((_, v), _) ==> no_u64(v),
    decreases s.len() - i, 1int,
{
    if 0 <= i {
        if let Parsed::Got(k, a) = name(s, i) {
            lemma_name_end(s, i);
            lemma_ws_end(s, a, false);
            let b = ws_end(s, a);
            if 0 <= b < s.len() {
                lemma_ws_end(s, b + 1, false);
                lemma_value_no_u64(s, ws_end(s, b + 1));
            }
        }
    }
}

proof fn lemma_members_no_u64(s: Seq<u8>, i: int, acc: Map<Seq<char>, Value>)
    requires
        forall|k: Seq<char>| acc.dom().contains(k) ==> no_u64(#[trigger] acc[k]),
    ensures
        members(s, i, acc) matches Parsed::Got(m, _) ==> forall|k: Seq<char>|
            m.dom().contains(k) ==> no_u64(#[trigger] m[k]),
    decreases s.len() - i, 2int,
{
    lemma_member_no_u64(s, i);
    if let Parsed::Got((k, v), e) = member(s, i) {
        if 0 <= i < e <= s.len() {
            lemma_separator(s, e);
            let acc2 = acc.insert(k, v);
            assert forall|k2: Seq<char>| acc2.dom().contains(k2) implies no_u64(#[trigger] acc2[k2]) by {
                if k2 != k {
                    assert(acc.dom().contains(k2));
                }
            }
            lemma_members_no_u64(s, separator(s, e).1, acc2);
        }
    }
}

proof fn lemma_elements_no_u64(s: Seq<u8>, i: int, acc: Seq<Value>)
    requires
        forall|j: int| 0 <= j < acc.len() ==> no_u64(#[trigger] acc[j]),
    ensures
        elements(s, i, acc) matches Parsed::Got(a, _) ==> forall|j: int|
            0 <= j < a.len() ==> no_u64(#[trigger] a[j]),
    decreases s.len() - i, 2int,
{
    lemma_value_no_u64(s, i);
    if let Parsed::Got(v, e) = value(s, i) {
        if 0 <= i < e <= s.len() {
            lemma_separator(s, e);
            let acc2 = acc.push(v);
            assert forall|j: int| 0 <= j < acc2.len() implies no_u64(#[trigger] acc2[j]) by {
                if j < acc.len() {
                    assert(acc2[j] == acc[j]);
                }
            }
            lemma_elements_no_u64(s, separator(s, e).1, acc2);
        }
    }
}

/// The reader never produces an unsigned integer: a number literal is read
/// as a signed integer or as a float, so no part of a parsed document or
/// value is `U64`.
pub proof fn lemma_parsed_no_u64(s: Seq<u8>)
    ensures
        document(s) matches Some(v) ==> no_u64(v),
        single_value(s) matches Some(v) ==> no_u64(v),
{
    let j = ws_end(s, 0);
    lemma_value_no_u64(s, j);
    lemma_members_no_u64(s, j, Map::empty());
}

/// Content after a complete value is an error.
pub proof fn lemma_trailing_content(s: Seq<u8>)
    ensures
        value(s, ws_end(s, 0)) matches Parsed::Got(_, k) && ws_end(s, k) < s.len()
            ==> single_value(s) is None,
{
}

/// A verbatim string with a fragment that is not well-formed UTF-8 is an
/// error.
pub proof fn lemma_verbatim_needs_utf8(s: Seq<u8>, i: int)
    requires
        0 <= i < s.len(),
        s[i] == 0x7C,
        !valid_utf8(s.subrange(i + 1, line_end(s, i + 1))),
    ensures
        value(s, i) is Fail,
{
}

/// An escape always stands for a Unicode scalar value, never for half of a
/// surrogate pair, and is stored as that value's UTF-8 encoding.
pub proof fn lemma_escape_is_scalar(s: Seq<u8>, i: int)
    ensures
        escaped_scalar(s, i) matches Some((c, _)) ==> is_scalar(c) && utf8_raw(c)
            == encode_scalar(c),
{
    if let Some((c, _)) = escaped_scalar(s, i) {
        lemma_escape_unit_bound(s, i);
        lemma_escape_unit_bound(s, i + escape_len(s, i) + 1);
        lemma_utf8_raw_scalar(c);
    }
}

proof fn lemma_escape_unit_bound(s: Seq<u8>, i: int)
    ensures
        escape_unit(s, i) matches Some(u) ==> u <= 0xFFFF,
{
    if 0 <= i && i + 4 < s.len() && s[i] == 0x75 {
        if hex_value(s[i + 1]) is Some && hex_value(s[i + 2]) is Some && hex_value(s[i + 3]) is Some
            && hex_value(s[i + 4]) is Some {
            assert(hex_value(s[i + 1])->Some_0 <= 15);
            assert(hex_value(s[i + 2])->Some_0 <= 15);
            assert(hex_value(s[i + 3])->Some_0 <= 15);
            assert(hex_value(s[i + 4])->Some_0 <= 15);
        }
    }
}

/// A number literal read as an integer lies strictly between -2^53 and 2^53.
pub proof fn lemma_integral_range(s: Seq<u8>, i: int)
    requires
        0 <= i < s.len(),
    ensures
        number(s, i) matches Some((Value::I64(v), _)) ==> -integral_bound() < v
            < integral_bound(),
{
}

} // verus!
