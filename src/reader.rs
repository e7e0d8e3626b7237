//! The recursive-descent reader.
//!
//! Every production reads from the reader's current position and is proved
//! to do what the definition of the same name in [`crate::grammar`] says.
use vstd::prelude::*;
use vstd::utf8::*;
use crate::grammar::{
    Parsed, bare, bare_rest, digits_end, digits_value, document, document_body, elements,
    escape_len, escape_unit, escaped_scalar, exponent_end, fraction_end, has_token, hex_value,
    int_end, integral_bound, is_digit, lemma_name_end, lemma_separator, lemma_string_end,
    is_newline_byte, lemma_verbatim_end, lemma_ws_end, line_end, member, members, name, number, quoted, separator,
    single_value, string, value, verbatim, ws_end, ws_end_from, ws_newline, ws_newline_from,
};
use crate::ident::{is_id_end, is_id_end_byte, is_id_start, is_id_start_byte};
use crate::repr::{Atom, AtomObject, Key, Value, atoms_value};
use crate::util::{
    NO_PROGRESS_LIMIT, ReadBytes, Source, encode_utf8_raw, lemma_ascii_valid_utf8, read_at_least, read_byte,
    read_char, str_from_utf8, utf8_raw,
};

verus! {

broadcast use vstd::std_specs::vec::group_vec_axioms, vstd::seq::group_seq_axioms;

/// Why a parse failed: a description, and the text of the I/O failure that
/// caused it, if one did.
#[derive(Debug)]
pub struct ReaderError {
    pub cause: String,
    pub ioerr: Option<String>,
}

fn reader_err(cause: &str) -> (r: ReaderError)
    ensures
        r.cause@ == cause@,
        r.ioerr is None,
{
    ReaderError { cause: cause.to_owned(), ioerr: None }
}

/// What ends a scan of the input.
#[derive(Clone, Copy)]
enum Stop {
    /// A line feed or a carriage return.
    LineEnd,
    /// Any byte but a decimal digit.
    NonDigit,
}

spec fn stops_at(stop: Stop, b: u8) -> bool {
    match stop {
        Stop::LineEnd => is_newline_byte(b),
        Stop::NonDigit => !is_digit(b),
    }
}

/// The first position at or after `i` where `stop` holds, or the end of the
/// input.
spec fn scan_end(s: Seq<u8>, i: int, stop: Stop) -> int
    decreases s.len() - i,
{
    if 0 <= i < s.len() && !stops_at(stop, s[i]) {
        scan_end(s, i + 1, stop)
    } else {
        i
    }
}

proof fn lemma_scan_end(s: Seq<u8>, i: int, stop: Stop)
    requires
        0 <= i <= s.len(),
    ensures
        i <= scan_end(s, i, stop) <= s.len(),
        stop is LineEnd ==> scan_end(s, i, stop) == line_end(s, i),
        stop is NonDigit ==> scan_end(s, i, stop) == digits_end(s, i),
        forall|j: int| i <= j < scan_end(s, i, stop) ==> !stops_at(stop, #[trigger] s[j]),
    decreases s.len() - i,
{
    if i < s.len() && !stops_at(stop, s[i]) {
        lemma_scan_end(s, i + 1, stop);
    }
}

/// A reader over a buffer of bytes.  It is consumed by one parse.
pub struct Reader {
    buf: Source,
}

impl Reader {
    /// The whole input.
    pub closed spec fn input(&self) -> Seq<u8> {
        self.buf.input()
    }

    /// How much of the input has been read.
    pub closed spec fn pos(&self) -> int {
        self.buf.pos()
    }

    pub closed spec fn wf(&self) -> bool {
        self.buf.wf()
    }

    pub fn new(input: Vec<u8>) -> (r: Reader)
        ensures
            r.wf(),
            r.input() == input@,
            r.pos() == 0,
    {
        Reader { buf: Source::new(input) }
    }

    /// Succeeds when all of the input has been read.
    fn eof(&mut self) -> (r: Result<(), ReaderError>)
        requires
            old(self).wf(),
        ensures
            *final(self) == *old(self),
            r is Ok <==> old(self).pos() == old(self).input().len(),
            r matches Err(e) ==> e.cause@ == "expected end of file"@,
    {
        if !self.buf.is_exhausted() {
            Err(reader_err("expected end of file"))
        } else {
            Ok(())
        }
    }

    /// The next byte, if any, without consuming it.
    fn peek(&self) -> (r: Option<u8>)
        requires
            self.wf(),
        ensures
            0 <= self.pos() < self.input().len() ==> r == Some(self.input()[self.pos()]),
            !(0 <= self.pos() < self.input().len()) ==> r is None,
    {
        self.buf.peek_byte()
    }

    fn consume(&mut self, n: usize)
        requires
            old(self).wf(),
            old(self).pos() + n <= old(self).input().len(),
        ensures
            final(self).wf(),
            final(self).input() == old(self).input(),
            final(self).pos() == old(self).pos() + n,
    {
        self.buf.consume(n);
    }

    /// Reads `token` if it stands next in the input.
    fn fixed_token_opt(&mut self, token: &[u8]) -> (r: bool)
        requires
            old(self).wf(),
        ensures
            final(self).wf(),
            final(self).input() == old(self).input(),
            r == has_token(old(self).input(), old(self).pos(), token@),
            r ==> final(self).pos() == old(self).pos() + token@.len(),
    {
        let ghost s = self.input();
        let ghost p = self.pos();
        let mut scratch: Vec<u8> = Vec::new();
        let mut i: usize = 0;
        while i < token.len()
            invariant
                i <= token@.len(),
                scratch@.len() == i,
            decreases token@.len() - i,
        {
            scratch.push(0u8);
            i = i + 1;
        }
        match read_at_least(&mut self.buf, token.len(), scratch.as_mut_slice()) {
            Ok(ReadBytes::Enough(_)) => {
                assert(scratch@ =~= s.subrange(p, p + token@.len()));
                let same = crate::repr::compare_bytes(scratch.as_slice(), token);
                if let std::cmp::Ordering::Equal = same {
                    true
                } else {
                    false
                }
            },
            _ => false,
        }
    }

    /// Parses the whole input as a document: an object, an array, or the
    /// members of an object without braces.
    pub fn parse_document(self) -> (r: Result<Atom, ReaderError>)
        requires
            self.wf(),
            self.pos() == 0,
        ensures
            r is Ok <==> document(self.input()) is Some,
            r matches Ok(a) ==> document(self.input()) == Some(a@),
    {
        let mut rd = self;
        let ret = match rd.document() {
            Ok(v) => v,
            Err(e) => return Err(e),
        };
        rd.skip_ws();
        match rd.eof() {
            Ok(()) => Ok(ret),
            Err(e) => Err(e),
        }
    }

    /// Parses the whole input as one value.
    pub fn parse_value(self) -> (r: Result<Atom, ReaderError>)
        requires
            self.wf(),
            self.pos() == 0,
        ensures
            r is Ok <==> single_value(self.input()) is Some,
            r matches Ok(a) ==> single_value(self.input()) == Some(a@),
            value(self.input(), ws_end(self.input(), 0)) matches Parsed::Got(_, k) && ws_end(
                self.input(),
                k,
            ) < self.input().len() ==> (r matches Err(e) && e.cause@ == "expected end of file"@),
    {
        let mut rd = self;
        rd.skip_ws();
        let ret = match rd.value() {
            Ok(v) => v,
            Err(e) => return Err(e),
        };
        rd.skip_ws();
        match rd.eof() {
            Ok(()) => Ok(ret),
            Err(e) => Err(e),
        }
    }

    /// Parses `buf` as a document.
    pub fn parse_document_from_buf(buf: &[u8]) -> (r: Result<Atom, ReaderError>)
        ensures
            r is Ok <==> document(buf@) is Some,
            r matches Ok(a) ==> document(buf@) == Some(a@),
    {
        Reader::new(vstd::slice::slice_to_vec(buf)).parse_document()
    }

    /// Parses `buf` as one value.
    pub fn parse_value_from_buf(buf: &[u8]) -> (r: Result<Atom, ReaderError>)
        ensures
            r is Ok <==> single_value(buf@) is Some,
            r matches Ok(a) ==> single_value(buf@) == Some(a@),
    {
        Reader::new(vstd::slice::slice_to_vec(buf)).parse_value()
    }

    /// Reads the body of a document after leading whitespace.
    fn document(&mut self) -> (r: Result<Atom, ReaderError>)
        requires
            old(self).wf(),
        ensures
            final(self).wf(),
            final(self).input() == old(self).input(),
            ({
                let s = old(self).input();
                let j = ws_end(s, old(self).pos());
                if j >= s.len() {
                    r is Err
                } else {
                    match document_body(s, j) {
                        Parsed::Got(v, k) => r matches Ok(a) && a@ == v && final(self).pos() == k,
                        _ => r is Err,
                    }
                }
            }),
    {
        self.skip_ws();
        match self.peek() {
            Some(b) => {
                if b == 0x7B {
                    match self.object_no_peek() {
                        Ok(o) => Ok(Atom::Object(o)),
                        Err(e) => Err(e),
                    }
                } else if b == 0x5B {
                    match self.array_no_peek() {
                        Ok(l) => Ok(Atom::Array(l)),
                        Err(e) => Err(e),
                    }
                } else {
                    match self.object_items_opt() {
                        Ok(o) => Ok(Atom::Object(o)),
                        Err(e) => Err(e),
                    }
                }
            },
            None => Err(reader_err("expected document")),
        }
    }

    /// Skips whitespace and comments; tells whether a line terminator was
    /// crossed.
    fn skip_ws(&mut self) -> (newline: bool)
        requires
            old(self).wf(),
        ensures
            final(self).wf(),
            final(self).input() == old(self).input(),
            final(self).pos() == ws_end(old(self).input(), old(self).pos()),
            old(self).pos() <= final(self).pos(),
            newline == ws_newline(old(self).input(), old(self).pos()),
    {
        let ghost s = self.input();
        let ghost p = self.pos();
        let mut newline = false;
        let mut comment = false;
        loop
            invariant
                self.wf(),
                self.input() == s,
                0 <= p <= self.pos() <= s.len(),
                ws_end_from(s, self.pos(), comment) == ws_end(s, p),
                ws_newline(s, p) == (newline || ws_newline_from(s, self.pos(), comment)),
            ensures
                self.pos() == ws_end(s, p),
                newline == ws_newline(s, p),
            decreases s.len() - self.pos(),
        {
            match self.peek() {
                None => {
                    break ;
                },
                Some(b) => {
                    if comment {
                        if b == 0x0A || b == 0x0D {
                            newline = true;
                            comment = false;
                        }
                    } else if b == 0x20 || b == 0x09 {
                    } else if b == 0x0A || b == 0x0D {
                        newline = true;
                    } else if b == 0x23 {
                        comment = true;
                    } else {
                        break ;
                    }
                    self.consume(1);
                },
            }
        }
        newline
    }

    /// Reads a value separator, if one is next: whitespace, then a comma and
    /// more whitespace, or whitespace that crosses a line terminator.
    fn skip_value_separator_opt(&mut self) -> (r: bool)
        requires
            old(self).wf(),
        ensures
            final(self).wf(),
            final(self).input() == old(self).input(),
            (r, final(self).pos()) == separator(old(self).input(), old(self).pos()),
    {
        let ghost s = self.input();
        let ghost p = self.pos();
        proof {
            lemma_ws_end(s, p, false);
        }
        let newline = self.skip_ws();
        if self.peek() == Some(0x2Cu8) {
            self.consume(1);
            self.skip_ws();
            true
        } else {
            newline
        }
    }

    /// Goes through the unread input a window at a time, appends to `bytes`
    /// every byte before the first at which `stop` holds, and consumes them.
    /// Tells whether such a byte was found before the input ran out.  A
    /// source that yields `NO_PROGRESS_LIMIT` empty windows in a row counts
    /// as exhausted.
    fn loop_with_buffer(&mut self, stop: Stop, bytes: &mut Vec<u8>) -> (found: bool)
        requires
            old(self).wf(),
        ensures
            final(self).wf(),
            final(self).input() == old(self).input(),
            final(self).pos() == scan_end(old(self).input(), old(self).pos(), stop),
            final(bytes)@ == old(bytes)@ + old(self).input().subrange(
                old(self).pos(),
                final(self).pos(),
            ),
            found == (final(self).pos() < old(self).input().len()),
    {
        let ghost s = self.input();
        let ghost p = self.pos();
        proof {
            lemma_scan_end(s, p, stop);
        }
        let mut zeroes: usize = 0;
        loop
            invariant
                self.wf(),
                self.input() == s,
                s == old(self).input(),
                p == old(self).pos(),
                p <= self.pos() <= scan_end(s, p, stop) <= s.len(),
                scan_end(s, self.pos(), stop) == scan_end(s, p, stop),
                bytes@ == old(bytes)@ + s.subrange(p, self.pos()),
                zeroes < NO_PROGRESS_LIMIT,
            decreases s.len() - self.pos(), NO_PROGRESS_LIMIT - zeroes,
        {
            let window = self.buf.fill_buf();
            if window.len() == 0 {
                zeroes = zeroes + 1;
                if zeroes >= NO_PROGRESS_LIMIT {
                    return false;
                }
                continue ;
            }
            let ghost start = self.pos();
            let mut i: usize = 0;
            let mut hit = false;
            while i < window.len()
                invariant
                    window@ == s.subrange(start, s.len() as int),
                    0 <= start <= s.len(),
                    start + window@.len() == s.len(),
                    i <= window@.len(),
                    scan_end(s, start + i, stop) == scan_end(s, p, stop),
                    bytes@ == old(bytes)@ + s.subrange(p, start + i),
                    0 <= p <= start,
                    hit ==> start + i < s.len() && stops_at(stop, s[start + i]),
                ensures
                    i <= window@.len(),
                    scan_end(s, start + i, stop) == scan_end(s, p, stop),
                    bytes@ == old(bytes)@ + s.subrange(p, start + i),
                    hit ==> start + i < s.len() && stops_at(stop, s[start + i]),
                    !hit ==> i == window@.len(),
                decreases window@.len() - i,
            {
                let b = window[i];
                assert(b == s[start + i]);
                let stops = match stop {
                    Stop::LineEnd => b == 0x0A || b == 0x0D,
                    Stop::NonDigit => b < 0x30 || 0x39 < b,
                };
                if stops {
                    hit = true;
                    break ;
                }
                let ghost prev = bytes@;
                bytes.push(b);
                proof {
                    assert(s.subrange(p, start + i + 1) =~= s.subrange(p, start + i).push(
                        s[start + i],
                    ));
                    assert(bytes@ =~= prev.push(b));
                }
                i = i + 1;
            }
            self.buf.consume(i);
            if hit {
                return true;
            }
        }
    }

    /// Reads the bytes up to the next line terminator, which is not
    /// consumed.  They may not be valid UTF-8.
    fn non_newline_chars(&mut self) -> (r: Vec<u8>)
        requires
            old(self).wf(),
        ensures
            final(self).wf(),
            final(self).input() == old(self).input(),
            final(self).pos() == line_end(old(self).input(), old(self).pos()),
            old(self).pos() <= final(self).pos(),
            r@ == old(self).input().subrange(old(self).pos(), final(self).pos()),
    {
        proof {
            lemma_scan_end(self.input(), self.pos(), Stop::LineEnd);
        }
        let mut bytes: Vec<u8> = Vec::new();
        self.loop_with_buffer(Stop::LineEnd, &mut bytes);
        bytes
    }

    /// Reads a run of decimal digits and appends them to `bytes`.
    fn digits_opt(&mut self, bytes: &mut Vec<u8>)
        requires
            old(self).wf(),
        ensures
            final(self).wf(),
            final(self).input() == old(self).input(),
            final(self).pos() == digits_end(old(self).input(), old(self).pos()),
            old(self).pos() <= final(self).pos(),
            final(bytes)@ == old(bytes)@ + old(self).input().subrange(
                old(self).pos(),
                final(self).pos(),
            ),
            forall|j: int| old(bytes)@.len() <= j < final(bytes)@.len() ==> #[trigger] is_digit(final(bytes)@[j]),
    {
        let ghost s = self.input();
        let ghost p = self.pos();
        proof {
            lemma_scan_end(s, p, Stop::NonDigit);
        }
        self.loop_with_buffer(Stop::NonDigit, bytes);
        assert forall|j: int| old(bytes)@.len() <= j < bytes@.len() implies #[trigger] is_digit(bytes@[j]) by {
            assert(bytes@[j] == s[p + j - old(bytes)@.len()]);
            assert(!stops_at(Stop::NonDigit, s[p + j - old(bytes)@.len()]));
        }
    }

    /// Reads the fraction of a number literal, if one is next, and appends
    /// it to `bytes`.
    fn fraction_opt(&mut self, bytes: &mut Vec<u8>) -> (r: Result<(), ReaderError>)
        requires
            old(self).wf(),
        ensures
            final(self).wf(),
            final(self).input() == old(self).input(),
            match fraction_end(old(self).input(), old(self).pos()) {
                None => r is Err,
                Some(f) => r is Ok && final(self).pos() == f && old(self).pos() <= f
                    && final(bytes)@ == old(bytes)@ + old(self).input().subrange(old(self).pos(), f),
            },
            forall|j: int| old(bytes)@.len() <= j < final(bytes)@.len() ==> #[trigger] final(bytes)@[j] < 0x80,
    {
        let ghost s = self.input();
        let ghost p = self.pos();
        if self.peek() == Some(0x2Eu8) {
            bytes.push(0x2E);
            self.consume(1);
            match self.peek() {
                Some(b) => {
                    if b < 0x30 || 0x39 < b {
                        return Err(reader_err("a number cannot have a trailing decimal point"));
                    }
                    bytes.push(b);
                    self.consume(1);
                },
                None => {
                    return Err(reader_err("a number cannot have a trailing decimal point"));
                },
            }
            let mid = bytes.len();
            self.digits_opt(bytes);
            assert(bytes@ =~= old(bytes)@ + s.subrange(p, self.pos()));
            assert forall|j: int| old(bytes)@.len() <= j < bytes@.len() implies #[trigger] bytes@[j]
                < 0x80 by {
                if j >= mid {
                    assert(is_digit(bytes@[j]));
                }
            }
        }
        Ok(())
    }

    /// Reads the exponent of a number literal, if one is next, and appends
    /// it to `bytes`.
    fn exponent_opt(&mut self, bytes: &mut Vec<u8>) -> (r: Result<(), ReaderError>)
        requires
            old(self).wf(),
        ensures
            final(self).wf(),
            final(self).input() == old(self).input(),
            match exponent_end(old(self).input(), old(self).pos()) {
                None => r is Err,
                Some(f) => r is Ok && final(self).pos() == f && old(self).pos() <= f
                    && final(bytes)@ == old(bytes)@ + old(self).input().subrange(old(self).pos(), f),
            },
            forall|j: int| old(bytes)@.len() <= j < final(bytes)@.len() ==> #[trigger] final(bytes)@[j] < 0x80,
    {
        let ghost s = self.input();
        let ghost p = self.pos();
        let e = self.peek();
        if e == Some(0x65u8) || e == Some(0x45u8) {
            bytes.push(e.unwrap());
            self.consume(1);
            let sign = self.peek();
            if sign == Some(0x2Bu8) || sign == Some(0x2Du8) {
                bytes.push(sign.unwrap());
                self.consume(1);
            }
            match self.peek() {
                Some(b) => {
                    if b < 0x30 || 0x39 < b {
                        return Err(reader_err("a number has an incomplete exponent part"));
                    }
                    bytes.push(b);
                    self.consume(1);
                },
                None => {
                    return Err(reader_err("a number has an incomplete exponent part"));
                },
            }
            let mid = bytes.len();
            self.digits_opt(bytes);
            assert(bytes@ =~= old(bytes)@ + s.subrange(p, self.pos()));
            assert forall|j: int| old(bytes)@.len() <= j < bytes@.len() implies #[trigger] bytes@[j]
                < 0x80 by {
                if j >= mid {
                    assert(is_digit(bytes@[j]));
                }
            }
        }
        Ok(())
    }

    /// Given a minus sign or a digit next, reads a number literal.
    fn number_no_peek(&mut self, initial: u8) -> (r: Result<Atom, ReaderError>)
        requires
            old(self).wf(),
            0 <= old(self).pos() < old(self).input().len(),
            old(self).input()[old(self).pos()] == initial,
            initial == 0x2D || is_digit(initial),
        ensures
            final(self).wf(),
            final(self).input() == old(self).input(),
            match number(old(self).input(), old(self).pos()) {
                None => r is Err,
                Some((v, e)) => r matches Ok(a) && a@ == v && final(self).pos() == e,
            },
            r is Ok ==> old(self).pos() < final(self).pos(),
    {
        let ghost s = self.input();
        let ghost p = self.pos();
        self.consume(1);
        let mut bytes: Vec<u8> = vec![initial];
        let neg = initial == 0x2D;
        let mut int_start: usize = 0;
        if neg {
            match self.peek() {
                Some(b) => {
                    if b < 0x30 || 0x39 < b {
                        return Err(reader_err("expected a number, got `-`"));
                    }
                    bytes.push(b);
                    self.consume(1);
                },
                None => {
                    return Err(reader_err("expected a number, got `-`"));
                },
            }
            int_start = 1;
        }
        assert(bytes@ =~= s.subrange(p, self.pos()));
        let ghost k = p + int_start;
        // a zero stands alone: no digits follow it in the integer part
        if bytes[int_start] != 0x30 {
            self.digits_opt(&mut bytes);
        }
        assert(bytes@ =~= s.subrange(p, self.pos()));
        assert(self.pos() == int_end(s, k));
        assert(forall|j: int| int_start <= j < bytes@.len() ==> #[trigger] is_digit(bytes@[j]));
        let int_len = bytes.len();
        match self.fraction_opt(&mut bytes) {
            Ok(()) => {},
            Err(e) => {
                return Err(e);
            },
        }
        match self.exponent_opt(&mut bytes) {
            Ok(()) => {},
            Err(e) => {
                return Err(e);
            },
        }
        assert(bytes@ =~= s.subrange(p, self.pos()));
        if bytes.len() == int_len {
            assert(bytes@.subrange(int_start as int, int_len as int) =~= s.subrange(k, p + int_len));
            let mag = integral_magnitude(bytes.as_slice(), int_start, int_len);
            if mag < 0x20_0000_0000_0000 {
                let v: i64 = if neg {
                    -(mag as i64)
                } else {
                    mag as i64
                };
                return Ok(Atom::I64(v));
            }
        }
        proof {
            assert forall|j: int| 0 <= j < bytes@.len() implies #[trigger] bytes@[j] < 0x80 by {
                if j >= int_len {
                } else if j >= int_start {
                    assert(is_digit(bytes@[j]));
                }
            }
            lemma_ascii_valid_utf8(bytes@);
        }
        match str_from_utf8(bytes.as_slice()) {
            Some(text) => Ok(Atom::F64(text.to_owned())),
            None => Err(reader_err("invalid number")),
        }
    }

    /// Reads one hexadecimal digit.
    fn read_hex_digit(&mut self) -> (r: Result<u16, ReaderError>)
        requires
            old(self).wf(),
        ensures
            final(self).wf(),
            final(self).input() == old(self).input(),
            old(self).pos() <= final(self).pos(),
            ({
                let s = old(self).input();
                let p = old(self).pos();
                if p < s.len() && hex_value(s[p]) is Some {
                    r matches Ok(v) && v as u32 == hex_value(s[p])->Some_0 && final(self).pos() == p + 1
                } else {
                    r is Err
                }
            }),
    {
        match read_byte(&mut self.buf) {
            Some(b) => {
                if 0x30 <= b && b <= 0x39 {
                    Ok((b - 0x30) as u16)
                } else if 0x61 <= b && b <= 0x66 {
                    Ok((b - 0x61) as u16 + 10)
                } else if 0x41 <= b && b <= 0x46 {
                    Ok((b - 0x41) as u16 + 10)
                } else {
                    Err(reader_err("invalid hexadecimal digits after `\\u`"))
                }
            },
            None => Err(reader_err("incomplete escape sequence")),
        }
    }

    /// Reads an escape sequence after its backslash and returns the UTF-16
    /// code unit it stands for, which may be half of a surrogate pair.
    fn escaped_minus_escape(&mut self) -> (r: Result<u16, ReaderError>)
        requires
            old(self).wf(),
        ensures
            final(self).wf(),
            final(self).input() == old(self).input(),
            old(self).pos() <= final(self).pos(),
            match escape_unit(old(self).input(), old(self).pos()) {
                None => r is Err,
                Some(u) => r matches Ok(v) && v as u32 == u && final(self).pos() == old(self).pos()
                    + escape_len(old(self).input(), old(self).pos()),
            },
    {
        let ghost s = self.input();
        let ghost p = self.pos();
        match read_byte(&mut self.buf) {
            Some(b) => {
                if b == 0x27 {
                    Ok(0x27)
                } else if b == 0x22 {
                    Ok(0x22)
                } else if b == 0x5C {
                    Ok(0x5C)
                } else if b == 0x2F {
                    Ok(0x2F)
                } else if b == 0x62 {
                    Ok(0x08)
                } else if b == 0x66 {
                    Ok(0x0C)
                } else if b == 0x6E {
                    Ok(0x0A)
                } else if b == 0x72 {
                    Ok(0x0D)
                } else if b == 0x74 {
                    Ok(0x09)
                } else if b == 0x75 {
                    let a = match self.read_hex_digit() {
                        Ok(v) => v,
                        Err(e) => return Err(e),
                    };
                    let b = match self.read_hex_digit() {
                        Ok(v) => v,
                        Err(e) => return Err(e),
                    };
                    let c = match self.read_hex_digit() {
                        Ok(v) => v,
                        Err(e) => return Err(e),
                    };
                    let d = match self.read_hex_digit() {
                        Ok(v) => v,
                        Err(e) => return Err(e),
                    };
                    Ok(a * 4096 + b * 256 + c * 16 + d)
                } else {
                    Err(reader_err("unknown escape sequence"))
                }
            },
            None => Err(reader_err("incomplete escape sequence")),
        }
    }

    /// Reads an escape sequence after its backslash, and the escaped low
    /// surrogate that must follow a high one, and returns the scalar value.
    fn escaped_char(&mut self) -> (r: Result<u32, ReaderError>)
        requires
            old(self).wf(),
        ensures
            final(self).wf(),
            final(self).input() == old(self).input(),
            old(self).pos() <= final(self).pos(),
            match escaped_scalar(old(self).input(), old(self).pos()) {
                None => r is Err,
                Some((c, j)) => r == Ok::<u32, ReaderError>(c) && final(self).pos() == j,
            },
    {
        let first = match self.escaped_minus_escape() {
            Ok(v) => v,
            Err(e) => return Err(e),
        };
        if 0xD800 <= first && first <= 0xDBFF {
            if self.peek() != Some(0x5Cu8) {
                return Err(reader_err("high surrogate is not followed by an escaped low surrogate"));
            }
            self.consume(1);
            let second = match self.escaped_minus_escape() {
                Ok(v) => v,
                Err(e) => return Err(e),
            };
            if !(0xDC00 <= second && second <= 0xDFFF) {
                return Err(reader_err("high surrogate is not followed by an escaped low surrogate"));
            }
            Ok(0x10000 + ((first - 0xD800) as u32) * 0x400 + (second - 0xDC00) as u32)
        } else if 0xDC00 <= first && first <= 0xDFFF {
            Err(reader_err("low surrogate cannot be used independently"))
        } else {
            Ok(first as u32)
        }
    }

    /// Appends the UTF-8 layout of `ch` to `bytes`.
    fn push_utf8(&self, bytes: &mut Vec<u8>, ch: u32)
        ensures
            final(bytes)@ == old(bytes)@ + utf8_raw(ch),
    {
        let mut charbuf: Vec<u8> = vec![0u8, 0u8, 0u8, 0u8];
        match encode_utf8_raw(ch, charbuf.as_mut_slice()) {
            Some(n) => {
                let mut j: usize = 0;
                while j < n
                    invariant
                        j <= n,
                        n == utf8_raw(ch).len(),
                        n <= charbuf@.len(),
                        charbuf@.subrange(0, n as int) == utf8_raw(ch),
                        bytes@ == old(bytes)@ + charbuf@.subrange(0, j as int),
                    decreases n - j,
                {
                    bytes.push(charbuf[j]);
                    j = j + 1;
                    assert(bytes@ =~= old(bytes)@ + charbuf@.subrange(0, j as int));
                }
            },
            None => {},
        }
    }

    /// Reads the rest of a quoted string, closing quote included, and
    /// returns its text.
    fn quoted_chars_then_quote(&mut self, quote: u8) -> (r: Result<String, ReaderError>)
        requires
            old(self).wf(),
        ensures
            final(self).wf(),
            final(self).input() == old(self).input(),
            match quoted(old(self).input(), old(self).pos(), quote, seq![]) {
                None => r is Err,
                Some((b, e)) => if valid_utf8(b) {
                    r matches Ok(t) && t@ == decode_utf8(b) && final(self).pos() == e
                } else {
                    r is Err
                },
            },
    {
        let ghost s = self.input();
        let ghost p = self.pos();
        let ghost target = quoted(s, p, quote, seq![]);
        let mut bytes: Vec<u8> = Vec::new();
        loop
            invariant_except_break
                quoted(s, self.pos(), quote, bytes@) == target,
            invariant
                self.wf(),
                self.input() == s,
                0 <= p <= self.pos() <= s.len(),
                s == old(self).input(),
                p == old(self).pos(),
                target == quoted(s, p, quote, seq![]),
            ensures
                target == Some((bytes@, self.pos())),
            decreases s.len() - self.pos(),
        {
            match self.peek() {
                None => {
                    return Err(reader_err("incomplete string literal"));
                },
                Some(b) => {
                    if b == 0x5C {
                        self.consume(1);
                        let ch = match self.escaped_char() {
                            Ok(c) => c,
                            Err(e) => return Err(e),
                        };
                        self.push_utf8(&mut bytes, ch);
                    } else if b == quote {
                        self.consume(1);
                        break ;
                    } else {
                        bytes.push(b);
                        self.consume(1);
                    }
                },
            }
        }
        match str_from_utf8(bytes.as_slice()) {
            Some(t) => Ok(t.to_owned()),
            None => Err(reader_err("invalid UTF-8 sequence in a quoted string")),
        }
    }

    /// Given a quote next, reads a quoted string.
    fn string_no_peek(&mut self, quote: u8) -> (r: Result<String, ReaderError>)
        requires
            old(self).wf(),
            0 <= old(self).pos() < old(self).input().len(),
            old(self).input()[old(self).pos()] == quote,
        ensures
            final(self).wf(),
            final(self).input() == old(self).input(),
            match string(old(self).input(), old(self).pos()) {
                None => r is Err,
                Some((t, e)) => r matches Ok(v) && v@ == t && final(self).pos() == e,
            },
    {
        self.consume(1);
        self.quoted_chars_then_quote(quote)
    }

    /// Given a `|` next, reads a verbatim string: its fragments joined by
    /// line feeds.
    fn verbatim_string_no_peek(&mut self) -> (r: Result<String, ReaderError>)
        requires
            old(self).wf(),
            0 <= old(self).pos() < old(self).input().len(),
            old(self).input()[old(self).pos()] == 0x7C,
        ensures
            final(self).wf(),
            final(self).input() == old(self).input(),
            match verbatim(old(self).input(), old(self).pos(), seq![]) {
                None => r is Err,
                Some((b, e)) => r matches Ok(t) && t@ == decode_utf8(b) && final(self).pos() == e,
            },
    {
        let ghost s = self.input();
        let ghost p = self.pos();
        let ghost target = verbatim(s, p, seq![]);
        let mut joined: Vec<u8> = Vec::new();
        proof {
            lemma_ascii_valid_utf8(seq![]);
            lemma_ascii_valid_utf8(seq![0x0Au8]);
        }
        loop
            invariant_except_break
                0 <= self.pos() < s.len(),
                s[self.pos()] == 0x7C,
                verbatim(s, self.pos(), joined@) == target,
            invariant
                self.wf(),
                self.input() == s,
                s == old(self).input(),
                p == old(self).pos(),
                target == verbatim(s, p, seq![]),
                valid_utf8(joined@),
                valid_utf8(seq![0x0Au8]),
            ensures
                target == Some((joined@, self.pos())),
            decreases s.len() - self.pos(),
        {
            let ghost i = self.pos();
            let ghost acc = joined@;
            self.consume(1);
            let mut frag = self.non_newline_chars();
            if str_from_utf8(frag.as_slice()).is_none() {
                return Err(reader_err("invalid UTF-8 sequence in a verbatim string"));
            }
            let ghost fr = frag@;
            joined.append(&mut frag);
            proof {
                valid_utf8_concat(acc, fr);
            }
            // the line terminator, if any
            self.buf.consume(1);
            self.skip_ws();
            if self.peek() != Some(0x7Cu8) {
                break ;
            }
            joined.push(0x0A);
            proof {
                assert(joined@ =~= acc + fr + seq![0x0Au8]);
                valid_utf8_concat(acc + fr, seq![0x0Au8]);
            }
        }
        match str_from_utf8(joined.as_slice()) {
            Some(t) => Ok(t.to_owned()),
            None => Err(reader_err("invalid UTF-8 sequence in a verbatim string")),
        }
    }

    /// Given the first byte of a bare string next, reads the bare string.
    fn bare_string_no_peek(&mut self) -> (r: Result<String, ReaderError>)
        requires
            old(self).wf(),
            0 <= old(self).pos() < old(self).input().len(),
        ensures
            final(self).wf(),
            final(self).input() == old(self).input(),
            match bare(old(self).input(), old(self).pos()) {
                None => r is Err,
                Some((t, e)) => r matches Ok(v) && v@ == t && final(self).pos() == e,
            },
    {
        let ghost s = self.input();
        let ghost p = self.pos();
        let start = self.buf.position();
        match read_char(&mut self.buf) {
            Ok(Some(ch)) => {
                if !is_id_start(ch) {
                    return Err(reader_err("expected a bare string, got an invalid character"));
                }
            },
            Ok(None) => {
                return Err(reader_err("expected a bare string, got the end of file"));
            },
            Err(_) => {
                return Err(reader_err("expected a bare string, got an invalid character"));
            },
        }
        let ghost after = self.pos();
        proof {
            assert(s.subrange(p, after) =~= s.subrange(start as int, after));
        }
        loop
            invariant_except_break
                bare_rest(s, self.pos()) == bare_rest(s, after),
            invariant
                self.wf(),
                self.input() == s,
                s == old(self).input(),
                p == old(self).pos(),
                start == p,
                p < after <= self.pos() <= s.len(),
                bare(s, p) == match bare_rest(s, after) {
                    Some(e) => Some((decode_utf8(s.subrange(p, e)), e)),
                    None => None,
                },
                valid_utf8(s.subrange(p, self.pos())),
            ensures
                bare_rest(s, after) == Some(self.pos()),
            decreases s.len() - self.pos(),
        {
            let ghost i = self.pos();
            match self.peek() {
                Some(b) => {
                    if !is_id_end_byte(b) {
                        break ;
                    }
                },
                None => {
                    break ;
                },
            }
            match read_char(&mut self.buf) {
                Ok(Some(ch)) => {
                    if !is_id_end(ch) {
                        return Err(reader_err("expected a bare string, got an invalid character"));
                    }
                },
                _ => {
                    return Err(reader_err("expected a bare string, got an invalid character"));
                },
            }
            proof {
                assert(s.subrange(p, self.pos()) =~= s.subrange(p, i) + s.subrange(i, self.pos()));
                valid_utf8_concat(s.subrange(p, i), s.subrange(i, self.pos()));
            }
        }
        match str_from_utf8(self.buf.slice(start, self.buf.position())) {
            Some(t) => Ok(t.to_owned()),
            None => Err(reader_err("invalid UTF-8 sequence in a bare string")),
        }
    }

    /// Reads a value, which must be next.
    fn value(&mut self) -> (r: Result<Atom, ReaderError>)
        requires
            old(self).wf(),
        ensures
            final(self).wf(),
            final(self).input() == old(self).input(),
            match value(old(self).input(), old(self).pos()) {
                Parsed::Got(v, e) => r matches Ok(a) && a@ == v && final(self).pos() == e
                    && old(self).pos() < e,
                _ => r is Err,
            },
        decreases old(self).input().len() - old(self).pos(), 2int,
    {
        match self.value_opt() {
            Ok(Some(v)) => Ok(v),
            Ok(None) => Err(reader_err("expected value")),
            Err(e) => Err(e),
        }
    }

    /// Reads a value if one is next.
    fn value_opt(&mut self) -> (r: Result<Option<Atom>, ReaderError>)
        requires
            old(self).wf(),
        ensures
            final(self).wf(),
            final(self).input() == old(self).input(),
            match value(old(self).input(), old(self).pos()) {
                Parsed::Fail => r is Err,
                Parsed::Absent => r matches Ok(None) && final(self).pos() == old(self).pos(),
                Parsed::Got(v, e) => r matches Ok(Some(a)) && a@ == v && final(self).pos() == e
                    && old(self).pos() < e,
            },
        decreases old(self).input().len() - old(self).pos(), 1int,
    {
        let ghost s = self.input();
        let ghost p = self.pos();
        match self.peek() {
            None => Ok(None),
            Some(b) => {
                if b == 0x66 {
                    let t: Vec<u8> = vec![0x66u8, 0x61u8, 0x6Cu8, 0x73u8, 0x65u8];
                    assert(t@ =~= seq![0x66u8, 0x61, 0x6C, 0x73, 0x65]);
                    if self.fixed_token_opt(t.as_slice()) {
                        Ok(Some(Atom::False))
                    } else {
                        Err(reader_err("expected false"))
                    }
                } else if b == 0x6E {
                    let t: Vec<u8> = vec![0x6Eu8, 0x75u8, 0x6Cu8, 0x6Cu8];
                    assert(t@ =~= seq![0x6Eu8, 0x75, 0x6C, 0x6C]);
                    if self.fixed_token_opt(t.as_slice()) {
                        Ok(Some(Atom::Null))
                    } else {
                        Err(reader_err("expected null"))
                    }
                } else if b == 0x74 {
                    let t: Vec<u8> = vec![0x74u8, 0x72u8, 0x75u8, 0x65u8];
                    assert(t@ =~= seq![0x74u8, 0x72, 0x75, 0x65]);
                    if self.fixed_token_opt(t.as_slice()) {
                        Ok(Some(Atom::True))
                    } else {
                        Err(reader_err("expected true"))
                    }
                } else if b == 0x7B {
                    match self.object_no_peek() {
                        Ok(o) => Ok(Some(Atom::Object(o))),
                        Err(e) => Err(e),
                    }
                } else if b == 0x5B {
                    match self.array_no_peek() {
                        Ok(l) => Ok(Some(Atom::Array(l))),
                        Err(e) => Err(e),
                    }
                } else if b == 0x2D || (0x30 <= b && b <= 0x39) {
                    match self.number_no_peek(b) {
                        Ok(v) => Ok(Some(v)),
                        Err(e) => Err(e),
                    }
                } else if b == 0x22 || b == 0x27 {
                    proof {
                        lemma_string_end(s, p);
                    }
                    match self.string_no_peek(b) {
                        Ok(t) => Ok(Some(Atom::OwnedString(t))),
                        Err(e) => Err(e),
                    }
                } else if b == 0x7C {
                    proof {
                        lemma_verbatim_end(s, p, seq![]);
                    }
                    match self.verbatim_string_no_peek() {
                        Ok(t) => Ok(Some(Atom::OwnedString(t))),
                        Err(e) => Err(e),
                    }
                } else {
                    Ok(None)
                }
            },
        }
    }

    /// Given a `{` next, reads an object.
    fn object_no_peek(&mut self) -> (r: Result<AtomObject, ReaderError>)
        requires
            old(self).wf(),
            0 <= old(self).pos() < old(self).input().len(),
            old(self).input()[old(self).pos()] == 0x7B,
        ensures
            final(self).wf(),
            final(self).input() == old(self).input(),
            match value(old(self).input(), old(self).pos()) {
                Parsed::Got(v, e) => r matches Ok(o) && v == Value::Object(o.value_map())
                    && final(self).pos() == e,
                _ => r is Err,
            },
            r is Ok ==> old(self).pos() < final(self).pos(),
        decreases old(self).input().len() - old(self).pos(), 0int,
    {
        self.consume(1);
        self.skip_ws();
        let items = match self.object_items_opt() {
            Ok(o) => o,
            Err(e) => return Err(e),
        };
        if self.peek() != Some(0x7Du8) {
            return Err(reader_err("expected `}`"));
        }
        self.consume(1);
        Ok(items)
    }

    /// Reads the members of an object, separated by value separators.
    fn object_items_opt(&mut self) -> (r: Result<AtomObject, ReaderError>)
        requires
            old(self).wf(),
        ensures
            final(self).wf(),
            final(self).input() == old(self).input(),
            match members(old(self).input(), old(self).pos(), Map::empty()) {
                Parsed::Got(m, e) => r matches Ok(o) && o.value_map() == m
                    && final(self).pos() == e,
                _ => r is Err,
            },
            r is Ok ==> old(self).pos() <= final(self).pos(),
        decreases old(self).input().len() - old(self).pos(), 2int,
    {
        let ghost s = self.input();
        let ghost p = self.pos();
        let ghost target = members(s, p, Map::empty());
        let mut items = AtomObject::new();
        loop
            invariant_except_break
                members(s, self.pos(), items.value_map()) == target,
            invariant
                self.wf(),
                self.input() == s,
                s == old(self).input(),
                p == old(self).pos(),
                p <= self.pos() <= s.len(),
                target == members(s, p, Map::empty()),
            ensures
                target == Parsed::Got(items.value_map(), self.pos()),
            decreases s.len() - self.pos(),
        {
            let (key, value) = match self.member_opt() {
                Ok(Some(kv)) => kv,
                Ok(None) => {
                    break ;
                },
                Err(e) => return Err(e),
            };
            proof {
                lemma_separator(s, self.pos());
            }
            items.insert(key, value);
            if !self.skip_value_separator_opt() {
                break ;
            }
        }
        Ok(items)
    }

    /// Reads a member if one is next.
    fn member_opt(&mut self) -> (r: Result<Option<(Key, Atom)>, ReaderError>)
        requires
            old(self).wf(),
        ensures
            final(self).wf(),
            final(self).input() == old(self).input(),
            match member(old(self).input(), old(self).pos()) {
                Parsed::Fail => r is Err,
                Parsed::Absent => r matches Ok(None) && final(self).pos() == old(self).pos(),
                Parsed::Got((k, v), e) => r matches Ok(Some(kv)) && kv.0.0@ == k && kv.1@ == v
                    && final(self).pos() == e && old(self).pos() < e <= old(self).input().len(),
            },
        decreases old(self).input().len() - old(self).pos(), 1int,
    {
        let ghost s = self.input();
        let ghost p = self.pos();
        proof {
            lemma_name_end(s, p);
        }
        let name = match self.name_opt() {
            Ok(Some(n)) => n,
            Ok(None) => return Ok(None),
            Err(e) => return Err(e),
        };
        proof {
            lemma_ws_end(s, self.pos(), false);
        }
        self.skip_ws();
        match self.peek() {
            Some(b) => {
                if b == 0x3A || b == 0x3D {
                    self.consume(1);
                } else {
                    return Err(reader_err("expected `:` or `=`"));
                }
            },
            None => {
                return Err(reader_err("expected `:` or `=`"));
            },
        }
        proof {
            lemma_ws_end(s, self.pos(), false);
        }
        self.skip_ws();
        let value = match self.value() {
            Ok(v) => v,
            Err(e) => return Err(e),
        };
        Ok(Some((Key(name), value)))
    }

    /// Reads a member name if one is next.
    fn name_opt(&mut self) -> (r: Result<Option<String>, ReaderError>)
        requires
            old(self).wf(),
        ensures
            final(self).wf(),
            final(self).input() == old(self).input(),
            match name(old(self).input(), old(self).pos()) {
                Parsed::Fail => r is Err,
                Parsed::Absent => r matches Ok(None) && final(self).pos() == old(self).pos(),
                Parsed::Got(k, e) => r matches Ok(Some(t)) && t@ == k && final(self).pos() == e,
            },
    {
        match self.peek() {
            Some(b) => {
                if b == 0x22 || b == 0x27 {
                    match self.string_no_peek(b) {
                        Ok(t) => Ok(Some(t)),
                        Err(e) => Err(e),
                    }
                } else if is_id_start_byte(b) {
                    match self.bare_string_no_peek() {
                        Ok(t) => Ok(Some(t)),
                        Err(e) => Err(e),
                    }
                } else {
                    Ok(None)
                }
            },
            None => Ok(None),
        }
    }

    /// Given a `[` next, reads an array.
    fn array_no_peek(&mut self) -> (r: Result<Vec<Atom>, ReaderError>)
        requires
            old(self).wf(),
            0 <= old(self).pos() < old(self).input().len(),
            old(self).input()[old(self).pos()] == 0x5B,
        ensures
            final(self).wf(),
            final(self).input() == old(self).input(),
            match value(old(self).input(), old(self).pos()) {
                Parsed::Got(v, e) => r matches Ok(l) && v == Value::Array(atoms_value(l@))
                    && final(self).pos() == e,
                _ => r is Err,
            },
            r is Ok ==> old(self).pos() < final(self).pos(),
        decreases old(self).input().len() - old(self).pos(), 0int,
    {
        self.consume(1);
        self.skip_ws();
        let elements = match self.array_items_opt() {
            Ok(l) => l,
            Err(e) => return Err(e),
        };
        if self.peek() != Some(0x5Du8) {
            return Err(reader_err("expected `]`"));
        }
        self.consume(1);
        Ok(elements)
    }

    /// Reads the values of an array, separated by value separators.
    fn array_items_opt(&mut self) -> (r: Result<Vec<Atom>, ReaderError>)
        requires
            old(self).wf(),
        ensures
            final(self).wf(),
            final(self).input() == old(self).input(),
            match elements(old(self).input(), old(self).pos(), seq![]) {
                Parsed::Got(a, e) => r matches Ok(l) && atoms_value(l@) == a
                    && final(self).pos() == e,
                _ => r is Err,
            },
            r is Ok ==> old(self).pos() <= final(self).pos(),
        decreases old(self).input().len() - old(self).pos(), 2int,
    {
        let ghost s = self.input();
        let ghost p = self.pos();
        let ghost target = elements(s, p, seq![]);
        let mut items: Vec<Atom> = Vec::new();
        loop
            invariant_except_break
                elements(s, self.pos(), atoms_value(items@)) == target,
            invariant
                self.wf(),
                self.input() == s,
                s == old(self).input(),
                p == old(self).pos(),
                p <= self.pos() <= s.len(),
                target == elements(s, p, seq![]),
            ensures
                target == Parsed::Got(atoms_value(items@), self.pos()),
            decreases s.len() - self.pos(),
        {
            let value = match self.value_opt() {
                Ok(Some(v)) => v,
                Ok(None) => {
                    break ;
                },
                Err(e) => return Err(e),
            };
            proof {
                lemma_separator(s, self.pos());
            }
            let ghost before = items@;
            items.push(value);
            proof {
                assert(items@.drop_last() =~= before);
            }
            if !self.skip_value_separator_opt() {
                break ;
            }
        }
        Ok(items)
    }
}

/// The number that the digits `d[start..end]` denote, or `integral_bound()`
/// when that is smaller.
fn integral_magnitude(d: &[u8], start: usize, end: usize) -> (r: u64)
    requires
        start <= end <= d@.len(),
        forall|j: int| start <= j < end ==> #[trigger] is_digit(d@[j]),
    ensures
        r == if digits_value(d@.subrange(start as int, end as int)) < integral_bound() {
            digits_value(d@.subrange(start as int, end as int))
        } else {
            integral_bound()
        },
{
    let bound: u64 = 0x20_0000_0000_0000;
    let mut acc: u64 = 0;
    let mut i: usize = start;
    assert(d@.subrange(start as int, start as int) =~= Seq::<u8>::empty());
    while i < end
        invariant
            start <= i <= end <= d@.len(),
            forall|j: int| start <= j < end ==> #[trigger] is_digit(d@[j]),
            bound == integral_bound(),
            acc == if digits_value(d@.subrange(start as int, i as int)) < integral_bound() {
                digits_value(d@.subrange(start as int, i as int))
            } else {
                integral_bound()
            },
        decreases end - i,
    {
        let ghost before = digits_value(d@.subrange(start as int, i as int));
        assert(d@.subrange(start as int, i + 1).drop_last() =~= d@.subrange(start as int, i as int));
        assert(is_digit(d@[i as int]));
        let digit = (d[i] - 0x30) as u64;
        if acc < bound {
            acc = acc * 10 + digit;
            if acc > bound {
                acc = bound;
            }
        }
        i = i + 1;
        assert(digits_value(d@.subrange(start as int, i as int)) == before * 10 + digit);
    }
    acc
}

} // verus!
