//! Byte-level helpers: UTF-8 widths and encoding, and an in-memory byte source
//! with the buffered-read operations the reader is built on.
use vstd::prelude::*;
use vstd::utf8::*;

verus! {

/// Number of bytes of the UTF-8 sequence that starts with `b`, or 0 when `b`
/// cannot start one (RFC 3629).
pub open spec fn char_width(b: u8) -> nat {
    if b < 0x80 {
        1
    } else if 0xC2 <= b <= 0xDF {
        2
    } else if 0xE0 <= b <= 0xEF {
        3
    } else if 0xF0 <= b <= 0xF4 {
        4
    } else {
        0
    }
}

/// Given a first byte, determines how many bytes are in this UTF-8 character.
pub fn utf8_char_width(b: u8) -> (r: usize)
    ensures
        r == char_width(b),
{
    if b < 0x80 {
        1
    } else if 0xC2 <= b && b <= 0xDF {
        2
    } else if 0xE0 <= b && b <= 0xEF {
        3
    } else if 0xF0 <= b && b <= 0xF4 {
        4
    } else {
        0
    }
}

/// The UTF-8 bit layout applied to any 32-bit value: the usual encoding for
/// a Unicode scalar value, the same layout for the others.
pub open spec fn utf8_raw(code: u32) -> Seq<u8> {
    if code < 0x80 {
        seq![leading_byte_width_1(code)]
    } else if code < 0x800 {
        seq![leading_byte_width_2(code), last_continuation_byte(code)]
    } else if code < 0x10000 {
        seq![
            leading_byte_width_3(code),
            second_last_continuation_byte(code),
            last_continuation_byte(code),
        ]
    } else {
        seq![
            leading_byte_width_4(code),
            third_last_continuation_byte(code),
            second_last_continuation_byte(code),
            last_continuation_byte(code),
        ]
    }
}

/// On a Unicode scalar value the raw layout is its UTF-8 encoding.
pub proof fn lemma_utf8_raw_scalar(code: u32)
    requires
        is_scalar(code),
    ensures
        utf8_raw(code) == encode_scalar(code),
{
}

/// Encodes a raw u32 value as UTF-8 into the provided byte buffer,
/// and then returns the number of bytes written.
///
/// If the buffer is not large enough, nothing is written into it
/// and `None` is returned.
pub fn encode_utf8_raw(code: u32, dst: &mut [u8]) -> (r: Option<usize>)
    ensures
        r is Some <==> utf8_raw(code).len() <= old(dst)@.len(),
        final(dst)@.len() == old(dst)@.len(),
        r matches Some(n) ==> n == utf8_raw(code).len() && final(dst)@ == utf8_raw(code) + old(
            dst,
        )@.subrange(n as int, old(dst)@.len() as int),
        r is None ==> final(dst)@ == old(dst)@,
{
    let len = dst.len();
    if code < 0x80 && len >= 1 {
        dst[0] = code as u8;
        assert(code as u8 == (code & 0x7F) as u8) by (bit_vector)
            requires
                code < 0x80,
        ;
        assert(dst@ =~= utf8_raw(code) + old(dst)@.subrange(1, len as int));
        Some(1)
    } else if 0x80 <= code && code < 0x800 && len >= 2 {
        dst[0] = (code >> 6 & 0x1F) as u8 | 0xC0;
        dst[1] = (code & 0x3F) as u8 | 0x80;
        assert((code >> 6 & 0x1F) as u8 | 0xC0 == 0xC0 | ((code >> 6) & 0x1F) as u8) by (bit_vector);
        assert((code & 0x3F) as u8 | 0x80 == 0x80 | (code & 0x3F) as u8) by (bit_vector);
        assert(dst@ =~= utf8_raw(code) + old(dst)@.subrange(2, len as int));
        Some(2)
    } else if 0x800 <= code && code < 0x10000 && len >= 3 {
        dst[0] = (code >> 12 & 0x0F) as u8 | 0xE0;
        dst[1] = (code >> 6 & 0x3F) as u8 | 0x80;
        dst[2] = (code & 0x3F) as u8 | 0x80;
        assert((code >> 12 & 0x0F) as u8 | 0xE0 == 0xE0 | ((code >> 12) & 0x0F) as u8)
            by (bit_vector);
        assert((code >> 6 & 0x3F) as u8 | 0x80 == 0x80 | ((code >> 6) & 0x3F) as u8)
            by (bit_vector);
        assert((code & 0x3F) as u8 | 0x80 == 0x80 | (code & 0x3F) as u8) by (bit_vector);
        assert(dst@ =~= utf8_raw(code) + old(dst)@.subrange(3, len as int));
        Some(3)
    } else if 0x10000 <= code && len >= 4 {
        dst[0] = (code >> 18 & 0x07) as u8 | 0xF0;
        dst[1] = (code >> 12 & 0x3F) as u8 | 0x80;
        dst[2] = (code >> 6 & 0x3F) as u8 | 0x80;
        dst[3] = (code & 0x3F) as u8 | 0x80;
        assert((code >> 18 & 0x07) as u8 | 0xF0 == 0xF0 | ((code >> 18) & 0x7) as u8)
            by (bit_vector);
        assert((code >> 12 & 0x3F) as u8 | 0x80 == 0x80 | ((code >> 12) & 0x3F) as u8)
            by (bit_vector);
        assert((code >> 6 & 0x3F) as u8 | 0x80 == 0x80 | ((code >> 6) & 0x3F) as u8)
            by (bit_vector);
        assert((code & 0x3F) as u8 | 0x80 == 0x80 | (code & 0x3F) as u8) by (bit_vector);
        assert(dst@ =~= utf8_raw(code) + old(dst)@.subrange(4, len as int));
        Some(4)
    } else {
        None
    }
}

/// Consecutive empty reads after which a source counts as exhausted.
pub const NO_PROGRESS_LIMIT: usize = 1000;

/// How many bytes `read_at_least` placed in the buffer, and whether that
/// reached the minimum asked for.
pub enum ReadBytes {
    NotEnough(usize),
    Enough(usize),
}

/// A failure of the byte-level reading functions.
#[derive(Debug, PartialEq, Eq, Structural)]
pub enum ReadError {
    /// The buffer cannot hold the minimum number of bytes asked for.
    BufferTooShort,
    /// The next bytes are not one UTF-8 encoded scalar value.
    InvalidUtf8,
}

/// An in-memory byte source with a read cursor.  It offers the buffered-read
/// operations of a stream: look at the unread window, consume part of it,
/// and copy bytes out.
pub struct Source {
    data: Vec<u8>,
    pos: usize,
}

impl Source {
    /// All bytes of the source, read or not.
    pub closed spec fn input(&self) -> Seq<u8> {
        self.data@
    }

    /// Number of bytes consumed so far.
    pub closed spec fn pos(&self) -> int {
        self.pos as int
    }

    pub open spec fn wf(&self) -> bool {
        0 <= self.pos() <= self.input().len()
    }

    /// Bytes not consumed yet.
    pub open spec fn rest(&self) -> Seq<u8> {
        self.input().subrange(self.pos(), self.input().len() as int)
    }

    pub fn new(data: Vec<u8>) -> (r: Source)
        ensures
            r.wf(),
            r.input() == data@,
            r.pos() == 0,
    {
        Source { data, pos: 0 }
    }

    /// The unread window: every byte not consumed yet.
    pub fn fill_buf(&self) -> (r: &[u8])
        requires
            self.wf(),
        ensures
            r@ == self.rest(),
    {
        vstd::slice::slice_subrange(self.data.as_slice(), self.pos, self.data.len())
    }

    /// Whether every byte has been consumed.
    pub fn is_exhausted(&self) -> (r: bool)
        requires
            self.wf(),
        ensures
            r == (self.pos() == self.input().len()),
    {
        self.pos == self.data.len()
    }

    /// Number of bytes consumed so far.
    pub fn position(&self) -> (r: usize)
        ensures
            r == self.pos(),
    {
        self.pos
    }

    /// Bytes `start..end` of the source, read or not.
    pub fn slice(&self, start: usize, end: usize) -> (r: &[u8])
        requires
            start <= end <= self.input().len(),
        ensures
            r@ == self.input().subrange(start as int, end as int),
    {
        vstd::slice::slice_subrange(self.data.as_slice(), start, end)
    }

    /// The next unread byte, if any, without consuming it.
    pub fn peek_byte(&self) -> (r: Option<u8>)
        requires
            self.wf(),
        ensures
            self.pos() < self.input().len() ==> r == Some(self.input()[self.pos()]),
            self.pos() == self.input().len() ==> r is None,
    {
        if self.pos < self.data.len() {
            Some(self.data[self.pos])
        } else {
            None
        }
    }

    /// Consumes `n` bytes, or all that are left when fewer are.
    pub fn consume(&mut self, n: usize)
        requires
            old(self).wf(),
        ensures
            final(self).wf(),
            final(self).input() == old(self).input(),
            final(self).pos() == if old(self).pos() + n <= old(self).input().len() {
                old(self).pos() + n
            } else {
                old(self).input().len() as int
            },
    {
        if n <= self.data.len() - self.pos {
            self.pos = self.pos + n;
        } else {
            self.pos = self.data.len();
        }
    }

    /// Copies as many unread bytes as fit into `buf` from index `start` on,
    /// consumes them and returns their number.
    pub fn read(&mut self, buf: &mut [u8], start: usize) -> (n: usize)
        requires
            old(self).wf(),
            start <= old(buf)@.len(),
        ensures
            final(self).wf(),
            final(self).input() == old(self).input(),
            n == min_int(old(buf)@.len() - start, old(self).rest().len() as int),
            final(self).pos() == old(self).pos() + n,
            final(buf)@ == old(buf)@.subrange(0, start as int) + old(self).rest().subrange(0, n as int)
                + old(buf)@.subrange(start + n, old(buf)@.len() as int),
    {
        let room = buf.len() - start;
        let left = self.data.len() - self.pos;
        let n = if room < left { room } else { left };
        let mut i: usize = 0;
        while i < n
            invariant
                n <= room,
                n <= left,
                room == buf@.len() - start,
                left == self.data@.len() - self.pos,
                self.pos + left <= self.data@.len(),
                self.data@.len() <= usize::MAX,
                start + room <= usize::MAX,
                i <= n,
                buf@.len() == old(buf)@.len(),
                buf@ == old(buf)@.subrange(0, start as int) + self.data@.subrange(
                    self.pos as int,
                    self.pos + i,
                ) + old(buf)@.subrange(start + i, old(buf)@.len() as int),
            decreases n - i,
        {
            buf[start + i] = self.data[self.pos + i];
            i = i + 1;
            assert(buf@ =~= old(buf)@.subrange(0, start as int) + self.data@.subrange(
                self.pos as int,
                self.pos + i,
            ) + old(buf)@.subrange(start + i, old(buf)@.len() as int));
        }
        proof {
            assert(self.data@.subrange(self.pos as int, self.pos + n) =~= self.rest().subrange(
                0,
                n as int,
            ));
        }
        self.pos = self.pos + n;
        n
    }
}

pub open spec fn min_int(a: int, b: int) -> int {
    if a < b {
        a
    } else {
        b
    }
}

/// How many bytes `read_at_least(src, min, buf)` takes: none when none are
/// asked for, else as many as fit and are left.
pub open spec fn read_count(rest: Seq<u8>, min: usize, buf_len: nat) -> int {
    if min == 0 {
        0
    } else {
        min_int(buf_len as int, rest.len() as int)
    }
}

/// Reads at least `min` bytes into `buf`, unless the source runs out first.
///
/// A source that yields nothing `NO_PROGRESS_LIMIT` times in a row counts
/// as exhausted.
pub fn read_at_least(r: &mut Source, min: usize, buf: &mut [u8]) -> (res: Result<
    ReadBytes,
    ReadError,
>)
    requires
        old(r).wf(),
    ensures
        final(r).wf(),
        final(r).input() == old(r).input(),
        min > old(buf)@.len() ==> res == Err::<ReadBytes, ReadError>(ReadError::BufferTooShort)
            && final(r).pos() == old(r).pos() && final(buf)@ == old(buf)@,
        min <= old(buf)@.len() ==> {
            let n = read_count(old(r).rest(), min, old(buf)@.len());
            &&& final(r).pos() == old(r).pos() + n
            &&& final(buf)@ == old(r).rest().subrange(0, n) + old(buf)@.subrange(
                n,
                old(buf)@.len() as int,
            )
            &&& res matches Ok(rb) && match rb {
                ReadBytes::Enough(k) => k == n && n >= min,
                ReadBytes::NotEnough(k) => k == n && n < min,
            }
        },
{
    if min > buf.len() {
        return Err(ReadError::BufferTooShort);
    }
    let ghost rest0 = r.rest();
    let ghost buf0 = buf@;
    let ghost full = min_int(buf0.len() as int, rest0.len() as int);
    let mut read: usize = 0;
    let mut zeroes: usize = 0;
    while read < min && zeroes < NO_PROGRESS_LIMIT
        invariant
            r.wf(),
            r.input() == old(r).input(),
            min <= buf0.len(),
            rest0 == old(r).rest(),
            full == min_int(buf0.len() as int, rest0.len() as int),
            0 <= read <= full,
            min == 0 ==> read == 0,
            r.rest() == rest0.subrange(read as int, rest0.len() as int),
            buf@.len() == buf0.len(),
            read == 0 || read == full,
            zeroes > 0 ==> read == full,
            r.pos() == old(r).pos() + read,
            buf@ == rest0.subrange(0, read as int) + buf0.subrange(read as int, buf0.len() as int),
        decreases buf0.len() - read, NO_PROGRESS_LIMIT - zeroes,
    {
        let n = r.read(buf, read);
        if n == 0 {
            zeroes = zeroes + 1;
        } else {
            read = read + n;
            zeroes = 0;
        }
        assert(buf@ =~= rest0.subrange(0, read as int) + buf0.subrange(
            read as int,
            buf0.len() as int,
        ));
    }
    if read < min {
        Ok(ReadBytes::NotEnough(read))
    } else {
        Ok(ReadBytes::Enough(read))
    }
}

/// Reads one byte, or returns `None` when the source is exhausted.
pub fn read_byte(r: &mut Source) -> (res: Option<u8>)
    requires
        old(r).wf(),
    ensures
        final(r).wf(),
        final(r).input() == old(r).input(),
        old(r).rest().len() > 0 ==> res == Some(old(r).rest()[0]) && final(r).pos() == old(r).pos()
            + 1,
        old(r).rest().len() == 0 ==> res is None && final(r).pos() == old(r).pos(),
{
    let mut buf: Vec<u8> = vec![0u8];
    match read_at_least(r, 1, buf.as_mut_slice()) {
        Ok(ReadBytes::Enough(_)) => Some(buf[0]),
        _ => None,
    }
}

/// The scalar value whose UTF-8 encoding starts at `i`, with the length of
/// that encoding: the width that the first byte announces, when that many
/// bytes are there and form one well-formed sequence.
pub open spec fn scalar_at(s: Seq<u8>, i: int) -> Option<(char, int)> {
    let w = char_width(s[i]) as int;
    if w == 0 || i + w > s.len() || !valid_utf8(s.subrange(i, i + w)) {
        None
    } else {
        Some((decode_utf8(s.subrange(i, i + w))[0], w))
    }
}

/// Relies on `std::str::from_utf8`: it accepts exactly the well-formed UTF-8
/// byte sequences, and the text it returns holds the characters they encode.
#[verifier::external_body]
pub(crate) fn str_from_utf8(b: &[u8]) -> (r: Option<&str>)
    ensures
        r is Some <==> valid_utf8(b@),
        r matches Some(t) ==> t@ == decode_utf8(b@),
{
    std::str::from_utf8(b).ok()
}

/// Reads the next UTF-8 encoded character.
///
/// Returns `Ok(None)` at the end of the source, and an error when the next
/// bytes are not one well-formed UTF-8 sequence, or are cut short.
pub fn read_char(r: &mut Source) -> (res: Result<Option<char>, ReadError>)
    requires
        old(r).wf(),
    ensures
        final(r).wf(),
        final(r).input() == old(r).input(),
        old(r).rest().len() == 0 ==> res == Ok::<Option<char>, ReadError>(None) && final(r).pos()
            == old(r).pos(),
        old(r).rest().len() > 0 ==> match scalar_at(old(r).input(), old(r).pos()) {
            None => res == Err::<Option<char>, ReadError>(ReadError::InvalidUtf8),
            Some((c, w)) => res == Ok::<Option<char>, ReadError>(Some(c)) && final(r).pos()
                == old(r).pos() + w,
        },
{
    let ghost s = r.input();
    let ghost p = r.pos();
    let first = match read_byte(r) {
        Some(b) => b,
        None => return Ok(None),
    };
    let width = utf8_char_width(first);
    if width == 0 {
        return Err(ReadError::InvalidUtf8);
    }
    let mut tail: Vec<u8> = Vec::new();
    let mut i: usize = 1;
    while i < width
        invariant
            1 <= i <= width <= 4,
            tail@.len() == i - 1,
        decreases width - i,
    {
        tail.push(0u8);
        i = i + 1;
    }
    match read_at_least(r, width - 1, tail.as_mut_slice()) {
        Ok(ReadBytes::Enough(_)) => {},
        _ => {
            return Err(ReadError::InvalidUtf8);
        },
    }
    let mut bytes: Vec<u8> = vec![first];
    bytes.append(&mut tail);
    assert(bytes@ =~= s.subrange(p, p + width));
    match str_from_utf8(bytes.as_slice()) {
        Some(t) => {
            let c = t.get_char(0);
            Ok(Some(c))
        },
        None => Err(ReadError::InvalidUtf8),
    }
}

/// Bytes below 0x80 alone always form well-formed UTF-8.
pub proof fn lemma_ascii_valid_utf8(b: Seq<u8>)
    requires
        forall|i: int| 0 <= i < b.len() ==> #[trigger] b[i] < 0x80,
    ensures
        valid_utf8(b),
{
    assert(b.subrange(0, 0) =~= Seq::<u8>::empty());
    assert(valid_utf8(Seq::<u8>::empty()));
    assert(forall|i: int| 0 <= 0 <= i < b.len() <= b.len() ==> #[trigger] is_leading_byte_width_1(b[i]));
    partial_valid_utf8_extend_ascii_block(b, 0, b.len() as int);
    assert(b.subrange(0, b.len() as int) =~= b);
}

} // verus!
