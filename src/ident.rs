//! Classification of bytes and scalar values for bare (unquoted) strings.
//!
//! A bare string is one identifier-start scalar value followed by any number
//! of identifier-continuation scalar values.  The byte-level tests look at the
//! first byte of a UTF-8 sequence only and accept every byte that starts the
//! encoding of an accepted scalar value.
use vstd::prelude::*;
use vstd::utf8::*;

verus! {

/// Scalar values that may start a bare string.
pub open spec fn id_start(v: u32) -> bool {
    ||| v == 0x24
    ||| v == 0x2D
    ||| 0x41 <= v <= 0x5A
    ||| v == 0x5F
    ||| 0x61 <= v <= 0x7A
    ||| v == 0xAA
    ||| v == 0xB5
    ||| v == 0xBA
    ||| 0xC0 <= v <= 0xD6
    ||| 0xD8 <= v <= 0xF6
    ||| 0xF8 <= v <= 0x2FF
    ||| 0x370 <= v <= 0x37D
    ||| 0x37F <= v <= 0x1FFF
    ||| 0x200C <= v <= 0x200D
    ||| 0x2070 <= v <= 0x218F
    ||| 0x2C00 <= v <= 0x2FEF
    ||| 0x3001 <= v <= 0xD7FF
    ||| 0xF900 <= v <= 0xFDCF
    ||| 0xFDF0 <= v <= 0xFFFD
    ||| 0x10000 <= v <= 0xEFFFF
}

/// Scalar values that may continue a bare string.
pub open spec fn id_end(v: u32) -> bool {
    ||| v == 0x24
    ||| 0x2D <= v <= 0x2E
    ||| 0x30 <= v <= 0x39
    ||| 0x41 <= v <= 0x5A
    ||| v == 0x5F
    ||| 0x61 <= v <= 0x7A
    ||| v == 0xAA
    ||| v == 0xB5
    ||| v == 0xB7
    ||| v == 0xBA
    ||| 0xC0 <= v <= 0xD6
    ||| 0xD8 <= v <= 0xF6
    ||| 0xF8 <= v <= 0x37D
    ||| 0x37F <= v <= 0x1FFF
    ||| 0x200C <= v <= 0x200D
    ||| 0x203F <= v <= 0x2040
    ||| 0x2070 <= v <= 0x218F
    ||| 0x2C00 <= v <= 0x2FEF
    ||| 0x3001 <= v <= 0xD7FF
    ||| 0xF900 <= v <= 0xFDCF
    ||| 0xFDF0 <= v <= 0xFFFD
    ||| 0x10000 <= v <= 0xEFFFF
}

/// First bytes of the UTF-8 encodings of the `id_start` scalar values.
pub open spec fn id_start_byte(b: u8) -> bool {
    ||| b == 0x24
    ||| b == 0x2D
    ||| 0x41 <= b <= 0x5A
    ||| b == 0x5F
    ||| 0x61 <= b <= 0x7A
    ||| 0xC2 <= b <= 0xCB
    ||| 0xCD <= b <= 0xED
    ||| b == 0xEF
    ||| 0xF0 <= b <= 0xF3
}

/// First bytes of the UTF-8 encodings of the `id_end` scalar values.
pub open spec fn id_end_byte(b: u8) -> bool {
    ||| b == 0x24
    ||| 0x2D <= b <= 0x2E
    ||| 0x30 <= b <= 0x39
    ||| 0x41 <= b <= 0x5A
    ||| b == 0x5F
    ||| 0x61 <= b <= 0x7A
    ||| 0xC2 <= b <= 0xED
    ||| b == 0xEF
    ||| 0xF0 <= b <= 0xF3
}

pub fn is_id_start(c: char) -> (r: bool)
    ensures
        r == id_start(c as u32),
{
    let v = c as u32;
    v == 0x24 || v == 0x2D || (0x41 <= v && v <= 0x5A) || v == 0x5F || (0x61 <= v && v <= 0x7A)
        || v == 0xAA || v == 0xB5 || v == 0xBA || (0xC0 <= v && v <= 0xD6) || (0xD8 <= v && v
        <= 0xF6) || (0xF8 <= v && v <= 0x2FF) || (0x370 <= v && v <= 0x37D) || (0x37F <= v && v
        <= 0x1FFF) || (0x200C <= v && v <= 0x200D) || (0x2070 <= v && v <= 0x218F) || (0x2C00
        <= v && v <= 0x2FEF) || (0x3001 <= v && v <= 0xD7FF) || (0xF900 <= v && v <= 0xFDCF) || (
    0xFDF0 <= v && v <= 0xFFFD) || (0x10000 <= v && v <= 0xEFFFF)
}

pub fn is_id_end(c: char) -> (r: bool)
    ensures
        r == id_end(c as u32),
{
    let v = c as u32;
    v == 0x24 || (0x2D <= v && v <= 0x2E) || (0x30 <= v && v <= 0x39) || (0x41 <= v && v <= 0x5A)
        || v == 0x5F || (0x61 <= v && v <= 0x7A) || v == 0xAA || v == 0xB5 || v == 0xB7 || v
        == 0xBA || (0xC0 <= v && v <= 0xD6) || (0xD8 <= v && v <= 0xF6) || (0xF8 <= v && v
        <= 0x37D) || (0x37F <= v && v <= 0x1FFF) || (0x200C <= v && v <= 0x200D) || (0x203F <= v
        && v <= 0x2040) || (0x2070 <= v && v <= 0x218F) || (0x2C00 <= v && v <= 0x2FEF) || (
    0x3001 <= v && v <= 0xD7FF) || (0xF900 <= v && v <= 0xFDCF) || (0xFDF0 <= v && v <= 0xFFFD)
        || (0x10000 <= v && v <= 0xEFFFF)
}

pub fn is_id_start_byte(b: u8) -> (r: bool)
    ensures
        r == id_start_byte(b),
{
    b == 0x24 || b == 0x2D || (0x41 <= b && b <= 0x5A) || b == 0x5F || (0x61 <= b && b <= 0x7A)
        || (0xC2 <= b && b <= 0xCB) || (0xCD <= b && b <= 0xED) || b == 0xEF || (0xF0 <= b && b
        <= 0xF3)
}

pub fn is_id_end_byte(b: u8) -> (r: bool)
    ensures
        r == id_end_byte(b),
{
    b == 0x24 || (0x2D <= b && b <= 0x2E) || (0x30 <= b && b <= 0x39) || (0x41 <= b && b <= 0x5A)
        || b == 0x5F || (0x61 <= b && b <= 0x7A) || (0xC2 <= b && b <= 0xED) || b == 0xEF || (
    0xF0 <= b && b <= 0xF3)
}

/// The first byte of a scalar value's UTF-8 encoding, as arithmetic on its
/// value.
proof fn lemma_leading_byte(v: u32)
    requires
        is_scalar(v),
    ensures
        v < 0x80 ==> encode_scalar(v)[0] == v,
        0x80 <= v < 0x800 ==> encode_scalar(v)[0] == 0xC0 + v / 64,
        0x800 <= v < 0x10000 ==> encode_scalar(v)[0] == 0xE0 + v / 4096,
        0x10000 <= v ==> encode_scalar(v)[0] == 0xF0 + v / 262144,
{
    assert(v < 0x80 ==> (v & 0x7F) as u8 == v) by (bit_vector);
    assert(0x80 <= v < 0x800 ==> 0xC0 | ((v >> 6) & 0x1F) as u8 == 0xC0 + v / 64) by (bit_vector);
    assert(0x800 <= v < 0x10000 ==> 0xE0 | ((v >> 12) & 0x0F) as u8 == 0xE0 + v / 4096)
        by (bit_vector);
    assert(0x10000 <= v <= 0x10FFFF ==> 0xF0 | ((v >> 18) & 0x7) as u8 == 0xF0 + v / 262144)
        by (bit_vector);
}

/// The byte-level tests never turn away a scalar value that the full tests
/// accept: each accepted scalar value's encoding starts with an accepted byte.
pub proof fn lemma_id_bytes_cover(c: char)
    ensures
        id_start(c as u32) ==> id_start_byte(encode_scalar(c as u32)[0]),
        id_end(c as u32) ==> id_end_byte(encode_scalar(c as u32)[0]),
{
    char_is_scalar(c);
    lemma_leading_byte(c as u32);
}

} // verus!
