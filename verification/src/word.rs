//! Packing of bytes and signed values into 64-bit storage words.

use vstd::prelude::*;

verus! {

/// The eight bytes of `w`, least significant first.
pub open spec fn bytes_of(w: u64) -> Seq<u8> {
    seq![
        (w & 0xff) as u8,
        ((w >> 8) & 0xff) as u8,
        ((w >> 16) & 0xff) as u8,
        ((w >> 24) & 0xff) as u8,
        ((w >> 32) & 0xff) as u8,
        ((w >> 40) & 0xff) as u8,
        ((w >> 48) & 0xff) as u8,
        ((w >> 56) & 0xff) as u8,
    ]
}

/// The word whose bytes, least significant first, are `b[0..8]`.
pub open spec fn word_of(b: Seq<u8>) -> u64 {
    (b[0] as u64) | ((b[1] as u64) << 8) | ((b[2] as u64) << 16) | ((b[3] as u64) << 24) | ((
    b[4] as u64) << 32) | ((b[5] as u64) << 40) | ((b[6] as u64) << 48) | ((b[7] as u64) << 56)
}

/// The signed value with the same bit pattern as `b`.
pub open spec fn signed_byte(b: u8) -> i8 {
    if b < 128 {
        b as i8
    } else {
        (b - 256) as i8
    }
}

/// The unsigned value with the same bit pattern as `x`.
pub open spec fn unsigned_byte(x: i8) -> u8 {
    if x >= 0 {
        x as u8
    } else {
        (x + 256) as u8
    }
}

/// The signed value with the same bit pattern as `w`.
pub open spec fn signed_word(w: u64) -> i64 {
    if w < 0x8000_0000_0000_0000 {
        w as i64
    } else {
        (w - 0x1_0000_0000_0000_0000) as i64
    }
}

/// The unsigned value with the same bit pattern as `x`.
pub open spec fn unsigned_word(x: i64) -> u64 {
    if x >= 0 {
        x as u64
    } else {
        (x + 0x1_0000_0000_0000_0000) as u64
    }
}

/// Splitting a word into bytes and joining them gives the word back.
pub proof fn lemma_word_of_bytes_of(w: u64)
    ensures
        word_of(bytes_of(w)) == w,
{
    assert((((w & 0xff) as u8) as u64) | ((((w >> 8) & 0xff) as u8) as u64) << 8 | ((((w >> 16)
        & 0xff) as u8) as u64) << 16 | ((((w >> 24) & 0xff) as u8) as u64) << 24 | ((((w >> 32)
        & 0xff) as u8) as u64) << 32 | ((((w >> 40) & 0xff) as u8) as u64) << 40 | ((((w >> 48)
        & 0xff) as u8) as u64) << 48 | ((((w >> 56) & 0xff) as u8) as u64) << 56 == w)
        by (bit_vector);
}

/// Joining eight bytes into a word and splitting it gives the bytes back.
pub proof fn lemma_bytes_of_word_of(b: Seq<u8>)
    requires
        b.len() == 8,
    ensures
        bytes_of(word_of(b)) =~= b,
{
    let (b0, b1, b2, b3, b4, b5, b6, b7) = (b[0], b[1], b[2], b[3], b[4], b[5], b[6], b[7]);
    let w = word_of(b);
    assert(w == (b0 as u64) | ((b1 as u64) << 8) | ((b2 as u64) << 16) | ((b3 as u64) << 24) | ((
    b4 as u64) << 32) | ((b5 as u64) << 40) | ((b6 as u64) << 48) | ((b7 as u64) << 56));
    assert((w & 0xff) as u8 == b0 && ((w >> 8) & 0xff) as u8 == b1 && ((w >> 16) & 0xff) as u8
        == b2 && ((w >> 24) & 0xff) as u8 == b3 && ((w >> 32) & 0xff) as u8 == b4 && ((w >> 40)
        & 0xff) as u8 == b5 && ((w >> 48) & 0xff) as u8 == b6 && ((w >> 56) & 0xff) as u8 == b7)
        by (bit_vector)
        requires
            w == (b0 as u64) | ((b1 as u64) << 8) | ((b2 as u64) << 16) | ((b3 as u64) << 24) | ((
            b4 as u64) << 32) | ((b5 as u64) << 40) | ((b6 as u64) << 48) | ((b7 as u64) << 56),
    ;
}

/// Reading a word as signed and as unsigned again, or the other way round,
/// gives the word back.
pub proof fn lemma_signed_word_round_trip(w: u64, x: i64)
    ensures
        unsigned_word(signed_word(w)) == w,
        signed_word(unsigned_word(x)) == x,
{
}

/// Splits a word into its bytes, least significant first.
pub fn word_to_bytes(w: u64) -> (b: [u8; 8])
    ensures
        b@ == bytes_of(w),
{
    let b: [u8; 8] = [
        (w & 0xff) as u8,
        ((w >> 8) & 0xff) as u8,
        ((w >> 16) & 0xff) as u8,
        ((w >> 24) & 0xff) as u8,
        ((w >> 32) & 0xff) as u8,
        ((w >> 40) & 0xff) as u8,
        ((w >> 48) & 0xff) as u8,
        ((w >> 56) & 0xff) as u8,
    ];
    assert(b@ =~= bytes_of(w));
    b
}

/// Joins eight bytes, least significant first, into a word.
pub fn bytes_to_word(b: &[u8; 8]) -> (w: u64)
    ensures
        w == word_of(b@),
{
    (b[0] as u64) | ((b[1] as u64) << 8) | ((b[2] as u64) << 16) | ((b[3] as u64) << 24) | ((
    b[4] as u64) << 32) | ((b[5] as u64) << 40) | ((b[6] as u64) << 48) | ((b[7] as u64) << 56)
}

/// Reinterprets an unsigned byte as a signed one.
pub fn byte_to_signed(b: u8) -> (x: i8)
    ensures
        x == signed_byte(b),
{
    if b < 128 {
        b as i8
    } else {
        (b as i16 - 256) as i8
    }
}

/// Reinterprets a signed byte as an unsigned one.
pub fn byte_to_unsigned(x: i8) -> (b: u8)
    ensures
        b == unsigned_byte(x),
{
    if x >= 0 {
        x as u8
    } else {
        (x as i16 + 256) as u8
    }
}

/// Reinterprets an unsigned word as a signed one.
pub fn word_to_signed(w: u64) -> (x: i64)
    ensures
        x == signed_word(w),
{
    if w < 0x8000_0000_0000_0000 {
        w as i64
    } else {
        (w as i128 - 0x1_0000_0000_0000_0000) as i64
    }
}

/// Reinterprets a signed word as an unsigned one.
pub fn word_to_unsigned(x: i64) -> (w: u64)
    ensures
        w == unsigned_word(x),
{
    if x >= 0 {
        x as u64
    } else {
        (x as i128 + 0x1_0000_0000_0000_0000) as u64
    }
}

} // verus!
