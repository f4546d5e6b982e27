//! Little-endian integer reads and writes over the raw byte buffer.
//!
//! Multi-byte integers in a BMP file are little-endian.  The spec side is
//! `vstd::bytes`; signed fields are two's-complement reinterpretations of
//! the unsigned reads.

use vstd::bytes::{spec_u16_from_le_bytes, spec_u16_to_le_bytes, spec_u32_from_le_bytes,
    spec_u32_to_le_bytes};
use vstd::prelude::*;

use crate::bmp::BMP;

verus! {

/// The unsigned 16-bit little-endian integer at offset `i` of `s`.
pub open spec fn le16(s: Seq<u8>, i: int) -> u16
    recommends
        0 <= i,
        i + 2 <= s.len(),
{
    spec_u16_from_le_bytes(s.subrange(i, i + 2))
}

/// The unsigned 32-bit little-endian integer at offset `i` of `s`.
pub open spec fn le32(s: Seq<u8>, i: int) -> u32
    recommends
        0 <= i,
        i + 4 <= s.len(),
{
    spec_u32_from_le_bytes(s.subrange(i, i + 4))
}

/// The signed value whose 16-bit two's-complement representation is `u`.
pub open spec fn as_signed16(u: u16) -> int {
    if u < 0x8000 {
        u as int
    } else {
        u - 0x10000
    }
}

/// The signed value whose 32-bit two's-complement representation is `u`.
pub open spec fn as_signed32(u: u32) -> int {
    if u < 0x8000_0000 {
        u as int
    } else {
        u - 0x1_0000_0000
    }
}

/// The signed 16-bit little-endian integer at offset `i` of `s`.
pub open spec fn sle16(s: Seq<u8>, i: int) -> int {
    as_signed16(le16(s, i))
}

/// The signed 32-bit little-endian integer at offset `i` of `s`.
pub open spec fn sle32(s: Seq<u8>, i: int) -> int {
    as_signed32(le32(s, i))
}

/// The 16-bit two's-complement representation of `x`.
pub open spec fn u16_rep(x: int) -> u16
    recommends
        -0x8000 <= x < 0x8000,
{
    if x >= 0 {
        x as u16
    } else {
        (x + 0x10000) as u16
    }
}

/// The 32-bit two's-complement representation of `x`.
pub open spec fn u32_rep(x: int) -> u32
    recommends
        -0x8000_0000 <= x < 0x8000_0000,
{
    if x >= 0 {
        x as u32
    } else {
        (x + 0x1_0000_0000) as u32
    }
}

/// Reads the unsigned 16-bit little-endian integer at offset `i` of `v`.
pub fn read_u16(v: &Vec<u8>, i: usize) -> (r: u16)
    requires
        i + 2 <= v.len(),
    ensures
        r == le16(v@, i as int),
{
    let sl = vstd::slice::slice_subrange(v.as_slice(), i, i + 2);
    vstd::bytes::u16_from_le_bytes(sl)
}

/// Reads the unsigned 32-bit little-endian integer at offset `i` of `v`.
pub fn read_u32(v: &Vec<u8>, i: usize) -> (r: u32)
    requires
        i + 4 <= v.len(),
    ensures
        r == le32(v@, i as int),
{
    let sl = vstd::slice::slice_subrange(v.as_slice(), i, i + 4);
    vstd::bytes::u32_from_le_bytes(sl)
}

/// Reinterprets an unsigned 32-bit value as a signed one.
pub fn signed_of_u32(u: u32) -> (r: i32)
    ensures
        r as int == as_signed32(u),
{
    if u < 0x8000_0000 {
        u as i32
    } else {
        ((u - 0x8000_0000) as i32 - 0x7FFF_FFFF) - 1
    }
}

/// Reinterprets an unsigned 16-bit value as a signed one.
pub fn signed_of_u16(u: u16) -> (r: i16)
    ensures
        r as int == as_signed16(u),
{
    if u < 0x8000 {
        u as i16
    } else {
        ((u - 0x8000) as i16 - 0x7FFF) - 1
    }
}

/// The 32-bit two's-complement representation of `x`, executable form.
pub fn unsigned_of_i32(x: i32) -> (r: u32)
    ensures
        r == u32_rep(x as int),
{
    if x >= 0 {
        x as u32
    } else {
        ((x + 0x7FFF_FFFF) + 1) as u32 + 0x8000_0000
    }
}

/// The 16-bit two's-complement representation of `x`, executable form.
pub fn unsigned_of_i16(x: i16) -> (r: u16)
    ensures
        r == u16_rep(x as int),
{
    if x >= 0 {
        x as u16
    } else {
        ((x + 0x7FFF) + 1) as u16 + 0x8000
    }
}

/// Appends the 2 little-endian bytes of `x` to `v`.
pub fn push_u16(v: &mut Vec<u8>, x: u16)
    ensures
        final(v)@ =~= old(v)@ + spec_u16_to_le_bytes(x),
{
    let mut bytes = vstd::bytes::u16_to_le_bytes(x);
    v.append(&mut bytes);
}

/// Appends the 4 little-endian bytes of `x` to `v`.
pub fn push_u32(v: &mut Vec<u8>, x: u32)
    ensures
        final(v)@ =~= old(v)@ + spec_u32_to_le_bytes(x),
{
    let mut bytes = vstd::bytes::u32_to_le_bytes(x);
    v.append(&mut bytes);
}

/// Adjacent subranges concatenate to the spanning subrange.
pub proof fn lemma_subrange_concat(s: Seq<u8>, a: int, b: int, c: int)
    requires
        0 <= a <= b <= c <= s.len(),
    ensures
        s.subrange(a, b) + s.subrange(b, c) =~= s.subrange(a, c),
{
}

impl BMP {
    /// Decodes 4 little-endian bytes as an unsigned 32-bit integer.
    pub fn bytes_to_int(bytes: [u8; 4]) -> (r: u32)
        ensures
            r == spec_u32_from_le_bytes(bytes@),
    {
        vstd::bytes::u32_from_le_bytes(bytes.as_slice())
    }

    /// Decodes 2 little-endian bytes as an unsigned 16-bit integer.
    pub fn two_bytes_to_int(bytes: [u8; 2]) -> (r: u16)
        ensures
            r == spec_u16_from_le_bytes(bytes@),
    {
        vstd::bytes::u16_from_le_bytes(bytes.as_slice())
    }

    /// A single byte is already its own unsigned integer value.
    pub fn byte_to_int(byte: u8) -> (r: u8)
        ensures
            r == byte,
    {
        byte
    }

    /// Decodes 2 little-endian bytes as a signed 16-bit integer.
    pub fn two_bytes_to_signed_int(bytes: [u8; 2]) -> (r: i16)
        ensures
            r as int == as_signed16(spec_u16_from_le_bytes(bytes@)),
    {
        let u = vstd::bytes::u16_from_le_bytes(bytes.as_slice());
        signed_of_u16(u)
    }

    /// Decodes 4 little-endian bytes as a signed 32-bit integer.
    pub fn bytes_to_signed_int(bytes: [u8; 4]) -> (r: i32)
        ensures
            r as int == as_signed32(spec_u32_from_le_bytes(bytes@)),
    {
        let u = vstd::bytes::u32_from_le_bytes(bytes.as_slice());
        signed_of_u32(u)
    }

    /// Copies up to 4 bytes of a vector into a fixed array, zero-padded.
    pub fn vec_to_4u8_array(vector: Vec<u8>) -> (r: [u8; 4])
        requires
            vector@.len() <= 4,
        ensures
            forall|i: int| 0 <= i < vector@.len() ==> r@[i] == vector@[i],
            forall|i: int| vector@.len() <= i < 4 ==> r@[i] == 0,
    {
        let mut array: [u8; 4] = [0, 0, 0, 0];
        let mut i: usize = 0;
        while i < vector.len()
            invariant
                vector@.len() <= 4,
                i <= vector@.len(),
                forall|j: int| 0 <= j < i ==> array@[j] == vector@[j],
                forall|j: int| i <= j < 4 ==> array@[j] == 0,
            decreases vector@.len() - i,
        {
            array[i] = vector[i];
            i = i + 1;
        }
        array
    }

    /// Copies up to 2 bytes of a vector into a fixed array, zero-padded.
    pub fn vec_to_2u8_array(vector: Vec<u8>) -> (r: [u8; 2])
        requires
            vector@.len() <= 2,
        ensures
            forall|i: int| 0 <= i < vector@.len() ==> r@[i] == vector@[i],
            forall|i: int| vector@.len() <= i < 2 ==> r@[i] == 0,
    {
        let mut array: [u8; 2] = [0, 0];
        let mut i: usize = 0;
        while i < vector.len()
            invariant
                vector@.len() <= 2,
                i <= vector@.len(),
                forall|j: int| 0 <= j < i ==> array@[j] == vector@[j],
                forall|j: int| i <= j < 2 ==> array@[j] == 0,
            decreases vector@.len() - i,
        {
            array[i] = vector[i];
            i = i + 1;
        }
        array
    }

    /// Copies up to 1 byte of a vector into a fixed array, zero-padded.
    pub fn vec_to_1u8_array(vector: Vec<u8>) -> (r: [u8; 1])
        requires
            vector@.len() <= 1,
        ensures
            forall|i: int| 0 <= i < vector@.len() ==> r@[i] == vector@[i],
            forall|i: int| vector@.len() <= i < 1 ==> r@[i] == 0,
    {
        let mut array: [u8; 1] = [0];
        if vector.len() > 0 {
            array[0] = vector[0];
        }
        array
    }

    /// Whole kilobytes contained in `bytes` bytes (1024 bytes each).
    pub fn num_bytes_to_kilobytes(bytes: u32) -> (r: u32)
        ensures
            r == bytes / 1024,
    {
        bytes / 1024
    }
}

} // verus!
