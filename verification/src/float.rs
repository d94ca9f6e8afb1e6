//! Floating-point numbers, taken as their bit patterns.
//!
//! A float travels as the unsigned integer of its bits with the byte order
//! reversed, so that the zero bytes that common floats end in come to stand at
//! the high end, where the shorter tiers apply. The codec never looks at what
//! the bits mean: every pattern, those of NaNs too, comes back as it went in.

use crate::decode::{decode_u32, decode_u64, Decode};
use crate::encode::{encode_u32, encode_u64, encoded_size_u32, encoded_size_u64, Encode};
use crate::error::CodecError;
use crate::format::{byte_swapped, decoded, encoded_length, overwritten, prefix_len, stored};
use crate::helpers::{const_copy_slice, const_read_array, swap_bytes};
use crate::lemmas::{
    lemma_byte_swapped, lemma_decoded_agrees, lemma_pow256_values, lemma_stored,
};
use vstd::prelude::*;

verus! {

/// The bits of a 32-bit float.
#[derive(Clone, Copy, Debug, PartialEq, Eq, Structural)]
pub struct F32Bits(pub u32);

/// The bits of a 64-bit float.
#[derive(Clone, Copy, Debug, PartialEq, Eq, Structural)]
pub struct F64Bits(pub u64);

/// Encodes the bits of an `f32` into a buffer, returning the encoded length.
pub fn encode_f32_bits(buf: &mut [u8; 5], bits: u32) -> (len: usize)
    ensures
        len == encoded_length(4, byte_swapped(4, bits as nat)),
        final(buf)@ == overwritten(old(buf)@, 0, stored(4, byte_swapped(4, bits as nat))),
        1 <= len <= 5,
        prefix_len(final(buf)@[0]) == len,
{
    proof {
        lemma_pow256_values();
    }
    encode_u32(buf, swap_bytes(bits as u128, 4) as u32)
}

/// Encodes the bits of an `f64` into a buffer, returning the encoded length.
pub fn encode_f64_bits(buf: &mut [u8; 9], bits: u64) -> (len: usize)
    ensures
        len == encoded_length(8, byte_swapped(8, bits as nat)),
        final(buf)@ == overwritten(old(buf)@, 0, stored(8, byte_swapped(8, bits as nat))),
        1 <= len <= 9,
        prefix_len(final(buf)@[0]) == len,
{
    proof {
        lemma_pow256_values();
    }
    encode_u64(buf, swap_bytes(bits as u128, 8) as u64)
}

/// Decodes the bits of an `f32` from a buffer, returning them and the encoded
/// length.
pub fn decode_f32_bits(buf: &[u8; 5]) -> (r: (u32, usize))
    ensures
        r.0 == byte_swapped(4, decoded(4, buf@).0),
        r.1 == decoded(4, buf@).1,
{
    proof {
        lemma_pow256_values();
    }
    let (swapped, len) = decode_u32(buf);
    (swap_bytes(swapped as u128, 4) as u32, len)
}

/// Decodes the bits of an `f64` from a buffer, returning them and the encoded
/// length.
pub fn decode_f64_bits(buf: &[u8; 9]) -> (r: (u64, usize))
    ensures
        r.0 == byte_swapped(8, decoded(8, buf@).0),
        r.1 == decoded(8, buf@).1,
{
    proof {
        lemma_pow256_values();
    }
    let (swapped, len) = decode_u64(buf);
    (swap_bytes(swapped as u128, 8) as u64, len)
}

impl Encode for F32Bits {
    const MAX_ENCODED_SIZE: usize = 5;

    open spec fn width() -> nat {
        4
    }

    open spec fn wire_value(value: Self) -> nat {
        byte_swapped(4, value.0 as nat)
    }

    proof fn lemma_wire_value(value: Self) {
        lemma_pow256_values();
        lemma_byte_swapped(4, value.0 as nat);
    }

    fn encode(buf: &mut [u8], value: Self) -> (r: Result<usize, CodecError>) {
        if buf.len() < 5 {
            return Err(CodecError::BufferTooSmall);
        }
        let mut window: [u8; 5] = const_read_array::<5>(buf, 0);
        let len = encode_f32_bits(&mut window, value.0);
        const_copy_slice(&window, buf, 0, 5);
        proof {
            Self::lemma_wire_value(value);
            lemma_stored(4, Self::wire_value(value));
            assert(buf@ =~= overwritten(old(buf)@, 0, stored(4, Self::wire_value(value))));
        }
        Ok(len)
    }

    fn encoded_size(value: Self) -> (r: Result<usize, CodecError>) {
        proof {
            lemma_pow256_values();
        }
        Ok(encoded_size_u32(swap_bytes(value.0 as u128, 4) as u32))
    }
}

impl Encode for F64Bits {
    const MAX_ENCODED_SIZE: usize = 9;

    open spec fn width() -> nat {
        8
    }

    open spec fn wire_value(value: Self) -> nat {
        byte_swapped(8, value.0 as nat)
    }

    proof fn lemma_wire_value(value: Self) {
        lemma_pow256_values();
        lemma_byte_swapped(8, value.0 as nat);
    }

    fn encode(buf: &mut [u8], value: Self) -> (r: Result<usize, CodecError>) {
        if buf.len() < 9 {
            return Err(CodecError::BufferTooSmall);
        }
        let mut window: [u8; 9] = const_read_array::<9>(buf, 0);
        let len = encode_f64_bits(&mut window, value.0);
        const_copy_slice(&window, buf, 0, 9);
        proof {
            Self::lemma_wire_value(value);
            lemma_stored(8, Self::wire_value(value));
            assert(buf@ =~= overwritten(old(buf)@, 0, stored(8, Self::wire_value(value))));
        }
        Ok(len)
    }

    fn encoded_size(value: Self) -> (r: Result<usize, CodecError>) {
        proof {
            lemma_pow256_values();
        }
        Ok(encoded_size_u64(swap_bytes(value.0 as u128, 8) as u64))
    }
}

impl Decode for F32Bits {
    const MAX_ENCODED_SIZE: usize = 5;

    open spec fn width() -> nat {
        4
    }

    open spec fn from_wire(wire: nat) -> Self {
        F32Bits(byte_swapped(4, wire) as u32)
    }

    proof fn lemma_width() {
    }

    fn decode(buf: &[u8]) -> (r: Result<(Self, usize), CodecError>) {
        if buf.len() < 5 {
            return Err(CodecError::BufferTooSmall);
        }
        let window: [u8; 5] = const_read_array::<5>(buf, 0);
        proof {
            lemma_decoded_agrees(4, buf@, window@);
        }
        let (bits, len) = decode_f32_bits(&window);
        Ok((F32Bits(bits), len))
    }
}

impl Decode for F64Bits {
    const MAX_ENCODED_SIZE: usize = 9;

    open spec fn width() -> nat {
        8
    }

    open spec fn from_wire(wire: nat) -> Self {
        F64Bits(byte_swapped(8, wire) as u64)
    }

    proof fn lemma_width() {
    }

    fn decode(buf: &[u8]) -> (r: Result<(Self, usize), CodecError>) {
        if buf.len() < 9 {
            return Err(CodecError::BufferTooSmall);
        }
        let window: [u8; 9] = const_read_array::<9>(buf, 0);
        proof {
            lemma_decoded_agrees(8, buf@, window@);
        }
        let (bits, len) = decode_f64_bits(&window);
        Ok((F64Bits(bits), len))
    }
}

} // verus!
