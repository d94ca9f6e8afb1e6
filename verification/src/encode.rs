//! Encoding: the scalar encoders of each width and the trait over them.

use crate::bits::{
    lemma_length_nibble, lemma_low_bits, lemma_split_u16, lemma_split_u32, lemma_zigzag_i128,
    lemma_zigzag_i16, lemma_zigzag_i32, lemma_zigzag_i64,
};
use crate::error::CodecError;
use crate::format::{
    canonical_tier, encoded_length, is_width, max_size, overwritten, pow256, prefix_len,
    significant_bytes, stored, stream_fit, stream_length, stream_stored, zigzag,
};
use crate::helpers::{const_copy_slice, const_read_array, significant_byte_count, write_le};
use crate::lemmas::{
    lemma_canonical_tier, lemma_encoding_cases, lemma_le_bytes_extend, lemma_le_bytes_len,
    lemma_pow256_values, lemma_significant_bytes, lemma_stored,
};
use vstd::prelude::*;

verus! {

/// Returns the encoded length that a prefix byte announces.
pub fn encoded_len(b: u8) -> (len: usize)
    ensures
        len == prefix_len(b),
{
    if b < 0x80 {
        1
    } else if b < 0xC0 {
        2
    } else if b < 0xE0 {
        3
    } else if b < 0xF0 {
        4
    } else {
        proof {
            lemma_low_bits(b);
        }
        ((b & 0x0F) + 2) as usize
    }
}

/// Calculates the encoded size of a `u16` without encoding it.
pub fn encoded_size_u16(value: u16) -> (len: usize)
    ensures
        len == encoded_length(2, value as nat),
        1 <= len <= 3,
{
    if value < 0x80 {
        1
    } else if value < 0x4000 {
        2
    } else {
        3
    }
}

/// Calculates the encoded size of a `u32` without encoding it.
pub fn encoded_size_u32(value: u32) -> (len: usize)
    ensures
        len == encoded_length(4, value as nat),
        1 <= len <= 5,
{
    proof {
        lemma_pow256_values();
        lemma_canonical_tier(4, value as nat);
        lemma_significant_bytes(value as nat, 4);
    }
    if value <= u16::MAX as u32 {
        encoded_size_u16(value as u16)
    } else if value < 0x20_0000 {
        3
    } else if value < 0x1000_0000 {
        4
    } else {
        5
    }
}

/// Counts the zero bytes at the high end of a `width`-byte value.
fn leading_zero_bytes(value: u128, width: u8) -> (count: u8)
    requires
        width <= 16,
        value < pow256(width as nat),
    ensures
        count == width - significant_bytes(value as nat),
{
    proof {
        lemma_significant_bytes(value as nat, width as nat);
    }
    width - significant_byte_count(value)
}

/// Calculates the encoded size of a `u64` without encoding it.
pub fn encoded_size_u64(value: u64) -> (len: usize)
    ensures
        len == encoded_length(8, value as nat),
        1 <= len <= 9,
{
    proof {
        lemma_pow256_values();
        lemma_canonical_tier(8, value as nat);
    }
    if value <= u32::MAX as u64 {
        encoded_size_u32(value as u32)
    } else {
        let zero_bytes = leading_zero_bytes(value as u128, 8);
        proof {
            lemma_length_nibble(zero_bytes);
        }
        let len = zero_bytes ^ 0b111;
        (len + 2) as usize
    }
}

/// Calculates the encoded size of a `u128` without encoding it.
pub fn encoded_size_u128(value: u128) -> (len: usize)
    ensures
        len == encoded_length(16, value as nat),
        1 <= len <= 17,
{
    proof {
        lemma_pow256_values();
        lemma_canonical_tier(16, value as nat);
    }
    if value <= u64::MAX as u128 {
        encoded_size_u64(value as u64)
    } else {
        let zero_bytes = leading_zero_bytes(value, 16);
        proof {
            lemma_length_nibble(zero_bytes);
        }
        let len = zero_bytes ^ 0b1111;
        (len + 2) as usize
    }
}

/// Encodes a `u16` into a buffer, returning the encoded length.
pub fn encode_u16(buf: &mut [u8; 3], value: u16) -> (len: usize)
    ensures
        len == encoded_length(2, value as nat),
        final(buf)@ == overwritten(old(buf)@, 0, stored(2, value as nat)),
        1 <= len <= 3,
        value < 0x80 ==> len == 1,
        prefix_len(final(buf)@[0]) == len,
{
    proof {
        lemma_pow256_values();
        lemma_stored(2, value as nat);
        lemma_encoding_cases(2, value as nat);
    }
    if value < 0x80 {
        buf[0] = value as u8;
        assert(buf@ =~= overwritten(old(buf)@, 0, stored(2, value as nat)));
        1
    } else if value < 0x4000 {
        proof {
            lemma_split_u16(value);
        }
        buf[0] = 0x80 | ((value & 0x3F) as u8);
        buf[1] = (value >> 6) as u8;
        assert(buf@ =~= overwritten(old(buf)@, 0, stored(2, value as nat)));
        2
    } else {
        buf[0] = 0xDE;
        write_le(buf, 1, value as u128, 2);
        proof {
            lemma_le_bytes_len(value as nat, 2);
            assert(buf@ =~= overwritten(old(buf)@, 0, stored(2, value as nat)));
        }
        3
    }
}

/// Encodes a `u32` into a buffer, returning the encoded length.
pub fn encode_u32(buf: &mut [u8; 5], value: u32) -> (len: usize)
    ensures
        len == encoded_length(4, value as nat),
        final(buf)@ == overwritten(old(buf)@, 0, stored(4, value as nat)),
        1 <= len <= 5,
        value < 0x80 ==> len == 1,
        prefix_len(final(buf)@[0]) == len,
{
    proof {
        lemma_pow256_values();
        lemma_stored(4, value as nat);
        lemma_canonical_tier(4, value as nat);
        lemma_encoding_cases(4, value as nat);
        lemma_split_u32(value);
    }
    if value < 0x4000 {
        let mut sub_buf: [u8; 3] = const_read_array::<3>(buf, 0);
        let len = encode_u16(&mut sub_buf, value as u16);
        const_copy_slice(&sub_buf, buf, 0, 3);
        proof {
            lemma_stored(2, value as nat);
            assert(stored(4, value as nat) == stored(2, value as nat));
            assert(buf@ =~= overwritten(old(buf)@, 0, stored(4, value as nat)));
        }
        len
    } else if value < 0x20_0000 {
        buf[0] = 0xC0 | ((value & 0x1F) as u8);
        write_le(buf, 1, (value >> 5) as u128, 2);
        proof {
            lemma_le_bytes_len((value / 32) as nat, 2);
            assert(buf@ =~= overwritten(old(buf)@, 0, stored(4, value as nat)));
        }
        3
    } else if value < 0x1000_0000 {
        buf[0] = 0xE0 | ((value & 0x0F) as u8);
        write_le(buf, 1, (value >> 4) as u128, 4);
        proof {
            lemma_le_bytes_extend((value / 16) as nat, 3, 1);
            lemma_le_bytes_len((value / 16) as nat, 3);
            lemma_le_bytes_len((value / 16) as nat, 4);
            assert(buf@ =~= overwritten(old(buf)@, 0, stored(4, value as nat)));
        }
        4
    } else {
        write_le(buf, 1, value as u128, 4);
        buf[0] = 0xF3;
        proof {
            lemma_le_bytes_len(value as nat, 4);
            assert(buf@ =~= overwritten(old(buf)@, 0, stored(4, value as nat)));
        }
        5
    }
}

/// Encodes a `u64` into a buffer, returning the encoded length.
pub fn encode_u64(buf: &mut [u8; 9], value: u64) -> (len: usize)
    ensures
        len == encoded_length(8, value as nat),
        final(buf)@ == overwritten(old(buf)@, 0, stored(8, value as nat)),
        1 <= len <= 9,
        value < 0x80 ==> len == 1,
        prefix_len(final(buf)@[0]) == len,
{
    proof {
        lemma_pow256_values();
        lemma_stored(8, value as nat);
        lemma_canonical_tier(8, value as nat);
        lemma_encoding_cases(8, value as nat);
    }
    if value <= u32::MAX as u64 {
        let mut sub_buf: [u8; 5] = const_read_array::<5>(buf, 0);
        let len = encode_u32(&mut sub_buf, value as u32);
        const_copy_slice(&sub_buf, buf, 0, 5);
        proof {
            lemma_stored(4, value as nat);
            lemma_canonical_tier(4, value as nat);
            assert(canonical_tier(8, value as nat) == canonical_tier(4, value as nat));
            assert(stored(8, value as nat) == stored(4, value as nat));
            assert(buf@ =~= overwritten(old(buf)@, 0, stored(8, value as nat)));
        }
        len
    } else {
        write_le(buf, 1, value as u128, 8);
        let zero_bytes = leading_zero_bytes(value as u128, 8);
        proof {
            lemma_length_nibble(zero_bytes);
            lemma_length_nibble((zero_bytes ^ 0b111) as u8);
        }
        let len = zero_bytes ^ 0b111;
        buf[0] = 0xF0 | len;
        proof {
            let n = significant_bytes(value as nat);
            lemma_significant_bytes(value as nat, n);
            lemma_le_bytes_extend(value as nat, n, (8 - n) as nat);
            lemma_le_bytes_len(value as nat, n);
            lemma_le_bytes_len(value as nat, 8);
            assert(buf@ =~= overwritten(old(buf)@, 0, stored(8, value as nat)));
        }
        (len + 2) as usize
    }
}

/// Encodes a `u128` into a buffer, returning the encoded length.
pub fn encode_u128(buf: &mut [u8; 17], value: u128) -> (len: usize)
    ensures
        len == encoded_length(16, value as nat),
        final(buf)@ == overwritten(old(buf)@, 0, stored(16, value as nat)),
        1 <= len <= 17,
        value < 0x80 ==> len == 1,
        prefix_len(final(buf)@[0]) == len,
{
    proof {
        lemma_pow256_values();
        lemma_stored(16, value as nat);
        lemma_canonical_tier(16, value as nat);
        lemma_encoding_cases(16, value as nat);
    }
    if value <= u64::MAX as u128 {
        let mut sub_buf: [u8; 9] = const_read_array::<9>(buf, 0);
        let len = encode_u64(&mut sub_buf, value as u64);
        const_copy_slice(&sub_buf, buf, 0, 9);
        proof {
            lemma_stored(8, value as nat);
            lemma_canonical_tier(8, value as nat);
            assert(canonical_tier(16, value as nat) == canonical_tier(8, value as nat));
            assert(stored(16, value as nat) == stored(8, value as nat));
            assert(buf@ =~= overwritten(old(buf)@, 0, stored(16, value as nat)));
        }
        len
    } else {
        write_le(buf, 1, value, 16);
        let zero_bytes = leading_zero_bytes(value, 16);
        proof {
            lemma_length_nibble(zero_bytes);
            lemma_length_nibble((zero_bytes ^ 0b1111) as u8);
        }
        let len = zero_bytes ^ 0b1111;
        buf[0] = 0xF0 | len;
        proof {
            let n = significant_bytes(value as nat);
            lemma_significant_bytes(value as nat, n);
            lemma_le_bytes_extend(value as nat, n, (16 - n) as nat);
            lemma_le_bytes_len(value as nat, n);
            lemma_le_bytes_len(value as nat, 16);
            assert(buf@ =~= overwritten(old(buf)@, 0, stored(16, value as nat)));
        }
        (len + 2) as usize
    }
}

/// Encodes an `i16` into a buffer, returning the encoded length.
pub fn encode_i16(buf: &mut [u8; 3], value: i16) -> (len: usize)
    ensures
        len == encoded_length(2, zigzag(value as int)),
        final(buf)@ == overwritten(old(buf)@, 0, stored(2, zigzag(value as int))),
        1 <= len <= 3,
        -64 <= value < 64 ==> len == 1,
        prefix_len(final(buf)@[0]) == len,
{
    proof {
        lemma_zigzag_i16(value);
    }
    let zigzag = ((value >> 15) as u16) ^ ((value << 1) as u16);
    encode_u16(buf, zigzag)
}

/// Encodes an `i32` into a buffer, returning the encoded length.
pub fn encode_i32(buf: &mut [u8; 5], value: i32) -> (len: usize)
    ensures
        len == encoded_length(4, zigzag(value as int)),
        final(buf)@ == overwritten(old(buf)@, 0, stored(4, zigzag(value as int))),
        1 <= len <= 5,
        -64 <= value < 64 ==> len == 1,
        prefix_len(final(buf)@[0]) == len,
{
    proof {
        lemma_zigzag_i32(value);
    }
    let zigzag = ((value >> 31) as u32) ^ ((value << 1) as u32);
    encode_u32(buf, zigzag)
}

/// Encodes an `i64` into a buffer, returning the encoded length.
pub fn encode_i64(buf: &mut [u8; 9], value: i64) -> (len: usize)
    ensures
        len == encoded_length(8, zigzag(value as int)),
        final(buf)@ == overwritten(old(buf)@, 0, stored(8, zigzag(value as int))),
        1 <= len <= 9,
        -64 <= value < 64 ==> len == 1,
        prefix_len(final(buf)@[0]) == len,
{
    proof {
        lemma_zigzag_i64(value);
    }
    let zigzag = ((value >> 63) as u64) ^ ((value << 1) as u64);
    encode_u64(buf, zigzag)
}

/// Encodes an `i128` into a buffer, returning the encoded length.
pub fn encode_i128(buf: &mut [u8; 17], value: i128) -> (len: usize)
    ensures
        len == encoded_length(16, zigzag(value as int)),
        final(buf)@ == overwritten(old(buf)@, 0, stored(16, zigzag(value as int))),
        1 <= len <= 17,
        -64 <= value < 64 ==> len == 1,
        prefix_len(final(buf)@[0]) == len,
{
    proof {
        lemma_zigzag_i128(value);
    }
    let zigzag = ((value >> 127) as u128) ^ ((value << 1) as u128);
    encode_u128(buf, zigzag)
}

/// A numeric type that can be encoded.
pub trait Encode: Sized {
    /// The length of the longest encoding of a value of the type.
    const MAX_ENCODED_SIZE: usize;

    /// The width in bytes of the unsigned integer that carries a value of the
    /// type on the wire.
    spec fn width() -> nat;

    /// The unsigned number that stands for `value` on the wire.
    spec fn wire_value(value: Self) -> nat;

    /// The wire value fits the width, and the width is a supported one.
    proof fn lemma_wire_value(value: Self)
        ensures
            is_width(Self::width()),
            Self::wire_value(value) < pow256(Self::width()),
            Self::MAX_ENCODED_SIZE == max_size(Self::width()),
    ;

    /// Encodes the value at the start of the buffer. Fails, and leaves the
    /// buffer as it is, if the buffer is shorter than the type's longest
    /// encoding, whatever the value.
    fn encode(buf: &mut [u8], value: Self) -> (r: Result<usize, CodecError>)
        ensures
            old(buf)@.len() < max_size(Self::width()) ==> r == Err::<usize, CodecError>(
                CodecError::BufferTooSmall,
            ) && final(buf)@ == old(buf)@,
            old(buf)@.len() >= max_size(Self::width()) ==> r == Ok::<usize, CodecError>(
                encoded_length(Self::width(), Self::wire_value(value)) as usize,
            ) && final(buf)@ == overwritten(
                old(buf)@,
                0,
                stored(Self::width(), Self::wire_value(value)),
            ),
    ;

    /// Calculates the encoded size of the value without encoding it.
    fn encoded_size(value: Self) -> (r: Result<usize, CodecError>)
        ensures
            r == Ok::<usize, CodecError>(
                encoded_length(Self::width(), Self::wire_value(value)) as usize,
            ),
    ;
}

impl Encode for u16 {
    const MAX_ENCODED_SIZE: usize = 3;

    open spec fn width() -> nat {
        2
    }

    open spec fn wire_value(value: Self) -> nat {
        value as nat
    }

    proof fn lemma_wire_value(value: Self) {
        lemma_pow256_values();
    }

    fn encode(buf: &mut [u8], value: Self) -> (r: Result<usize, CodecError>) {
        if buf.len() < 3 {
            return Err(CodecError::BufferTooSmall);
        }
        let mut window: [u8; 3] = const_read_array::<3>(buf, 0);
        let len = encode_u16(&mut window, value);
        const_copy_slice(&window, buf, 0, 3);
        proof {
            Self::lemma_wire_value(value);
            lemma_stored(2, Self::wire_value(value));
            assert(buf@ =~= overwritten(old(buf)@, 0, stored(2, Self::wire_value(value))));
        }
        Ok(len)
    }

    fn encoded_size(value: Self) -> (r: Result<usize, CodecError>) {
        Ok(encoded_size_u16(value))
    }
}

impl Encode for u32 {
    const MAX_ENCODED_SIZE: usize = 5;

    open spec fn width() -> nat {
        4
    }

    open spec fn wire_value(value: Self) -> nat {
        value as nat
    }

    proof fn lemma_wire_value(value: Self) {
        lemma_pow256_values();
    }

    fn encode(buf: &mut [u8], value: Self) -> (r: Result<usize, CodecError>) {
        if buf.len() < 5 {
            return Err(CodecError::BufferTooSmall);
        }
        let mut window: [u8; 5] = const_read_array::<5>(buf, 0);
        let len = encode_u32(&mut window, value);
        const_copy_slice(&window, buf, 0, 5);
        proof {
            Self::lemma_wire_value(value);
            lemma_stored(4, Self::wire_value(value));
            assert(buf@ =~= overwritten(old(buf)@, 0, stored(4, Self::wire_value(value))));
        }
        Ok(len)
    }

    fn encoded_size(value: Self) -> (r: Result<usize, CodecError>) {
        Ok(encoded_size_u32(value))
    }
}

impl Encode for u64 {
    const MAX_ENCODED_SIZE: usize = 9;

    open spec fn width() -> nat {
        8
    }

    open spec fn wire_value(value: Self) -> nat {
        value as nat
    }

    proof fn lemma_wire_value(value: Self) {
        lemma_pow256_values();
    }

    fn encode(buf: &mut [u8], value: Self) -> (r: Result<usize, CodecError>) {
        if buf.len() < 9 {
            return Err(CodecError::BufferTooSmall);
        }
        let mut window: [u8; 9] = const_read_array::<9>(buf, 0);
        let len = encode_u64(&mut window, value);
        const_copy_slice(&window, buf, 0, 9);
        proof {
            Self::lemma_wire_value(value);
            lemma_stored(8, Self::wire_value(value));
            assert(buf@ =~= overwritten(old(buf)@, 0, stored(8, Self::wire_value(value))));
        }
        Ok(len)
    }

    fn encoded_size(value: Self) -> (r: Result<usize, CodecError>) {
        Ok(encoded_size_u64(value))
    }
}

impl Encode for u128 {
    const MAX_ENCODED_SIZE: usize = 17;

    open spec fn width() -> nat {
        16
    }

    open spec fn wire_value(value: Self) -> nat {
        value as nat
    }

    proof fn lemma_wire_value(value: Self) {
        lemma_pow256_values();
    }

    fn encode(buf: &mut [u8], value: Self) -> (r: Result<usize, CodecError>) {
        if buf.len() < 17 {
            return Err(CodecError::BufferTooSmall);
        }
        let mut window: [u8; 17] = const_read_array::<17>(buf, 0);
        let len = encode_u128(&mut window, value);
        const_copy_slice(&window, buf, 0, 17);
        proof {
            Self::lemma_wire_value(value);
            lemma_stored(16, Self::wire_value(value));
            assert(buf@ =~= overwritten(old(buf)@, 0, stored(16, Self::wire_value(value))));
        }
        Ok(len)
    }

    fn encoded_size(value: Self) -> (r: Result<usize, CodecError>) {
        Ok(encoded_size_u128(value))
    }
}

impl Encode for i16 {
    const MAX_ENCODED_SIZE: usize = 3;

    open spec fn width() -> nat {
        2
    }

    open spec fn wire_value(value: Self) -> nat {
        zigzag(value as int)
    }

    proof fn lemma_wire_value(value: Self) {
        lemma_pow256_values();
        lemma_zigzag_i16(value);
    }

    fn encode(buf: &mut [u8], value: Self) -> (r: Result<usize, CodecError>) {
        if buf.len() < 3 {
            return Err(CodecError::BufferTooSmall);
        }
        let mut window: [u8; 3] = const_read_array::<3>(buf, 0);
        let len = encode_i16(&mut window, value);
        const_copy_slice(&window, buf, 0, 3);
        proof {
            Self::lemma_wire_value(value);
            lemma_stored(2, Self::wire_value(value));
            assert(buf@ =~= overwritten(old(buf)@, 0, stored(2, Self::wire_value(value))));
        }
        Ok(len)
    }

    fn encoded_size(value: Self) -> (r: Result<usize, CodecError>) {
        proof {
            lemma_zigzag_i16(value);
        }
        let zigzag = ((value >> 15) as u16) ^ ((value << 1) as u16);
        Ok(encoded_size_u16(zigzag))
    }
}

impl Encode for i32 {
    const MAX_ENCODED_SIZE: usize = 5;

    open spec fn width() -> nat {
        4
    }

    open spec fn wire_value(value: Self) -> nat {
        zigzag(value as int)
    }

    proof fn lemma_wire_value(value: Self) {
        lemma_pow256_values();
        lemma_zigzag_i32(value);
    }

    fn encode(buf: &mut [u8], value: Self) -> (r: Result<usize, CodecError>) {
        if buf.len() < 5 {
            return Err(CodecError::BufferTooSmall);
        }
        let mut window: [u8; 5] = const_read_array::<5>(buf, 0);
        let len = encode_i32(&mut window, value);
        const_copy_slice(&window, buf, 0, 5);
        proof {
            Self::lemma_wire_value(value);
            lemma_stored(4, Self::wire_value(value));
            assert(buf@ =~= overwritten(old(buf)@, 0, stored(4, Self::wire_value(value))));
        }
        Ok(len)
    }

    fn encoded_size(value: Self) -> (r: Result<usize, CodecError>) {
        proof {
            lemma_zigzag_i32(value);
        }
        let zigzag = ((value >> 31) as u32) ^ ((value << 1) as u32);
        Ok(encoded_size_u32(zigzag))
    }
}

impl Encode for i64 {
    const MAX_ENCODED_SIZE: usize = 9;

    open spec fn width() -> nat {
        8
    }

    open spec fn wire_value(value: Self) -> nat {
        zigzag(value as int)
    }

    proof fn lemma_wire_value(value: Self) {
        lemma_pow256_values();
        lemma_zigzag_i64(value);
    }

    fn encode(buf: &mut [u8], value: Self) -> (r: Result<usize, CodecError>) {
        if buf.len() < 9 {
            return Err(CodecError::BufferTooSmall);
        }
        let mut window: [u8; 9] = const_read_array::<9>(buf, 0);
        let len = encode_i64(&mut window, value);
        const_copy_slice(&window, buf, 0, 9);
        proof {
            Self::lemma_wire_value(value);
            lemma_stored(8, Self::wire_value(value));
            assert(buf@ =~= overwritten(old(buf)@, 0, stored(8, Self::wire_value(value))));
        }
        Ok(len)
    }

    fn encoded_size(value: Self) -> (r: Result<usize, CodecError>) {
        proof {
            lemma_zigzag_i64(value);
        }
        let zigzag = ((value >> 63) as u64) ^ ((value << 1) as u64);
        Ok(encoded_size_u64(zigzag))
    }
}

impl Encode for i128 {
    const MAX_ENCODED_SIZE: usize = 17;

    open spec fn width() -> nat {
        16
    }

    open spec fn wire_value(value: Self) -> nat {
        zigzag(value as int)
    }

    proof fn lemma_wire_value(value: Self) {
        lemma_pow256_values();
        lemma_zigzag_i128(value);
    }

    fn encode(buf: &mut [u8], value: Self) -> (r: Result<usize, CodecError>) {
        if buf.len() < 17 {
            return Err(CodecError::BufferTooSmall);
        }
        let mut window: [u8; 17] = const_read_array::<17>(buf, 0);
        let len = encode_i128(&mut window, value);
        const_copy_slice(&window, buf, 0, 17);
        proof {
            Self::lemma_wire_value(value);
            lemma_stored(16, Self::wire_value(value));
            assert(buf@ =~= overwritten(old(buf)@, 0, stored(16, Self::wire_value(value))));
        }
        Ok(len)
    }

    fn encoded_size(value: Self) -> (r: Result<usize, CodecError>) {
        proof {
            lemma_zigzag_i128(value);
        }
        let zigzag = ((value >> 127) as u128) ^ ((value << 1) as u128);
        Ok(encoded_size_u128(zigzag))
    }
}

/// The wire values of a sequence of values.
pub open spec fn wire_values<T: Encode>(values: Seq<T>) -> Seq<nat> {
    Seq::new(values.len(), |i: int| T::wire_value(values[i]))
}

/// Encodes a value of any supported type at the start of a buffer.
pub fn encode<T: Encode>(buf: &mut [u8], value: T) -> (r: Result<usize, CodecError>)
    ensures
        old(buf)@.len() < max_size(T::width()) ==> r == Err::<usize, CodecError>(
            CodecError::BufferTooSmall,
        ) && final(buf)@ == old(buf)@,
        old(buf)@.len() >= max_size(T::width()) ==> r == Ok::<usize, CodecError>(
            encoded_length(T::width(), T::wire_value(value)) as usize,
        ) && final(buf)@ == overwritten(old(buf)@, 0, stored(T::width(), T::wire_value(value))),
{
    T::encode(buf, value)
}

/// Calculates the encoded size of a value of any supported type.
pub fn encoded_size<T: Encode>(value: T) -> (r: Result<usize, CodecError>)
    ensures
        r == Ok::<usize, CodecError>(encoded_length(T::width(), T::wire_value(value)) as usize),
{
    T::encoded_size(value)
}

/// Once a value does not fit, no later one is stored.
pub proof fn lemma_stream_fit_stops(capacity: nat, width: nat, values: Seq<nat>, count: nat)
    requires
        count < values.len(),
        stream_fit(capacity, width, values.take(count as int)) == count,
        stream_length(width, values.take(count as int)) + max_size(width) > capacity,
    ensures
        stream_fit(capacity, width, values) == count,
    decreases values.len(),
{
    let before = values.drop_last();
    if count == before.len() {
        assert(before =~= values.take(count as int));
    } else {
        assert(before.take(count as int) =~= values.take(count as int));
        lemma_stream_fit_stops(capacity, width, before, count);
    }
}

/// Encodes `values` one after the other from the start of the buffer, and
/// returns the total length. Each value is stored only if at least the
/// longest encoding of the type still fits behind the one before; at the
/// first value for which it does not, the call fails, with the values before
/// it stored.
pub fn bulk_encode<T: Encode + Copy>(buf: &mut [u8], values: &[T]) -> (r: Result<usize, CodecError>)
    ensures
        ({
            let wires = wire_values::<T>(values@);
            let count = stream_fit(old(buf)@.len(), T::width(), wires);
            &&& final(buf)@ == stream_stored(old(buf)@, T::width(), wires.take(count as int))
            &&& count == values@.len() ==> r == Ok::<usize, CodecError>(
                stream_length(T::width(), wires) as usize,
            )
            &&& count < values@.len() ==> r == Err::<usize, CodecError>(
                CodecError::BufferTooSmall,
            )
        }),
{
    let ghost wires = wire_values::<T>(values@);
    let ghost capacity = buf@.len();
    let mut offset: usize = 0;
    let mut i: usize = 0;
    assert(wires.take(0) =~= Seq::<nat>::empty());
    while i < values.len()
        invariant
            i <= values@.len(),
            wires == wire_values::<T>(values@),
            capacity == old(buf)@.len(),
            buf.len() == capacity,
            offset <= buf.len(),
            offset == stream_length(T::width(), wires.take(i as int)),
            stream_fit(capacity, T::width(), wires.take(i as int)) == i,
            buf@ == stream_stored(old(buf)@, T::width(), wires.take(i as int)),
        decreases values@.len() - i,
    {
        let ghost before = buf@;
        let value = values[i];
        proof {
            T::lemma_wire_value(value);
            lemma_stored(T::width(), T::wire_value(value));
            assert(wires.take(i + 1).drop_last() =~= wires.take(i as int));
            assert(wires.take(i + 1).last() == T::wire_value(value));
        }
        let (_, tail) = buf.split_at_mut(offset);
        assert(tail@.len() == capacity - offset);
        match T::encode(tail, value) {
            Ok(len) => {
                proof {
                    assert(len == encoded_length(T::width(), T::wire_value(value)));
                    assert(len <= capacity - offset);
                    assert(buf@ =~= overwritten(
                        before,
                        offset as int,
                        stored(T::width(), T::wire_value(value)),
                    ));
                }
                offset += len;
            },
            Err(e) => {
                proof {
                    assert(buf@ =~= before);
                    lemma_stream_fit_stops(capacity, T::width(), wires, i as nat);
                }
                return Err(e);
            },
        }
        i += 1;
    }
    proof {
        assert(wires.take(i as int) =~= wires);
    }
    Ok(offset)
}

} // verus!
