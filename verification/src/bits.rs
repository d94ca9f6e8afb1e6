//! How the bit operations of the codec read as arithmetic.

use vstd::prelude::*;

verus! {

/// The prefix and payload of a 16-bit value in the two-byte tier.
pub proof fn lemma_split_u16(value: u16)
    by (bit_vector)
    requires
        value < 0x4000,
    ensures
        (0x80u8 | ((value & 0x3F) as u8)) == 0x80 + value % 64,
        ((value >> 6) as u8) == value / 64,
{
}

/// The prefix and payload of a 32-bit value in the two-byte, three-byte and
/// four-byte tiers.
pub proof fn lemma_split_u32(value: u32)
    by (bit_vector)
    ensures
        value < 0x4000 ==> (0x80u8 | ((value & 0x3F) as u8)) == 0x80 + value % 64,
        (value >> 6) == value / 64,
        (0xC0u8 | ((value & 0x1F) as u8)) == 0xC0 + value % 32,
        (value >> 5) == value / 32,
        (0xE0u8 | ((value & 0x0F) as u8)) == 0xE0 + value % 16,
        (value >> 4) == value / 16,
{
}

/// The value bits that a prefix byte carries in each tier.
pub proof fn lemma_low_bits(prefix: u8)
    by (bit_vector)
    ensures
        prefix & 0x3F == prefix % 64,
        prefix & 0x1F == prefix % 32,
        prefix & 0x0F == prefix % 16,
{
}

/// Joining six prefix bits with one payload byte.
pub proof fn lemma_join_u16(low: u8, payload: u8)
    by (bit_vector)
    requires
        low < 64,
    ensures
        (((payload as u16) << 6) | (low as u16)) == low + 64 * payload,
{
}

/// Joining the prefix bits with the payload in the two-byte, three-byte and
/// four-byte tiers.
pub proof fn lemma_join_u32(low: u32, payload: u32)
    by (bit_vector)
    ensures
        low < 64 && payload < 0x100 ==> ((payload << 6) | low) == low + 64 * payload,
        low < 32 && payload < 0x1_0000 ==> ((payload << 5) | low) == low + 32 * payload,
        low < 16 && payload < 0x100_0000 ==> ((payload << 4) | low) == low + 16 * payload,
{
}

/// The length nibble of a length-prefixed tier, from the count of leading
/// zero bytes.
pub proof fn lemma_length_nibble(zero_bytes: u8)
    by (bit_vector)
    ensures
        zero_bytes <= 7 ==> (zero_bytes ^ 0b111) == 7 - zero_bytes,
        zero_bytes <= 15 ==> (zero_bytes ^ 0b1111) == 15 - zero_bytes,
        zero_bytes <= 15 ==> (0xF0u8 | zero_bytes) == 0xF0 + zero_bytes,
{
}

/// The zigzag bit trick on `i16` as arithmetic.
pub proof fn lemma_zigzag_i16(value: i16)
    by (bit_vector)
    ensures
        value >= 0 ==> (((value >> 15) as u16) ^ ((value << 1) as u16)) == 2 * value,
        value < 0 ==> (((value >> 15) as u16) ^ ((value << 1) as u16)) == -2 * value - 1,
{
}

/// The zigzag bit trick undone on `u16` as arithmetic.
pub proof fn lemma_unzigzag_u16(wire: u16)
    by (bit_vector)
    ensures
        wire & 1 == wire % 2,
        (wire >> 1) == wire / 2,
        wire % 2 == 0 ==> (((wire >> 1) as i16) ^ ((0 - ((wire & 1) as i16)) as i16))
            == wire / 2,
        wire % 2 == 1 ==> (((wire >> 1) as i16) ^ ((0 - ((wire & 1) as i16)) as i16))
            == -(wire / 2) - 1,
{
}

/// The zigzag bit trick on `i32` as arithmetic.
pub proof fn lemma_zigzag_i32(value: i32)
    by (bit_vector)
    ensures
        value >= 0 ==> (((value >> 31) as u32) ^ ((value << 1) as u32)) == 2 * value,
        value < 0 ==> (((value >> 31) as u32) ^ ((value << 1) as u32)) == -2 * value - 1,
{
}

/// The zigzag bit trick undone on `u32` as arithmetic.
pub proof fn lemma_unzigzag_u32(wire: u32)
    by (bit_vector)
    ensures
        wire & 1 == wire % 2,
        (wire >> 1) == wire / 2,
        wire % 2 == 0 ==> (((wire >> 1) as i32) ^ ((0 - ((wire & 1) as i32)) as i32))
            == wire / 2,
        wire % 2 == 1 ==> (((wire >> 1) as i32) ^ ((0 - ((wire & 1) as i32)) as i32))
            == -(wire / 2) - 1,
{
}

/// The zigzag bit trick on `i64` as arithmetic.
pub proof fn lemma_zigzag_i64(value: i64)
    by (bit_vector)
    ensures
        value >= 0 ==> (((value >> 63) as u64) ^ ((value << 1) as u64)) == 2 * value,
        value < 0 ==> (((value >> 63) as u64) ^ ((value << 1) as u64)) == -2 * value - 1,
{
}

/// The zigzag bit trick undone on `u64` as arithmetic.
pub proof fn lemma_unzigzag_u64(wire: u64)
    by (bit_vector)
    ensures
        wire & 1 == wire % 2,
        (wire >> 1) == wire / 2,
        wire % 2 == 0 ==> (((wire >> 1) as i64) ^ ((0 - ((wire & 1) as i64)) as i64))
            == wire / 2,
        wire % 2 == 1 ==> (((wire >> 1) as i64) ^ ((0 - ((wire & 1) as i64)) as i64))
            == -(wire / 2) - 1,
{
}

/// The zigzag bit trick on `i128` as arithmetic.
pub proof fn lemma_zigzag_i128(value: i128)
    by (bit_vector)
    ensures
        value >= 0 ==> (((value >> 127) as u128) ^ ((value << 1) as u128)) == 2 * value,
        value < 0 ==> (((value >> 127) as u128) ^ ((value << 1) as u128)) == -2 * value - 1,
{
}

/// The zigzag bit trick undone on `u128` as arithmetic.
pub proof fn lemma_unzigzag_u128(wire: u128)
    by (bit_vector)
    ensures
        wire & 1 == wire % 2,
        (wire >> 1) == wire / 2,
        wire % 2 == 0 ==> (((wire >> 1) as i128) ^ ((0 - ((wire & 1) as i128)) as i128))
            == wire / 2,
        wire % 2 == 1 ==> (((wire >> 1) as i128) ^ ((0 - ((wire & 1) as i128)) as i128))
            == -(wire / 2) - 1,
{
}

} // verus!
