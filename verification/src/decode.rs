//! Decoding: the scalar decoders of each width and the trait over them.
//!
//! Decoding is total. The first byte alone selects the tier, and every byte
//! selects one: a prefix that no encoder of the width writes is read by the
//! length-prefix rule, not refused. A value need not stand in the shortest
//! tier that holds it to be read.

use crate::bits::{
    lemma_join_u16, lemma_join_u32, lemma_low_bits, lemma_unzigzag_u128, lemma_unzigzag_u16,
    lemma_unzigzag_u32, lemma_unzigzag_u64,
};
use crate::error::CodecError;
use crate::format::{decoded, is_width, max_size, pow256, scan, unzigzag};
use crate::helpers::{const_read_array, read_le};
use crate::lemmas::{
    lemma_decoded_agrees, lemma_decoded_cases, lemma_pow256_increases, lemma_pow256_values,
    lemma_scan_bounds,
};
use vstd::prelude::*;

verus! {

/// Decodes the length-prefixed form: the prefix's low nibble is the payload
/// length less one, of which at most `width` bytes count.
fn decode_length_prefixed(buf: &[u8], width: usize) -> (r: (u128, usize))
    requires
        is_width(width as nat),
        buf@.len() >= width + 1,
        width == 2 ==> 0xC0 <= buf@[0] && buf@[0] != 0xDE,
        width != 2 ==> 0xF0 <= buf@[0],
    ensures
        (r.0 as nat, r.1 as nat) == decoded(width as nat, buf@),
        r.0 < pow256(width as nat),
{
    proof {
        lemma_low_bits(buf@[0]);
        lemma_decoded_cases(width as nat, buf@);
    }
    let len = buf[0] & 0x0F;
    let payload_bytes = (len + 1) as usize;
    let effective_bytes = if payload_bytes < width {
        payload_bytes
    } else {
        width
    };
    let value = read_le(buf, 1, effective_bytes);
    proof {
        lemma_pow256_increases(effective_bytes as nat, width as nat);
    }
    (value, (len + 2) as usize)
}

/// Decodes a `u16` from a buffer, returning the value and encoded length.
pub fn decode_u16(buf: &[u8; 3]) -> (r: (u16, usize))
    ensures
        (r.0 as nat, r.1 as nat) == decoded(2, buf@),
{
    proof {
        lemma_pow256_values();
        lemma_low_bits(buf@[0]);
        lemma_decoded_cases(2, buf@);
    }
    let buf0 = buf[0];
    if buf0 < 0x80 {
        (buf0 as u16, 1)
    } else if buf0 < 0xC0 {
        let low = buf0 & 0x3F;
        proof {
            lemma_join_u16(low, buf@[1]);
        }
        let value = ((buf[1] as u16) << 6) | (low as u16);
        (value, 2)
    } else if buf0 == 0xDE {
        let value = read_le(buf, 1, 2);
        (value as u16, 3)
    } else {
        let (value, len) = decode_length_prefixed(buf, 2);
        (value as u16, len)
    }
}

/// Decodes a `u32` from a buffer, returning the value and encoded length.
pub fn decode_u32(buf: &[u8; 5]) -> (r: (u32, usize))
    ensures
        (r.0 as nat, r.1 as nat) == decoded(4, buf@),
{
    proof {
        lemma_pow256_values();
        lemma_low_bits(buf@[0]);
        lemma_decoded_cases(4, buf@);
    }
    let buf0 = buf[0];
    if buf0 >= 0xF0 {
        let (value, len) = decode_length_prefixed(buf, 4);
        (value as u32, len)
    } else if buf0 < 0xC0 {
        let sub_buf: [u8; 3] = const_read_array::<3>(buf, 0);
        proof {
            lemma_decoded_cases(2, sub_buf@);
        }
        let (value, len) = decode_u16(&sub_buf);
        (value as u32, len)
    } else if buf0 < 0xE0 {
        let low = (buf0 & 0x1F) as u32;
        let payload = read_le(buf, 1, 2) as u32;
        proof {
            lemma_join_u32(low, payload);
        }
        ((payload << 5) | low, 3)
    } else {
        let low = (buf0 & 0x0F) as u32;
        let payload = read_le(buf, 1, 3) as u32;
        proof {
            lemma_join_u32(low, payload);
        }
        ((payload << 4) | low, 4)
    }
}

/// Decodes a `u64` from a buffer, returning the value and encoded length.
pub fn decode_u64(buf: &[u8; 9]) -> (r: (u64, usize))
    ensures
        (r.0 as nat, r.1 as nat) == decoded(8, buf@),
{
    proof {
        lemma_pow256_values();
        lemma_decoded_cases(8, buf@);
    }
    if buf[0] >= 0xF0 {
        let (value, len) = decode_length_prefixed(buf, 8);
        (value as u64, len)
    } else {
        let sub_buf: [u8; 5] = const_read_array::<5>(buf, 0);
        proof {
            lemma_decoded_cases(4, sub_buf@);
            assert(sub_buf@.subrange(1, 3) =~= buf@.subrange(1, 3));
            assert(sub_buf@.subrange(1, 4) =~= buf@.subrange(1, 4));
        }
        let (value, len) = decode_u32(&sub_buf);
        (value as u64, len)
    }
}

/// Decodes a `u128` from a buffer, returning the value and encoded length.
pub fn decode_u128(buf: &[u8; 17]) -> (r: (u128, usize))
    ensures
        (r.0 as nat, r.1 as nat) == decoded(16, buf@),
{
    proof {
        lemma_pow256_values();
        lemma_decoded_cases(16, buf@);
    }
    if buf[0] >= 0xF0 {
        decode_length_prefixed(buf, 16)
    } else {
        let sub_buf: [u8; 5] = const_read_array::<5>(buf, 0);
        proof {
            lemma_decoded_cases(4, sub_buf@);
            assert(sub_buf@.subrange(1, 3) =~= buf@.subrange(1, 3));
            assert(sub_buf@.subrange(1, 4) =~= buf@.subrange(1, 4));
        }
        let (value, len) = decode_u32(&sub_buf);
        (value as u128, len)
    }
}

/// Decodes an `i16` from a buffer, returning the value and encoded length.
pub fn decode_i16(buf: &[u8; 3]) -> (r: (i16, usize))
    ensures
        r.0 == unzigzag(decoded(2, buf@).0),
        r.1 == decoded(2, buf@).1,
{
    let (zigzag, len) = decode_u16(buf);
    proof {
        lemma_unzigzag_u16(zigzag);
    }
    let value = ((zigzag >> 1) as i16) ^ (-((zigzag & 1) as i16));
    (value, len)
}

/// Decodes an `i32` from a buffer, returning the value and encoded length.
pub fn decode_i32(buf: &[u8; 5]) -> (r: (i32, usize))
    ensures
        r.0 == unzigzag(decoded(4, buf@).0),
        r.1 == decoded(4, buf@).1,
{
    let (zigzag, len) = decode_u32(buf);
    proof {
        lemma_unzigzag_u32(zigzag);
    }
    let value = ((zigzag >> 1) as i32) ^ (-((zigzag & 1) as i32));
    (value, len)
}

/// Decodes an `i64` from a buffer, returning the value and encoded length.
pub fn decode_i64(buf: &[u8; 9]) -> (r: (i64, usize))
    ensures
        r.0 == unzigzag(decoded(8, buf@).0),
        r.1 == decoded(8, buf@).1,
{
    let (zigzag, len) = decode_u64(buf);
    proof {
        lemma_unzigzag_u64(zigzag);
    }
    let value = ((zigzag >> 1) as i64) ^ (-((zigzag & 1) as i64));
    (value, len)
}

/// Decodes an `i128` from a buffer, returning the value and encoded length.
pub fn decode_i128(buf: &[u8; 17]) -> (r: (i128, usize))
    ensures
        r.0 == unzigzag(decoded(16, buf@).0),
        r.1 == decoded(16, buf@).1,
{
    let (zigzag, len) = decode_u128(buf);
    proof {
        lemma_unzigzag_u128(zigzag);
    }
    let value = ((zigzag >> 1) as i128) ^ (-((zigzag & 1) as i128));
    (value, len)
}

/// A numeric type that can be decoded.
pub trait Decode: Sized {
    /// The length of the longest encoding of a value of the type.
    const MAX_ENCODED_SIZE: usize;

    /// The width in bytes of the unsigned integer that carries a value of the
    /// type on the wire.
    spec fn width() -> nat;

    /// The value that an unsigned number on the wire stands for.
    spec fn from_wire(wire: nat) -> Self;

    /// The width is a supported one.
    proof fn lemma_width()
        ensures
            is_width(Self::width()),
            Self::MAX_ENCODED_SIZE == max_size(Self::width()),
    ;

    /// Decodes the value at the start of the buffer. Fails if the buffer is
    /// shorter than the type's longest encoding, whatever it holds; succeeds
    /// on every other buffer.
    fn decode(buf: &[u8]) -> (r: Result<(Self, usize), CodecError>)
        ensures
            buf@.len() < max_size(Self::width()) ==> r == Err::<(Self, usize), CodecError>(
                CodecError::BufferTooSmall,
            ),
            buf@.len() >= max_size(Self::width()) ==> r == Ok::<(Self, usize), CodecError>(
                (
                    Self::from_wire(decoded(Self::width(), buf@).0),
                    decoded(Self::width(), buf@).1 as usize,
                ),
            ),
    ;
}

impl Decode for u16 {
    const MAX_ENCODED_SIZE: usize = 3;

    open spec fn width() -> nat {
        2
    }

    open spec fn from_wire(wire: nat) -> Self {
        wire as u16
    }

    proof fn lemma_width() {
    }

    fn decode(buf: &[u8]) -> (r: Result<(Self, usize), CodecError>) {
        if buf.len() < 3 {
            return Err(CodecError::BufferTooSmall);
        }
        let window: [u8; 3] = const_read_array::<3>(buf, 0);
        proof {
            lemma_decoded_agrees(2, buf@, window@);
        }
        Ok(decode_u16(&window))
    }
}

impl Decode for u32 {
    const MAX_ENCODED_SIZE: usize = 5;

    open spec fn width() -> nat {
        4
    }

    open spec fn from_wire(wire: nat) -> Self {
        wire as u32
    }

    proof fn lemma_width() {
    }

    fn decode(buf: &[u8]) -> (r: Result<(Self, usize), CodecError>) {
        if buf.len() < 5 {
            return Err(CodecError::BufferTooSmall);
        }
        let window: [u8; 5] = const_read_array::<5>(buf, 0);
        proof {
            lemma_decoded_agrees(4, buf@, window@);
        }
        Ok(decode_u32(&window))
    }
}

impl Decode for u64 {
    const MAX_ENCODED_SIZE: usize = 9;

    open spec fn width() -> nat {
        8
    }

    open spec fn from_wire(wire: nat) -> Self {
        wire as u64
    }

    proof fn lemma_width() {
    }

    fn decode(buf: &[u8]) -> (r: Result<(Self, usize), CodecError>) {
        if buf.len() < 9 {
            return Err(CodecError::BufferTooSmall);
        }
        let window: [u8; 9] = const_read_array::<9>(buf, 0);
        proof {
            lemma_decoded_agrees(8, buf@, window@);
        }
        Ok(decode_u64(&window))
    }
}

impl Decode for u128 {
    const MAX_ENCODED_SIZE: usize = 17;

    open spec fn width() -> nat {
        16
    }

    open spec fn from_wire(wire: nat) -> Self {
        wire as u128
    }

    proof fn lemma_width() {
    }

    fn decode(buf: &[u8]) -> (r: Result<(Self, usize), CodecError>) {
        if buf.len() < 17 {
            return Err(CodecError::BufferTooSmall);
        }
        let window: [u8; 17] = const_read_array::<17>(buf, 0);
        proof {
            lemma_decoded_agrees(16, buf@, window@);
        }
        Ok(decode_u128(&window))
    }
}

impl Decode for i16 {
    const MAX_ENCODED_SIZE: usize = 3;

    open spec fn width() -> nat {
        2
    }

    open spec fn from_wire(wire: nat) -> Self {
        unzigzag(wire) as i16
    }

    proof fn lemma_width() {
    }

    fn decode(buf: &[u8]) -> (r: Result<(Self, usize), CodecError>) {
        if buf.len() < 3 {
            return Err(CodecError::BufferTooSmall);
        }
        let window: [u8; 3] = const_read_array::<3>(buf, 0);
        proof {
            lemma_decoded_agrees(2, buf@, window@);
        }
        Ok(decode_i16(&window))
    }
}

impl Decode for i32 {
    const MAX_ENCODED_SIZE: usize = 5;

    open spec fn width() -> nat {
        4
    }

    open spec fn from_wire(wire: nat) -> Self {
        unzigzag(wire) as i32
    }

    proof fn lemma_width() {
    }

    fn decode(buf: &[u8]) -> (r: Result<(Self, usize), CodecError>) {
        if buf.len() < 5 {
            return Err(CodecError::BufferTooSmall);
        }
        let window: [u8; 5] = const_read_array::<5>(buf, 0);
        proof {
            lemma_decoded_agrees(4, buf@, window@);
        }
        Ok(decode_i32(&window))
    }
}

impl Decode for i64 {
    const MAX_ENCODED_SIZE: usize = 9;

    open spec fn width() -> nat {
        8
    }

    open spec fn from_wire(wire: nat) -> Self {
        unzigzag(wire) as i64
    }

    proof fn lemma_width() {
    }

    fn decode(buf: &[u8]) -> (r: Result<(Self, usize), CodecError>) {
        if buf.len() < 9 {
            return Err(CodecError::BufferTooSmall);
        }
        let window: [u8; 9] = const_read_array::<9>(buf, 0);
        proof {
            lemma_decoded_agrees(8, buf@, window@);
        }
        Ok(decode_i64(&window))
    }
}

impl Decode for i128 {
    const MAX_ENCODED_SIZE: usize = 17;

    open spec fn width() -> nat {
        16
    }

    open spec fn from_wire(wire: nat) -> Self {
        unzigzag(wire) as i128
    }

    proof fn lemma_width() {
    }

    fn decode(buf: &[u8]) -> (r: Result<(Self, usize), CodecError>) {
        if buf.len() < 17 {
            return Err(CodecError::BufferTooSmall);
        }
        let window: [u8; 17] = const_read_array::<17>(buf, 0);
        proof {
            lemma_decoded_agrees(16, buf@, window@);
        }
        Ok(decode_i128(&window))
    }
}

/// Decodes a value of any supported type from the start of a buffer.
pub fn decode<T: Decode>(buf: &[u8]) -> (r: Result<(T, usize), CodecError>)
    ensures
        buf@.len() < max_size(T::width()) ==> r == Err::<(T, usize), CodecError>(
            CodecError::BufferTooSmall,
        ),
        buf@.len() >= max_size(T::width()) ==> r == Ok::<(T, usize), CodecError>(
            (T::from_wire(decoded(T::width(), buf@).0), decoded(T::width(), buf@).1 as usize),
        ),
{
    T::decode(buf)
}

/// Decodes values from the buffer into `values`, one after the other, until
/// `values` is full or the buffer is used up, and returns the offset behind
/// the last value read. Each value is read only if at least the longest
/// encoding of the type is left in the buffer; where less is left, the call
/// fails, with the values before that point stored. A buffer that ends in the
/// middle of a value is not told apart from one that does not.
pub fn bulk_decode<T: Decode>(buf: &[u8], values: &mut [T]) -> (r: Result<usize, CodecError>)
    requires
        buf@.len() + 16 <= usize::MAX,
    ensures
        ({
            let found = scan(T::width(), buf@, 0, old(values)@.len());
            &&& final(values)@.len() == old(values)@.len()
            &&& found.values.len() <= old(values)@.len()
            &&& forall|k: int|
                0 <= k < found.values.len() ==> final(values)@[k] == T::from_wire(found.values[k])
            &&& forall|k: int|
                found.values.len() <= k < old(values)@.len() ==> final(values)@[k] == old(
                    values,
                )@[k]
            &&& found.complete ==> r == Ok::<usize, CodecError>(found.end as usize)
            &&& !found.complete ==> r == Err::<usize, CodecError>(CodecError::BufferTooSmall)
        }),
{
    let ghost count = values@.len();
    let ghost whole = scan(T::width(), buf@, 0, count);
    let ghost mut done: Seq<nat> = Seq::empty();
    let mut offset: usize = 0;
    let mut i: usize = 0;
    proof {
        lemma_scan_bounds(T::width(), buf@, 0, count);
    }
    while i < values.len() && offset < buf.len()
        invariant
            count == old(values)@.len(),
            values.len() == count,
            i <= count,
            buf.len() + 16 <= usize::MAX,
            offset <= buf.len() + 16,
            whole == scan(T::width(), buf@, 0, count),
            done.len() == i,
            whole.values == done + scan(T::width(), buf@, offset as nat, (count - i) as nat).values,
            whole.end == scan(T::width(), buf@, offset as nat, (count - i) as nat).end,
            whole.complete == scan(
                T::width(),
                buf@,
                offset as nat,
                (count - i) as nat,
            ).complete,
            forall|k: int| 0 <= k < i ==> values@[k] == T::from_wire(done[k]),
            forall|k: int| i <= k < count ==> values@[k] == old(values)@[k],
        decreases count - i,
    {
        let (_, tail) = buf.split_at(offset);
        proof {
            T::lemma_width();
            assert(tail@ =~= buf@.skip(offset as int));
            if tail@.len() >= max_size(T::width()) {
                lemma_decoded_agrees(T::width(), tail@, tail@);
            }
        }
        match T::decode(tail) {
            Ok((value, len)) => {
                values[i] = value;
                proof {
                    let wire = decoded(T::width(), tail@).0;
                    let rest = scan(
                        T::width(),
                        buf@,
                        (offset + len) as nat,
                        (count - i - 1) as nat,
                    );
                    assert(done.push(wire) + rest.values =~= done + (seq![wire] + rest.values));
                    done = done.push(wire);
                }
                offset += len;
                i += 1;
            },
            Err(e) => {
                proof {
                    assert(whole.values =~= done);
                }
                return Err(e);
            },
        }
    }
    proof {
        assert(whole.values =~= done);
    }
    Ok(offset)
}

} // verus!
