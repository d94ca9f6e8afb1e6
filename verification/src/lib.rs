//! Variable-length encoding of integers behind a self-describing prefix byte.
//!
//! Unsigned integers of 16 to 128 bits are encoded in one to seventeen bytes,
//! small values in fewer. Signed integers and the bits of floats are mapped to
//! unsigned integers first. The first byte of an encoding tells its length.
//!
//! The wire format is defined in [`format`]; every function of the crate is
//! proved to do what that module says.

pub mod bits;
pub mod decode;
pub mod encode;
pub mod error;
pub mod float;
pub mod format;
pub mod helpers;
pub mod laws;
pub mod lemmas;
pub mod serde;
pub mod simd;

pub use decode::{
    bulk_decode, decode, decode_i128, decode_i16, decode_i32, decode_i64, decode_u128, decode_u16,
    decode_u32, decode_u64, Decode,
};
pub use encode::{
    bulk_encode, encode, encode_i128, encode_i16, encode_i32, encode_i64, encode_u128, encode_u16,
    encode_u32, encode_u64, encoded_len, encoded_size, encoded_size_u128, encoded_size_u16,
    encoded_size_u32, encoded_size_u64, Encode,
};
pub use error::CodecError;
pub use simd::{bulk_decode_u32, bulk_decode_u32_safe, bulk_encode_u32, bulk_encode_u32_safe};
pub use float::{
    decode_f32_bits, decode_f64_bits, encode_f32_bits, encode_f64_bits, F32Bits, F64Bits,
};

use crate::encode::wire_values;
use crate::format::{encoding, max_size, scan, stream};
use crate::lemmas::{
    lemma_decoded_agrees, lemma_stored, lemma_stream_fit_all, lemma_stream_stored,
};
use vstd::prelude::*;

verus! {

/// Encodes a value into a newly allocated buffer that holds the encoding and
/// nothing else.
pub fn encode_to_vec<T: Encode + Copy>(value: T) -> (r: Result<Vec<u8>, CodecError>)
    ensures
        r matches Ok(bytes) && bytes@ == encoding(T::width(), T::wire_value(value)),
{
    proof {
        T::lemma_wire_value(value);
        lemma_stored(T::width(), T::wire_value(value));
    }
    let max_size = T::MAX_ENCODED_SIZE;
    let mut buf = vec![0u8; max_size];
    match T::encode(buf.as_mut_slice(), value) {
        Ok(encoded_len) => {
            buf.truncate(encoded_len);
            assert(buf@ =~= encoding(T::width(), T::wire_value(value)));
            Ok(buf)
        },
        Err(e) => Err(e),
    }
}

/// Decodes a value from the start of a slice. Like [`decode`], it fails on a
/// slice shorter than the longest encoding of the type.
pub fn decode_value<T: Decode>(buf: &[u8]) -> (r: Result<T, CodecError>)
    ensures
        buf@.len() < max_size(T::width()) ==> r == Err::<T, CodecError>(
            CodecError::BufferTooSmall,
        ),
        buf@.len() >= max_size(T::width()) ==> r == Ok::<T, CodecError>(
            T::from_wire(format::decoded(T::width(), buf@).0),
        ),
{
    match T::decode(buf) {
        Ok((value, _)) => Ok(value),
        Err(e) => Err(e),
    }
}

/// Encodes values into a newly allocated buffer that holds their encodings,
/// one after the other, and nothing else.
pub fn bulk_encode_to_vec<T: Encode + Copy>(values: &[T]) -> (r: Result<Vec<u8>, CodecError>)
    requires
        values@.len() * max_size(T::width()) <= usize::MAX,
    ensures
        r matches Ok(bytes) && bytes@ == stream(T::width(), wire_values::<T>(values@)),
{
    let ghost wires = wire_values::<T>(values@);
    let max_size_per_value = T::MAX_ENCODED_SIZE;
    proof {
        if values@.len() > 0 {
            T::lemma_wire_value(values@[0]);
        }
        assert forall|i: int| 0 <= i < wires.len() implies #[trigger] wires[i] < format::pow256(
            T::width(),
        ) by {
            T::lemma_wire_value(values@[i]);
        }
    }
    if values.len() == 0 {
        let buf: Vec<u8> = Vec::new();
        assert(wires =~= Seq::<nat>::empty());
        assert(buf@ =~= stream(T::width(), wires));
        return Ok(buf);
    }
    let mut buf = vec![0u8; values.len() * max_size_per_value];
    let ghost blank = buf@;
    proof {
        lemma_stream_fit_all(blank.len(), T::width(), wires);
        lemma_stream_stored(blank, T::width(), wires);
        assert(wires.take(wires.len() as int) =~= wires);
    }
    match bulk_encode(buf.as_mut_slice(), values) {
        Ok(encoded_len) => {
            buf.truncate(encoded_len);
            Ok(buf)
        },
        Err(e) => Err(e),
    }
}

/// Decodes values from a slice, one after the other, until the slice is used
/// up. Each value is read only if at least the longest encoding of the type
/// is left; where less is left, the call fails.
pub fn bulk_decode_values<T: Decode>(buf: &[u8]) -> (r: Result<Vec<T>, CodecError>)
    requires
        buf@.len() + 16 <= usize::MAX,
    ensures
        ({
            let found = scan(T::width(), buf@, 0, buf@.len());
            &&& found.complete ==> (r matches Ok(values) && values@.len() == found.values.len()
                && forall|k: int|
                0 <= k < found.values.len() ==> values@[k] == T::from_wire(found.values[k]))
            &&& !found.complete ==> r == Err::<Vec<T>, CodecError>(CodecError::BufferTooSmall)
        }),
{
    let half = T::MAX_ENCODED_SIZE / 2;
    let estimated_count = buf.len() / (if half > 1 {
        half
    } else {
        1
    });
    let mut values: Vec<T> = Vec::with_capacity(estimated_count);
    let ghost count = buf@.len();
    let ghost whole = scan(T::width(), buf@, 0, count);
    let ghost mut done: Seq<nat> = Seq::empty();
    let mut offset: usize = 0;
    while offset < buf.len()
        invariant
            count == buf@.len(),
            buf.len() + 16 <= usize::MAX,
            offset <= buf.len() + 16,
            whole == scan(T::width(), buf@, 0, count),
            done.len() == values@.len(),
            done.len() <= offset,
            whole.values == done + scan(
                T::width(),
                buf@,
                offset as nat,
                (count - done.len()) as nat,
            ).values,
            whole.end == scan(T::width(), buf@, offset as nat, (count - done.len()) as nat).end,
            whole.complete == scan(
                T::width(),
                buf@,
                offset as nat,
                (count - done.len()) as nat,
            ).complete,
            forall|k: int| 0 <= k < done.len() ==> values@[k] == T::from_wire(done[k]),
        decreases buf.len() + 16 - offset,
    {
        let (_, tail) = buf.split_at(offset);
        proof {
            T::lemma_width();
            assert(tail@ =~= buf@.skip(offset as int));
            if tail@.len() >= max_size(T::width()) {
                lemma_decoded_agrees(T::width(), tail@, tail@);
            }
        }
        match T::decode(tail) {
            Ok((value, len)) => {
                values.push(value);
                proof {
                    let wire = format::decoded(T::width(), tail@).0;
                    let rest = scan(
                        T::width(),
                        buf@,
                        (offset + len) as nat,
                        (count - done.len() - 1) as nat,
                    );
                    assert(done.push(wire) + rest.values =~= done + (seq![wire] + rest.values));
                    done = done.push(wire);
                }
                offset += len;
            },
            Err(e) => {
                proof {
                    assert(whole.values =~= done);
                }
                return Err(e);
            },
        }
    }
    proof {
        assert(whole.values =~= done);
    }
    Ok(values)
}

} // verus!
