//! What holds of the codec as a whole.
//!
//! Each law is stated over the functions of [`crate::format`], in which the
//! contracts of the encoders and decoders are written: an encoder leaves
//! `overwritten(buf, 0, stored(width, value))` in its buffer and returns
//! `encoded_length(width, value)`; a decoder returns `decoded(width, buf)`.

use crate::format::{
    byte_swapped, canonical_tier, capacity, decoded, encoded_length, encoding, is_width, le_bytes,
    max_size, overwritten, pow256, prefix_len, prefix_tier, scan, slack, stored, stream,
    stream_length, tier_bytes, unzigzag, zigzag, zeros, Scan,
};
use crate::lemmas::{
    all_fit, lemma_byte_swapped, lemma_canonical_tier, lemma_decoded_agrees, lemma_encoding_cases,
    lemma_le_bytes_len, lemma_pow256_values, lemma_radix, lemma_significant_bytes,
    lemma_stream_length, lemma_tier_round_trip,
};
use crate::decode::Decode;
use crate::encode::Encode;
use crate::float::{F32Bits, F64Bits};
use vstd::prelude::*;

verus! {

/// Round trip: decoding the buffer that an encoder has written gives the
/// value back, and the length that the encoder returned. What the buffer held
/// before, and still holds behind the encoding, makes no difference.
pub proof fn lemma_round_trip(width: nat, value: nat, buf: Seq<u8>)
    requires
        is_width(width),
        value < pow256(width),
        buf.len() >= max_size(width),
    ensures
        decoded(width, overwritten(buf, 0, stored(width, value))) == (
            value,
            encoded_length(width, value),
        ),
{
    let t = canonical_tier(width, value);
    lemma_pow256_values();
    lemma_canonical_tier(width, value);
    lemma_significant_bytes(value, 8);
    lemma_significant_bytes(value, 16);
    let written = overwritten(buf, 0, stored(width, value));
    let tail = written.skip(1 + t.payload as int);
    lemma_tier_round_trip(t, value, tail);
    lemma_radix(value, t.radix);
    assert(written =~= tier_bytes(t, value) + tail);
}

/// Round trip of a signed value: the zigzag mapping is undone by its inverse.
pub proof fn lemma_round_trip_signed(width: nat, value: int, buf: Seq<u8>)
    requires
        is_width(width),
        -(pow256(width) / 2) <= value < pow256(width) / 2,
        buf.len() >= max_size(width),
    ensures
        zigzag(value) < pow256(width),
        unzigzag(decoded(width, overwritten(buf, 0, stored(width, zigzag(value)))).0) == value,
        decoded(width, overwritten(buf, 0, stored(width, zigzag(value)))).1 == encoded_length(
            width,
            zigzag(value),
        ),
{
    lemma_pow256_values();
    lemma_round_trip(width, zigzag(value), buf);
}

/// Round trip of the bits of a float: the byte swap is undone by a second
/// one, for every bit pattern.
pub proof fn lemma_round_trip_bits(width: nat, bits: nat, buf: Seq<u8>)
    requires
        is_width(width),
        bits < pow256(width),
        buf.len() >= max_size(width),
    ensures
        byte_swapped(width, bits) < pow256(width),
        byte_swapped(
            width,
            decoded(width, overwritten(buf, 0, stored(width, byte_swapped(width, bits)))).0,
        ) == bits,
        decoded(width, overwritten(buf, 0, stored(width, byte_swapped(width, bits)))).1
            == encoded_length(width, byte_swapped(width, bits)),
{
    lemma_byte_swapped(width, bits);
    lemma_round_trip(width, byte_swapped(width, bits), buf);
}

/// Size bounds: an encoding has at least one byte and at most one more than
/// the value's width; a value below 128 takes one byte.
pub proof fn lemma_size_bounds(width: nat, value: nat)
    requires
        is_width(width),
        value < pow256(width),
    ensures
        1 <= encoded_length(width, value) <= max_size(width),
        encoding(width, value).len() == encoded_length(width, value),
        value < 128 ==> encoded_length(width, value) == 1,
{
    lemma_canonical_tier(width, value);
    let t = canonical_tier(width, value);
    lemma_le_bytes_len(value / t.radix, t.payload);
}

/// Size bounds of signed values: one of magnitude below 64 takes one byte.
pub proof fn lemma_size_bounds_signed(width: nat, value: int)
    requires
        is_width(width),
        -(pow256(width) / 2) <= value < pow256(width) / 2,
    ensures
        1 <= encoded_length(width, zigzag(value)) <= max_size(width),
        -64 < value < 64 ==> encoded_length(width, zigzag(value)) == 1,
{
    lemma_pow256_values();
    lemma_size_bounds(width, zigzag(value));
}

/// Size and encoding agree: the length that the size functions return is the
/// length of the encoding that the encoders store, and the encoding is what
/// stands at the start of the bytes stored, before the zeros that fill a
/// slot.
pub proof fn lemma_size_is_length_stored(width: nat, value: nat)
    requires
        is_width(width),
        value < pow256(width),
    ensures
        encoding(width, value).len() == encoded_length(width, value),
        stored(width, value).take(encoded_length(width, value) as int) == encoding(width, value),
        stored(width, value).skip(encoded_length(width, value) as int) == zeros(
            slack(width, value),
        ),
        stored(width, value).len() <= max_size(width),
{
    lemma_pow256_values();
    lemma_canonical_tier(width, value);
    lemma_significant_bytes(value, 8);
    lemma_significant_bytes(value, 16);
    let t = canonical_tier(width, value);
    lemma_le_bytes_len(value / t.radix, t.payload);
    assert(stored(width, value).take(encoded_length(width, value) as int) =~= encoding(
        width,
        value,
    ));
    assert(stored(width, value).skip(encoded_length(width, value) as int) =~= zeros(
        slack(width, value),
    ));
}

/// Prefix self-description: the first byte of an encoding announces the
/// encoding's length.
pub proof fn lemma_prefix_describes_length(width: nat, value: nat)
    requires
        is_width(width),
        value < pow256(width),
    ensures
        prefix_len(encoding(width, value)[0]) == encoded_length(width, value),
        encoding(width, value).len() == encoded_length(width, value),
{
    lemma_canonical_tier(width, value);
    let t = canonical_tier(width, value);
    lemma_le_bytes_len(value / t.radix, t.payload);
}

/// Little-endian full-width tier: where the encoding is of the greatest
/// length, the bytes behind the prefix are the value's bytes, least
/// significant first.
pub proof fn lemma_longest_is_little_endian(width: nat, value: nat)
    requires
        is_width(width),
        value < pow256(width),
        encoded_length(width, value) == max_size(width),
    ensures
        encoding(width, value).skip(1) == le_bytes(value, width),
{
    lemma_pow256_values();
    lemma_canonical_tier(width, value);
    lemma_encoding_cases(width, value);
    lemma_le_bytes_len(value, width);
    assert(encoding(width, value).skip(1) =~= le_bytes(value, width));
}

/// Overlong decode tolerance: a value laid out in any tier that can hold it,
/// the shortest or not, decodes to itself and to that tier's length. The tier
/// is named by its prefix byte with no value bits set.
pub proof fn lemma_overlong_decodes(width: nat, prefix: u8, value: nat, tail: Seq<u8>)
    requires
        is_width(width),
        prefix == prefix_tier(width, prefix).tag,
        value < capacity(prefix_tier(width, prefix)),
    ensures
        decoded(width, tier_bytes(prefix_tier(width, prefix), value) + tail) == (
            value,
            prefix_tier(width, prefix).len,
        ),
{
    let t = prefix_tier(width, prefix);
    lemma_radix(value, t.radix);
    lemma_radix(t.tag, t.radix);
    lemma_tier_round_trip(t, value, tail);
    let first = (t.tag + value % t.radix) as u8;
    assert(prefix_tier(width, first) == t);
}

/// Padding is ignored: two windows that agree on the bytes that the first
/// value takes up decode alike, whatever stands behind them.
pub proof fn lemma_padding_ignored(width: nat, a: Seq<u8>, b: Seq<u8>)
    requires
        is_width(width),
        a.len() >= max_size(width),
        b.len() >= max_size(width),
        forall|i: int| 0 <= i < decoded(width, a).1 && i < max_size(width) ==> a[i] == b[i],
    ensures
        decoded(width, a) == decoded(width, b),
{
    let t = prefix_tier(width, a[0]);
    assert(1 + t.payload <= t.len && 1 + t.payload <= max_size(width));
    lemma_decoded_agrees(width, a, b);
}

/// The stream of some values starts with the encoding of the first.
pub proof fn lemma_stream_first(width: nat, values: Seq<nat>)
    requires
        values.len() > 0,
    ensures
        stream(width, values) == encoding(width, values[0]) + stream(width, values.drop_first()),
        stream_length(width, values) == encoded_length(width, values[0]) + stream_length(
            width,
            values.drop_first(),
        ),
    decreases values.len(),
{
    if values.len() == 1 {
        assert(values.drop_last() =~= Seq::<nat>::empty());
        assert(values.drop_first() =~= Seq::<nat>::empty());
        assert(stream(width, values) =~= encoding(width, values[0]) + stream(
            width,
            values.drop_first(),
        ));
    } else {
        let before = values.drop_last();
        lemma_stream_first(width, before);
        assert(before.drop_first() =~= values.drop_first().drop_last());
        assert(values.drop_first().last() == values.last());
        assert(stream(width, values) =~= encoding(width, values[0]) + stream(
            width,
            values.drop_first(),
        ));
    }
}

/// Bulk round trip: a scan over the stream of some values finds those values
/// and ends where the stream ends, provided that behind the stream the buffer
/// goes on for one byte less than the longest encoding, so that the last
/// value can be read. Whatever precedes the stream is skipped by starting
/// behind it.
pub proof fn lemma_bulk_round_trip(width: nat, values: Seq<nat>, head: Seq<u8>, tail: Seq<u8>)
    requires
        is_width(width),
        all_fit(width, values),
        tail.len() + 1 >= max_size(width),
    ensures
        scan(width, head + stream(width, values) + tail, head.len(), values.len()) == (Scan {
            values,
            end: head.len() + stream_length(width, values),
            complete: true,
        }),
    decreases values.len(),
{
    let bytes = head + stream(width, values) + tail;
    lemma_stream_length(width, values);
    if values.len() == 0 {
        assert(scan(width, bytes, head.len(), 0).values =~= values);
    } else {
        let first = values[0];
        let rest = values.drop_first();
        lemma_stream_first(width, values);
        lemma_stream_length(width, rest);
        lemma_canonical_tier(width, first);
        let t = canonical_tier(width, first);
        lemma_radix(first, t.radix);
        lemma_le_bytes_len(first / t.radix, t.payload);
        let behind = stream(width, rest) + tail;
        lemma_tier_round_trip(t, first, behind);
        assert(bytes.skip(head.len() as int) =~= encoding(width, first) + behind);
        assert(decoded(width, bytes.skip(head.len() as int)) == (first, t.len));
        let longer = head + encoding(width, first);
        assert(longer + stream(width, rest) + tail =~= bytes);
        lemma_bulk_round_trip(width, rest, longer, tail);
        assert(seq![first] + rest =~= values);
    }
}

/// What the round trip of a type comes to: the value that a decoder of the
/// type makes of the buffer that an encoder of the type has written is the
/// value that was encoded, and the length read is the length written.
pub open spec fn round_trips<T: Encode + Decode>(value: T, buf: Seq<u8>) -> bool {
    let width = <T as Encode>::width();
    let written = overwritten(buf, 0, stored(width, <T as Encode>::wire_value(value)));
    &&& <T as Decode>::width() == width
    &&& <T as Decode>::from_wire(decoded(width, written).0) == value
    &&& decoded(width, written).1 == encoded_length(width, <T as Encode>::wire_value(value))
}

/// Round trip of `u16`.
pub proof fn lemma_round_trip_u16(value: u16, buf: Seq<u8>)
    requires
        buf.len() >= max_size(2),
    ensures
        round_trips::<u16>(value, buf),
{
    lemma_pow256_values();
    lemma_round_trip(2, value as nat, buf);
}

/// Round trip of `u32`.
pub proof fn lemma_round_trip_u32(value: u32, buf: Seq<u8>)
    requires
        buf.len() >= max_size(4),
    ensures
        round_trips::<u32>(value, buf),
{
    lemma_pow256_values();
    lemma_round_trip(4, value as nat, buf);
}

/// Round trip of `u64`.
pub proof fn lemma_round_trip_u64(value: u64, buf: Seq<u8>)
    requires
        buf.len() >= max_size(8),
    ensures
        round_trips::<u64>(value, buf),
{
    lemma_pow256_values();
    lemma_round_trip(8, value as nat, buf);
}

/// Round trip of `u128`.
pub proof fn lemma_round_trip_u128(value: u128, buf: Seq<u8>)
    requires
        buf.len() >= max_size(16),
    ensures
        round_trips::<u128>(value, buf),
{
    lemma_pow256_values();
    lemma_round_trip(16, value as nat, buf);
}

/// Round trip of `i16`.
pub proof fn lemma_round_trip_i16(value: i16, buf: Seq<u8>)
    requires
        buf.len() >= max_size(2),
    ensures
        round_trips::<i16>(value, buf),
{
    lemma_pow256_values();
    lemma_round_trip_signed(2, value as int, buf);
}

/// Round trip of `i32`.
pub proof fn lemma_round_trip_i32(value: i32, buf: Seq<u8>)
    requires
        buf.len() >= max_size(4),
    ensures
        round_trips::<i32>(value, buf),
{
    lemma_pow256_values();
    lemma_round_trip_signed(4, value as int, buf);
}

/// Round trip of `i64`.
pub proof fn lemma_round_trip_i64(value: i64, buf: Seq<u8>)
    requires
        buf.len() >= max_size(8),
    ensures
        round_trips::<i64>(value, buf),
{
    lemma_pow256_values();
    lemma_round_trip_signed(8, value as int, buf);
}

/// Round trip of `i128`.
pub proof fn lemma_round_trip_i128(value: i128, buf: Seq<u8>)
    requires
        buf.len() >= max_size(16),
    ensures
        round_trips::<i128>(value, buf),
{
    lemma_pow256_values();
    lemma_round_trip_signed(16, value as int, buf);
}

/// Round trip of the bits of a float, whatever they are.
pub proof fn lemma_round_trip_f32bits(value: F32Bits, buf: Seq<u8>)
    requires
        buf.len() >= max_size(4),
    ensures
        round_trips::<F32Bits>(value, buf),
{
    lemma_pow256_values();
    lemma_round_trip_bits(4, value.0 as nat, buf);
}

/// Round trip of the bits of a float, whatever they are.
pub proof fn lemma_round_trip_f64bits(value: F64Bits, buf: Seq<u8>)
    requires
        buf.len() >= max_size(8),
    ensures
        round_trips::<F64Bits>(value, buf),
{
    lemma_pow256_values();
    lemma_round_trip_bits(8, value.0 as nat, buf);
}

} // verus!
