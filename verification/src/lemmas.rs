//! Facts about the wire format's building blocks, on which the rest of the
//! crate's proofs stand.

use crate::format::{
    byte_swapped, canonical_tier, capacity, decoded, encoded_length, encoding, is_width, le_bytes,
    le_value, max_size, pow256, prefix_len, prefix_tier, scan, significant_bytes, slack, stored,
    stream, stream_fit, stream_length, stream_room, stream_stored, tier_bytes, tier_value, zeros,
    Tier,
};
use vstd::arithmetic::div_mod::lemma_div_denominator;
use vstd::prelude::*;

verus! {

/// The powers of 256 up to the widest supported integer.
pub proof fn lemma_pow256_values()
    ensures
        pow256(0) == 1,
        pow256(1) == 0x100,
        pow256(2) == 0x1_0000,
        pow256(3) == 0x100_0000,
        pow256(4) == 0x1_0000_0000,
        pow256(5) == 0x100_0000_0000,
        pow256(6) == 0x1_0000_0000_0000,
        pow256(7) == 0x100_0000_0000_0000,
        pow256(8) == 0x1_0000_0000_0000_0000,
        pow256(9) == 0x100_0000_0000_0000_0000,
        pow256(10) == 0x1_0000_0000_0000_0000_0000,
        pow256(11) == 0x100_0000_0000_0000_0000_0000,
        pow256(12) == 0x1_0000_0000_0000_0000_0000_0000,
        pow256(13) == 0x100_0000_0000_0000_0000_0000_0000,
        pow256(14) == 0x1_0000_0000_0000_0000_0000_0000_0000,
        pow256(15) == 0x100_0000_0000_0000_0000_0000_0000_0000,
        pow256(16) == 0x1_0000_0000_0000_0000_0000_0000_0000_0000,
{
    reveal_with_fuel(pow256, 17);
}

/// Powers of 256 are positive and grow with the exponent.
pub proof fn lemma_pow256_increases(a: nat, b: nat)
    requires
        a <= b,
    ensures
        0 < pow256(a) <= pow256(b),
    decreases b,
{
    if b == 0 {
    } else if a == b {
        lemma_pow256_increases((a - 1) as nat, (b - 1) as nat);
    } else {
        lemma_pow256_increases(a, (b - 1) as nat);
    }
}

/// `le_bytes` yields as many bytes as asked for.
pub proof fn lemma_le_bytes_len(value: nat, count: nat)
    ensures
        le_bytes(value, count).len() == count,
    decreases count,
{
    if count > 0 {
        lemma_le_bytes_len(value / 256, (count - 1) as nat);
    }
}

/// Byte `i` of a value is its `i`-th digit in base 256.
pub proof fn lemma_le_bytes_index(value: nat, count: nat, i: nat)
    requires
        i < count,
    ensures
        le_bytes(value, count).len() == count,
        le_bytes(value, count)[i as int] == ((value / pow256(i)) % 256) as u8,
    decreases count,
{
    lemma_le_bytes_len(value, count);
    let rest = le_bytes(value / 256, (count - 1) as nat);
    lemma_le_bytes_len(value / 256, (count - 1) as nat);
    assert(le_bytes(value, count) == seq![(value % 256) as u8] + rest);
    if i > 0 {
        lemma_le_bytes_index(value / 256, (count - 1) as nat, (i - 1) as nat);
        lemma_pow256_increases(0, (i - 1) as nat);
        lemma_div_denominator(value as int, 256, pow256((i - 1) as nat) as int);
        assert(256 * pow256((i - 1) as nat) == pow256(i));
        assert(le_bytes(value, count)[i as int] == rest[i - 1]);
    } else {
        assert(pow256(0) == 1);
    }
}

/// The bytes of a value that fits in fewer of them end in zeros.
pub proof fn lemma_le_bytes_extend(value: nat, count: nat, more: nat)
    requires
        value < pow256(count),
    ensures
        le_bytes(value, count + more) =~= le_bytes(value, count) + zeros(more),
    decreases count + more,
{
    lemma_le_bytes_len(value, count);
    lemma_le_bytes_len(value, count + more);
    if count + more == 0 {
    } else if count == 0 {
        lemma_le_bytes_extend(0, 0, (more - 1) as nat);
        lemma_le_bytes_len(0, (more - 1) as nat);
    } else {
        lemma_le_bytes_extend(value / 256, (count - 1) as nat, more);
        lemma_le_bytes_len(value / 256, (count - 1) as nat);
        lemma_le_bytes_len(value / 256, (count - 1 + more) as nat);
    }
}

/// `n` bytes spell a number below `256^n`.
pub proof fn lemma_le_value_bound(bytes: Seq<u8>)
    ensures
        le_value(bytes) < pow256(bytes.len()),
    decreases bytes.len(),
{
    if bytes.len() > 0 {
        lemma_le_value_bound(bytes.drop_first());
    }
}

/// Reading back the bytes of a value that fits in them gives the value.
pub proof fn lemma_le_value_le_bytes(value: nat, count: nat)
    requires
        value < pow256(count),
    ensures
        le_value(le_bytes(value, count)) == value,
    decreases count,
{
    lemma_le_bytes_len(value, count);
    if count > 0 {
        let rest = le_bytes(value / 256, (count - 1) as nat);
        lemma_le_value_le_bytes(value / 256, (count - 1) as nat);
        assert(le_bytes(value, count).drop_first() =~= rest);
    }
}

/// Writing out the number that bytes spell gives the bytes.
pub proof fn lemma_le_bytes_le_value(bytes: Seq<u8>)
    ensures
        le_bytes(le_value(bytes), bytes.len()) =~= bytes,
    decreases bytes.len(),
{
    if bytes.len() > 0 {
        let rest = bytes.drop_first();
        lemma_le_bytes_le_value(rest);
        lemma_le_bytes_len(le_value(rest), rest.len());
        let x = le_value(bytes);
        assert(x % 256 == bytes[0] as nat);
        assert(x / 256 == le_value(rest));
    }
}

/// A value fits in `count` bytes exactly when it has at most `count`
/// significant bytes.
pub proof fn lemma_significant_bytes(value: nat, count: nat)
    ensures
        significant_bytes(value) <= count <==> value < pow256(count),
    decreases count,
{
    lemma_pow256_increases(0, count);
    if value == 0 {
    } else if count == 0 {
    } else {
        lemma_significant_bytes(value / 256, (count - 1) as nat);
    }
}

/// Dividing a number below `divisor * bound` by `divisor` leaves it below
/// `bound`.
proof fn lemma_quotient_bound(value: nat, divisor: nat, bound: nat)
    by (nonlinear_arith)
    requires
        0 < divisor,
        value < divisor * bound,
    ensures
        value / divisor < bound,
{
}

/// A value laid out in a tier that holds it reads back as itself, whatever
/// follows the encoding.
pub proof fn lemma_tier_round_trip(t: Tier, value: nat, tail: Seq<u8>)
    requires
        t.radix == 1 || t.radix == 16 || t.radix == 32 || t.radix == 64 || t.radix == 128,
        t.tag % t.radix == 0,
        t.tag + t.radix <= 256,
        value < capacity(t),
    ensures
        tier_bytes(t, value).len() == 1 + t.payload,
        tier_bytes(t, value)[0] == t.tag + value % t.radix,
        tier_value(t, tier_bytes(t, value) + tail) == value,
{
    let bytes = tier_bytes(t, value) + tail;
    let quotient = value / t.radix;
    let high = pow256(t.payload);
    let prefix = (t.tag + value % t.radix) as nat;
    lemma_radix(value, t.radix);
    lemma_radix(high, t.radix);
    lemma_radix(quotient, t.radix);
    lemma_radix(prefix, t.radix);
    lemma_radix(t.tag, t.radix);
    lemma_quotient_bound(value, t.radix, high);
    lemma_le_bytes_len(quotient, t.payload);
    lemma_le_value_le_bytes(quotient, t.payload);
    assert(bytes.subrange(1, 1 + t.payload as int) =~= le_bytes(quotient, t.payload));
    assert(bytes[0] == prefix);
}

/// What the encoder's choice of tier comes to for a value of the width: the
/// tier holds the value, and a reader that meets the prefix picks the same
/// tier.
pub proof fn lemma_canonical_tier(width: nat, value: nat)
    requires
        is_width(width),
        value < pow256(width),
    ensures
        ({
            let t = canonical_tier(width, value);
            &&& t.radix == 1 || t.radix == 16 || t.radix == 32 || t.radix == 64 || t.radix == 128
            &&& t.tag % t.radix == 0
            &&& t.tag + t.radix <= 256
            &&& value < capacity(t)
            &&& t.len == 1 + t.payload
            &&& 1 <= t.len <= max_size(width)
            &&& prefix_tier(width, (t.tag + value % t.radix) as u8) == t
            &&& prefix_len((t.tag + value % t.radix) as u8) == t.len
            &&& value >= 0x1000_0000 ==> t.payload == significant_bytes(value) && 4 <= t.payload
        }),
{
    lemma_pow256_values();
    let t = canonical_tier(width, value);
    lemma_radix(value, t.radix);
    lemma_radix(t.tag, t.radix);
    lemma_radix(pow256(t.payload), t.radix);
    if value >= 0x1000_0000 {
        let n = significant_bytes(value);
        lemma_significant_bytes(value, 3);
        lemma_significant_bytes(value, width);
        lemma_significant_bytes(value, n);
        assert(4 <= n <= width);
        assert(t.tag == 0xF0 + n - 1);
        assert(t.payload == n);
        assert(capacity(t) == pow256(n));
    } else if width == 2 && value >= 0x4000 {
        assert(capacity(t) == pow256(2));
    } else if value < 0x80 {
        assert(capacity(t) == 128 * pow256(0));
    } else if value < 0x4000 {
        assert(capacity(t) == 64 * pow256(1));
    } else if value < 0x20_0000 {
        assert(capacity(t) == 32 * pow256(2));
    } else {
        assert(capacity(t) == 16 * pow256(3));
    }
}

/// Division and remainder by each radix that a tier can have, with the radix
/// written out.
pub proof fn lemma_radix(value: nat, radix: nat)
    by (nonlinear_arith)
    ensures
        radix == 1 ==> value % radix == 0 && value / radix == value && radix * value == value,
        radix == 16 ==> value % radix == value % 16 && value / radix == value / 16 && radix
            * value == 16 * value,
        radix == 32 ==> value % radix == value % 32 && value / radix == value / 32 && radix
            * value == 32 * value,
        radix == 64 ==> value % radix == value % 64 && value / radix == value / 64 && radix
            * value == 64 * value,
        radix == 128 ==> value % radix == value % 128 && value / radix == value / 128 && radix
            * value == 128 * value,
{
}

/// The encoding of a value, tier by tier.
pub proof fn lemma_encoding_cases(width: nat, value: nat)
    requires
        is_width(width),
        value < pow256(width),
    ensures
        value < 0x80 ==> encoding(width, value) == seq![value as u8],
        0x80 <= value < 0x4000 ==> encoding(width, value) == seq![
            (0x80 + value % 64) as u8,
            (value / 64) as u8,
        ],
        width == 2 && 0x4000 <= value ==> encoding(width, value) == seq![0xDEu8] + le_bytes(
            value,
            2,
        ),
        width != 2 && 0x4000 <= value < 0x20_0000 ==> encoding(width, value) == seq![
            (0xC0 + value % 32) as u8,
        ] + le_bytes(value / 32, 2),
        width != 2 && 0x20_0000 <= value < 0x1000_0000 ==> encoding(width, value) == seq![
            (0xE0 + value % 16) as u8,
        ] + le_bytes(value / 16, 3),
        width != 2 && 0x1000_0000 <= value ==> encoding(width, value) == seq![
            (0xF0 + significant_bytes(value) - 1) as u8,
        ] + le_bytes(value, significant_bytes(value)),
{
    lemma_pow256_values();
    lemma_canonical_tier(width, value);
    let t = canonical_tier(width, value);
    lemma_radix(value, t.radix);
    lemma_le_bytes_len(value / t.radix, t.payload);
    if value < 0x80 {
        assert(encoding(width, value) =~= seq![value as u8]);
    } else if value < 0x4000 {
        reveal_with_fuel(le_bytes, 2);
        assert(encoding(width, value) =~= seq![(0x80 + value % 64) as u8, (value / 64) as u8]);
    } else {
    }
}

/// What a reader takes from a window of bytes, prefix by prefix.
pub proof fn lemma_decoded_cases(width: nat, bytes: Seq<u8>)
    requires
        is_width(width),
        bytes.len() >= 2,
    ensures
        ({
            let b = bytes[0];
            let counted = if b % 16 + 1 <= width {
                (b % 16 + 1) as nat
            } else {
                width
            };
            let by_length = (le_value(bytes.subrange(1, 1 + counted as int)), (b % 16 + 2) as nat);
            &&& b < 0x80 ==> decoded(width, bytes) == (b as nat, 1nat)
            &&& 0x80 <= b < 0xC0 ==> decoded(width, bytes) == (
                (b % 64 + 64 * bytes[1]) as nat,
                2nat,
            )
            &&& width == 2 && b == 0xDE ==> decoded(width, bytes) == (
                le_value(bytes.subrange(1, 3)),
                3nat,
            )
            &&& width == 2 && 0xC0 <= b && b != 0xDE ==> decoded(width, bytes) == by_length
            &&& width != 2 && 0xC0 <= b < 0xE0 ==> decoded(width, bytes) == (
                (b % 32 + 32 * le_value(bytes.subrange(1, 3))) as nat,
                3nat,
            )
            &&& width != 2 && 0xE0 <= b < 0xF0 ==> decoded(width, bytes) == (
                (b % 16 + 16 * le_value(bytes.subrange(1, 4))) as nat,
                4nat,
            )
            &&& width != 2 && 0xF0 <= b ==> decoded(width, bytes) == by_length
        }),
{
    let b = bytes[0];
    let t = prefix_tier(width, b);
    let rest = le_value(bytes.subrange(1, 1 + t.payload as int));
    lemma_radix(b as nat, t.radix);
    lemma_radix(rest, t.radix);
    if b < 0x80 {
        assert(bytes.subrange(1, 1).len() == 0);
    } else if b < 0xC0 {
        let one = bytes.subrange(1, 2);
        assert(one.drop_first().len() == 0);
        assert(le_value(one) == bytes[1] as nat + 256 * le_value(one.drop_first()));
    } else {
    }
}

/// A reader looks at the prefix byte and at the payload bytes that count,
/// which lie within the longest encoding of the width, and at nothing else:
/// two windows that agree on those bytes decode alike.
pub proof fn lemma_decoded_agrees(width: nat, a: Seq<u8>, b: Seq<u8>)
    requires
        is_width(width),
        a.len() >= 1 + prefix_tier(width, a[0]).payload,
        b.len() >= 1 + prefix_tier(width, a[0]).payload,
        forall|i: int| 0 <= i <= prefix_tier(width, a[0]).payload ==> a[i] == b[i],
    ensures
        decoded(width, a) == decoded(width, b),
        1 + prefix_tier(width, a[0]).payload <= max_size(width),
        1 + prefix_tier(width, a[0]).payload <= decoded(width, a).1 <= 17,
{
    let t = prefix_tier(width, a[0]);
    assert(a[0] == b[0]);
    assert(a.subrange(1, 1 + t.payload as int) =~= b.subrange(1, 1 + t.payload as int));
}

/// A scan reads no more values than asked for, and ends within sixteen bytes
/// of the buffer's end.
pub proof fn lemma_scan_bounds(width: nat, bytes: Seq<u8>, offset: nat, count: nat)
    requires
        offset <= bytes.len() + 16,
    ensures
        scan(width, bytes, offset, count).values.len() <= count,
        offset <= scan(width, bytes, offset, count).end <= bytes.len() + 16,
    decreases count,
{
    if count == 0 || offset >= bytes.len() {
    } else if bytes.len() - offset < max_size(width) {
    } else {
        let len = decoded(width, bytes.skip(offset as int)).1;
        lemma_scan_bounds(width, bytes, offset + len, (count - 1) as nat);
    }
}

/// Swapping the bytes of a value gives a value of the same width, and
/// swapping twice gives the value back.
pub proof fn lemma_byte_swapped(width: nat, value: nat)
    requires
        value < pow256(width),
    ensures
        byte_swapped(width, value) < pow256(width),
        byte_swapped(width, byte_swapped(width, value)) == value,
{
    let bytes = le_bytes(value, width);
    let turned = bytes.reverse();
    lemma_le_bytes_len(value, width);
    lemma_le_value_bound(turned);
    lemma_le_bytes_le_value(turned);
    assert(turned.reverse() =~= bytes);
    lemma_le_value_le_bytes(value, width);
}

/// Whether every one of `values` fits in `width` bytes.
pub open spec fn all_fit(width: nat, values: Seq<nat>) -> bool {
    forall|i: int| 0 <= i < values.len() ==> #[trigger] values[i] < pow256(width)
}

/// The length of a stream is the sum of the lengths of its encodings, and no
/// more than the longest encoding times the number of values.
pub proof fn lemma_stream_length(width: nat, values: Seq<nat>)
    requires
        is_width(width),
        all_fit(width, values),
    ensures
        stream(width, values).len() == stream_length(width, values),
        values.len() <= stream_length(width, values) <= values.len() * max_size(width),
    decreases values.len(),
{
    if values.len() > 0 {
        let before = values.drop_last();
        lemma_stream_length(width, before);
        lemma_canonical_tier(width, values.last());
        lemma_le_bytes_len(
            values.last() / canonical_tier(width, values.last()).radix,
            canonical_tier(width, values.last()).payload,
        );
        assert(values.len() * max_size(width) == before.len() * max_size(width) + max_size(width))
            by (nonlinear_arith)
            requires
                values.len() == before.len() + 1,
        ;
    } else {
        assert(values.len() * max_size(width) == 0) by (nonlinear_arith)
            requires
                values.len() == 0,
        ;
    }
}

/// In a buffer with room for the longest encoding of every value, every value
/// is stored.
pub proof fn lemma_stream_fit_all(capacity: nat, width: nat, values: Seq<nat>)
    requires
        is_width(width),
        all_fit(width, values),
        values.len() * max_size(width) <= capacity,
    ensures
        stream_fit(capacity, width, values) == values.len(),
    decreases values.len(),
{
    if values.len() > 0 {
        let before = values.drop_last();
        assert(values.len() * max_size(width) == before.len() * max_size(width) + max_size(width))
            by (nonlinear_arith)
            requires
                values.len() == before.len() + 1,
        ;
        lemma_stream_fit_all(capacity, width, before);
        lemma_stream_length(width, before);
    }
}

/// No more values are stored than there are.
pub proof fn lemma_stream_fit_bound(capacity: nat, width: nat, values: Seq<nat>)
    ensures
        stream_fit(capacity, width, values) <= values.len(),
    decreases values.len(),
{
    if values.len() > 0 {
        lemma_stream_fit_bound(capacity, width, values.drop_last());
    }
}

/// Where every value was stored, the buffer starts with the stream of their
/// encodings and is as long as before.
pub proof fn lemma_stream_stored(buf: Seq<u8>, width: nat, values: Seq<nat>)
    requires
        is_width(width),
        all_fit(width, values),
        stream_fit(buf.len(), width, values) == values.len(),
    ensures
        stream_stored(buf, width, values).len() == buf.len(),
        stream_length(width, values) <= buf.len(),
        stream_stored(buf, width, values).take(stream_length(width, values) as int) == stream(
            width,
            values,
        ),
    decreases values.len(),
{
    if values.len() > 0 {
        let before = values.drop_last();
        let last = values.last();
        lemma_stream_fit_bound(buf.len(), width, before);
        lemma_stream_stored(buf, width, before);
        lemma_stream_length(width, before);
        lemma_canonical_tier(width, last);
        lemma_pow256_values();
        lemma_significant_bytes(last, 8);
        lemma_significant_bytes(last, 16);
        lemma_le_bytes_len(
            last / canonical_tier(width, last).radix,
            canonical_tier(width, last).payload,
        );
        let at = stream_length(width, before);
        let earlier = stream_stored(buf, width, before);
        assert(encoding(width, last).len() == encoded_length(width, last));
        assert(stored(width, last).len() <= max_size(width));
        assert(stream_stored(buf, width, values).take(stream_length(width, values) as int)
            =~= earlier.take(at as int) + encoding(width, last));
    } else {
        assert(stream_stored(buf, width, values).take(0) =~= stream(width, values));
    }
}

/// The room that a stream takes reaches behind the window of every value,
/// and is no more than the longest encoding times the number of values.
pub proof fn lemma_stream_room(width: nat, values: Seq<nat>, count: nat)
    requires
        is_width(width),
        all_fit(width, values),
        count < values.len(),
    ensures
        stream_length(width, values.take(count as int)) + max_size(width) <= stream_room(
            width,
            values,
        ),
        stream_room(width, values) <= values.len() * max_size(width),
    decreases values.len(),
{
    let before = values.drop_last();
    lemma_stream_length(width, before);
    assert(values.len() * max_size(width) == before.len() * max_size(width) + max_size(width))
        by (nonlinear_arith)
        requires
            values.len() == before.len() + 1,
    ;
    if count == before.len() {
        assert(values.take(count as int) =~= before);
    } else {
        lemma_stream_room(width, before, count);
        assert(before.take(count as int) =~= values.take(count as int));
        lemma_stream_length(width, before.drop_last());
        lemma_canonical_tier(width, before.last());
    }
}

/// In a buffer with the room that a stream takes, every value is stored.
pub proof fn lemma_stream_fit_room(capacity: nat, width: nat, values: Seq<nat>)
    requires
        is_width(width),
        all_fit(width, values),
        capacity >= stream_room(width, values),
    ensures
        stream_fit(capacity, width, values) == values.len(),
    decreases values.len(),
{
    if values.len() > 0 {
        let before = values.drop_last();
        if before.len() > 0 {
            lemma_canonical_tier(width, before.last());
        }
        lemma_stream_fit_room(capacity, width, before);
    }
}

/// What the bytes stored for a value come to: how long they are, and which
/// prefix byte they start with.
pub proof fn lemma_stored(width: nat, value: nat)
    requires
        is_width(width),
        value < pow256(width),
    ensures
        encoding(width, value).len() == encoded_length(width, value),
        stored(width, value).len() == encoded_length(width, value) + slack(width, value),
        stored(width, value).len() <= width + 1,
        1 <= encoded_length(width, value) <= width + 1,
        value < 0x80 ==> encoded_length(width, value) == 1,
        prefix_len(stored(width, value)[0]) == encoded_length(width, value),
        stored(width, value)[0] == encoding(width, value)[0],
{
    lemma_pow256_values();
    lemma_canonical_tier(width, value);
    let t = canonical_tier(width, value);
    lemma_radix(value, t.radix);
    lemma_le_bytes_len(value / t.radix, t.payload);
    lemma_significant_bytes(value, 8);
    lemma_significant_bytes(value, 16);
}

} // verus!
