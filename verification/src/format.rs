//! The wire format, stated over natural numbers and byte sequences.
//!
//! An encoded value is one prefix byte followed by payload bytes. The prefix
//! selects a [`Tier`]: how many payload bytes follow and how many of the
//! value's low bits ride in the prefix itself. Everything else in the crate is
//! proved against the functions of this module.

use vstd::prelude::*;

verus! {

/// `256` to the power `n`: the number of values that `n` bytes can hold.
pub open spec fn pow256(n: nat) -> nat
    decreases n,
{
    if n == 0 {
        1
    } else {
        256 * pow256((n - 1) as nat)
    }
}

/// The `count` low-order bytes of `value`, least significant first.
pub open spec fn le_bytes(value: nat, count: nat) -> Seq<u8>
    decreases count,
{
    if count == 0 {
        Seq::empty()
    } else {
        seq![(value % 256) as u8] + le_bytes(value / 256, (count - 1) as nat)
    }
}

/// The number that `bytes` spell, least significant byte first.
pub open spec fn le_value(bytes: Seq<u8>) -> nat
    decreases bytes.len(),
{
    if bytes.len() == 0 {
        0
    } else {
        bytes[0] as nat + 256 * le_value(bytes.drop_first())
    }
}

/// How many bytes `value` needs: the position of its highest non-zero byte.
pub open spec fn significant_bytes(value: nat) -> nat
    decreases value,
{
    if value == 0 {
        0
    } else {
        1 + significant_bytes(value / 256)
    }
}

/// `count` zero bytes.
pub open spec fn zeros(count: nat) -> Seq<u8> {
    Seq::new(count, |i: int| 0u8)
}

/// `buf` with `bytes` stored over it from index `at` on.
pub open spec fn overwritten(buf: Seq<u8>, at: int, bytes: Seq<u8>) -> Seq<u8> {
    buf.subrange(0, at) + bytes + buf.subrange(at + bytes.len(), buf.len() as int)
}

/// One layout of a value on the wire.
///
/// The prefix byte is `tag + value % radix`; the payload is `value / radix` in
/// `payload` little-endian bytes. A reader that meets the prefix consumes `len`
/// bytes in all.
pub struct Tier {
    /// The prefix byte with its value bits cleared.
    pub tag: nat,
    /// How many values the prefix's low bits tell apart (1: the prefix carries no value bits).
    pub radix: nat,
    /// Payload bytes that carry value bits.
    pub payload: nat,
    /// Bytes consumed in total.
    pub len: nat,
}

/// One byte: the value itself.
pub open spec fn tier_1() -> Tier {
    Tier { tag: 0, radix: 128, payload: 0, len: 1 }
}

/// Two bytes: six bits in the prefix, eight in the payload.
pub open spec fn tier_2() -> Tier {
    Tier { tag: 0x80, radix: 64, payload: 1, len: 2 }
}

/// Three bytes: five bits in the prefix, sixteen in the payload.
pub open spec fn tier_3() -> Tier {
    Tier { tag: 0xC0, radix: 32, payload: 2, len: 3 }
}

/// Four bytes: four bits in the prefix, twenty-four in the payload.
pub open spec fn tier_4() -> Tier {
    Tier { tag: 0xE0, radix: 16, payload: 3, len: 4 }
}

/// Three bytes for a 16-bit value: a fixed prefix and the whole value.
pub open spec fn tier_16() -> Tier {
    Tier { tag: 0xDE, radix: 1, payload: 2, len: 3 }
}

/// The length-prefixed layout that `prefix` announces to a reader of
/// `width`-byte values: the low nibble is the payload length less one. The
/// payload that counts is capped at the value's width; the length consumed is
/// not.
pub open spec fn length_tier(width: nat, prefix: nat) -> Tier {
    Tier {
        tag: prefix,
        radix: 1,
        payload: if prefix % 16 + 1 <= width {
            prefix % 16 + 1
        } else {
            width
        },
        len: prefix % 16 + 2,
    }
}

/// How many values fit in a tier.
pub open spec fn capacity(t: Tier) -> nat {
    t.radix * pow256(t.payload)
}

/// The bytes of `value` laid out in tier `t`.
pub open spec fn tier_bytes(t: Tier, value: nat) -> Seq<u8> {
    seq![(t.tag + value % t.radix) as u8] + le_bytes(value / t.radix, t.payload)
}

/// The value that `bytes` hold when read in tier `t`.
pub open spec fn tier_value(t: Tier, bytes: Seq<u8>) -> nat {
    (bytes[0] as nat) % t.radix + t.radix * le_value(bytes.subrange(1, 1 + t.payload as int))
}

/// Whether `width` is the byte width of a supported integer.
pub open spec fn is_width(width: nat) -> bool {
    width == 2 || width == 4 || width == 8 || width == 16
}

/// The most bytes a `width`-byte value encodes to.
pub open spec fn max_size(width: nat) -> nat {
    width + 1
}

/// The tier that the encoder picks for `value`: the shortest that holds it.
pub open spec fn canonical_tier(width: nat, value: nat) -> Tier {
    if value < 0x80 {
        tier_1()
    } else if value < 0x4000 {
        tier_2()
    } else if width == 2 {
        tier_16()
    } else if value < 0x20_0000 {
        tier_3()
    } else if value < 0x1000_0000 {
        tier_4()
    } else {
        length_tier(width, (0xF0 + significant_bytes(value) - 1) as nat)
    }
}

/// The tier that a reader of `width`-byte values takes from a prefix byte.
/// Every byte selects one.
pub open spec fn prefix_tier(width: nat, prefix: u8) -> Tier {
    if prefix < 0x80 {
        tier_1()
    } else if prefix < 0xC0 {
        tier_2()
    } else if width == 2 {
        if prefix == 0xDE {
            tier_16()
        } else {
            length_tier(width, prefix as nat)
        }
    } else if prefix < 0xE0 {
        tier_3()
    } else if prefix < 0xF0 {
        tier_4()
    } else {
        length_tier(width, prefix as nat)
    }
}

/// The encoded length that a prefix byte announces.
pub open spec fn prefix_len(prefix: u8) -> nat {
    if prefix < 0x80 {
        1
    } else if prefix < 0xC0 {
        2
    } else if prefix < 0xE0 {
        3
    } else if prefix < 0xF0 {
        4
    } else {
        (prefix % 16 + 2) as nat
    }
}

/// The encoding of `value` as a `width`-byte unsigned integer.
pub open spec fn encoding(width: nat, value: nat) -> Seq<u8> {
    tier_bytes(canonical_tier(width, value), value)
}

/// The length of the encoding of `value`.
pub open spec fn encoded_length(width: nat, value: nat) -> nat {
    canonical_tier(width, value).len
}

/// Zero bytes that the encoder stores behind an encoding, because it writes
/// the payload into a slot of fixed width.
pub open spec fn slack(width: nat, value: nat) -> nat {
    if value < 0x20_0000 || width == 2 {
        0
    } else if value < 0x1000_0000 {
        1
    } else if value < 0x1_0000_0000 {
        0
    } else if value < 0x1_0000_0000_0000_0000 {
        (8 - significant_bytes(value)) as nat
    } else {
        (16 - significant_bytes(value)) as nat
    }
}

/// All the bytes that the encoder stores for `value`: the encoding, then the
/// zero bytes that fill its slot.
pub open spec fn stored(width: nat, value: nat) -> Seq<u8> {
    encoding(width, value) + zeros(slack(width, value))
}

/// The value and the length that a reader of `width`-byte values takes from
/// `bytes`. Defined for every first byte.
pub open spec fn decoded(width: nat, bytes: Seq<u8>) -> (nat, nat) {
    let t = prefix_tier(width, bytes[0]);
    (tier_value(t, bytes), t.len)
}

/// The unsigned number that stands for a signed one on the wire:
/// 0, -1, 1, -2, ... become 0, 1, 2, 3, ...
pub open spec fn zigzag(value: int) -> nat {
    if value >= 0 {
        (2 * value) as nat
    } else {
        (-2 * value - 1) as nat
    }
}

/// The signed number that an unsigned wire value stands for.
pub open spec fn unzigzag(wire: nat) -> int {
    if wire % 2 == 0 {
        (wire / 2) as int
    } else {
        -(wire / 2) - 1
    }
}

/// `value`, taken as `width` bytes, with the order of its bytes reversed.
pub open spec fn byte_swapped(width: nat, value: nat) -> nat {
    le_value(le_bytes(value, width).reverse())
}

/// The total length of the encodings of `values`.
pub open spec fn stream_length(width: nat, values: Seq<nat>) -> nat
    decreases values.len(),
{
    if values.len() == 0 {
        0
    } else {
        stream_length(width, values.drop_last()) + encoded_length(width, values.last())
    }
}

/// The encodings of `values`, one after the other with nothing between them.
pub open spec fn stream(width: nat, values: Seq<nat>) -> Seq<u8>
    decreases values.len(),
{
    if values.len() == 0 {
        Seq::empty()
    } else {
        stream(width, values.drop_last()) + encoding(width, values.last())
    }
}

/// The room that storing `values` one after the other takes: every value is
/// stored through a window of the longest encoding of the type, so the room
/// ends that far behind the start of the last value.
pub open spec fn stream_room(width: nat, values: Seq<nat>) -> nat {
    if values.len() == 0 {
        0
    } else {
        stream_length(width, values.drop_last()) + max_size(width)
    }
}

/// How many of `values`, from the first on, a checked bulk encoder stores in
/// a buffer of `capacity` bytes: it stops at the first value for which less
/// than the longest encoding of the type is left.
pub open spec fn stream_fit(capacity: nat, width: nat, values: Seq<nat>) -> nat
    decreases values.len(),
{
    if values.len() == 0 {
        0
    } else {
        let before = values.drop_last();
        if stream_fit(capacity, width, before) == before.len() && stream_length(width, before)
            + max_size(width) <= capacity {
            values.len()
        } else {
            stream_fit(capacity, width, before)
        }
    }
}

/// A buffer after `values` have been stored in it one after the other, each
/// where the encoding of the one before ends.
pub open spec fn stream_stored(buf: Seq<u8>, width: nat, values: Seq<nat>) -> Seq<u8>
    decreases values.len(),
{
    if values.len() == 0 {
        buf
    } else {
        overwritten(
            stream_stored(buf, width, values.drop_last()),
            stream_length(width, values.drop_last()) as int,
            stored(width, values.last()),
        )
    }
}

/// What a checked bulk decoder finds in a buffer.
pub struct Scan {
    /// The values read, in order.
    pub values: Seq<nat>,
    /// The offset behind the last value read.
    pub end: nat,
    /// Whether the scan ended because enough values were read or the buffer
    /// was used up, and not because too few bytes were left for a value.
    pub complete: bool,
}

/// Reads up to `count` values from `bytes`, starting at `offset` and moving
/// on by the length that each value announces.
pub open spec fn scan(width: nat, bytes: Seq<u8>, offset: nat, count: nat) -> Scan
    decreases count,
{
    if count == 0 || offset >= bytes.len() {
        Scan { values: Seq::empty(), end: offset, complete: true }
    } else if bytes.len() - offset < max_size(width) {
        Scan { values: Seq::empty(), end: offset, complete: false }
    } else {
        let (value, len) = decoded(width, bytes.skip(offset as int));
        let rest = scan(width, bytes, offset + len, (count - 1) as nat);
        Scan { values: seq![value] + rest.values, end: rest.end, complete: rest.complete }
    }
}

} // verus!
