//! Groups of four 32-bit values in one tier: the layout, and the kernels
//! that store and load a group.
//!
//! A group is stored lane by lane, every lane in the same tier, so that the
//! four prefixes stand at a fixed stride. These kernels are the layout in
//! portable form: they move the bytes one lane at a time.

use crate::bits::{lemma_join_u32, lemma_low_bits, lemma_split_u32};
use crate::encode::wire_values;
use crate::format::{
    le_bytes, le_value, length_tier, overwritten, tier_2, tier_3, tier_4, tier_bytes, tier_value,
    Tier,
};
use crate::helpers::{read_le, write_le};
use crate::lemmas::{lemma_le_bytes_len, lemma_pow256_values, lemma_radix};
use vstd::prelude::*;

verus! {

/// Five bytes: a fixed prefix and the whole 32-bit value.
pub open spec fn tier_5() -> Tier {
    length_tier(4, 0xF3)
}

/// The greatest of some values; zero if there are none.
pub open spec fn greatest(values: Seq<nat>) -> nat
    decreases values.len(),
{
    if values.len() == 0 {
        0
    } else if greatest(values.drop_last()) >= values.last() {
        greatest(values.drop_last())
    } else {
        values.last()
    }
}

/// The tier in which a group is stored: the shortest of the tiers of two to
/// five bytes that holds the greatest value of the group.
pub open spec fn group_tier(greatest: nat) -> Tier {
    if greatest < 0x4000 {
        tier_2()
    } else if greatest < 0x20_0000 {
        tier_3()
    } else if greatest < 0x1000_0000 {
        tier_4()
    } else {
        tier_5()
    }
}

/// The tier in which a group is read: the one that the first byte of the
/// group announces, a one-byte prefix counting as the two-byte tier and every
/// length prefix as the five-byte tier.
pub open spec fn group_read_tier(first: u8) -> Tier {
    if first < 0xC0 {
        tier_2()
    } else if first < 0xE0 {
        tier_3()
    } else if first < 0xF0 {
        tier_4()
    } else {
        tier_5()
    }
}

/// Values laid out one after the other, all in tier `t`.
pub open spec fn lanes(t: Tier, values: Seq<nat>) -> Seq<u8>
    decreases values.len(),
{
    if values.len() == 0 {
        Seq::empty()
    } else {
        lanes(t, values.drop_last()) + tier_bytes(t, values.last())
    }
}

/// The value that lane `lane` of `bytes` holds when all lanes are in tier `t`.
pub open spec fn lane_value(t: Tier, bytes: Seq<u8>, lane: nat) -> nat {
    tier_value(t, bytes.skip((lane * t.len) as int))
}

/// The four values that a group of `bytes` holds when read in tier `t`.
pub open spec fn group_values(t: Tier, bytes: Seq<u8>) -> Seq<nat> {
    Seq::new(4, |j: int| lane_value(t, bytes, j as nat))
}

/// Whether `t` is one of the four tiers in which groups are stored.
pub open spec fn is_group_tier(t: Tier) -> bool {
    t == tier_2() || t == tier_3() || t == tier_4() || t == tier_5()
}

/// The bytes of a value in each of the tiers in which groups are stored.
pub proof fn lemma_lane_bytes(value: nat)
    ensures
        tier_bytes(tier_2(), value) == seq![(0x80 + value % 64) as u8] + le_bytes(value / 64, 1),
        tier_bytes(tier_3(), value) == seq![(0xC0 + value % 32) as u8] + le_bytes(value / 32, 2),
        tier_bytes(tier_4(), value) == seq![(0xE0 + value % 16) as u8] + le_bytes(value / 16, 3),
        tier_bytes(tier_5(), value) == seq![0xF3u8] + le_bytes(value, 4),
{
    lemma_radix(value, 64);
    lemma_radix(value, 32);
    lemma_radix(value, 16);
    lemma_radix(value, 1);
    assert(tier_2().radix == 64 && tier_3().radix == 32 && tier_4().radix == 16 && tier_5().radix
        == 1);
    lemma_radix(value, tier_2().radix);
    lemma_radix(value, tier_3().radix);
    lemma_radix(value, tier_4().radix);
    lemma_radix(value, tier_5().radix);
}

/// The value that bytes hold in each of the tiers in which groups are read.
pub proof fn lemma_lane_value(bytes: Seq<u8>)
    requires
        bytes.len() >= 1,
    ensures
        tier_value(tier_2(), bytes) == bytes[0] % 64 + 64 * le_value(bytes.subrange(1, 2)),
        tier_value(tier_3(), bytes) == bytes[0] % 32 + 32 * le_value(bytes.subrange(1, 3)),
        tier_value(tier_4(), bytes) == bytes[0] % 16 + 16 * le_value(bytes.subrange(1, 4)),
        tier_value(tier_5(), bytes) == le_value(bytes.subrange(1, 5)),
{
    let b = bytes[0] as nat;
    lemma_radix(b, tier_2().radix);
    lemma_radix(b, tier_3().radix);
    lemma_radix(b, tier_4().radix);
    lemma_radix(b, tier_5().radix);
    lemma_radix(le_value(bytes.subrange(1, 2)), tier_2().radix);
    lemma_radix(le_value(bytes.subrange(1, 3)), tier_3().radix);
    lemma_radix(le_value(bytes.subrange(1, 4)), tier_4().radix);
    lemma_radix(le_value(bytes.subrange(1, 5)), tier_5().radix);
}

/// Lanes take up the tier's length each.
pub proof fn lemma_lanes_len(t: Tier, values: Seq<nat>)
    requires
        is_group_tier(t),
    ensures
        lanes(t, values).len() == values.len() * t.len,
    decreases values.len(),
{
    if values.len() > 0 {
        let before = values.drop_last();
        lemma_lanes_len(t, before);
        lemma_radix(values.last(), t.radix);
        lemma_le_bytes_len(values.last() / t.radix, t.payload);
        assert(values.len() * t.len == before.len() * t.len + t.len) by (nonlinear_arith)
            requires
                values.len() == before.len() + 1,
        ;
    } else {
        assert(values.len() * t.len == 0) by (nonlinear_arith)
            requires
                values.len() == 0,
        ;
    }
}

/// Stores one lane: a prefix byte and `payload` little-endian bytes of `rest`.
fn store_lane(buf: &mut [u8], at: usize, prefix: u8, rest: u32, payload: usize)
    requires
        at + 1 + payload <= old(buf)@.len(),
    ensures
        final(buf)@.len() == old(buf)@.len(),
        final(buf)@ == overwritten(
            old(buf)@,
            at as int,
            seq![prefix] + le_bytes(rest as nat, payload as nat),
        ),
{
    buf[at] = prefix;
    write_le(buf, at + 1, rest as u128, payload);
    proof {
        lemma_le_bytes_len(rest as nat, payload as nat);
        assert(buf@ =~= overwritten(
            old(buf)@,
            at as int,
            seq![prefix] + le_bytes(rest as nat, payload as nat),
        ));
    }
}

/// One more lane behind those already stored.
proof fn lemma_lane_stored(
    before: Seq<u8>,
    offset: int,
    t: Tier,
    stride: int,
    values: Seq<nat>,
    count: int,
    after: Seq<u8>,
)
    requires
        is_group_tier(t),
        stride == t.len,
        0 <= count < values.len(),
        0 <= offset,
        offset + (count + 1) * stride <= before.len(),
        after == overwritten(
            overwritten(before, offset, lanes(t, values.take(count))),
            offset + count * stride,
            tier_bytes(t, values[count]),
        ),
    ensures
        after == overwritten(before, offset, lanes(t, values.take(count + 1))),
{
    lemma_lanes_len(t, values.take(count));
    lemma_lanes_len(t, values.take(count + 1));
    lemma_radix(values[count], t.radix);
    lemma_le_bytes_len(values[count] / t.radix, t.payload);
    assert(values.take(count + 1).drop_last() =~= values.take(count));
    assert(values.take(count + 1).last() == values[count]);
    assert((count + 1) * t.len == count * t.len + t.len) by (nonlinear_arith);
    assert(values.take(count).len() * t.len == count * stride) by (nonlinear_arith)
        requires
            values.take(count).len() == count,
            stride == t.len,
    ;
    assert(values.take(count + 1).len() * t.len == (count + 1) * stride) by (nonlinear_arith)
        requires
            values.take(count + 1).len() == count + 1,
            stride == t.len,
    ;
    assert(after =~= overwritten(before, offset, lanes(t, values.take(count + 1))));
}

/// Stores a group in the two-byte tier and returns the eight bytes it takes.
pub fn encode_2byte(buf: &mut [u8], offset: usize, values: [u32; 4]) -> (len: usize)
    requires
        offset + 8 <= old(buf)@.len(),
        forall|k: int| 0 <= k < 4 ==> values@[k] < 0x4000,
    ensures
        len == 8,
        final(buf)@ == overwritten(
            old(buf)@,
            offset as int,
            lanes(tier_2(), wire_values::<u32>(values@)),
        ),
{
    let ghost group = wire_values::<u32>(values@);
    let mut j: usize = 0;
    assert(group.take(0) =~= Seq::<nat>::empty());
    assert(buf@ =~= overwritten(old(buf)@, offset as int, lanes(tier_2(), group.take(0))));
    while j < 4
        invariant
            j <= 4,
            group == wire_values::<u32>(values@),
            offset + 8 <= buf.len(),
            buf.len() == old(buf)@.len(),
            forall|k: int| 0 <= k < 4 ==> values@[k] < 0x4000,
            buf@ == overwritten(old(buf)@, offset as int, lanes(tier_2(), group.take(j as int))),
        decreases 4 - j,
    {
        let value = values[j];
        proof {
            lemma_split_u32(value);
            lemma_lane_bytes(value as nat);
        }
        store_lane(buf, offset + 2 * j, 0x80 | ((value & 0x3F) as u8), value >> 6, 1);
        proof {
            lemma_lane_stored(old(buf)@, offset as int, tier_2(), 2, group, j as int, buf@);
        }
        j += 1;
    }
    assert(group.take(4) =~= group);
    8
}

/// Stores a group in the three-byte tier and returns the twelve bytes it
/// takes.
pub fn encode_3byte(buf: &mut [u8], offset: usize, values: [u32; 4]) -> (len: usize)
    requires
        offset + 12 <= old(buf)@.len(),
        forall|k: int| 0 <= k < 4 ==> values@[k] < 0x20_0000,
    ensures
        len == 12,
        final(buf)@ == overwritten(
            old(buf)@,
            offset as int,
            lanes(tier_3(), wire_values::<u32>(values@)),
        ),
{
    let ghost group = wire_values::<u32>(values@);
    let mut j: usize = 0;
    assert(group.take(0) =~= Seq::<nat>::empty());
    assert(buf@ =~= overwritten(old(buf)@, offset as int, lanes(tier_3(), group.take(0))));
    while j < 4
        invariant
            j <= 4,
            group == wire_values::<u32>(values@),
            offset + 12 <= buf.len(),
            buf.len() == old(buf)@.len(),
            forall|k: int| 0 <= k < 4 ==> values@[k] < 0x20_0000,
            buf@ == overwritten(old(buf)@, offset as int, lanes(tier_3(), group.take(j as int))),
        decreases 4 - j,
    {
        let value = values[j];
        proof {
            lemma_split_u32(value);
            lemma_lane_bytes(value as nat);
        }
        store_lane(buf, offset + 3 * j, 0xC0 | ((value & 0x1F) as u8), value >> 5, 2);
        proof {
            lemma_lane_stored(old(buf)@, offset as int, tier_3(), 3, group, j as int, buf@);
        }
        j += 1;
    }
    assert(group.take(4) =~= group);
    12
}

/// Stores a group in the four-byte tier and returns the sixteen bytes it
/// takes.
pub fn encode_4byte(buf: &mut [u8], offset: usize, values: [u32; 4]) -> (len: usize)
    requires
        offset + 16 <= old(buf)@.len(),
        forall|k: int| 0 <= k < 4 ==> values@[k] < 0x1000_0000,
    ensures
        len == 16,
        final(buf)@ == overwritten(
            old(buf)@,
            offset as int,
            lanes(tier_4(), wire_values::<u32>(values@)),
        ),
{
    let ghost group = wire_values::<u32>(values@);
    let mut j: usize = 0;
    assert(group.take(0) =~= Seq::<nat>::empty());
    assert(buf@ =~= overwritten(old(buf)@, offset as int, lanes(tier_4(), group.take(0))));
    while j < 4
        invariant
            j <= 4,
            group == wire_values::<u32>(values@),
            offset + 16 <= buf.len(),
            buf.len() == old(buf)@.len(),
            forall|k: int| 0 <= k < 4 ==> values@[k] < 0x1000_0000,
            buf@ == overwritten(old(buf)@, offset as int, lanes(tier_4(), group.take(j as int))),
        decreases 4 - j,
    {
        let value = values[j];
        proof {
            lemma_split_u32(value);
            lemma_lane_bytes(value as nat);
        }
        store_lane(buf, offset + 4 * j, 0xE0 | ((value & 0x0F) as u8), value >> 4, 3);
        proof {
            lemma_lane_stored(old(buf)@, offset as int, tier_4(), 4, group, j as int, buf@);
        }
        j += 1;
    }
    assert(group.take(4) =~= group);
    16
}

/// Stores a group in the five-byte tier and returns the twenty bytes it
/// takes.
pub fn encode_5byte(buf: &mut [u8], offset: usize, values: [u32; 4]) -> (len: usize)
    requires
        offset + 20 <= old(buf)@.len(),
    ensures
        len == 20,
        final(buf)@ == overwritten(
            old(buf)@,
            offset as int,
            lanes(tier_5(), wire_values::<u32>(values@)),
        ),
{
    let ghost group = wire_values::<u32>(values@);
    let mut j: usize = 0;
    assert(group.take(0) =~= Seq::<nat>::empty());
    assert(buf@ =~= overwritten(old(buf)@, offset as int, lanes(tier_5(), group.take(0))));
    while j < 4
        invariant
            j <= 4,
            group == wire_values::<u32>(values@),
            offset + 20 <= buf.len(),
            buf.len() == old(buf)@.len(),
            buf@ == overwritten(old(buf)@, offset as int, lanes(tier_5(), group.take(j as int))),
        decreases 4 - j,
    {
        let value = values[j];
        proof {
            lemma_lane_bytes(value as nat);
        }
        store_lane(buf, offset + 5 * j, 0xF3, value, 4);
        proof {
            assert(tier_5().len == 5 && tier_5().payload == 4);
            lemma_lane_stored(old(buf)@, offset as int, tier_5(), 5, group, j as int, buf@);
        }
        j += 1;
    }
    assert(group.take(4) =~= group);
    20
}

/// What a kernel that loads a group of tier `t` from `offset` leaves in
/// `values`: the four lanes in the slots from `i` on, everything else as it
/// was.
pub open spec fn group_loaded(
    t: Tier,
    buf: Seq<u8>,
    offset: int,
    before: Seq<u32>,
    i: int,
    after: Seq<u32>,
) -> bool {
    &&& after.len() == before.len()
    &&& forall|j: int|
        0 <= j < 4 ==> (#[trigger] after[i + j]) as nat == lane_value(t, buf.skip(offset), j as nat)
    &&& forall|k: int| 0 <= k < before.len() && !(i <= k < i + 4) ==> after[k] == before[k]
}

/// The bytes of one lane, seen from the start of the buffer.
proof fn lemma_lane_at(t: Tier, buf: Seq<u8>, offset: int, lane: int)
    requires
        is_group_tier(t),
        0 <= offset,
        0 <= lane < 4,
        offset + 4 * t.len <= buf.len(),
    ensures
        ({
            let at = offset + lane * t.len;
            let bytes = buf.skip(offset).skip((lane as nat * t.len) as int);
            &&& bytes.len() >= t.len
            &&& bytes[0] == buf[at]
            &&& bytes.subrange(1, 1 + t.payload as int) == buf.subrange(at + 1, at + 1 + t.payload)
        }),
{
    let at = offset + lane * t.len;
    let bytes = buf.skip(offset).skip((lane as nat * t.len) as int);
    assert(lane * t.len + t.len <= 4 * t.len) by (nonlinear_arith)
        requires
            0 <= lane < 4,
            0 <= t.len,
    ;
    assert(lane * t.len >= 0) by (nonlinear_arith)
        requires
            0 <= lane,
            0 <= t.len,
    ;
    assert(bytes.subrange(1, 1 + t.payload as int) =~= buf.subrange(at + 1, at + 1 + t.payload));
}

/// Loads a group in the two-byte tier and returns the offset behind it.
pub fn decode_2byte(buf: &[u8], offset: usize, values: &mut [u32], i: usize) -> (next: usize)
    requires
        offset + 8 <= buf@.len(),
        i + 4 <= old(values)@.len(),
    ensures
        next == offset + 8,
        group_loaded(tier_2(), buf@, offset as int, old(values)@, i as int, final(values)@),
{
    let mut j: usize = 0;
    while j < 4
        invariant
            j <= 4,
            offset + 8 <= buf.len(),
            i + 4 <= values.len(),
            values.len() == old(values)@.len(),
            forall|k: int|
                0 <= k < j ==> (#[trigger] values@[i + k]) as nat == lane_value(
                    tier_2(),
                    buf@.skip(offset as int),
                    k as nat,
                ),
            forall|k: int|
                0 <= k < values@.len() && !(i <= k < i + j) ==> values@[k] == old(values)@[k],
        decreases 4 - j,
    {
        let at = offset + 2 * j;
        let low = (buf[at] & 0x3F) as u32;
        let payload = read_le(buf, at + 1, 1) as u32;
        proof {
            lemma_pow256_values();
            lemma_low_bits(buf@[at as int]);
            lemma_join_u32(low, payload);
            lemma_lane_at(tier_2(), buf@, offset as int, j as int);
            lemma_lane_value(buf@.skip(offset as int).skip((j as nat * 2) as int));
        }
        values[i + j] = (payload << 6) | low;
        j += 1;
    }
    offset + 8
}

/// Loads a group in the three-byte tier and returns the offset behind it.
pub fn decode_3byte(buf: &[u8], offset: usize, values: &mut [u32], i: usize) -> (next: usize)
    requires
        offset + 12 <= buf@.len(),
        i + 4 <= old(values)@.len(),
    ensures
        next == offset + 12,
        group_loaded(tier_3(), buf@, offset as int, old(values)@, i as int, final(values)@),
{
    let mut j: usize = 0;
    while j < 4
        invariant
            j <= 4,
            offset + 12 <= buf.len(),
            i + 4 <= values.len(),
            values.len() == old(values)@.len(),
            forall|k: int|
                0 <= k < j ==> (#[trigger] values@[i + k]) as nat == lane_value(
                    tier_3(),
                    buf@.skip(offset as int),
                    k as nat,
                ),
            forall|k: int|
                0 <= k < values@.len() && !(i <= k < i + j) ==> values@[k] == old(values)@[k],
        decreases 4 - j,
    {
        let at = offset + 3 * j;
        let low = (buf[at] & 0x1F) as u32;
        let payload = read_le(buf, at + 1, 2) as u32;
        proof {
            lemma_pow256_values();
            lemma_low_bits(buf@[at as int]);
            lemma_join_u32(low, payload);
            lemma_lane_at(tier_3(), buf@, offset as int, j as int);
            lemma_lane_value(buf@.skip(offset as int).skip((j as nat * 3) as int));
        }
        values[i + j] = (payload << 5) | low;
        j += 1;
    }
    offset + 12
}

/// Loads a group in the four-byte tier and returns the offset behind it.
pub fn decode_4byte(buf: &[u8], offset: usize, values: &mut [u32], i: usize) -> (next: usize)
    requires
        offset + 16 <= buf@.len(),
        i + 4 <= old(values)@.len(),
    ensures
        next == offset + 16,
        group_loaded(tier_4(), buf@, offset as int, old(values)@, i as int, final(values)@),
{
    let mut j: usize = 0;
    while j < 4
        invariant
            j <= 4,
            offset + 16 <= buf.len(),
            i + 4 <= values.len(),
            values.len() == old(values)@.len(),
            forall|k: int|
                0 <= k < j ==> (#[trigger] values@[i + k]) as nat == lane_value(
                    tier_4(),
                    buf@.skip(offset as int),
                    k as nat,
                ),
            forall|k: int|
                0 <= k < values@.len() && !(i <= k < i + j) ==> values@[k] == old(values)@[k],
        decreases 4 - j,
    {
        let at = offset + 4 * j;
        let low = (buf[at] & 0x0F) as u32;
        let payload = read_le(buf, at + 1, 3) as u32;
        proof {
            lemma_pow256_values();
            lemma_low_bits(buf@[at as int]);
            lemma_join_u32(low, payload);
            lemma_lane_at(tier_4(), buf@, offset as int, j as int);
            lemma_lane_value(buf@.skip(offset as int).skip((j as nat * 4) as int));
        }
        values[i + j] = (payload << 4) | low;
        j += 1;
    }
    offset + 16
}

/// Loads a group in the five-byte tier and returns the offset behind it.
pub fn decode_5byte(buf: &[u8], offset: usize, values: &mut [u32], i: usize) -> (next: usize)
    requires
        offset + 20 <= buf@.len(),
        i + 4 <= old(values)@.len(),
    ensures
        next == offset + 20,
        group_loaded(tier_5(), buf@, offset as int, old(values)@, i as int, final(values)@),
{
    let mut j: usize = 0;
    while j < 4
        invariant
            j <= 4,
            offset + 20 <= buf.len(),
            i + 4 <= values.len(),
            values.len() == old(values)@.len(),
            forall|k: int|
                0 <= k < j ==> (#[trigger] values@[i + k]) as nat == lane_value(
                    tier_5(),
                    buf@.skip(offset as int),
                    k as nat,
                ),
            forall|k: int|
                0 <= k < values@.len() && !(i <= k < i + j) ==> values@[k] == old(values)@[k],
        decreases 4 - j,
    {
        let data_offset = offset + j * 5 + 1;
        let value = read_le(buf, data_offset, 4);
        proof {
            lemma_pow256_values();
            lemma_lane_at(tier_5(), buf@, offset as int, j as int);
            lemma_lane_value(buf@.skip(offset as int).skip((j as nat * 5) as int));
        }
        values[i + j] = value as u32;
        j += 1;
    }
    offset + 20
}

} // verus!
