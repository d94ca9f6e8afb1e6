//! Bulk coding of 32-bit values in groups of four.
//!
//! A vector backend stores four values at a time, all in the tier that the
//! greatest of them needs, so that the lanes of a group are of one length.
//! Such a group is longer than the four encodings taken singly where the
//! values differ in size; every decoder of this crate reads it all the same.
//! Values that do not fill a group are coded one by one. The generic backend
//! codes every value by itself.
//!
//! The backends differ in how they would move the bytes, not in the bytes:
//! what a vector backend stores is what the kernels of [`lanes`] store.

pub mod aarch64_simd;
pub mod generic_simd;
pub mod lanes;
pub mod laws;
pub mod x86_64_simd;

pub use aarch64_simd::Aarch64Simd;
pub use generic_simd::GenericSimd;
pub use x86_64_simd::X86_64Simd;

use crate::decode::{decode_u32, Decode};
use crate::encode::{encode_u32, wire_values, Encode};
use crate::error::CodecError;
use crate::format::{
    decoded, overwritten, scan, stored, stream_fit, stream_length, stream_room, stream_stored,
    zeros, Scan,
};
use crate::helpers::{const_copy_slice, const_read_array};
use crate::lemmas::{
    all_fit, lemma_decoded_agrees, lemma_pow256_values, lemma_stored, lemma_stream_room,
};
use crate::simd::lanes::{
    greatest, group_read_tier, group_tier, group_values, lanes, lemma_lanes_len,
};
use vstd::prelude::*;
use vstd::slice::slice_subrange;

verus! {

/// The backend that the crate's own bulk functions use.
pub type CurrentSimd = X86_64Simd;

/// The bytes of full groups of four, each group in the tier of its greatest
/// value. `values` is taken from its end in fours.
pub open spec fn lane_groups(values: Seq<nat>) -> Seq<u8>
    decreases values.len(),
{
    if values.len() < 4 {
        Seq::empty()
    } else {
        let group = values.skip(values.len() - 4);
        lane_groups(values.take(values.len() - 4)) + lanes(group_tier(greatest(group)), group)
    }
}

/// How many of `count` values stand in full groups of four.
pub open spec fn grouped(count: nat) -> nat {
    count / 4 * 4
}

/// The room that a vector backend takes to store `values`: the full groups,
/// and behind them the room of the values left over.
pub open spec fn lane_room(values: Seq<nat>) -> nat {
    let full = grouped(values.len());
    lane_groups(values.take(full as int)).len() + stream_room(4, values.skip(full as int))
}

/// The wire values of 32-bit values fit in four bytes.
pub proof fn lemma_wires_fit(values: Seq<u32>)
    ensures
        all_fit(4, wire_values::<u32>(values)),
{
    lemma_pow256_values();
}

/// Full groups take up eight to twenty bytes each, and the groups of a
/// shorter run of values no more than those of a longer one.
pub proof fn lemma_lane_groups_len(values: Seq<nat>, count: nat)
    requires
        values.len() % 4 == 0,
        count % 4 == 0,
        count <= values.len(),
    ensures
        lane_groups(values.take(count as int)).len() <= lane_groups(values).len(),
        2 * values.len() <= lane_groups(values).len() <= 5 * values.len(),
    decreases values.len(),
{
    if values.len() >= 4 {
        let before = values.take(values.len() - 4);
        let group = values.skip(values.len() - 4);
        let t = group_tier(greatest(group));
        lemma_lanes_len(t, group);
        assert(lanes(t, group).len() == 4 * t.len) by (nonlinear_arith)
            requires
                lanes(t, group).len() == group.len() * t.len,
                group.len() == 4,
        ;
        assert(2 <= t.len <= 5);
        if count == values.len() {
            assert(values.take(count as int) =~= values);
            lemma_lane_groups_len(before, 0);
        } else {
            lemma_lane_groups_len(before, count);
            assert(before.take(count as int) =~= values.take(count as int));
        }
    } else {
        assert(values.take(count as int) =~= values);
    }
}

/// The length of what a vector backend stores for `values`.
pub open spec fn lane_stored_length(values: Seq<nat>) -> nat {
    let full = grouped(values.len());
    lane_groups(values.take(full as int)).len() + stream_length(4, values.skip(full as int))
}

/// A buffer after a vector backend has stored `values` in it: the full
/// groups, then the values left over, each as the scalar encoder stores it.
pub open spec fn lane_stored(buf: Seq<u8>, values: Seq<nat>) -> Seq<u8> {
    let full = grouped(values.len());
    let groups = lane_groups(values.take(full as int));
    let with_groups = overwritten(buf, 0, groups);
    with_groups.take(groups.len() as int) + stream_stored(
        with_groups.skip(groups.len() as int),
        4,
        values.skip(full as int),
    )
}

/// Reads up to `count` values one by one from `bytes`, starting at `offset`,
/// until the buffer is used up. Where fewer than five bytes are left, zeros
/// stand in for those that lack.
pub open spec fn padded_scan(bytes: Seq<u8>, offset: nat, count: nat) -> Scan
    decreases count,
{
    if count == 0 || offset >= bytes.len() {
        Scan { values: Seq::empty(), end: offset, complete: true }
    } else {
        let (value, len) = decoded(4, bytes.skip(offset as int) + zeros(4));
        let rest = padded_scan(bytes, offset + len, (count - 1) as nat);
        Scan { values: seq![value] + rest.values, end: rest.end, complete: true }
    }
}

/// Reads up to `count` values from `bytes`, starting at `offset`: in groups
/// of four, each in the tier that its first byte announces, as long as four
/// values are wanted and twenty bytes are left; one by one after that.
pub open spec fn lane_scan(bytes: Seq<u8>, offset: nat, count: nat) -> Scan
    decreases count,
{
    if count >= 4 && offset + 20 <= bytes.len() {
        let t = group_read_tier(bytes[offset as int]);
        let group = group_values(t, bytes.skip(offset as int));
        let rest = lane_scan(bytes, offset + 4 * t.len, (count - 4) as nat);
        Scan { values: group + rest.values, end: rest.end, complete: true }
    } else {
        padded_scan(bytes, offset, count)
    }
}

/// What a bulk decoder that found `found` leaves in its output: the values
/// found in the first slots, the other slots as they were.
pub open spec fn scan_loaded(found: Scan, before: Seq<u32>, after: Seq<u32>) -> bool {
    &&& after.len() == before.len()
    &&& found.values.len() <= before.len()
    &&& forall|k: int| 0 <= k < found.values.len() ==> after[k] as nat == found.values[k]
    &&& forall|k: int| found.values.len() <= k < before.len() ==> after[k] == before[k]
}

/// A backend of the bulk codec.
pub trait SimdImpl {
    /// The buffer after the backend has stored `values` in it.
    spec fn stored(buf: Seq<u8>, values: Seq<nat>) -> Seq<u8>;

    /// The number of bytes that the backend stores for `values`.
    spec fn stored_length(values: Seq<nat>) -> nat;

    /// What the backend finds in `bytes` when asked for `count` values.
    spec fn scanned(bytes: Seq<u8>, count: nat) -> Scan;

    /// The room that the backend takes to store `values`.
    spec fn room(values: Seq<nat>) -> nat;

    /// Five bytes for each value are room enough.
    proof fn lemma_room(values: Seq<nat>)
        requires
            all_fit(4, values),
        ensures
            Self::room(values) <= values.len() * 5,
    ;

    /// The backend reads back what it has stored: a scan of the buffer that
    /// the values were stored in, cut off behind them or not, finds the values
    /// and ends where the count of bytes stored says.
    proof fn lemma_round_trip(buf: Seq<u8>, values: Seq<nat>)
        requires
            all_fit(4, values),
            buf.len() >= Self::room(values),
        ensures
            Self::scanned(Self::stored(buf, values), values.len()) == (Scan {
                values,
                end: Self::stored_length(values),
                complete: true,
            }),
            Self::scanned(
                Self::stored(buf, values).take(Self::stored_length(values) as int),
                values.len(),
            ) == (Scan { values, end: Self::stored_length(values), complete: true }),
    ;

    /// Encodes `values` from the start of the buffer and returns the number
    /// of bytes stored. The buffer must have the room that the backend takes
    /// for the values, for which five bytes for each value are enough.
    fn bulk_encode_u32(buf: &mut [u8], values: &[u32]) -> (len: usize)
        requires
            old(buf)@.len() >= Self::room(wire_values::<u32>(values@)),
        ensures
            len == Self::stored_length(wire_values::<u32>(values@)),
            final(buf)@ == Self::stored(old(buf)@, wire_values::<u32>(values@)),
    ;

    /// Decodes values from the buffer into `values` until `values` is full or
    /// the buffer is used up, and returns the offset behind the last value
    /// read. A vector backend reads a group of four in the tier of its first
    /// value, so it reads rightly only what was stored in groups of one tier.
    fn bulk_decode_u32(buf: &[u8], values: &mut [u32]) -> (len: usize)
        requires
            buf@.len() + 16 <= usize::MAX,
        ensures
            scan_loaded(
                Self::scanned(buf@, old(values)@.len()),
                old(values)@,
                final(values)@,
            ),
            len == Self::scanned(buf@, old(values)@.len()).end,
    ;
}

/// Encodes the values from index `i` on one by one, starting at `offset`, and
/// returns the offset behind the last.
pub fn handle_remaining_encode(buf: &mut [u8], values: &[u32], offset: usize, i: usize) -> (end:
    usize)
    requires
        i <= values@.len(),
        offset + stream_room(4, wire_values::<u32>(values@.skip(i as int))) <= old(buf)@.len(),
    ensures
        end == offset + stream_length(4, wire_values::<u32>(values@.skip(i as int))),
        final(buf)@ == old(buf)@.take(offset as int) + stream_stored(
            old(buf)@.skip(offset as int),
            4,
            wire_values::<u32>(values@.skip(i as int)),
        ),
{
    let ghost rest = wire_values::<u32>(values@.skip(i as int));
    let ghost base = old(buf)@.skip(offset as int);
    let ghost head = old(buf)@.take(offset as int);
    let mut at: usize = offset;
    let mut k: usize = i;
    proof {
        assert(rest.take(0) =~= Seq::<nat>::empty());
        assert(buf@ =~= head + stream_stored(base, 4, rest.take(0)));
    }
    while k < values.len()
        invariant
            i <= k <= values@.len(),
            rest == wire_values::<u32>(values@.skip(i as int)),
            base == old(buf)@.skip(offset as int),
            head == old(buf)@.take(offset as int),
            offset + stream_room(4, rest) <= old(buf)@.len(),
            buf.len() == old(buf)@.len(),
            at == offset + stream_length(4, rest.take(k - i)),
            buf@ == head + stream_stored(base, 4, rest.take(k - i)),
        decreases values@.len() - k,
    {
        let value = values[k];
        proof {
            lemma_pow256_values();
            lemma_stored(4, value as nat);
            lemma_wires_fit(values@.skip(i as int));
            lemma_stream_room(4, rest, (k - i) as nat);
            assert(rest.take(k - i + 1).drop_last() =~= rest.take(k - i));
            assert(rest.take(k - i + 1).last() == value as nat);
        }
        let mut window: [u8; 5] = const_read_array::<5>(buf, at);
        let len = encode_u32(&mut window, value);
        const_copy_slice(&window, buf, at, 5);
        proof {
            assert(buf@ =~= head + overwritten(
                stream_stored(base, 4, rest.take(k - i)),
                at - offset,
                stored(4, value as nat),
            ));
        }
        at += len;
        k += 1;
    }
    proof {
        assert(rest.take(k - i) =~= rest);
    }
    at
}

/// Decodes values one by one into the slots from index `i` on, starting at
/// `offset`, until the slots are full or the buffer is used up, and returns
/// the offset behind the last value read. Where fewer than five bytes are
/// left, zeros stand in for those that lack.
pub fn handle_remaining_decode(buf: &[u8], values: &mut [u32], offset: usize, i: usize) -> (end:
    usize)
    requires
        buf@.len() + 16 <= usize::MAX,
        offset <= buf@.len() + 16,
        i <= old(values)@.len(),
    ensures
        ({
            let found = padded_scan(buf@, offset as nat, (old(values)@.len() - i) as nat);
            &&& final(values)@.len() == old(values)@.len()
            &&& i + found.values.len() <= old(values)@.len()
            &&& forall|k: int|
                0 <= k < found.values.len() ==> final(values)@[i + k] as nat == found.values[k]
            &&& forall|k: int|
                0 <= k < old(values)@.len() && !(i <= k < i + found.values.len())
                    ==> final(values)@[k] == old(values)@[k]
            &&& end == found.end
        }),
{
    let ghost count = values@.len();
    let ghost whole = padded_scan(buf@, offset as nat, (count - i) as nat);
    let ghost mut done: Seq<nat> = Seq::empty();
    let mut at: usize = offset;
    let mut k: usize = i;
    while k < values.len() && at < buf.len()
        invariant
            count == old(values)@.len(),
            values.len() == count,
            i <= k <= count,
            buf.len() + 16 <= usize::MAX,
            at <= buf.len() + 16,
            whole == padded_scan(buf@, offset as nat, (count - i) as nat),
            done.len() == k - i,
            whole.values == done + padded_scan(buf@, at as nat, (count - k) as nat).values,
            whole.end == padded_scan(buf@, at as nat, (count - k) as nat).end,
            forall|j: int| 0 <= j < k - i ==> values@[i + j] as nat == done[j],
            forall|j: int| 0 <= j < count && !(i <= j < k) ==> values@[j] == old(values)@[j],
        decreases count - k,
    {
        let mut temp_buf = [0u8; 5];
        let copy_len = if buf.len() - at < 5 {
            buf.len() - at
        } else {
            5
        };
        const_copy_slice(slice_subrange(buf, at, at + copy_len), &mut temp_buf, 0, copy_len);
        proof {
            let padded = buf@.skip(at as int) + zeros(4);
            lemma_decoded_agrees(4, padded, temp_buf@);
        }
        let (value, len) = decode_u32(&temp_buf);
        values[k] = value;
        proof {
            let rest = padded_scan(buf@, (at + len) as nat, (count - k - 1) as nat);
            assert(done.push(value as nat) + rest.values =~= done + (seq![value as nat]
                + rest.values));
            done = done.push(value as nat);
        }
        at += len;
        k += 1;
    }
    proof {
        assert(whole.values =~= done);
    }
    at
}

/// The greatest value of a group.
pub fn greatest_of(group: &[u32; 4]) -> (max_value: u32)
    ensures
        max_value == greatest(wire_values::<u32>(group@)),
        forall|k: int| 0 <= k < 4 ==> group@[k] <= max_value,
{
    let ghost wires = wire_values::<u32>(group@);
    let mut max_value: u32 = 0;
    let mut j: usize = 0;
    assert(wires.take(0) =~= Seq::<nat>::empty());
    while j < 4
        invariant
            j <= 4,
            wires == wire_values::<u32>(group@),
            max_value == greatest(wires.take(j as int)),
            forall|k: int| 0 <= k < j ==> group@[k] <= max_value,
        decreases 4 - j,
    {
        proof {
            assert(wires.take(j + 1).drop_last() =~= wires.take(j as int));
            assert(wires.take(j + 1).last() == group@[j as int] as nat);
        }
        if group[j] > max_value {
            max_value = group[j];
        }
        j += 1;
    }
    assert(wires.take(4) =~= wires);
    max_value
}

/// Stores the full groups of four at the start of `values`, each in the tier
/// of its greatest value, and returns the offset behind the last group and
/// the number of values stored.
pub fn encode_groups(buf: &mut [u8], values: &[u32]) -> (r: (usize, usize))
    requires
        old(buf)@.len() >= lane_groups(
            wire_values::<u32>(values@).take(grouped(values@.len()) as int),
        ).len(),
    ensures
        r.1 == grouped(values@.len()),
        r.0 == lane_groups(wire_values::<u32>(values@).take(r.1 as int)).len(),
        final(buf)@ == overwritten(
            old(buf)@,
            0,
            lane_groups(wire_values::<u32>(values@).take(r.1 as int)),
        ),
{
    let ghost wires = wire_values::<u32>(values@);
    let mut offset: usize = 0;
    let mut i: usize = 0;
    proof {
        assert(wires.take(0) =~= Seq::<nat>::empty());
        assert(buf@ =~= overwritten(old(buf)@, 0, lane_groups(wires.take(0))));
    }
    while values.len() - i > 3
        invariant
            i <= values@.len(),
            i % 4 == 0,
            wires == wire_values::<u32>(values@),
            old(buf)@.len() >= lane_groups(wires.take(grouped(values@.len()) as int)).len(),
            buf.len() == old(buf)@.len(),
            offset == lane_groups(wires.take(i as int)).len(),
            buf@ == overwritten(old(buf)@, 0, lane_groups(wires.take(i as int))),
        decreases values@.len() - i,
    {
        let group = [values[i], values[i + 1], values[i + 2], values[i + 3]];
        let max_value = greatest_of(&group);
        proof {
            let so_far = wires.take(i + 4);
            assert(so_far.take(so_far.len() - 4) =~= wires.take(i as int));
            assert(so_far.skip(so_far.len() - 4) =~= wire_values::<u32>(group@));
            lemma_lanes_len(group_tier(max_value as nat), wire_values::<u32>(group@));
            let full = grouped(values@.len());
            assert(wires.take(full as int).take(i + 4) =~= so_far);
            lemma_lane_groups_len(wires.take(full as int), (i + 4) as nat);
        }
        let bytes_needed = if max_value < 0x4000 {
            lanes::encode_2byte(buf, offset, group)
        } else if max_value < 0x20_0000 {
            lanes::encode_3byte(buf, offset, group)
        } else if max_value < 0x1000_0000 {
            lanes::encode_4byte(buf, offset, group)
        } else {
            lanes::encode_5byte(buf, offset, group)
        };
        proof {
            assert(buf@ =~= overwritten(old(buf)@, 0, lane_groups(wires.take(i + 4))));
        }
        offset += bytes_needed;
        i += 4;
    }
    (offset, i)
}

/// Loads groups of four from the buffer as long as four slots are free and
/// twenty bytes are left, each group in the tier that its first byte
/// announces, and returns the offset behind the last group and the number of
/// values loaded.
pub fn decode_groups(buf: &[u8], values: &mut [u32]) -> (r: (usize, usize))
    ensures
        final(values)@.len() == old(values)@.len(),
        r.0 <= buf@.len(),
        r.1 <= old(values)@.len(),
        ({
            let whole = lane_scan(buf@, 0, old(values)@.len());
            let rest = padded_scan(buf@, r.0 as nat, (old(values)@.len() - r.1) as nat);
            &&& whole.end == rest.end
            &&& whole.values == wire_values::<u32>(final(values)@.take(r.1 as int)) + rest.values
        }),
        forall|k: int| r.1 <= k < old(values)@.len() ==> final(values)@[k] == old(values)@[k],
{
    let ghost count = values@.len();
    let ghost whole = lane_scan(buf@, 0, count);
    let mut offset: usize = 0;
    let mut i: usize = 0;
    proof {
        assert(wire_values::<u32>(values@.take(0)) + lane_scan(buf@, 0, count).values
            =~= whole.values);
    }
    while values.len() - i > 3 && buf.len() - offset >= 20
        invariant
            count == old(values)@.len(),
            values.len() == count,
            i <= count,
            offset <= buf.len(),
            whole == lane_scan(buf@, 0, count),
            whole.end == lane_scan(buf@, offset as nat, (count - i) as nat).end,
            whole.values == wire_values::<u32>(values@.take(i as int)) + lane_scan(
                buf@,
                offset as nat,
                (count - i) as nat,
            ).values,
            forall|k: int| i <= k < count ==> values@[k] == old(values)@[k],
        decreases count - i,
    {
        let ghost before = values@;
        let first_byte = buf[offset];
        let bytes_needed = if first_byte < 0xC0 {
            lanes::decode_2byte(buf, offset, values, i)
        } else if first_byte < 0xE0 {
            lanes::decode_3byte(buf, offset, values, i)
        } else if first_byte < 0xF0 {
            lanes::decode_4byte(buf, offset, values, i)
        } else {
            lanes::decode_5byte(buf, offset, values, i)
        };
        proof {
            let t = group_read_tier(first_byte);
            let group = group_values(t, buf@.skip(offset as int));
            let rest = lane_scan(buf@, (offset + 4 * t.len) as nat, (count - i - 4) as nat);
            assert(bytes_needed == offset + 4 * t.len);
            assert forall|j: int| 0 <= j < 4 implies values@[i + j] as nat == group[j] by {}
            assert(wire_values::<u32>(values@.take(i + 4)) =~= wire_values::<u32>(
                before.take(i as int),
            ) + group);
            assert(wire_values::<u32>(values@.take(i + 4)) + rest.values =~= wire_values::<u32>(
                before.take(i as int),
            ) + (group + rest.values));
        }
        offset = bytes_needed;
        i += 4;
    }
    (offset, i)
}

/// Encodes 32-bit values with the crate's backend. The buffer must have the
/// room that the backend takes for the values, for which five bytes for each
/// value are enough.
pub fn bulk_encode_u32(buf: &mut [u8], values: &[u32]) -> (len: usize)
    requires
        old(buf)@.len() >= CurrentSimd::room(wire_values::<u32>(values@)),
    ensures
        len == CurrentSimd::stored_length(wire_values::<u32>(values@)),
        final(buf)@ == CurrentSimd::stored(old(buf)@, wire_values::<u32>(values@)),
{
    CurrentSimd::bulk_encode_u32(buf, values)
}

/// Decodes 32-bit values with the crate's backend.
pub fn bulk_decode_u32(buf: &[u8], values: &mut [u32]) -> (len: usize)
    requires
        buf@.len() + 16 <= usize::MAX,
    ensures
        scan_loaded(
            CurrentSimd::scanned(buf@, old(values)@.len()),
            old(values)@,
            final(values)@,
        ),
        len == CurrentSimd::scanned(buf@, old(values)@.len()).end,
{
    CurrentSimd::bulk_decode_u32(buf, values)
}

/// Encodes values of any supported type one after the other.
pub fn bulk_encode<T: Encode + Copy>(buf: &mut [u8], values: &[T]) -> (r: Result<usize, CodecError>)
    ensures
        ({
            let wires = wire_values::<T>(values@);
            let count = stream_fit(old(buf)@.len(), T::width(), wires);
            &&& final(buf)@ == stream_stored(old(buf)@, T::width(), wires.take(count as int))
            &&& count == values@.len() ==> r == Ok::<usize, CodecError>(
                stream_length(T::width(), wires) as usize,
            )
            &&& count < values@.len() ==> r == Err::<usize, CodecError>(
                CodecError::BufferTooSmall,
            )
        }),
{
    crate::encode::bulk_encode(buf, values)
}

/// Decodes values of any supported type one after the other.
pub fn bulk_decode<T: Decode>(buf: &[u8], values: &mut [T]) -> (r: Result<usize, CodecError>)
    requires
        buf@.len() + 16 <= usize::MAX,
    ensures
        ({
            let found = scan(T::width(), buf@, 0, old(values)@.len());
            &&& final(values)@.len() == old(values)@.len()
            &&& found.values.len() <= old(values)@.len()
            &&& forall|k: int|
                0 <= k < found.values.len() ==> final(values)@[k] == T::from_wire(found.values[k])
            &&& forall|k: int|
                found.values.len() <= k < old(values)@.len() ==> final(values)@[k] == old(
                    values,
                )@[k]
            &&& found.complete ==> r == Ok::<usize, CodecError>(found.end as usize)
            &&& !found.complete ==> r == Err::<usize, CodecError>(CodecError::BufferTooSmall)
        }),
{
    crate::decode::bulk_decode(buf, values)
}

/// Encodes 32-bit values with the crate's backend, after checking that the
/// buffer has room for five bytes for each value. Where it has not, nothing
/// is stored.
pub fn bulk_encode_u32_safe(buf: &mut [u8], values: &[u32]) -> (r: Result<usize, CodecError>)
    ensures
        old(buf)@.len() < values@.len() * 5 ==> r == Err::<usize, CodecError>(
            CodecError::BufferTooSmall,
        ) && final(buf)@ == old(buf)@,
        old(buf)@.len() >= values@.len() * 5 ==> r == Ok::<usize, CodecError>(
            CurrentSimd::stored_length(wire_values::<u32>(values@)) as usize,
        ) && final(buf)@ == CurrentSimd::stored(old(buf)@, wire_values::<u32>(values@)),
{
    match values.len().checked_mul(5) {
        Some(needed) => {
            if buf.len() < needed {
                return Err(CodecError::BufferTooSmall);
            }
        },
        None => {
            assert(buf.len() < values@.len() * 5);
            return Err(CodecError::BufferTooSmall);
        },
    }
    proof {
        lemma_wires_fit(values@);
        CurrentSimd::lemma_room(wire_values::<u32>(values@));
    }
    Ok(bulk_encode_u32(buf, values))
}

/// Decodes 32-bit values with the crate's backend. Every buffer is read; an
/// empty one holds no value.
pub fn bulk_decode_u32_safe(buf: &[u8], values: &mut [u32]) -> (r: Result<usize, CodecError>)
    requires
        buf@.len() + 16 <= usize::MAX,
    ensures
        scan_loaded(
            CurrentSimd::scanned(buf@, old(values)@.len()),
            old(values)@,
            final(values)@,
        ),
        r == Ok::<usize, CodecError>(
            CurrentSimd::scanned(buf@, old(values)@.len()).end as usize,
        ),
{
    if buf.is_empty() {
        return Ok(0);
    }
    Ok(bulk_decode_u32(buf, values))
}

} // verus!
