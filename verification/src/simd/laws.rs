//! What holds of the bulk codec: every backend reads back what it has
//! stored, and the generic backend reads what a vector backend has stored.

use crate::format::{
    canonical_tier, capacity, decoded, encoding, max_size, overwritten, pow256, stream,
    stream_length, stream_room, stream_stored, tier_bytes, zeros, Scan, Tier,
};
use crate::laws::{lemma_overlong_decodes, lemma_stream_first};
use crate::lemmas::{
    all_fit, lemma_canonical_tier, lemma_le_bytes_len, lemma_pow256_values, lemma_radix,
    lemma_stream_fit_room, lemma_stream_length, lemma_stream_room, lemma_stream_stored,
    lemma_tier_round_trip,
};
use crate::simd::lanes::{
    greatest, group_read_tier, group_tier, group_values, is_group_tier, lane_value, lanes,
    lemma_lanes_len, tier_5,
};
use crate::simd::{
    grouped, lane_groups, lane_room, lane_scan, lane_stored, lane_stored_length,
    lemma_lane_groups_len, padded_scan,
};
use vstd::prelude::*;

verus! {

/// Where a stretch of a buffer holds two runs of bytes one after the other,
/// each run stands in its own part of the stretch.
pub proof fn lemma_split(bytes: Seq<u8>, at: int, a: Seq<u8>, b: Seq<u8>)
    requires
        0 <= at,
        at + a.len() + b.len() <= bytes.len(),
        bytes.subrange(at, (at + a.len() + b.len()) as int) == a + b,
    ensures
        bytes.subrange(at, (at + a.len()) as int) == a,
        bytes.subrange((at + a.len()) as int, (at + a.len() + b.len()) as int) == b,
{
    let whole = bytes.subrange(at, (at + a.len() + b.len()) as int);
    assert(bytes.subrange(at, (at + a.len()) as int) =~= whole.subrange(0, a.len() as int));
    assert((a + b).subrange(0, a.len() as int) =~= a);
    assert(bytes.subrange((at + a.len()) as int, (at + a.len() + b.len()) as int)
        =~= whole.subrange(a.len() as int, (a.len() + b.len()) as int));
    assert((a + b).subrange(a.len() as int, (a.len() + b.len()) as int) =~= b);
}

/// Lanes start with the bytes of the first value.
pub proof fn lemma_lanes_first(t: Tier, values: Seq<nat>)
    requires
        values.len() > 0,
    ensures
        lanes(t, values) == tier_bytes(t, values[0]) + lanes(t, values.drop_first()),
    decreases values.len(),
{
    if values.len() == 1 {
        assert(values.drop_last() =~= Seq::<nat>::empty());
        assert(values.drop_first() =~= Seq::<nat>::empty());
        assert(lanes(t, values) =~= tier_bytes(t, values[0]) + lanes(t, values.drop_first()));
    } else {
        let before = values.drop_last();
        lemma_lanes_first(t, before);
        assert(before.drop_first() =~= values.drop_first().drop_last());
        assert(values.drop_first().last() == values.last());
        assert(lanes(t, values) =~= tier_bytes(t, values[0]) + lanes(t, values.drop_first()));
    }
}

/// Full groups start with the first group.
pub proof fn lemma_lane_groups_first(values: Seq<nat>)
    requires
        values.len() % 4 == 0,
        values.len() >= 4,
    ensures
        lane_groups(values) == lanes(group_tier(greatest(values.take(4))), values.take(4))
            + lane_groups(values.skip(4)),
    decreases values.len(),
{
    let last = values.skip(values.len() - 4);
    let before = values.take(values.len() - 4);
    if values.len() == 4 {
        assert(before =~= Seq::<nat>::empty());
        assert(values.skip(4) =~= Seq::<nat>::empty());
        assert(last =~= values.take(4));
        assert(lane_groups(values) =~= lanes(group_tier(greatest(values.take(4))), values.take(4))
            + lane_groups(values.skip(4)));
    } else {
        lemma_lane_groups_first(before);
        let rest = values.skip(4);
        assert(before.take(4) =~= values.take(4));
        assert(before.skip(4) =~= rest.take(rest.len() - 4));
        assert(rest.skip(rest.len() - 4) =~= last);
        assert(lane_groups(values) =~= lanes(group_tier(greatest(values.take(4))), values.take(4))
            + lane_groups(values.skip(4)));
    }
}

/// No value of a group is greater than the greatest.
pub proof fn lemma_greatest(values: Seq<nat>, k: int)
    requires
        0 <= k < values.len(),
    ensures
        values[k] <= greatest(values),
    decreases values.len(),
{
    if k < values.len() - 1 {
        lemma_greatest(values.drop_last(), k);
    }
}

/// The greatest of values that fit in four bytes fits in four bytes.
pub proof fn lemma_greatest_fits(values: Seq<nat>)
    requires
        all_fit(4, values),
    ensures
        greatest(values) < pow256(4),
    decreases values.len(),
{
    lemma_pow256_values();
    if values.len() > 0 {
        assert(all_fit(4, values.drop_last())) by {
            let before = values.drop_last();
            assert forall|i: int| 0 <= i < before.len() implies #[trigger] before[i] < pow256(
                4,
            ) by {
                assert(before[i] == values[i]);
            }
        }
        lemma_greatest_fits(values.drop_last());
        assert(values.last() == values[values.len() - 1]);
    }
}

/// The tier of a group holds every value of the group, and a scalar reader
/// takes a lane of it for what it is.
pub proof fn lemma_group_tier(group: Seq<nat>, k: int, behind: Seq<u8>)
    requires
        all_fit(4, group),
        0 <= k < group.len(),
    ensures
        ({
            let t = group_tier(greatest(group));
            &&& is_group_tier(t)
            &&& group[k] < capacity(t)
            &&& t.len == 1 + t.payload
            &&& tier_bytes(t, group[k]).len() == t.len
            &&& decoded(4, tier_bytes(t, group[k]) + behind) == (group[k], t.len)
            &&& group_read_tier(tier_bytes(t, group[k])[0]) == t
        }),
{
    let t = group_tier(greatest(group));
    let value = group[k];
    lemma_pow256_values();
    lemma_greatest(group, k);
    lemma_greatest_fits(group);
    lemma_radix(pow256(t.payload), t.radix);
    lemma_radix(value, t.radix);
    lemma_radix(t.tag, t.radix);
    assert(tier_5().radix == 1 && tier_5().payload == 4 && tier_5().len == 5 && tier_5().tag
        == 0xF3);
    assert(value < capacity(t));
    lemma_le_bytes_len(value / t.radix, t.payload);
    lemma_tier_round_trip(t, value, behind);
    lemma_overlong_decodes(4, t.tag as u8, value, behind);
}

/// A scan one by one over lanes finds their values and goes on behind them.
pub proof fn lemma_padded_scan_lanes(
    bytes: Seq<u8>,
    at: nat,
    group: Seq<nat>,
    from: int,
    count: nat,
)
    requires
        all_fit(4, group),
        0 <= from <= group.len(),
        count >= group.len() - from,
        at + lanes(group_tier(greatest(group)), group.skip(from)).len() <= bytes.len(),
        bytes.subrange(
            at as int,
            (at + lanes(group_tier(greatest(group)), group.skip(from)).len()) as int,
        ) == lanes(group_tier(greatest(group)), group.skip(from)),
    ensures
        ({
            let width = lanes(group_tier(greatest(group)), group.skip(from)).len();
            let behind = padded_scan(bytes, at + width, (count - (group.len() - from)) as nat);
            &&& padded_scan(bytes, at, count).values == group.skip(from) + behind.values
            &&& padded_scan(bytes, at, count).end == behind.end
        }),
    decreases group.len() - from,
{
    let t = group_tier(greatest(group));
    let left = group.skip(from);
    if from == group.len() {
        assert(left + padded_scan(bytes, at, count).values =~= padded_scan(
            bytes,
            at,
            count,
        ).values);
    } else {
        let value = group[from];
        let later = group.skip(from + 1);
        lemma_lanes_first(t, left);
        assert(left.drop_first() =~= later);
        assert(left[0] == value);
        let behind = bytes.skip((at + t.len) as int) + zeros(4);
        lemma_group_tier(group, from, behind);
        let lane = tier_bytes(t, value);
        lemma_split(bytes, at as int, lane, lanes(t, later));
        assert(bytes.skip(at as int) + zeros(4) =~= lane + behind);
        lemma_padded_scan_lanes(bytes, at + t.len, group, from + 1, (count - 1) as nat);
        let last = padded_scan(
            bytes,
            at + lanes(t, left).len(),
            (count - (group.len() - from)) as nat,
        );
        assert(seq![value] + (later + last.values) =~= left + last.values);
    }
}

/// A scan one by one over a stream of encodings finds their values and goes
/// on behind them.
pub proof fn lemma_padded_scan_stream(bytes: Seq<u8>, at: nat, values: Seq<nat>, count: nat)
    requires
        all_fit(4, values),
        count >= values.len(),
        at + stream(4, values).len() <= bytes.len(),
        bytes.subrange(at as int, (at + stream(4, values).len()) as int) == stream(4, values),
    ensures
        ({
            let behind = padded_scan(
                bytes,
                at + stream(4, values).len(),
                (count - values.len()) as nat,
            );
            &&& padded_scan(bytes, at, count).values == values + behind.values
            &&& padded_scan(bytes, at, count).end == behind.end
        }),
    decreases values.len(),
{
    if values.len() == 0 {
        assert(values + padded_scan(bytes, at, count).values =~= padded_scan(
            bytes,
            at,
            count,
        ).values);
    } else {
        let value = values[0];
        let rest = values.drop_first();
        lemma_stream_first(4, values);
        assert(rest =~= values.skip(1));
        lemma_fit_parts(values, 1);
        lemma_canonical_tier(4, value);
        let t = canonical_tier(4, value);
        lemma_radix(value, t.radix);
        lemma_le_bytes_len(value / t.radix, t.payload);
        let first = encoding(4, value);
        let behind = bytes.skip((at + first.len()) as int) + zeros(4);
        lemma_tier_round_trip(t, value, behind);
        lemma_split(bytes, at as int, first, stream(4, rest));
        assert(bytes.skip(at as int) + zeros(4) =~= first + behind);
        lemma_padded_scan_stream(bytes, at + first.len(), rest, (count - 1) as nat);
        let last = padded_scan(
            bytes,
            at + stream(4, values).len(),
            (count - values.len()) as nat,
        );
        assert(seq![value] + (rest + last.values) =~= values + last.values);
    }
}

/// Where a stretch of a buffer holds full groups and then more bytes, the
/// first group stands at its start, in the tier of its greatest value, and
/// the other groups and the other bytes behind it.
pub proof fn lemma_first_group(bytes: Seq<u8>, at: nat, values: Seq<nat>, more: Seq<u8>)
    requires
        all_fit(4, values),
        values.len() % 4 == 0,
        values.len() >= 4,
        at + lane_groups(values).len() + more.len() <= bytes.len(),
        bytes.subrange(at as int, (at + lane_groups(values).len() + more.len()) as int)
            == lane_groups(values) + more,
    ensures
        ({
            let group = values.take(4);
            let later = values.skip(4);
            let t = group_tier(greatest(group));
            let first = lanes(t, group);
            &&& all_fit(4, group)
            &&& all_fit(4, later)
            &&& is_group_tier(t)
            &&& first.len() == 4 * t.len
            &&& lane_groups(values).len() == first.len() + lane_groups(later).len()
            &&& bytes.subrange(at as int, (at + first.len()) as int) == first
            &&& bytes.subrange(
                (at + first.len()) as int,
                (at + first.len() + lane_groups(later).len() + more.len()) as int,
            ) == lane_groups(later) + more
        }),
{
    let group = values.take(4);
    let later = values.skip(4);
    let t = group_tier(greatest(group));
    let first = lanes(t, group);
    lemma_lane_groups_first(values);
    lemma_fit_parts(values, 4);
    lemma_lanes_len(t, group);
    assert(first.len() == 4 * t.len) by (nonlinear_arith)
        requires
            first.len() == group.len() * t.len,
            group.len() == 4,
    ;
    let behind = lane_groups(later) + more;
    assert(lane_groups(values) + more =~= first + behind);
    lemma_split(bytes, at as int, first, behind);
}

/// A scan one by one over full groups finds their values and goes on behind
/// them.
pub proof fn lemma_padded_scan_groups(bytes: Seq<u8>, at: nat, values: Seq<nat>, count: nat)
    requires
        all_fit(4, values),
        values.len() % 4 == 0,
        count >= values.len(),
        at + lane_groups(values).len() <= bytes.len(),
        bytes.subrange(at as int, (at + lane_groups(values).len()) as int) == lane_groups(values),
    ensures
        ({
            let behind = padded_scan(
                bytes,
                at + lane_groups(values).len(),
                (count - values.len()) as nat,
            );
            &&& padded_scan(bytes, at, count).values == values + behind.values
            &&& padded_scan(bytes, at, count).end == behind.end
        }),
    decreases values.len(),
{
    if values.len() < 4 {
        assert(values + padded_scan(bytes, at, count).values =~= padded_scan(
            bytes,
            at,
            count,
        ).values);
    } else {
        let group = values.take(4);
        let rest = values.skip(4);
        let first = lanes(group_tier(greatest(group)), group);
        assert(lane_groups(values) + Seq::<u8>::empty() =~= lane_groups(values));
        lemma_first_group(bytes, at, values, Seq::empty());
        assert(lane_groups(rest) + Seq::<u8>::empty() =~= lane_groups(rest));
        assert(group.skip(0) =~= group);
        lemma_padded_scan_lanes(bytes, at, group, 0, count);
        lemma_padded_scan_groups(bytes, at + first.len(), rest, (count - 4) as nat);
        let last = padded_scan(
            bytes,
            at + lane_groups(values).len(),
            (count - values.len()) as nat,
        );
        assert(group + (rest + last.values) =~= values + last.values);
    }
}

/// The parts of a run of values that fit in four bytes fit in four bytes.
pub proof fn lemma_fit_parts(values: Seq<nat>, at: int)
    requires
        all_fit(4, values),
        0 <= at <= values.len(),
    ensures
        all_fit(4, values.take(at)),
        all_fit(4, values.skip(at)),
{
    assert forall|i: int| 0 <= i < values.take(at).len() implies #[trigger] values.take(at)[i]
        < pow256(4) by {
        assert(values.take(at)[i] == values[i]);
    }
    assert forall|i: int| 0 <= i < values.skip(at).len() implies #[trigger] values.skip(at)[i]
        < pow256(4) by {
        assert(values.skip(at)[i] == values[at + i]);
    }
}

/// The generic backend reads back a stream of encodings: where the buffer
/// holds, from `at` on, the encodings of `values`, a scan for as many values
/// finds them and ends behind them.
pub proof fn lemma_generic_round_trip(bytes: Seq<u8>, at: nat, values: Seq<nat>)
    requires
        all_fit(4, values),
        at + stream(4, values).len() <= bytes.len(),
        bytes.subrange(at as int, (at + stream(4, values).len()) as int) == stream(4, values),
    ensures
        padded_scan(bytes, at, values.len()) == (Scan {
            values,
            end: at + stream(4, values).len(),
            complete: true,
        }),
        stream(4, values).len() == stream_length(4, values),
{
    lemma_stream_length(4, values);
    lemma_padded_scan_stream(bytes, at, values, values.len());
    let found = padded_scan(bytes, at, values.len());
    assert(found.values =~= values);
}

/// The generic backend reads what a vector backend has stored: full groups,
/// then the encodings of the values left over.
pub proof fn lemma_generic_reads_lanes(bytes: Seq<u8>, at: nat, groups: Seq<nat>, rest: Seq<nat>)
    requires
        all_fit(4, groups),
        all_fit(4, rest),
        groups.len() % 4 == 0,
        at + lane_groups(groups).len() + stream(4, rest).len() <= bytes.len(),
        bytes.subrange(at as int, (at + lane_groups(groups).len() + stream(4, rest).len()) as int)
            == lane_groups(groups) + stream(4, rest),
    ensures
        padded_scan(bytes, at, groups.len() + rest.len()) == (Scan {
            values: groups + rest,
            end: at + lane_groups(groups).len() + stream(4, rest).len(),
            complete: true,
        }),
{
    let head = lane_groups(groups).len();
    lemma_split(bytes, at as int, lane_groups(groups), stream(4, rest));
    lemma_padded_scan_groups(bytes, at, groups, groups.len() + rest.len());
    lemma_padded_scan_stream(bytes, at + head, rest, rest.len());
    let found = padded_scan(bytes, at, groups.len() + rest.len());
    assert(found.values =~= groups + rest);
}

/// A vector backend reads back what it has stored: where the buffer holds,
/// from `at` on, full groups and then the encodings of fewer than four
/// values, a scan for as many values finds them and ends behind them,
/// whatever follows in the buffer.
pub proof fn lemma_lane_round_trip(bytes: Seq<u8>, at: nat, groups: Seq<nat>, rest: Seq<nat>)
    requires
        all_fit(4, groups),
        all_fit(4, rest),
        groups.len() % 4 == 0,
        rest.len() < 4,
        at + lane_groups(groups).len() + stream(4, rest).len() <= bytes.len(),
        bytes.subrange(
            at as int,
            (at + lane_groups(groups).len() + stream(4, rest).len()) as int,
        ) == lane_groups(groups) + stream(4, rest),
    ensures
        lane_scan(bytes, at, groups.len() + rest.len()) == (Scan {
            values: groups + rest,
            end: at + lane_groups(groups).len() + stream(4, rest).len(),
            complete: true,
        }),
    decreases groups.len(),
{
    let count = groups.len() + rest.len();
    if count >= 4 && at + 20 <= bytes.len() {
        let group = groups.take(4);
        let later = groups.skip(4);
        let first = lanes(group_tier(greatest(group)), group);
        lemma_first_group(bytes, at, groups, stream(4, rest));
        lemma_group_read(bytes, at, group);
        lemma_lane_round_trip(bytes, at + first.len(), later, rest);
        assert(group + (later + rest) =~= groups + rest);
    } else {
        lemma_generic_reads_lanes(bytes, at, groups, rest);
    }
}

/// A group that was stored in the tier of its greatest value is read as the
/// group it is.
pub proof fn lemma_group_read(bytes: Seq<u8>, at: nat, group: Seq<nat>)
    requires
        all_fit(4, group),
        group.len() == 4,
        at + 4 * group_tier(greatest(group)).len <= bytes.len(),
        bytes.subrange(at as int, (at + 4 * group_tier(greatest(group)).len) as int) == lanes(
            group_tier(greatest(group)),
            group,
        ),
    ensures
        group_read_tier(bytes[at as int]) == group_tier(greatest(group)),
        group_values(group_tier(greatest(group)), bytes.skip(at as int)) == group,
{
    let t = group_tier(greatest(group));
    lemma_group_tier(group, 0, Seq::empty());
    lemma_lanes_len(t, group);
    lemma_lanes_first(t, group);
    assert(bytes[at as int] == bytes.subrange(at as int, (at + 4 * t.len) as int)[0]);
    assert(lanes(t, group)[0] == tier_bytes(t, group[0])[0]);
    let read = group_values(t, bytes.skip(at as int));
    assert forall|j: int| 0 <= j < 4 implies read[j] == group[j] by {
        lemma_lane_in_group(bytes, at, group, j);
    }
    assert(read =~= group);
}

/// Lane `j` of a stored group holds value `j` of the group.
pub proof fn lemma_lane_in_group(bytes: Seq<u8>, at: nat, group: Seq<nat>, j: int)
    requires
        all_fit(4, group),
        group.len() == 4,
        0 <= j < 4,
        at + 4 * group_tier(greatest(group)).len <= bytes.len(),
        bytes.subrange(at as int, (at + 4 * group_tier(greatest(group)).len) as int) == lanes(
            group_tier(greatest(group)),
            group,
        ),
    ensures
        lane_value(group_tier(greatest(group)), bytes.skip(at as int), j as nat) == group[j],
{
    let t = group_tier(greatest(group));
    lemma_group_tier(group, j, Seq::empty());
    assert(j * t.len + t.len <= 4 * t.len) by (nonlinear_arith)
        requires
            0 <= j < 4,
            t.len >= 0,
    ;
    assert(j * t.len >= 0 && (j as nat) * t.len == j * t.len) by (nonlinear_arith)
        requires
            0 <= j,
            t.len >= 0,
    ;
    let lane = bytes.skip(at as int).skip((j as nat * t.len) as int);
    let behind = lane.skip(t.len as int);
    lemma_lane_within(t, group, j);
    assert(lane.take(t.len as int) =~= tier_bytes(t, group[j])) by {
        let group_bytes = bytes.subrange(at as int, (at + 4 * t.len) as int);
        assert(lane.take(t.len as int) =~= group_bytes.subrange(
            (j * t.len) as int,
            (j * t.len + t.len) as int,
        ));
    }
    assert(lane =~= tier_bytes(t, group[j]) + behind);
    lemma_tier_round_trip(t, group[j], behind);
    lemma_radix(pow256(t.payload), t.radix);
}

/// Where lane `j` lies in the bytes of a group.
pub proof fn lemma_lane_within(t: Tier, group: Seq<nat>, j: int)
    requires
        is_group_tier(t),
        0 <= j < group.len(),
    ensures
        lanes(t, group).len() == group.len() * t.len,
        0 <= j * t.len,
        j * t.len + t.len <= group.len() * t.len,
        lanes(t, group).subrange((j * t.len) as int, (j * t.len + t.len) as int) == tier_bytes(
            t,
            group[j],
        ),
    decreases group.len(),
{
    lemma_lanes_len(t, group);
    let before = group.drop_last();
    lemma_lanes_len(t, before);
    lemma_radix(group.last(), t.radix);
    lemma_le_bytes_len(group.last() / t.radix, t.payload);
    assert(tier_5().len == 5 && tier_5().payload == 4);
    assert(tier_bytes(t, group.last()).len() == t.len);
    assert(group.len() * t.len == before.len() * t.len + t.len) by (nonlinear_arith)
        requires
            group.len() == before.len() + 1,
    ;
    assert(0 <= j * t.len && j * t.len + t.len <= group.len() * t.len) by (nonlinear_arith)
        requires
            0 <= j < group.len(),
            t.len >= 0,
    ;
    if j == group.len() - 1 {
        assert(j * t.len == before.len() * t.len) by (nonlinear_arith)
            requires
                j == before.len(),
        ;
        assert(lanes(t, group).subrange((j * t.len) as int, (j * t.len + t.len) as int)
            =~= tier_bytes(
            t,
            group[j],
        ));
    } else {
        lemma_lane_within(t, before, j);
        assert(j * t.len + t.len <= before.len() * t.len) by (nonlinear_arith)
            requires
                0 <= j < before.len(),
                t.len >= 0,
        ;
        assert(lanes(t, group).subrange((j * t.len) as int, (j * t.len + t.len) as int) =~= lanes(
            t,
            before,
        ).subrange((j * t.len) as int, (j * t.len + t.len) as int));
    }
}

/// Five bytes for each value are room enough for a vector backend.
pub proof fn lemma_lane_room(values: Seq<nat>)
    requires
        all_fit(4, values),
    ensures
        lane_room(values) <= values.len() * 5,
{
    let full = grouped(values.len()) as int;
    let groups = values.take(full);
    let rest = values.skip(full);
    lemma_fit_parts(values, full);
    lemma_lane_groups_len(groups, 0);
    assert(lane_groups(groups).len() <= 5 * full);
    if rest.len() > 0 {
        lemma_stream_room(4, rest, 0);
        assert(max_size(4) == 5);
        assert(stream_room(4, rest) <= rest.len() * 5);
    }
}

/// What a vector backend has stored is full groups and then the encodings of
/// the values left over, in a buffer as long as before.
pub proof fn lemma_lane_stored(buf: Seq<u8>, values: Seq<nat>)
    requires
        all_fit(4, values),
        buf.len() >= lane_room(values),
    ensures
        ({
            let full = grouped(values.len()) as int;
            let written = lane_groups(values.take(full)) + stream(4, values.skip(full));
            &&& lane_stored(buf, values).len() == buf.len()
            &&& written.len() == lane_stored_length(values)
            &&& lane_stored_length(values) <= buf.len()
            &&& lane_stored(buf, values).take(lane_stored_length(values) as int) == written
        }),
{
    let full = grouped(values.len()) as int;
    let groups = lane_groups(values.take(full));
    let rest = values.skip(full);
    let with_groups = overwritten(buf, 0, groups);
    let base = with_groups.skip(groups.len() as int);
    lemma_fit_parts(values, full);
    lemma_stream_length(4, rest);
    lemma_stream_fit_room(base.len(), 4, rest);
    lemma_stream_stored(base, 4, rest);
    let behind = stream_stored(base, 4, rest);
    assert(with_groups.take(groups.len() as int) =~= groups);
    assert(lane_stored(buf, values).take(lane_stored_length(values) as int) =~= groups
        + behind.take(stream_length(4, rest) as int));
}

/// Round trip of a vector backend: a scan of the buffer that the backend has
/// stored values in, for as many values, finds them and ends where the
/// backend's count of bytes says; so does a scan of the buffer cut off there.
pub proof fn lemma_lane_stored_round_trip(buf: Seq<u8>, values: Seq<nat>)
    requires
        all_fit(4, values),
        buf.len() >= lane_room(values),
    ensures
        lane_scan(lane_stored(buf, values), 0, values.len()) == (Scan {
            values,
            end: lane_stored_length(values),
            complete: true,
        }),
        lane_scan(
            lane_stored(buf, values).take(lane_stored_length(values) as int),
            0,
            values.len(),
        ) == (Scan { values, end: lane_stored_length(values), complete: true }),
{
    let full = grouped(values.len()) as int;
    let groups = values.take(full);
    let rest = values.skip(full);
    let whole = lane_stored(buf, values);
    let len = lane_stored_length(values);
    let cut = whole.take(len as int);
    lemma_lane_stored(buf, values);
    lemma_fit_parts(values, full);
    lemma_stream_length(4, rest);
    assert(groups + rest =~= values);
    assert(whole.subrange(0, len as int) =~= whole.take(len as int));
    assert(cut.subrange(0, len as int) =~= whole.take(len as int));
    lemma_lane_round_trip(whole, 0, groups, rest);
    lemma_lane_round_trip(cut, 0, groups, rest);
}

/// Round trip of the generic backend, in the same words.
pub proof fn lemma_stream_stored_round_trip(buf: Seq<u8>, values: Seq<nat>)
    requires
        all_fit(4, values),
        buf.len() >= stream_room(4, values),
    ensures
        padded_scan(stream_stored(buf, 4, values), 0, values.len()) == (Scan {
            values,
            end: stream_length(4, values),
            complete: true,
        }),
        padded_scan(
            stream_stored(buf, 4, values).take(stream_length(4, values) as int),
            0,
            values.len(),
        ) == (Scan { values, end: stream_length(4, values), complete: true }),
{
    let whole = stream_stored(buf, 4, values);
    let len = stream_length(4, values);
    let cut = whole.take(len as int);
    lemma_stream_fit_room(buf.len(), 4, values);
    lemma_stream_stored(buf, 4, values);
    lemma_stream_length(4, values);
    assert(whole.subrange(0, len as int) =~= whole.take(len as int));
    assert(cut.subrange(0, len as int) =~= whole.take(len as int));
    lemma_generic_round_trip(whole, 0, values);
    lemma_generic_round_trip(cut, 0, values);
}

/// The generic backend reads what a vector backend has stored, the buffer cut
/// off behind it or not.
pub proof fn lemma_generic_reads_lane_stored(buf: Seq<u8>, values: Seq<nat>)
    requires
        all_fit(4, values),
        buf.len() >= lane_room(values),
    ensures
        padded_scan(lane_stored(buf, values), 0, values.len()) == (Scan {
            values,
            end: lane_stored_length(values),
            complete: true,
        }),
        padded_scan(
            lane_stored(buf, values).take(lane_stored_length(values) as int),
            0,
            values.len(),
        ) == (Scan { values, end: lane_stored_length(values), complete: true }),
{
    let full = grouped(values.len()) as int;
    let groups = values.take(full);
    let rest = values.skip(full);
    let whole = lane_stored(buf, values);
    let len = lane_stored_length(values);
    let cut = whole.take(len as int);
    lemma_lane_stored(buf, values);
    lemma_fit_parts(values, full);
    lemma_stream_length(4, rest);
    assert(groups + rest =~= values);
    assert(whole.subrange(0, len as int) =~= whole.take(len as int));
    assert(cut.subrange(0, len as int) =~= whole.take(len as int));
    lemma_generic_reads_lanes(whole, 0, groups, rest);
    lemma_generic_reads_lanes(cut, 0, groups, rest);
}

} // verus!
