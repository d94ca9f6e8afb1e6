//! The vector backend for AArch64 targets.

use crate::encode::wire_values;
use crate::format::Scan;
use crate::simd::laws::{lemma_lane_room, lemma_lane_stored_round_trip};
use crate::simd::{
    decode_groups, encode_groups, grouped, handle_remaining_decode, handle_remaining_encode,
    lane_room, lane_scan, lane_stored, lane_stored_length, SimdImpl,
};
use vstd::prelude::*;

verus! {

/// The backend for AArch64 targets: groups of four in one tier, the rest one by one.
#[allow(non_camel_case_types)]
pub struct Aarch64Simd;

impl SimdImpl for Aarch64Simd {
    open spec fn stored(buf: Seq<u8>, values: Seq<nat>) -> Seq<u8> {
        lane_stored(buf, values)
    }

    open spec fn stored_length(values: Seq<nat>) -> nat {
        lane_stored_length(values)
    }

    open spec fn scanned(bytes: Seq<u8>, count: nat) -> Scan {
        lane_scan(bytes, 0, count)
    }

    open spec fn room(values: Seq<nat>) -> nat {
        lane_room(values)
    }

    proof fn lemma_room(values: Seq<nat>) {
        lemma_lane_room(values);
    }

    proof fn lemma_round_trip(buf: Seq<u8>, values: Seq<nat>) {
        lemma_lane_stored_round_trip(buf, values);
    }

    fn bulk_encode_u32(buf: &mut [u8], values: &[u32]) -> (len: usize) {
        proof {
            assert(wire_values::<u32>(values@).skip(grouped(values@.len()) as int)
                =~= wire_values::<u32>(values@.skip(grouped(values@.len()) as int)));
        }
        let (offset, i) = encode_groups(buf, values);
        proof {
            assert(wire_values::<u32>(values@).skip(i as int) =~= wire_values::<u32>(
                values@.skip(i as int),
            ));
        }
        handle_remaining_encode(buf, values, offset, i)
    }

    fn bulk_decode_u32(buf: &[u8], values: &mut [u32]) -> (len: usize) {
        let (offset, i) = decode_groups(buf, values);
        let ghost grouped = values@;
        let end = handle_remaining_decode(buf, values, offset, i);
        proof {
            let found = lane_scan(buf@, 0, old(values)@.len());
            assert(values@.take(i as int) =~= grouped.take(i as int));
            assert forall|k: int| 0 <= k < found.values.len() implies values@[k] as nat
                == found.values[k] by {
                if k < i {
                    assert(wire_values::<u32>(grouped.take(i as int))[k] == grouped[k] as nat);
                }
            }
        }
        end
    }
}

} // verus!
