//! The backend for targets without vector instructions.

use crate::encode::wire_values;
use crate::format::{stream_length, stream_room, stream_stored, Scan};
use crate::lemmas::lemma_stream_room;
use crate::simd::laws::lemma_stream_stored_round_trip;
use crate::simd::{handle_remaining_decode, handle_remaining_encode, padded_scan, SimdImpl};
use vstd::prelude::*;

verus! {

/// The generic backend: every value is coded by itself, in its own tier.
pub struct GenericSimd;

impl SimdImpl for GenericSimd {
    open spec fn stored(buf: Seq<u8>, values: Seq<nat>) -> Seq<u8> {
        stream_stored(buf, 4, values)
    }

    open spec fn stored_length(values: Seq<nat>) -> nat {
        stream_length(4, values)
    }

    open spec fn scanned(bytes: Seq<u8>, count: nat) -> Scan {
        padded_scan(bytes, 0, count)
    }

    open spec fn room(values: Seq<nat>) -> nat {
        stream_room(4, values)
    }

    proof fn lemma_room(values: Seq<nat>) {
        if values.len() > 0 {
            lemma_stream_room(4, values, 0);
        }
    }

    proof fn lemma_round_trip(buf: Seq<u8>, values: Seq<nat>) {
        lemma_stream_stored_round_trip(buf, values);
    }

    fn bulk_encode_u32(buf: &mut [u8], values: &[u32]) -> (len: usize) {
        proof {
            assert(values@.skip(0) =~= values@);
            assert(old(buf)@.skip(0) =~= old(buf)@);
        }
        let end = handle_remaining_encode(buf, values, 0, 0);
        proof {
            assert(buf@ =~= stream_stored(old(buf)@, 4, wire_values::<u32>(values@)));
        }
        end
    }

    fn bulk_decode_u32(buf: &[u8], values: &mut [u32]) -> (len: usize) {
        handle_remaining_decode(buf, values, 0, 0)
    }
}

} // verus!
