//! Bounds-checked access to byte buffers: copying, and reading and writing
//! little-endian numbers of any length at an offset.

use crate::format::{byte_swapped, le_bytes, le_value, overwritten, pow256, significant_bytes};
use crate::lemmas::{
    lemma_le_bytes_index, lemma_le_bytes_len, lemma_le_value_bound, lemma_pow256_increases,
    lemma_pow256_values,
};
use vstd::arithmetic::div_mod::lemma_div_denominator;
use vstd::prelude::*;

verus! {

/// Copies the first `len` bytes of `src` into `dst`, starting at `dst_offset`.
pub fn const_copy_slice(src: &[u8], dst: &mut [u8], dst_offset: usize, len: usize)
    requires
        len <= src@.len(),
        dst_offset + len <= old(dst)@.len(),
    ensures
        final(dst)@ == overwritten(old(dst)@, dst_offset as int, src@.take(len as int)),
{
    let mut i: usize = 0;
    while i < len
        invariant
            i <= len <= src.len(),
            dst_offset + len <= dst.len(),
            dst@.len() == old(dst)@.len(),
            forall|k: int| 0 <= k < i ==> dst@[dst_offset + k] == src@[k],
            forall|k: int|
                0 <= k < dst@.len() && !(dst_offset <= k < dst_offset + i) ==> dst@[k] == old(
                    dst,
                )@[k],
        decreases len - i,
    {
        dst[dst_offset + i] = src[i];
        i += 1;
    }
    assert(dst@ =~= overwritten(old(dst)@, dst_offset as int, src@.take(len as int)));
}

/// Reads the `N` bytes of `src` that start at `offset`.
pub fn const_read_array<const N: usize>(src: &[u8], offset: usize) -> (arr: [u8; N])
    requires
        offset + N <= src@.len(),
    ensures
        arr@ == src@.subrange(offset as int, offset + N),
{
    let mut arr = [0u8; N];
    let mut i: usize = 0;
    while i < N
        invariant
            i <= N,
            offset + N <= src.len(),
            forall|k: int| 0 <= k < i ==> arr@[k] == src@[offset + k],
        decreases N - i,
    {
        arr[i] = src[offset + i];
        i += 1;
    }
    assert(arr@ =~= src@.subrange(offset as int, offset + N));
    arr
}

/// Reads the little-endian number held in the `count` bytes of `src` that
/// start at `offset`.
pub fn read_le(src: &[u8], offset: usize, count: usize) -> (value: u128)
    requires
        count <= 16,
        offset + count <= src@.len(),
    ensures
        value == le_value(src@.subrange(offset as int, offset + count)),
        value < pow256(count as nat),
{
    let mut value: u128 = 0;
    let mut i: usize = count;
    while i > 0
        invariant
            i <= count <= 16,
            offset + count <= src.len(),
            value == le_value(src@.subrange(offset + i, offset + count)),
            value < pow256((count - i) as nat),
        decreases i,
    {
        i -= 1;
        proof {
            let upper = src@.subrange(offset + i + 1, offset + count);
            let whole = src@.subrange(offset + i, offset + count);
            assert(whole.drop_first() =~= upper);
            lemma_le_value_bound(whole);
            lemma_pow256_values();
            lemma_pow256_increases((count - i - 1) as nat, 15);
            lemma_pow256_increases((count - i) as nat, 16);
        }
        value = value * 256 + src[offset + i] as u128;
    }
    proof {
        assert(src@.subrange(offset + 0, offset + count) == src@.subrange(
            offset as int,
            offset + count,
        ));
    }
    value
}

/// Writes the `count` low-order bytes of `value` into `dst`, least
/// significant first, starting at `offset`.
pub fn write_le(dst: &mut [u8], offset: usize, value: u128, count: usize)
    requires
        offset + count <= old(dst)@.len(),
    ensures
        final(dst)@ == overwritten(old(dst)@, offset as int, le_bytes(value as nat, count as nat)),
{
    let mut rest: u128 = value;
    let mut i: usize = 0;
    assert(pow256(0) == 1);
    while i < count
        invariant
            i <= count,
            offset + count <= dst.len(),
            dst@.len() == old(dst)@.len(),
            rest == (value as nat) / pow256(i as nat),
            forall|k: int|
                0 <= k < i ==> dst@[offset + k] == le_bytes(value as nat, count as nat)[k],
            forall|k: int|
                0 <= k < dst@.len() && !(offset <= k < offset + i) ==> dst@[k] == old(dst)@[k],
        decreases count - i,
    {
        proof {
            lemma_le_bytes_index(value as nat, count as nat, i as nat);
            lemma_pow256_increases(0, i as nat);
            lemma_div_denominator(value as int, pow256(i as nat) as int, 256);
            assert(pow256(i as nat) * 256 == pow256((i + 1) as nat));
        }
        dst[offset + i] = (rest % 256) as u8;
        rest = rest / 256;
        i += 1;
    }
    proof {
        let bytes = le_bytes(value as nat, count as nat);
        if count > 0 {
            lemma_le_bytes_index(value as nat, count as nat, 0);
        }
        assert(bytes.len() == count);
        assert(dst@ =~= overwritten(old(dst)@, offset as int, bytes));
    }
}

/// Counts the bytes of `value` up to and including its highest non-zero one.
pub fn significant_byte_count(value: u128) -> (count: u8)
    ensures
        count == significant_bytes(value as nat),
        count <= 16,
{
    let mut rest: u128 = value;
    let mut count: u8 = 0;
    proof {
        lemma_pow256_values();
        crate::lemmas::lemma_significant_bytes(value as nat, 16);
    }
    while rest != 0
        invariant
            significant_bytes(value as nat) == count + significant_bytes(rest as nat),
            significant_bytes(value as nat) <= 16,
        decreases rest,
    {
        rest = rest / 256;
        count += 1;
    }
    count
}

/// Reverses the order of the bytes of a `width`-byte value.
pub fn swap_bytes(value: u128, width: usize) -> (swapped: u128)
    requires
        width <= 16,
    ensures
        swapped == byte_swapped(width as nat, value as nat),
        swapped < pow256(width as nat),
{
    let mut bytes = [0u8; 16];
    write_le(&mut bytes, 0, value, width);
    let mut turned = [0u8; 16];
    let mut i: usize = 0;
    proof {
        lemma_le_bytes_len(value as nat, width as nat);
    }
    while i < width
        invariant
            i <= width <= 16,
            bytes@.subrange(0, width as int) == le_bytes(value as nat, width as nat),
            forall|k: int| 0 <= k < i ==> turned@[k] == bytes@[width - 1 - k],
        decreases width - i,
    {
        turned[i] = bytes[width - 1 - i];
        i += 1;
    }
    proof {
        let straight = le_bytes(value as nat, width as nat);
        assert forall|k: int| 0 <= k < width implies turned@.subrange(0, width as int)[k]
            == straight.reverse()[k] by {
            assert(bytes@.subrange(0, width as int)[width - 1 - k] == bytes@[width - 1 - k]);
        }
        assert(turned@.subrange(0, width as int) =~= straight.reverse());
    }
    read_le(&turned, 0, width)
}

} // verus!
