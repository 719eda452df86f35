//! Byte-buffer helpers shared by the sender, the receiver and the
//! heartbeat codec: reading and writing little-endian integers at an
//! offset of a `Vec<u8>`, copying and zeroing ranges, and testing a range
//! for all-zero content.

use vstd::prelude::*;
use vstd::bytes::{spec_u32_from_le_bytes, spec_u32_to_le_bytes, spec_u64_from_le_bytes,
    spec_u64_to_le_bytes, u32_from_le_bytes, u32_to_le_bytes, u64_from_le_bytes, u64_to_le_bytes};
use vstd::slice::slice_subrange;
use vstd::std_specs::vec::vec_index_mut;

verus! {

/// Every byte of the sequence is zero.
pub open spec fn all_zero(s: Seq<u8>) -> bool {
    forall|i: int| 0 <= i < s.len() ==> s[i] == 0
}

/// Reads the little-endian `u32` stored at `offset`.
pub fn read_u32_at(b: &Vec<u8>, offset: usize) -> (r: u32)
    requires
        offset + 4 <= b.len(),
    ensures
        r == spec_u32_from_le_bytes(b@.subrange(offset as int, offset + 4)),
{
    u32_from_le_bytes(slice_subrange(b.as_slice(), offset, offset + 4))
}

/// Reads the little-endian `u64` stored at `offset`.
pub fn read_u64_at(b: &Vec<u8>, offset: usize) -> (r: u64)
    requires
        offset + 8 <= b.len(),
    ensures
        r == spec_u64_from_le_bytes(b@.subrange(offset as int, offset + 8)),
{
    u64_from_le_bytes(slice_subrange(b.as_slice(), offset, offset + 8))
}

/// Overwrites `b[offset..offset + src.len()]` with `src`.
pub fn write_bytes_at(b: &mut Vec<u8>, offset: usize, src: &Vec<u8>)
    requires
        offset + src.len() <= old(b).len(),
    ensures
        final(b)@.len() == old(b)@.len(),
        final(b)@.subrange(offset as int, offset + src@.len()) == src@,
        forall|i: int|
            0 <= i < old(b)@.len() && !(offset <= i < offset + src@.len())
                ==> final(b)@[i] == old(b)@[i],
{
    let n = src.len();
    let mut i: usize = 0;
    while i < n
        invariant
            n == src@.len(),
            offset + n <= old(b)@.len(),
            0 <= i <= n,
            b.len() == old(b).len(),
            forall|k: int| 0 <= k < i ==> b@[offset + k] == src@[k],
            forall|k: int|
                0 <= k < old(b)@.len() && !(offset <= k < offset + i) ==> b@[k] == old(b)@[k],
        decreases n - i,
    {
        *vec_index_mut(b, offset + i) = src[i];
        i = i + 1;
    }
    assert(b@.subrange(offset as int, offset + src@.len()) =~= src@);
}

/// Writes `v` at `offset` as four little-endian bytes.
pub fn write_u32_at(b: &mut Vec<u8>, offset: usize, v: u32)
    requires
        offset + 4 <= old(b).len(),
    ensures
        final(b)@.len() == old(b)@.len(),
        final(b)@.subrange(offset as int, offset + 4) == spec_u32_to_le_bytes(v),
        forall|i: int|
            0 <= i < old(b)@.len() && !(offset <= i < offset + 4) ==> final(b)@[i] == old(b)@[i],
{
    let bytes = u32_to_le_bytes(v);
    write_bytes_at(b, offset, &bytes);
}

/// Writes `v` at `offset` as eight little-endian bytes.
pub fn write_u64_at(b: &mut Vec<u8>, offset: usize, v: u64)
    requires
        offset + 8 <= old(b).len(),
    ensures
        final(b)@.len() == old(b)@.len(),
        final(b)@.subrange(offset as int, offset + 8) == spec_u64_to_le_bytes(v),
        forall|i: int|
            0 <= i < old(b)@.len() && !(offset <= i < offset + 8) ==> final(b)@[i] == old(b)@[i],
{
    proof {
        vstd::bytes::lemma_auto_spec_u64_to_from_le_bytes();
    }
    let bytes = u64_to_le_bytes(v);
    write_bytes_at(b, offset, &bytes);
}

/// Copies `b[start..end]` out into a fresh vector.
pub fn sub_vec(b: &Vec<u8>, start: usize, end: usize) -> (r: Vec<u8>)
    requires
        start <= end <= b.len(),
    ensures
        r@ == b@.subrange(start as int, end as int),
{
    let mut r: Vec<u8> = Vec::new();
    let mut i: usize = start;
    while i < end
        invariant
            start <= i <= end <= b.len(),
            r@ == b@.subrange(start as int, i as int),
        decreases end - i,
    {
        r.push(b[i]);
        i = i + 1;
        assert(r@ =~= b@.subrange(start as int, i as int));
    }
    r
}

/// Zeroes `b[start..end]`.
pub fn zero_range(b: &mut Vec<u8>, start: usize, end: usize)
    requires
        start <= end <= old(b).len(),
    ensures
        final(b)@.len() == old(b)@.len(),
        all_zero(final(b)@.subrange(start as int, end as int)),
        forall|i: int|
            0 <= i < old(b)@.len() && !(start <= i < end) ==> final(b)@[i] == old(b)@[i],
{
    let mut i: usize = start;
    while i < end
        invariant
            start <= i <= end <= old(b).len(),
            b.len() == old(b).len(),
            forall|k: int| start <= k < i ==> b@[k] == 0,
            forall|k: int| 0 <= k < old(b)@.len() && !(start <= k < i) ==> b@[k] == old(b)@[k],
        decreases end - i,
    {
        *vec_index_mut(b, i) = 0;
        i = i + 1;
    }
}

/// Tests whether every byte of `b[start..end]` is zero.
pub fn range_all_zero(b: &Vec<u8>, start: usize, end: usize) -> (r: bool)
    requires
        start <= end <= b.len(),
    ensures
        r <==> all_zero(b@.subrange(start as int, end as int)),
{
    let mut i: usize = start;
    while i < end
        invariant
            start <= i <= end <= b.len(),
            forall|k: int| start <= k < i ==> b@[k] == 0,
        decreases end - i,
    {
        if b[i] != 0 {
            assert(!all_zero(b@.subrange(start as int, end as int))) by {
                assert(b@.subrange(start as int, end as int)[i - start] != 0);
            }
            return false;
        }
        i = i + 1;
    }
    true
}

} // verus!
