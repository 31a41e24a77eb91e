//! Fixed-width little-endian integer reads and writes, the shared
//! binary primitives of the frame encoder and the value decoder.

use vstd::prelude::*;
use vstd::bytes::{
    lemma_auto_spec_u32_to_from_le_bytes, lemma_auto_spec_u64_to_from_le_bytes,
    spec_u32_from_le_bytes, spec_u32_to_le_bytes, spec_u64_from_le_bytes, spec_u64_to_le_bytes,
    u32_from_le_bytes, u32_to_le_bytes, u64_from_le_bytes, u64_to_le_bytes,
};
use vstd::slice::slice_subrange;

verus! {

/// The signed 32-bit value whose two's-complement bits equal `x`.
pub open spec fn i32_of_bits(x: u32) -> i32 {
    x as i32
}

/// The two's-complement bits of the signed 32-bit value `x`.
pub open spec fn bits_of_i32(x: i32) -> u32 {
    x as u32
}

/// The signed 64-bit value whose two's-complement bits equal `x`.
pub open spec fn i64_of_bits(x: u64) -> i64 {
    x as i64
}

/// The two's-complement bits of the signed 64-bit value `x`.
pub open spec fn bits_of_i64(x: i64) -> u64 {
    x as u64
}

/// A signed 32-bit value survives the round trip through its bits.
pub proof fn lemma_i32_bits_round_trip(x: i32)
    ensures
        i32_of_bits(bits_of_i32(x)) == x,
{
    assert(((x as u32) as i32) == x) by (bit_vector);
}

/// A signed 64-bit value survives the round trip through its bits.
pub proof fn lemma_i64_bits_round_trip(x: i64)
    ensures
        i64_of_bits(bits_of_i64(x)) == x,
{
    assert(((x as u64) as i64) == x) by (bit_vector);
}

/// Reads the little-endian `u32` stored at `data[off .. off + 4]`.
pub fn read_u32_le(data: &Vec<u8>, off: usize) -> (x: u32)
    requires
        off + 4 <= data@.len(),
    ensures
        x == spec_u32_from_le_bytes(data@.subrange(off as int, off as int + 4)),
{
    proof {
        broadcast use vstd::std_specs::vec::axiom_spec_len;
        assert(data.len() == data@.len());
    }
    u32_from_le_bytes(slice_subrange(data.as_slice(), off, off + 4))
}

/// Reads the little-endian `u64` stored at `data[off .. off + 8]`.
pub fn read_u64_le(data: &Vec<u8>, off: usize) -> (x: u64)
    requires
        off + 8 <= data@.len(),
    ensures
        x == spec_u64_from_le_bytes(data@.subrange(off as int, off as int + 8)),
{
    proof {
        broadcast use vstd::std_specs::vec::axiom_spec_len;
        assert(data.len() == data@.len());
    }
    u64_from_le_bytes(slice_subrange(data.as_slice(), off, off + 8))
}

/// Appends the four little-endian bytes of `x` to `out`.
pub fn push_u32_le(out: &mut Vec<u8>, x: u32)
    ensures
        final(out)@ == old(out)@ + spec_u32_to_le_bytes(x),
{
    let mut b = u32_to_le_bytes(x);
    out.append(&mut b);
}

/// Appends the eight little-endian bytes of `x` to `out`.
pub fn push_u64_le(out: &mut Vec<u8>, x: u64)
    ensures
        final(out)@ == old(out)@ + spec_u64_to_le_bytes(x),
{
    let mut b = u64_to_le_bytes(x);
    out.append(&mut b);
}

/// Every little-endian image of a `u32` has four bytes, and reading it
/// back yields the value written.
pub proof fn lemma_u32_le_round_trip(x: u32)
    ensures
        spec_u32_to_le_bytes(x).len() == 4,
        spec_u32_from_le_bytes(spec_u32_to_le_bytes(x)) == x,
{
    lemma_auto_spec_u32_to_from_le_bytes();
    assert(spec_u32_to_le_bytes(x).len() == 4);
}

/// Every little-endian image of a `u64` has eight bytes, and reading it
/// back yields the value written.
pub proof fn lemma_u64_le_round_trip(x: u64)
    ensures
        spec_u64_to_le_bytes(x).len() == 8,
        spec_u64_from_le_bytes(spec_u64_to_le_bytes(x)) == x,
{
    lemma_auto_spec_u64_to_from_le_bytes();
    assert(spec_u64_to_le_bytes(x).len() == 8);
}

} // verus!
