//! The wire framing helpers: each frame of the front-end protocol starts
//! with its payload length as a 32-bit little-endian integer.

use vstd::prelude::*;
use vstd::bytes::{
    lemma_auto_spec_u32_to_from_le_bytes, spec_u32_from_le_bytes, spec_u32_to_le_bytes,
    u32_from_le_bytes, u32_to_le_bytes,
};
use vstd::slice::slice_subrange;

verus! {

/// The signed size stored in a frame header.
pub open spec fn le_i32_of(b: Seq<u8>) -> i32 {
    spec_u32_from_le_bytes(b) as i32
}

/// Reads the size from the first four bytes of a frame header.
pub fn get_size(data: &[u8]) -> (r: Option<i32>)
    ensures
        data@.len() >= 4 ==> r == Some(le_i32_of(data@.subrange(0, 4))),
        data@.len() < 4 ==> r is None,
{
    if data.len() >= 4 {
        let sl = slice_subrange(data, 0, 4);
        let n = u32_from_le_bytes(sl);
        Some(n as i32)
    } else {
        None
    }
}

/// Writes a size as a four-byte frame header.
pub fn get_size_array(size: i32) -> (r: Vec<u8>)
    ensures
        r@ == spec_u32_to_le_bytes(size as u32),
        r@.len() == 4,
        le_i32_of(r@) == size,
{
    let out = u32_to_le_bytes(#[verifier::truncate] (size as u32));
    proof {
        lemma_auto_spec_u32_to_from_le_bytes();
        assert(spec_u32_from_le_bytes(spec_u32_to_le_bytes(size as u32)) == size as u32);
        assert(((size as u32) as i32) == size) by (bit_vector);
    }
    out
}

} // verus!
