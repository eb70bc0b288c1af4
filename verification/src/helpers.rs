//! Block arithmetic and buffers.

use vstd::prelude::*;

verus! {

/// Number of `chunk_size` blocks needed to hold `file_size` bytes, as the
/// daemon computes it: the rounded-up quotient, truncated to `u32`, and never
/// less than one.
pub open spec fn spec_blocks_count(file_size: u64, chunk_size: usize) -> u32 {
    let q = ((file_size + chunk_size - 1) / (chunk_size as int)) as u32;
    if q < 1 { 1u32 } else { q }
}

/// Rounded-up quotient of `file_size` by `chunk_size`, as a mathematical integer.
pub open spec fn ceil_div(file_size: int, chunk_size: int) -> int {
    (file_size + chunk_size - 1) / chunk_size
}

proof fn lemma_ceil_div_bounds(file_size: int, chunk_size: int)
    requires
        file_size >= 0,
        chunk_size > 0,
    ensures
        ceil_div(file_size, chunk_size) * chunk_size >= file_size,
        ceil_div(file_size, chunk_size) >= 0,
        file_size > 0 ==> (ceil_div(file_size, chunk_size) - 1) * chunk_size < file_size,
        file_size > 0 ==> ceil_div(file_size, chunk_size) >= 1,
{
    let q = (file_size + chunk_size - 1) / chunk_size;
    let r = (file_size + chunk_size - 1) % chunk_size;
    assert(q * chunk_size + r == file_size + chunk_size - 1 && 0 <= r < chunk_size) by (nonlinear_arith)
        requires chunk_size > 0, file_size >= 0, q == (file_size + chunk_size - 1) / chunk_size,
            r == (file_size + chunk_size - 1) % chunk_size;
    assert(q >= 0) by (nonlinear_arith)
        requires chunk_size > 0, file_size >= 0, q == (file_size + chunk_size - 1) / chunk_size;
    assert((q - 1) * chunk_size == q * chunk_size - chunk_size) by (nonlinear_arith);
    assert(file_size > 0 ==> q >= 1) by (nonlinear_arith)
        requires chunk_size > 0, file_size >= 0, q == (file_size + chunk_size - 1) / chunk_size;
}

/// Number of blocks of `chunk_size` bytes that a file of `file_size` bytes
/// occupies; a file of any size, empty ones included, counts at least one.
pub fn blocks_count(file_size: u64, chunk_size: usize) -> (blocks: u32)
    requires
        chunk_size > 0,
        file_size + chunk_size - 1 <= u64::MAX,
    ensures
        blocks == spec_blocks_count(file_size, chunk_size),
        blocks >= 1,
        ceil_div(file_size as int, chunk_size as int) <= u32::MAX ==> {
            &&& blocks as int * chunk_size >= file_size
            &&& file_size > 0 ==> (blocks - 1) * chunk_size < file_size
        },
{
    proof {
        lemma_ceil_div_bounds(file_size as int, chunk_size as int);
    }
    let chunk: u64 = chunk_size as u64;
    let quotient: u64 = (file_size + (chunk - 1)) / chunk;
    let truncated: u32 = #[verifier::truncate] (quotient as u32);
    assert(quotient <= u32::MAX ==> truncated == quotient) by (bit_vector)
        requires truncated == quotient as u32;
    if truncated < 1 {
        1
    } else {
        truncated
    }
}

/// A zero-filled buffer of `chunk_size` bytes.
pub fn create_buffer(chunk_size: usize) -> (buf: Vec<u8>)
    ensures
        buf@ == Seq::new(chunk_size as nat, |i: int| 0u8),
{
    let mut buf: Vec<u8> = Vec::new();
    let mut i: usize = 0;
    while i < chunk_size
        invariant
            i <= chunk_size,
            buf@ == Seq::new(i as nat, |j: int| 0u8),
        decreases chunk_size - i,
    {
        buf.push(0u8);
        i = i + 1;
    }
    buf
}

} // verus!
