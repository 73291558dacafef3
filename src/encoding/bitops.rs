//! Zig-zag mapping between signed and unsigned 64-bit integers.
use vstd::prelude::*;

verus! {

/// The zig-zag image of `x`: non-negative values go to even numbers,
/// negative values to odd numbers, so that small magnitudes stay small.
pub open spec fn zig_spec(x: i64) -> u64 {
    if x >= 0 {
        (2 * x) as u64
    } else {
        (-2 * x - 1) as u64
    }
}

/// The inverse of the zig-zag mapping.
pub open spec fn unzig_spec(v: u64) -> i64 {
    if v % 2 == 0 {
        (v / 2) as i64
    } else {
        (-((v / 2) as int) - 1) as i64
    }
}

/// Maps a signed integer to its zig-zag image.
pub fn zig_zag_encode64(x: i64) -> (r: u64)
    ensures
        r == zig_spec(x),
{
    let r = ((x << 1u32) as u64) ^ ((x >> 63u32) as u64);
    assert(r == zig_spec(x)) by (bit_vector)
        requires
            r == ((x << 1u32) as u64) ^ ((x >> 63u32) as u64),
    ;
    r
}

/// Maps a zig-zag image back to the signed integer it stands for.
pub fn zig_zag_decode64(v: u64) -> (r: i64)
    ensures
        r == unzig_spec(v),
{
    let r = ((v >> 1u32) ^ (((((v & 1) as i64) << 63u32) >> 63u32) as u64)) as i64;
    assert(r == unzig_spec(v)) by (bit_vector)
        requires
            r == ((v >> 1u32) ^ (((((v & 1) as i64) << 63u32) >> 63u32) as u64)) as i64,
    ;
    r
}

/// Zig-zag decoding undoes zig-zag encoding, for every signed integer.
pub proof fn lemma_zig_zag_round_trip(x: i64)
    ensures
        unzig_spec(zig_spec(x)) == x,
{
}

} // verus!
