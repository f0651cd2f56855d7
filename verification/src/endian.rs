//! Little-endian encodings for the fixed-width integer fields of record and
//! hint headers. `vstd::bytes` covers `u32` and `u64`; the 16-byte timestamp
//! field is handled here as two 8-byte halves.

use vstd::prelude::*;

verus! {

use vstd::bytes::{
    spec_u64_to_le_bytes, spec_u64_from_le_bytes, u64_to_le_bytes, u64_from_le_bytes,
    lemma_auto_spec_u64_to_from_le_bytes,
};
use vstd::slice::slice_subrange;

pub open spec fn spec_u128_to_le_bytes(x: u128) -> Seq<u8> {
    spec_u64_to_le_bytes((x & 0xffff_ffff_ffff_ffff) as u64) + spec_u64_to_le_bytes(
        (x >> 64) as u64,
    )
}

pub open spec fn spec_u128_from_le_bytes(s: Seq<u8>) -> u128
    recommends
        s.len() == 16,
{
    (spec_u64_from_le_bytes(s.subrange(0, 8)) as u128) | ((spec_u64_from_le_bytes(
        s.subrange(8, 16),
    ) as u128) << 64)
}

pub proof fn lemma_u128_le_bytes(x: u128)
    ensures
        spec_u128_to_le_bytes(x).len() == 16,
        spec_u128_from_le_bytes(spec_u128_to_le_bytes(x)) == x,
{
    lemma_auto_spec_u64_to_from_le_bytes();
    let lo = (x & 0xffff_ffff_ffff_ffff) as u64;
    let hi = (x >> 64) as u64;
    let s = spec_u128_to_le_bytes(x);
    assert(s.subrange(0, 8) =~= spec_u64_to_le_bytes(lo));
    assert(s.subrange(8, 16) =~= spec_u64_to_le_bytes(hi));
    assert((lo as u128) | ((hi as u128) << 64) == x) by (bit_vector)
        requires
            lo == (x & 0xffff_ffff_ffff_ffff) as u64,
            hi == (x >> 64) as u64,
    ;
}

pub fn u128_to_le_bytes(x: u128) -> (r: Vec<u8>)
    ensures
        r@ == spec_u128_to_le_bytes(x),
        r@.len() == 16,
{
    proof {
        lemma_auto_spec_u64_to_from_le_bytes();
    }
    let mut r = u64_to_le_bytes((x & 0xffff_ffff_ffff_ffff) as u64);
    let mut hi = u64_to_le_bytes((x >> 64) as u64);
    r.append(&mut hi);
    r
}

pub fn u128_from_le_bytes(s: &[u8]) -> (x: u128)
    requires
        s@.len() == 16,
    ensures
        x == spec_u128_from_le_bytes(s@),
{
    let lo = u64_from_le_bytes(slice_subrange(s, 0, 8));
    let hi = u64_from_le_bytes(slice_subrange(s, 8, 16));
    (lo as u128) | ((hi as u128) << 64)
}

} // verus!
