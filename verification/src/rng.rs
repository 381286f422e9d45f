//! The mixing step behind every seed.

use vstd::prelude::*;

verus! {

/// One step of SplitMix64.
pub open spec fn splitmix64_of(x: u64) -> u64 {
    let a = x.wrapping_add(0x9E37_79B9_7F4A_7C15);
    let b = (a ^ (a >> 30)).wrapping_mul(0xBF58_476D_1CE4_E5B9);
    let c = (b ^ (b >> 27)).wrapping_mul(0x94D0_49BB_1331_11EB);
    c ^ (c >> 31)
}

/// One step of SplitMix64.
pub fn splitmix64(x: u64) -> (r: u64)
    ensures
        r == splitmix64_of(x),
{
    let a: u64 = x.wrapping_add(0x9E37_79B9_7F4A_7C15);
    let b: u64 = (a ^ (a >> 30)).wrapping_mul(0xBF58_476D_1CE4_E5B9);
    let c: u64 = (b ^ (b >> 27)).wrapping_mul(0x94D0_49BB_1331_11EB);
    c ^ (c >> 31)
}

} // verus!
