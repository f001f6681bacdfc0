//! The hash routine that routes a key to a cell.
//!
//! Hashing is deliberately simple: a fixed 64-bit finalizer with strong
//! avalanche behaviour. Every contract in the crate depends only on the hash
//! being a function of the key, never on its distribution.

use vstd::prelude::*;

verus! {

/// First multiplier of the 64-bit finalizer.
pub const MIX_MUL_1: u64 = 0xBF58_476D_1CE4_E5B9;

/// Second multiplier of the 64-bit finalizer.
pub const MIX_MUL_2: u64 = 0x94D0_49BB_1331_11EB;

/// The full 64-bit hash of a key. The top bits select the cell, so the
/// finalizer must spread small keys over the whole 64-bit range.
pub open spec fn hash_of(key: u64) -> u64 {
    let a = key ^ (key >> 30u64);
    let b = vstd::wrapping::u64_specs::wrapping_mul(a, MIX_MUL_1);
    let c = b ^ (b >> 27u64);
    let d = vstd::wrapping::u64_specs::wrapping_mul(c, MIX_MUL_2);
    d ^ (d >> 31u64)
}

/// The partial hash of a key: the low byte of the full hash, re-mapped so that
/// zero (the empty-slot marker) never appears.
pub open spec fn partial_of(key: u64) -> u8 {
    let p = (hash_of(key) & 0xFFu64) as u8;
    if p == 0 {
        1u8
    } else {
        p
    }
}

/// Computes the pair `(full hash, partial hash)` of a key.
pub fn hash_pair(key: u64) -> (r: (u64, u8))
    ensures
        r.0 == hash_of(key),
        r.1 == partial_of(key),
        r.1 != 0,
{
    let a = key ^ (key >> 30u64);
    let b = a.wrapping_mul(MIX_MUL_1);
    let c = b ^ (b >> 27u64);
    let d = c.wrapping_mul(MIX_MUL_2);
    let full = d ^ (d >> 31u64);
    let low = (full & 0xFFu64) as u8;
    let partial = if low == 0 {
        1u8
    } else {
        low
    };
    (full, partial)
}

} // verus!
