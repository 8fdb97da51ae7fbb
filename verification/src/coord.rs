//! Keys for `u128` coordinates: the stack's coordinates are `i128`; a `u128`
//! coordinate `u` is stored as the key `u - 2^127`, which keeps the order of
//! coordinates and the distances between them, so a stack over keys is the
//! stack over the `u128` coordinates moved by a constant.
use vstd::prelude::*;

verus! {

/// The distance by which `u128` coordinates are moved to become keys.
pub open spec fn u128_key_offset() -> int {
    0x8000_0000_0000_0000_0000_0000_0000_0000int
}

/// The key of a `u128` coordinate.
pub fn key_from_u128(u: u128) -> (k: i128)
    ensures
        k == u - u128_key_offset(),
{
    if u >= 0x8000_0000_0000_0000_0000_0000_0000_0000u128 {
        (u - 0x8000_0000_0000_0000_0000_0000_0000_0000u128) as i128
    } else {
        (u as i128) - i128::MAX - 1
    }
}

/// The `u128` coordinate of a key.
pub fn u128_from_key(k: i128) -> (u: u128)
    ensures
        u == k + u128_key_offset(),
{
    if k >= 0 {
        (k as u128) + 0x8000_0000_0000_0000_0000_0000_0000_0000u128
    } else {
        (k + i128::MAX + 1) as u128
    }
}

/// Keys keep the order of `u128` coordinates and the distances between them,
/// and a coordinate is recovered from its key.
pub proof fn law_u128_keys_preserve_order(u: u128, v: u128)
    ensures
        (u - u128_key_offset() < v - u128_key_offset()) == (u < v),
        (v - u128_key_offset()) - (u - u128_key_offset()) == v - u,
        (u - u128_key_offset()) + u128_key_offset() == u,
        i128::MIN <= u - u128_key_offset() <= i128::MAX,
{
}

} // verus!
