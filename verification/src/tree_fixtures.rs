//! Shared key and value fixtures for tree and proof tests.
use vstd::prelude::*;

verus! {

/// A 32-byte key with `b` as its leading byte and zeros after it.
pub fn k(b: u8) -> (key: [u8; 32])
    ensures
        key@.len() == 32,
        key@[0] == b,
        forall|i: int| 1 <= i < 32 ==> key@[i] == 0,
{
    let mut key = [0u8; 32];
    key[0] = b;
    key
}

/// A 32-byte value hash filled with `b`.
pub fn v(b: u8) -> (value: [u8; 32])
    ensures
        value@.len() == 32,
        forall|i: int| 0 <= i < 32 ==> value@[i] == b,
{
    [b; 32]
}

} // verus!
