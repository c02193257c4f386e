//! The digest function the library hashes with.
use vstd::prelude::*;

verus! {

/// The BLAKE3 digest of a byte string (32 bytes).
pub uninterp spec fn blake3_digest(data: Seq<u8>) -> Seq<u8>;

/// Calls `blake3::hash`. The contract claims only that the 32-byte result
/// is the BLAKE3 digest of `data`, a function of `data` alone.
#[verifier::external_body]
pub(crate) fn blake3_hash(data: &[u8]) -> (digest: [u8; 32])
    ensures
        digest@ == blake3_digest(data@),
{
    *blake3::hash(data).as_bytes()
}

/// Whether all 32 bytes of `d` are zero.
pub open spec fn is_zero_digest(d: Seq<u8>) -> bool {
    d.len() == 32 && forall|i: int| 0 <= i < 32 ==> d[i] == 0u8
}

/// Whether all bytes of `d` are zero.
pub fn digest_is_zero(d: &[u8; 32]) -> (z: bool)
    ensures
        z == is_zero_digest(d@),
{
    let mut i: usize = 0;
    while i < 32
        invariant
            i <= 32,
            d@.len() == 32,
            forall|k: int| 0 <= k < i ==> d@[k] == 0u8,
        decreases 32 - i,
    {
        if d[i] != 0 {
            return false;
        }
        i = i + 1;
    }
    true
}

} // verus!
