//! The reshape-adoption acceptance gate shared by every reshape duty: the
//! root a store adopted must match the beacon-attested anchor root before
//! the seat boots from it.
use vstd::prelude::*;

use crate::orchestrator::ChainOrigin;
use crate::types::{hash_eq, Digest};

verus! {

/// The state a seat boots from after an adoption.
#[derive(Debug, Clone, Copy, PartialEq, Eq, Structural)]
pub struct RecoveredState {
    /// Bytes of substate the adopted store holds.
    pub substate_bytes: u64,
    /// The origin of the adopted chain.
    pub chain_origin: ChainOrigin,
}

/// The text of a root mismatch between `adopted` and `expected`.
pub uninterp spec fn root_mismatch_text(adopted: Digest, expected: Digest) -> Seq<char>;

/// The description of a root mismatch, formatted with `format!` from the
/// two roots' `Debug` forms; nothing but its dependence on the two roots is
/// stated of the text.
#[verifier::external_body]
fn root_mismatch_message(adopted: Digest, expected: Digest) -> (m: String)
    ensures
        m@ == root_mismatch_text(adopted, expected),
{
    format!("adopted reshape root {adopted:?} does not match the anchor {expected:?}")
}

/// Accept a reshape adoption: the store's `adopted` root must equal the
/// beacon-attested `expected` root; the seat then boots from `origin` and
/// the adopted `substate_bytes`. A mismatch means the local derivation and
/// the beacon diverged, and the duty must not seat.
pub fn verified_recovered_state(
    adopted: Digest,
    expected: Digest,
    origin: ChainOrigin,
    substate_bytes: u64,
) -> (r: Result<RecoveredState, String>)
    ensures
        r is Ok <==> adopted == expected,
        r matches Ok(s) ==> s == (RecoveredState { substate_bytes, chain_origin: origin }),
        r matches Err(m) ==> m@ == root_mismatch_text(adopted, expected),
{
    if !hash_eq(&adopted, &expected) {
        return Err(root_mismatch_message(adopted, expected));
    }
    Ok(RecoveredState { substate_bytes, chain_origin: origin })
}

} // verus!
