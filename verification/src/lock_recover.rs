//! Recovering the guard of a lock attempt rather than propagating poison.
//! Taking the lock itself (which blocks, and may panic or deadlock when the
//! calling thread already holds it) is left to the caller; these functions
//! decide what an attempt yields.
//!
//! The in-memory stores mutate their lock-guarded state only through
//! whole-entry operations, so a panic in the middle of one cannot leave a
//! torn invariant behind; continuing past the poison is less disruptive
//! than failing every later user of the store.
use std::sync::{PoisonError, RwLockReadGuard, RwLockWriteGuard};

use vstd::prelude::*;

verus! {

#[verifier::external_type_specification]
#[verifier::external_body]
#[verifier::reject_recursive_types(T)]
pub struct ExPoisonError<T>(PoisonError<T>);

#[verifier::external_type_specification]
#[verifier::external_body]
#[verifier::reject_recursive_types(T)]
pub struct ExRwLockReadGuard<'a, T: ?Sized>(RwLockReadGuard<'a, T>);

#[verifier::external_type_specification]
#[verifier::external_body]
#[verifier::reject_recursive_types(T)]
pub struct ExRwLockWriteGuard<'a, T: ?Sized + 'a>(RwLockWriteGuard<'a, T>);

/// Calls `PoisonError::into_inner`: the guard the poison error carries.
#[verifier::external_body]
fn unpoison<G>(err: PoisonError<G>) -> G {
    err.into_inner()
}

/// The guard a lock attempt yields whether or not the lock was poisoned:
/// the guard itself on success, the guard the poison error carries
/// otherwise.
pub fn recover_guard<G>(attempt: Result<G, PoisonError<G>>) -> (guard: G)
    ensures
        attempt matches Ok(g) ==> guard == g,
{
    match attempt {
        Ok(guard) => guard,
        Err(poisoned) => unpoison(poisoned),
    }
}

/// The read guard of a read-lock attempt, recovered from a poisoned lock.
pub fn read_or_recover<'a, T>(attempt: Result<RwLockReadGuard<'a, T>, PoisonError<RwLockReadGuard<'a, T>>>) -> (guard:
    RwLockReadGuard<'a, T>)
    ensures
        attempt matches Ok(g) ==> guard == g,
{
    recover_guard(attempt)
}

/// The write guard of a write-lock attempt, recovered from a poisoned lock.
pub fn write_or_recover<'a, T>(attempt: Result<RwLockWriteGuard<'a, T>, PoisonError<RwLockWriteGuard<'a, T>>>) -> (guard:
    RwLockWriteGuard<'a, T>)
    ensures
        attempt matches Ok(g) ==> guard == g,
{
    recover_guard(attempt)
}

} // verus!
