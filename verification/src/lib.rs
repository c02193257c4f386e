//! Verified core of a sharded consensus node: beacon-chain helpers
//! (multi-slot ranking, recovery-certificate checks, verification
//! bookkeeping, split cohorts) and the reshape / settled-set sequencing
//! that drives shard splits.
use vstd::prelude::*;

pub mod types;
pub mod hashing;
pub mod cohort;
pub mod recovery;
pub mod reshape_view;
pub mod orchestrator;
pub mod settled_set;
pub mod beacon_storage;
pub mod msc;
pub mod verification;
pub mod beacon_cf;
pub mod tree_fixtures;
pub mod dispatch;
pub mod adopt;
pub mod grow;
pub mod lock_recover;
pub mod provision_serve;

verus! {

} // verus!
