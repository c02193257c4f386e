//! In-flight bookkeeping for asynchronously dispatched beacon-side crypto
//! checks: a marked slot suppresses redundant redispatch of the same check
//! until it is cleared.
use std::collections::BTreeMap;

use vstd::laws_cmp::obeys_cmp;
use vstd::prelude::*;

use crate::types::{BeaconBlockHash, Epoch, PcVoteRound, SpcView, ValidatorId};

verus! {

/// In-flight verification slots over an ordered key, held as the keys of
/// an ordered map, whose key set is always finite.
struct VerificationSlots<K> {
    in_flight: BTreeMap<K, ()>,
}

impl<K: Ord> VerificationSlots<K> {
    spec fn keys(&self) -> Set<K> {
        self.in_flight@.dom()
    }

    fn new() -> (s: Self)
        ensures
            s.keys() == Set::<K>::empty(),
    {
        let s = VerificationSlots { in_flight: BTreeMap::new() };
        assert(s.keys() =~= Set::<K>::empty());
        s
    }

    /// `true` when newly inserted, `false` when already in flight.
    fn mark_in_flight(&mut self, key: K) -> (inserted: bool)
        requires
            obeys_cmp::<K>(),
        ensures
            final(self).keys() == old(self).keys().insert(key),
            inserted == !old(self).keys().contains(key),
    {
        let prev = self.in_flight.insert(key, ());
        assert(final(self).keys() =~= old(self).keys().insert(key));
        prev.is_none()
    }

    fn clear(&mut self, key: &K)
        requires
            obeys_cmp::<K>(),
        ensures
            final(self).keys() == old(self).keys().remove(*key),
    {
        let _ = self.in_flight.remove(key);
        assert(final(self).keys() =~= old(self).keys().remove(*key));
    }

    fn is_in_flight(&self, key: &K) -> (b: bool)
        requires
            obeys_cmp::<K>(),
        ensures
            b == self.keys().contains(*key),
    {
        self.in_flight.contains_key(key)
    }

    fn len(&self) -> (n: usize)
        requires
            obeys_cmp::<K>(),
        ensures
            n == self.keys().len(),
    {
        self.in_flight.len()
    }
}

/// Slot key for a pending PC-vote verification: `(epoch, view, signer, round)`.
pub type PcVoteSlotKey = (Epoch, SpcView, ValidatorId, PcVoteRound);

/// Which prefix-consensus message kind a verification slot refers to.
#[derive(Debug, Clone, Copy, PartialEq, Eq, Structural, PartialOrd, Ord, Hash)]
pub enum SpcMsgKind {
    /// `NewView` certificate verification.
    NewView,
    /// `NewCommit` embedded certificate verification.
    NewCommit,
    /// `EmptyView` signature and embedded certificate verification.
    EmptyView,
}

/// The number a message kind is ordered and found by.
pub open spec fn spc_msg_kind_code(kind: SpcMsgKind) -> u8 {
    match kind {
        SpcMsgKind::NewView => 0u8,
        SpcMsgKind::NewCommit => 1u8,
        SpcMsgKind::EmptyView => 2u8,
    }
}

fn spc_msg_kind_to_code(kind: SpcMsgKind) -> (c: u8)
    ensures
        c == spc_msg_kind_code(kind),
{
    match kind {
        SpcMsgKind::NewView => 0,
        SpcMsgKind::NewCommit => 1,
        SpcMsgKind::EmptyView => 2,
    }
}

/// Slot key for a pending prefix-consensus message verification:
/// `(epoch, view, sender, kind)`.
pub type SpcMsgSlotKey = (Epoch, SpcView, ValidatorId, SpcMsgKind);

/// The stored form of an [`SpcMsgSlotKey`], with the kind as its number.
pub type SpcMsgStoredKey = (Epoch, SpcView, ValidatorId, u8);

/// The stored form of a message slot key.
pub open spec fn spc_msg_stored_key(key: SpcMsgSlotKey) -> SpcMsgStoredKey {
    (key.0, key.1, key.2, spc_msg_kind_code(key.3))
}

fn spc_msg_key_to_stored(key: SpcMsgSlotKey) -> (k: SpcMsgStoredKey)
    ensures
        k == spc_msg_stored_key(key),
{
    (key.0, key.1, key.2, spc_msg_kind_to_code(key.3))
}

/// Slot key for a pending skip-request signature verification:
/// `(anchor, epoch_to_skip, signer)`.
pub type SkipRequestSlotKey = (BeaconBlockHash, Epoch, ValidatorId);

/// Tracks asynchronous beacon verifications, suppressing redundant
/// redispatch while a check is outstanding. Four independent slot pools:
/// block certificates, skip requests, PC votes and SPC messages.
pub struct BeaconVerificationPipeline {
    blocks: VerificationSlots<BeaconBlockHash>,
    skip_requests: VerificationSlots<SkipRequestSlotKey>,
    pc_votes: VerificationSlots<PcVoteSlotKey>,
    spc_msgs: VerificationSlots<SpcMsgStoredKey>,
}

impl BeaconVerificationPipeline {
    /// Block hashes whose certificate verification is in flight.
    pub closed spec fn blocks_in_flight(&self) -> Set<BeaconBlockHash> {
        self.blocks.keys()
    }

    /// Skip-request keys whose verification is in flight.
    pub closed spec fn skip_requests_in_flight(&self) -> Set<SkipRequestSlotKey> {
        self.skip_requests.keys()
    }

    /// PC-vote keys whose verification is in flight.
    pub closed spec fn pc_votes_in_flight(&self) -> Set<PcVoteSlotKey> {
        self.pc_votes.keys()
    }

    /// SPC message keys whose verification is in flight, kinds as numbers.
    pub closed spec fn spc_msgs_in_flight(&self) -> Set<SpcMsgStoredKey> {
        self.spc_msgs.keys()
    }

    /// Every pool holds finitely many slots.
    pub open spec fn all_finite(&self) -> bool {
        &&& self.blocks_in_flight().finite()
        &&& self.skip_requests_in_flight().finite()
        &&& self.pc_votes_in_flight().finite()
        &&& self.spc_msgs_in_flight().finite()
    }

    /// Total number of in-flight slots over all four pools.
    pub open spec fn total_in_flight(&self) -> nat {
        self.blocks_in_flight().len() + self.skip_requests_in_flight().len()
            + self.pc_votes_in_flight().len() + self.spc_msgs_in_flight().len()
    }

    /// Whether `other` has exactly the same in-flight slots as `self`
    /// outside of the block pool.
    pub open spec fn same_except_blocks(&self, other: &Self) -> bool {
        &&& other.skip_requests_in_flight() == self.skip_requests_in_flight()
        &&& other.pc_votes_in_flight() == self.pc_votes_in_flight()
        &&& other.spc_msgs_in_flight() == self.spc_msgs_in_flight()
    }

    /// Empty pipeline.
    pub fn new() -> (p: Self)
        ensures
            p.total_in_flight() == 0,
            p.blocks_in_flight() == Set::<BeaconBlockHash>::empty(),
            p.skip_requests_in_flight() == Set::<SkipRequestSlotKey>::empty(),
            p.pc_votes_in_flight() == Set::<PcVoteSlotKey>::empty(),
            p.spc_msgs_in_flight() == Set::<SpcMsgStoredKey>::empty(),
            p.all_finite(),
    {
        BeaconVerificationPipeline {
            blocks: VerificationSlots::new(),
            skip_requests: VerificationSlots::new(),
            pc_votes: VerificationSlots::new(),
            spc_msgs: VerificationSlots::new(),
        }
    }

    /// Mark a block-certificate verification in flight: `true` when newly
    /// inserted, `false` when the block's slot was already in flight.
    pub fn mark_block_in_flight(&mut self, block_hash: BeaconBlockHash) -> (inserted: bool)
        ensures
            old(self).all_finite(),
            final(self).all_finite(),
            final(self).blocks_in_flight() == old(self).blocks_in_flight().insert(block_hash),
            inserted == !old(self).blocks_in_flight().contains(block_hash),
            old(self).same_except_blocks(final(self)),
            final(self).total_in_flight() == old(self).total_in_flight() + (if inserted {
                1int
            } else {
                0int
            }),
    {
        self.blocks.mark_in_flight(block_hash)
    }

    /// Clear the block's slot.
    pub fn forget_block(&mut self, block_hash: BeaconBlockHash)
        ensures
            old(self).all_finite(),
            final(self).all_finite(),
            final(self).blocks_in_flight() == old(self).blocks_in_flight().remove(block_hash),
            old(self).same_except_blocks(final(self)),
            final(self).total_in_flight() == old(self).total_in_flight() - (if old(self).blocks_in_flight().contains(
                block_hash,
            ) {
                1int
            } else {
                0int
            }),
    {
        self.blocks.clear(&block_hash);
    }

    /// Mark a skip-request verification in flight; same semantics as
    /// [`Self::mark_block_in_flight`].
    pub fn mark_skip_request_in_flight(&mut self, key: SkipRequestSlotKey) -> (inserted: bool)
        ensures
            old(self).all_finite(),
            final(self).all_finite(),
            final(self).skip_requests_in_flight() == old(self).skip_requests_in_flight().insert(key),
            inserted == !old(self).skip_requests_in_flight().contains(key),
            final(self).blocks_in_flight() == old(self).blocks_in_flight(),
            final(self).pc_votes_in_flight() == old(self).pc_votes_in_flight(),
            final(self).spc_msgs_in_flight() == old(self).spc_msgs_in_flight(),
    {
        self.skip_requests.mark_in_flight(key)
    }

    /// Clear the skip-request slot.
    pub fn forget_skip_request(&mut self, key: SkipRequestSlotKey)
        ensures
            old(self).all_finite(),
            final(self).all_finite(),
            final(self).skip_requests_in_flight() == old(self).skip_requests_in_flight().remove(key),
            final(self).blocks_in_flight() == old(self).blocks_in_flight(),
            final(self).pc_votes_in_flight() == old(self).pc_votes_in_flight(),
            final(self).spc_msgs_in_flight() == old(self).spc_msgs_in_flight(),
    {
        self.skip_requests.clear(&key);
    }

    /// Mark a PC-vote verification in flight.
    pub fn mark_pc_vote_in_flight(&mut self, key: PcVoteSlotKey) -> (inserted: bool)
        ensures
            old(self).all_finite(),
            final(self).all_finite(),
            final(self).pc_votes_in_flight() == old(self).pc_votes_in_flight().insert(key),
            inserted == !old(self).pc_votes_in_flight().contains(key),
            final(self).blocks_in_flight() == old(self).blocks_in_flight(),
            final(self).skip_requests_in_flight() == old(self).skip_requests_in_flight(),
            final(self).spc_msgs_in_flight() == old(self).spc_msgs_in_flight(),
    {
        self.pc_votes.mark_in_flight(key)
    }

    /// Clear the PC-vote slot.
    pub fn forget_pc_vote(&mut self, key: PcVoteSlotKey)
        ensures
            old(self).all_finite(),
            final(self).all_finite(),
            final(self).pc_votes_in_flight() == old(self).pc_votes_in_flight().remove(key),
            final(self).blocks_in_flight() == old(self).blocks_in_flight(),
            final(self).skip_requests_in_flight() == old(self).skip_requests_in_flight(),
            final(self).spc_msgs_in_flight() == old(self).spc_msgs_in_flight(),
    {
        self.pc_votes.clear(&key);
    }

    /// Mark an SPC message verification in flight.
    pub fn mark_spc_msg_in_flight(&mut self, key: SpcMsgSlotKey) -> (inserted: bool)
        ensures
            old(self).all_finite(),
            final(self).all_finite(),
            final(self).spc_msgs_in_flight() == old(self).spc_msgs_in_flight().insert(
                spc_msg_stored_key(key),
            ),
            inserted == !old(self).spc_msgs_in_flight().contains(spc_msg_stored_key(key)),
            final(self).blocks_in_flight() == old(self).blocks_in_flight(),
            final(self).skip_requests_in_flight() == old(self).skip_requests_in_flight(),
            final(self).pc_votes_in_flight() == old(self).pc_votes_in_flight(),
    {
        let k = spc_msg_key_to_stored(key);
        self.spc_msgs.mark_in_flight(k)
    }

    /// Clear the SPC message slot.
    pub fn forget_spc_msg(&mut self, key: SpcMsgSlotKey)
        ensures
            old(self).all_finite(),
            final(self).all_finite(),
            final(self).spc_msgs_in_flight() == old(self).spc_msgs_in_flight().remove(
                spc_msg_stored_key(key),
            ),
            final(self).blocks_in_flight() == old(self).blocks_in_flight(),
            final(self).skip_requests_in_flight() == old(self).skip_requests_in_flight(),
            final(self).pc_votes_in_flight() == old(self).pc_votes_in_flight(),
    {
        let k = spc_msg_key_to_stored(key);
        self.spc_msgs.clear(&k);
    }

    /// Whether the block's certificate verification is in flight.
    pub fn is_block_in_flight(&self, block_hash: BeaconBlockHash) -> (b: bool)
        ensures
            b == self.blocks_in_flight().contains(block_hash),
    {
        self.blocks.is_in_flight(&block_hash)
    }

    /// Number of in-flight slots over all four pools.
    pub fn in_flight_count(&self) -> (n: usize)
        requires
            self.total_in_flight() <= usize::MAX,
        ensures
            n == self.total_in_flight(),
    {
        self.blocks.len() + self.skip_requests.len() + self.pc_votes.len() + self.spc_msgs.len()
    }
}

/// Every pipeline's pools are finite: each is the key set of an ordered map.
pub proof fn lemma_pools_finite(p: BeaconVerificationPipeline)
    ensures
        p.all_finite(),
{
}

/// A block slot's life: once marked, a second mark is a duplicate that
/// changes nothing; once forgotten, the block has no slot (a new mark is
/// fresh) and forgetting it again changes nothing.
pub proof fn lemma_block_slot_lifecycle(
    start: BeaconVerificationPipeline,
    marked: BeaconVerificationPipeline,
    forgotten: BeaconVerificationPipeline,
    block_hash: BeaconBlockHash,
)
    requires
        marked.blocks_in_flight() == start.blocks_in_flight().insert(block_hash),
        forgotten.blocks_in_flight() == marked.blocks_in_flight().remove(block_hash),
    ensures
        marked.blocks_in_flight().contains(block_hash),
        marked.blocks_in_flight().insert(block_hash) == marked.blocks_in_flight(),
        !forgotten.blocks_in_flight().contains(block_hash),
        forgotten.blocks_in_flight() == start.blocks_in_flight().remove(block_hash),
        forgotten.blocks_in_flight().remove(block_hash) == forgotten.blocks_in_flight(),
        !start.blocks_in_flight().contains(block_hash) ==> forgotten.blocks_in_flight() == start.blocks_in_flight(),
{
    assert(marked.blocks_in_flight().insert(block_hash) =~= marked.blocks_in_flight());
    assert(forgotten.blocks_in_flight() =~= start.blocks_in_flight().remove(block_hash));
    assert(forgotten.blocks_in_flight().remove(block_hash) =~= forgotten.blocks_in_flight());
}

/// Marking a block adds one slot to the count exactly when the block had
/// none; forgetting removes one exactly when it had one. The other pools
/// are untouched either way.
pub proof fn lemma_block_counts(
    before: BeaconVerificationPipeline,
    after: BeaconVerificationPipeline,
    block_hash: BeaconBlockHash,
    marked: bool,
)
    requires
        before.same_except_blocks(&after),
        marked ==> after.blocks_in_flight() == before.blocks_in_flight().insert(block_hash),
        !marked ==> after.blocks_in_flight() == before.blocks_in_flight().remove(block_hash),
    ensures
        after.all_finite(),
        marked ==> after.total_in_flight() == before.total_in_flight() + (if before.blocks_in_flight().contains(
            block_hash,
        ) {
            0int
        } else {
            1int
        }),
        !marked ==> after.total_in_flight() == before.total_in_flight() - (if before.blocks_in_flight().contains(
            block_hash,
        ) {
            1int
        } else {
            0int
        }),
{
    if marked {
        if before.blocks_in_flight().contains(block_hash) {
            assert(after.blocks_in_flight() =~= before.blocks_in_flight());
        }
    }
}

} // verus!
