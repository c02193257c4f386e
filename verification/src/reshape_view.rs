//! The committed-state projection a reshape duty reads: observer cohort
//! seats, attested shard anchors and committees.
use std::collections::BTreeMap;

use vstd::prelude::*;

use crate::types::{can_split, left_child, right_child, shard_children, Digest, DIGEST_ZERO, ShardId, ValidatorId};

verus! {

/// A shard's attested anchor: the state it is pinned to at a boundary.
#[derive(Debug, Clone, Copy)]
pub struct ShardAnchor {
    pub state_root: Digest,
    pub block_hash: Digest,
    pub height: u64,
    pub weighted_timestamp: u64,
}

/// One observer cohort seat: `validator` syncs `child` of splitting `parent`.
#[derive(Debug, Clone, Copy, PartialEq, Eq, Structural)]
pub struct CohortSeatEntry {
    pub parent: ShardId,
    pub validator: ValidatorId,
    pub child: ShardId,
}

/// The reshape projection of committed state.
pub struct ReshapeView {
    /// Every observer cohort seat of every pending split.
    pub cohort_seats: Vec<CohortSeatEntry>,
    /// Attested anchors by shard.
    pub boundaries: BTreeMap<ShardId, ShardAnchor>,
    /// Committees by shard.
    pub committees: BTreeMap<ShardId, Vec<ValidatorId>>,
}

impl ReshapeView {
    /// `shard`'s attested anchor, if any.
    pub open spec fn boundary_spec(&self, shard: ShardId) -> Option<ShardAnchor> {
        if self.boundaries@.contains_key(shard) {
            Some(self.boundaries@[shard])
        } else {
            None
        }
    }

    /// `shard`'s committee; empty when it has none.
    pub open spec fn committee_spec(&self, shard: ShardId) -> Seq<ValidatorId> {
        if self.committees@.contains_key(shard) {
            self.committees@[shard]@
        } else {
            Seq::empty()
        }
    }

    /// Whether `shard` has an anchor seeded from a real block.
    pub open spec fn seeded_spec(&self, shard: ShardId) -> bool {
        self.boundary_spec(shard) matches Some(a) && a.block_hash != DIGEST_ZERO
    }

    /// Whether both children of `parent` are seeded.
    pub open spec fn children_seeded_spec(&self, parent: ShardId) -> bool {
        self.seeded_spec(left_child(parent) as ShardId) && self.seeded_spec(right_child(parent) as ShardId)
    }

    /// `shard`'s attested anchor, if any.
    pub fn boundary(&self, shard: ShardId) -> (a: Option<ShardAnchor>)
        ensures
            a == self.boundary_spec(shard),
    {
        match self.boundaries.get(&shard) {
            Some(a) => Some(*a),
            None => None,
        }
    }

    /// `shard`'s committee.
    pub fn committee(&self, shard: ShardId) -> (c: Vec<ValidatorId>)
        ensures
            c@ == self.committee_spec(shard),
    {
        match self.committees.get(&shard) {
            Some(m) => vstd::slice::slice_to_vec(m.as_slice()),
            None => Vec::new(),
        }
    }

    /// Whether `shard`'s committee holds `validator`.
    pub fn committee_contains(&self, shard: ShardId, validator: ValidatorId) -> (b: bool)
        ensures
            b == self.committee_spec(shard).contains(validator),
    {
        let c = self.committee(shard);
        let mut i: usize = 0;
        while i < c.len()
            invariant
                c@ == self.committee_spec(shard),
                i <= c@.len(),
                forall|k: int| 0 <= k < i ==> c@[k] != validator,
            decreases c@.len() - i,
        {
            if c[i] == validator {
                assert(c@[i as int] == validator);
                return true;
            }
            i = i + 1;
        }
        false
    }

    /// Whether `shard` has an anchor seeded from a real block.
    pub fn seeded(&self, shard: ShardId) -> (b: bool)
        ensures
            b == self.seeded_spec(shard),
    {
        match self.boundary(shard) {
            Some(a) => !(a.block_hash.0 == 0 && a.block_hash.1 == 0 && a.block_hash.2 == 0 && a.block_hash.3 == 0),
            None => false,
        }
    }

    /// Whether both children of `parent` are seeded: the parent reached its
    /// terminal crossing.
    pub fn children_seeded(&self, parent: ShardId) -> (b: bool)
        requires
            can_split(parent),
        ensures
            b == self.children_seeded_spec(parent),
    {
        let (left, right) = shard_children(parent);
        self.seeded(left) && self.seeded(right)
    }
}

/// Predicate "is not `v`".
pub open spec fn other_than(v: ValidatorId) -> spec_fn(ValidatorId) -> bool {
    |x: ValidatorId| x != v
}

/// A ready signal's recipients: `shard`'s committee minus the signer.
pub fn recipients_for(view: &ReshapeView, shard: ShardId, validator: ValidatorId) -> (r: Vec<ValidatorId>)
    ensures
        r@ == view.committee_spec(shard).filter(other_than(validator)),
{
    let c = view.committee(shard);
    let mut r: Vec<ValidatorId> = Vec::new();
    let mut i: usize = 0;
    while i < c.len()
        invariant
            i <= c@.len(),
            r@ == c@.take(i as int).filter(other_than(validator)),
        decreases c@.len() - i,
    {
        let x = c[i];
        proof {
            assert(c@.take(i + 1) == c@.take(i as int).push(x));
            c@.take(i as int).lemma_filter_push(x, other_than(validator));
        }
        if x != validator {
            r.push(x);
        }
        i = i + 1;
    }
    assert(c@.take(i as int) == c@);
    r
}

} // verus!
