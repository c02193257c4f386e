//! Plain identifiers shared by the whole library.
use vstd::prelude::*;

verus! {

/// A validator's identity.
pub type ValidatorId = u64;

/// A beacon epoch number.
pub type Epoch = u64;

/// A beacon slot number.
pub type Slot = u64;

/// A view number inside one single-shot prefix-consensus instance.
pub type SpcView = u64;

/// A vote round inside one prefix-consensus view.
pub type PcVoteRound = u64;

/// A 32-byte digest, held as four big-endian 64-bit words so that digests
/// order exactly as their bytes do.
pub type Digest = (u64, u64, u64, u64);

/// The all-zero digest.
pub const DIGEST_ZERO: Digest = (0u64, 0u64, 0u64, 0u64);

/// Whether two digests are equal.
pub fn hash_eq(a: &Digest, b: &Digest) -> (eq: bool)
    ensures
        eq == (*a == *b),
{
    a.0 == b.0 && a.1 == b.1 && a.2 == b.2 && a.3 == b.3
}

/// Digest of a committed beacon block.
pub type BeaconBlockHash = Digest;

/// A shard of the partition trie, numbered heap-style: the root is `1`
/// and the children of `s` are `2s` and `2s + 1`.
pub type ShardId = u64;

/// The single shard every network starts from.
pub const SHARD_ROOT: ShardId = 1u64;

/// The left child of `s`.
pub open spec fn left_child(s: ShardId) -> int {
    2 * s
}

/// The right child of `s`.
pub open spec fn right_child(s: ShardId) -> int {
    2 * s + 1
}

/// Whether `s` still has children that fit the numbering.
pub open spec fn can_split(s: ShardId) -> bool {
    2 * s + 1 <= u64::MAX
}

/// The two children of `shard`: `(left, right)`.
pub fn shard_children(shard: ShardId) -> (c: (ShardId, ShardId))
    requires
        can_split(shard),
    ensures
        c.0 == left_child(shard),
        c.1 == right_child(shard),
{
    (2 * shard, 2 * shard + 1)
}

/// Width of one element of a prefix-consensus vector, in bytes.
pub const PC_VALUE_ELEMENT_BYTES: usize = 32;

/// One element of a prefix-consensus vector: a 32-byte digest.
pub type PcValueElement = [u8; 32];

/// A prefix-consensus input or output vector.
pub struct PcVector {
    pub elements: Vec<PcValueElement>,
}

impl PcVector {
    /// The vector with no elements.
    pub fn empty() -> (v: PcVector)
        ensures
            v.elements@.len() == 0,
    {
        PcVector { elements: Vec::new() }
    }

    /// A vector holding `elements`, in order.
    pub fn new(elements: Vec<PcValueElement>) -> (v: PcVector)
        ensures
            v.elements@ == elements@,
    {
        PcVector { elements }
    }

    /// Number of elements.
    pub fn len(&self) -> (n: usize)
        ensures
            n == self.elements@.len(),
    {
        self.elements.len()
    }
}

} // verus!
