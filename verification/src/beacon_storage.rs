//! The beacon storage tier: read and write interfaces over committed beacon
//! blocks, and the in-memory backend used by deterministic simulation.
use std::collections::BTreeMap;

use vstd::prelude::*;

use crate::recovery::BeaconBlockHeader;
use crate::types::{hash_eq, BeaconBlockHash, Slot};

verus! {

/// A committed beacon block: its slot, its header and the hash of the header.
#[derive(Debug, Clone, Copy)]
pub struct BeaconBlock {
    pub slot: Slot,
    pub block_hash: BeaconBlockHash,
    pub header: BeaconBlockHeader,
}

/// Read access to the committed beacon chain.
pub trait BeaconChainReader {
    /// Block committed at `slot`, if any.
    fn get_beacon_block_by_slot(&self, slot: Slot) -> Option<BeaconBlock>;

    /// Block whose header hashes to `hash`, if any.
    fn get_beacon_block_by_hash(&self, hash: BeaconBlockHash) -> Option<BeaconBlock>;

    /// Highest slot with a committed block, if any.
    fn latest_committed_slot(&self) -> Option<Slot>;

    /// Committed blocks at slots `>= from`, in ascending slot order.
    fn iter_beacon_blocks_from(&self, from: Slot) -> Vec<BeaconBlock>;
}

/// Write access to the committed beacon chain.
pub trait BeaconChainWriter {
    /// Commit `block` at its slot and index it by its hash.
    fn commit_beacon_block(&mut self, block: &BeaconBlock);
}

/// Beacon storage: both halves together.
pub trait BeaconStorage: BeaconChainReader + BeaconChainWriter {}

impl<S: BeaconChainReader + BeaconChainWriter> BeaconStorage for S {}

/// In-memory beacon storage: blocks in ascending slot order, one per slot,
/// plus a secondary `hash -> slot` index.
pub struct SimBeaconStorage {
    by_slot: Vec<BeaconBlock>,
    hash_to_slot: BTreeMap<BeaconBlockHash, Slot>,
}

/// Whether `s` is a slot-ordered list of the blocks, each stored at its own
/// slot, at most one per slot.
pub open spec fn slot_ordered(s: Seq<BeaconBlock>) -> bool {
    forall|i: int, j: int| 0 <= i < j < s.len() ==> s[i].slot < s[j].slot
}

/// The map from slot to block that a slot-ordered list stores.
pub open spec fn blocks_of(s: Seq<BeaconBlock>) -> Map<Slot, BeaconBlock> {
    Map::new(
        |slot: Slot| exists|i: int| 0 <= i < s.len() && #[trigger] s[i].slot == slot,
        |slot: Slot| s[choose|i: int| 0 <= i < s.len() && #[trigger] s[i].slot == slot],
    )
}

/// Whether `out` lists, in ascending slot order, exactly the blocks of
/// `blocks` at slots `>= from`.
pub open spec fn blocks_from(blocks: Map<Slot, BeaconBlock>, from: Slot, out: Seq<BeaconBlock>) -> bool {
    &&& forall|i: int, j: int| 0 <= i < j < out.len() ==> out[i].slot < out[j].slot
    &&& forall|i: int| 0 <= i < out.len() ==> #[trigger] out[i].slot >= from && blocks.contains_key(out[i].slot)
        && blocks[out[i].slot] == out[i]
    &&& forall|slot: Slot| #[trigger] blocks.contains_key(slot) && slot >= from ==> exists|i: int|
        0 <= i < out.len() && out[i].slot == slot
}

/// The highest slot of a non-empty slot-ordered list.
pub open spec fn latest_of(s: Seq<BeaconBlock>) -> Option<Slot> {
    if s.len() == 0 {
        None
    } else {
        Some(s.last().slot)
    }
}

/// Whether `after` is `before` with `block` committed: the block replaces
/// whatever stood at its slot, its hash is indexed to that slot, and the
/// latest slot moves up to the block's slot if that is higher.
pub open spec fn committed(before: SimBeaconStorage, block: BeaconBlock, after: SimBeaconStorage) -> bool {
    &&& after.blocks() == before.blocks().insert(block.slot, block)
    &&& after.hash_index() == before.hash_index().insert(block.block_hash, block.slot)
    &&& after.latest() == (match before.latest() {
        Some(l) => Some(if l >= block.slot { l } else { block.slot }),
        None => Some(block.slot),
    })
}

proof fn lemma_blocks_of_at(s: Seq<BeaconBlock>, i: int)
    requires
        slot_ordered(s),
        0 <= i < s.len(),
    ensures
        blocks_of(s).contains_key(s[i].slot),
        blocks_of(s)[s[i].slot] == s[i],
{
    let j = choose|j: int| 0 <= j < s.len() && #[trigger] s[j].slot == s[i].slot;
    if i < j {
        assert(s[i].slot < s[j].slot);
    } else if j < i {
        assert(s[j].slot < s[i].slot);
    }
}

impl SimBeaconStorage {
    /// The committed blocks by slot.
    pub closed spec fn blocks(&self) -> Map<Slot, BeaconBlock> {
        blocks_of(self.by_slot@)
    }

    /// The hash index.
    pub closed spec fn hash_index(&self) -> Map<BeaconBlockHash, Slot> {
        self.hash_to_slot@
    }

    /// The highest committed slot, if any.
    pub closed spec fn latest(&self) -> Option<Slot> {
        latest_of(self.by_slot@)
    }

    /// What a read by slot gives back.
    pub open spec fn slot_read(&self, slot: Slot) -> Option<BeaconBlock> {
        if self.blocks().contains_key(slot) {
            Some(self.blocks()[slot])
        } else {
            None
        }
    }

    /// What a read by hash gives back: the block at the indexed slot, when
    /// it carries that hash; none when the hash is not indexed or its slot
    /// now holds another block.
    pub open spec fn hash_read(&self, hash: BeaconBlockHash) -> Option<BeaconBlock> {
        if self.hash_index().contains_key(hash) {
            match self.slot_read(self.hash_index()[hash]) {
                Some(b) => if b.block_hash == hash {
                    Some(b)
                } else {
                    None
                },
                None => None,
            }
        } else {
            None
        }
    }

    /// Every indexed hash leads to a stored block that carries that hash.
    pub open spec fn hash_consistent(&self) -> bool {
        forall|h: BeaconBlockHash| #[trigger] self.hash_index().contains_key(h) ==> self.blocks().contains_key(
            self.hash_index()[h],
        ) && self.blocks()[self.hash_index()[h]].block_hash == h
    }

    /// Blocks are kept in strictly ascending slot order.
    #[verifier::type_invariant]
    closed spec fn wf(&self) -> bool {
        slot_ordered(self.by_slot@)
    }

    /// The latest slot is the highest committed one.
    proof fn lemma_latest_is_max(&self)
        requires
            slot_ordered(self.by_slot@),
        ensures
            self.latest() is None <==> self.blocks().dom().is_empty(),
            self.latest() matches Some(l) ==> self.blocks().contains_key(l) && forall|s: Slot|
                #[trigger] self.blocks().contains_key(s) ==> s <= l,
    {
        let v = self.by_slot@;
        if v.len() > 0 {
            lemma_blocks_of_at(v, v.len() - 1);
            assert forall|s: Slot| #[trigger] self.blocks().contains_key(s) implies s <= v.last().slot by {
                let i = choose|i: int| 0 <= i < v.len() && #[trigger] v[i].slot == s;
                if i < v.len() - 1 {
                    assert(v[i].slot < v[v.len() - 1].slot);
                }
            }
        } else {
            assert(self.blocks().dom() =~= Set::<Slot>::empty());
        }
        if self.blocks().dom().is_empty() && v.len() > 0 {
            lemma_blocks_of_at(v, 0);
            assert(self.blocks().dom().contains(v[0].slot));
        }
    }

    /// An empty store.
    pub fn new() -> (s: Self)
        ensures
            s.blocks() == Map::<Slot, BeaconBlock>::empty(),
            s.hash_index() == Map::<BeaconBlockHash, Slot>::empty(),
            s.latest() is None,
    {
        let s = SimBeaconStorage { by_slot: Vec::new(), hash_to_slot: BTreeMap::new() };
        assert(s.blocks() =~= Map::<Slot, BeaconBlock>::empty());
        s
    }

    /// Position of `slot` in the ordered list: `Ok(i)` when stored at `i`,
    /// `Err(i)` for where it would go.
    fn locate(&self, slot: Slot) -> (r: Result<usize, usize>)
        requires
            slot_ordered(self.by_slot@),
        ensures
            r matches Ok(i) ==> i < self.by_slot@.len() && self.by_slot@[i as int].slot == slot,
            r matches Err(i) ==> i <= self.by_slot@.len() && (forall|k: int| 0 <= k < i ==> self.by_slot@[k].slot < slot)
                && (forall|k: int| i <= k < self.by_slot@.len() ==> self.by_slot@[k].slot > slot),
    {
        let mut i: usize = 0;
        while i < self.by_slot.len()
            invariant
                slot_ordered(self.by_slot@),
                i <= self.by_slot@.len(),
                forall|k: int| 0 <= k < i ==> self.by_slot@[k].slot < slot,
            decreases self.by_slot@.len() - i,
        {
            let s = self.by_slot[i].slot;
            if s == slot {
                return Ok(i);
            }
            if s > slot {
                return Err(i);
            }
            i = i + 1;
        }
        Err(i)
    }

    /// Block committed at `slot`, if any.
    pub fn block_by_slot(&self, slot: Slot) -> (b: Option<BeaconBlock>)
        ensures
            b == self.slot_read(slot),
    {
        proof {
            use_type_invariant(self);
        }
        match self.locate(slot) {
            Ok(i) => {
                proof {
                    lemma_blocks_of_at(self.by_slot@, i as int);
                }
                Some(self.by_slot[i])
            },
            Err(i) => {
                proof {
                    if self.blocks().contains_key(slot) {
                        let k = choose|k: int| 0 <= k < self.by_slot@.len() && #[trigger] self.by_slot@[k].slot == slot;
                    }
                }
                None
            },
        }
    }

    /// Commit `block` at its slot, replacing any block there, and index it
    /// by its hash.
    pub fn commit(&mut self, block: &BeaconBlock)
        ensures
            committed(*old(self), *block, *final(self)),
    {
        proof {
            use_type_invariant(&*self);
        }
        let pos = self.locate(block.slot);
        let mut v: Vec<BeaconBlock> = Vec::new();
        std::mem::swap(&mut v, &mut self.by_slot);
        let ghost pre = v@;
        match pos {
            Ok(i) => {
                v[i] = *block;
                proof {
                    let post = v@;
                    assert(post == pre.update(i as int, *block));
                    assert forall|a: int, b: int| 0 <= a < b < post.len() implies post[a].slot < post[b].slot by {
                        assert(post[a].slot == pre[a].slot && post[b].slot == pre[b].slot);
                    }
                    assert(post[i as int] == *block);
                    assert forall|k: int| 0 <= k < pre.len() && pre[k].slot != block.slot implies post.contains(#[trigger] pre[k]) by {
                        assert(post[k] == pre[k]);
                    }
                    assert forall|k: int| 0 <= k < post.len() && post[k].slot != block.slot implies pre.contains(#[trigger] post[k]) by {
                        assert(post[k] == pre[k]);
                    }
                    lemma_commit_map(pre, post, *block);
                }
            },
            Err(i) => {
                v.insert(i, *block);
                proof {
                    let post = v@;
                    assert(post == pre.insert(i as int, *block));
                    assert forall|a: int| 0 <= a < post.len() implies #[trigger] post[a] == (if a < i {
                        pre[a]
                    } else if a == i {
                        *block
                    } else {
                        pre[a - 1]
                    }) by {}
                    assert forall|a: int, b: int| 0 <= a < b < post.len() implies post[a].slot < post[b].slot by {
                        assert(post[a] == (if a < i { pre[a] } else if a == i { *block } else { pre[a - 1] }));
                        assert(post[b] == (if b < i { pre[b] } else if b == i { *block } else { pre[b - 1] }));
                    }
                    assert(post[i as int] == *block);
                    assert forall|k: int| 0 <= k < pre.len() && pre[k].slot != block.slot implies post.contains(#[trigger] pre[k]) by {
                        if k < i {
                            assert(post[k] == pre[k]);
                        } else {
                            assert(post[k + 1] == pre[k]);
                        }
                    }
                    assert forall|k: int| 0 <= k < post.len() && post[k].slot != block.slot implies pre.contains(#[trigger] post[k]) by {
                        if k < i {
                            assert(post[k] == pre[k]);
                        } else {
                            assert(post[k] == pre[k - 1]);
                        }
                    }
                    lemma_commit_map(pre, post, *block);
                }
            },
        }
        self.by_slot = v;
        let mut index: BTreeMap<BeaconBlockHash, Slot> = BTreeMap::new();
        std::mem::swap(&mut index, &mut self.hash_to_slot);
        index.insert(block.block_hash, block.slot);
        self.hash_to_slot = index;
    }
}

proof fn lemma_commit_map(pre: Seq<BeaconBlock>, post: Seq<BeaconBlock>, block: BeaconBlock)
    requires
        slot_ordered(pre),
        slot_ordered(post),
        post.contains(block),
        forall|k: int| 0 <= k < pre.len() && pre[k].slot != block.slot ==> post.contains(#[trigger] pre[k]),
        forall|k: int| 0 <= k < post.len() && post[k].slot != block.slot ==> pre.contains(#[trigger] post[k]),
    ensures
        blocks_of(post) == blocks_of(pre).insert(block.slot, block),
        latest_of(post) == (match latest_of(pre) {
            Some(l) => Some(if l >= block.slot { l } else { block.slot }),
            None => Some(block.slot),
        }),
{
    assert forall|s: Slot| #[trigger] blocks_of(post).contains_key(s) == blocks_of(pre).insert(block.slot, block).contains_key(s) by {
        if blocks_of(post).contains_key(s) && s != block.slot {
            let k = choose|k: int| 0 <= k < post.len() && #[trigger] post[k].slot == s;
            let k2 = choose|k2: int| 0 <= k2 < pre.len() && pre[k2] == post[k];
            assert(pre[k2].slot == s);
        }
        if blocks_of(pre).contains_key(s) && s != block.slot {
            let k = choose|k: int| 0 <= k < pre.len() && #[trigger] pre[k].slot == s;
            assert(post.contains(pre[k]));
            let k2 = choose|k2: int| 0 <= k2 < post.len() && post[k2] == pre[k];
            assert(post[k2].slot == s);
        }
        if s == block.slot {
            let k = choose|k: int| 0 <= k < post.len() && post[k] == block;
            assert(post[k].slot == s);
        }
    }
    assert forall|s: Slot| blocks_of(post).contains_key(s) implies #[trigger] blocks_of(post)[s] == blocks_of(pre).insert(block.slot, block)[s] by {
        let k = choose|k: int| 0 <= k < post.len() && #[trigger] post[k].slot == s;
        lemma_blocks_of_at(post, k);
        if s == block.slot {
            let kb = choose|kb: int| 0 <= kb < post.len() && post[kb] == block;
            lemma_blocks_of_at(post, kb);
        } else {
            let k2 = choose|k2: int| 0 <= k2 < pre.len() && pre[k2] == post[k];
            lemma_blocks_of_at(pre, k2);
        }
    }
    assert(blocks_of(post) =~= blocks_of(pre).insert(block.slot, block));
    // The last entry carries the highest slot.
    let kb = choose|kb: int| 0 <= kb < post.len() && post[kb] == block;
    assert(post.len() > 0);
    let lp = post.last();
    if lp.slot != block.slot {
        let k2 = choose|k2: int| 0 <= k2 < pre.len() && pre[k2] == lp;
        if kb < post.len() - 1 {
            assert(post[kb].slot < post[post.len() - 1].slot);
        }
        if k2 < pre.len() - 1 {
            assert(pre[k2].slot < pre[pre.len() - 1].slot);
            assert(post.contains(pre.last()) || pre.last().slot == block.slot);
            if post.contains(pre.last()) {
                let k3 = choose|k3: int| 0 <= k3 < post.len() && post[k3] == pre.last();
                if k3 < post.len() - 1 {
                    assert(post[k3].slot < post[post.len() - 1].slot);
                }
            }
        }
    } else {
        if pre.len() > 0 && pre.last().slot != block.slot {
            assert(post.contains(pre.last()));
            let k3 = choose|k3: int| 0 <= k3 < post.len() && post[k3] == pre.last();
            if k3 < post.len() - 1 {
                assert(post[k3].slot < post[post.len() - 1].slot);
            }
        }
    }
}

impl SimBeaconStorage {
    /// Block whose hash is indexed, read at the indexed slot.
    pub fn block_by_hash(&self, hash: BeaconBlockHash) -> (b: Option<BeaconBlock>)
        ensures
            b == self.hash_read(hash),
    {
        match self.hash_to_slot.get(&hash) {
            Some(slot) => match self.block_by_slot(*slot) {
                Some(b) => if hash_eq(&b.block_hash, &hash) {
                    Some(b)
                } else {
                    None
                },
                None => None,
            },
            None => None,
        }
    }

    /// Highest slot with a committed block, if any.
    pub fn latest_slot(&self) -> (l: Option<Slot>)
        ensures
            l == self.latest(),
            l is None <==> self.blocks().dom().is_empty(),
            l matches Some(m) ==> self.blocks().contains_key(m) && forall|s: Slot|
                #[trigger] self.blocks().contains_key(s) ==> s <= m,
    {
        proof {
            use_type_invariant(self);
            self.lemma_latest_is_max();
        }
        let n = self.by_slot.len();
        if n == 0 {
            None
        } else {
            Some(self.by_slot[n - 1].slot)
        }
    }

    /// Committed blocks at slots `>= from`, in ascending slot order.
    #[verifier::rlimit(40)]
    pub fn blocks_from_slot(&self, from: Slot) -> (out: Vec<BeaconBlock>)
        ensures
            blocks_from(self.blocks(), from, out@),
    {
        proof {
            use_type_invariant(self);
        }
        let v = &self.by_slot;
        let mut out: Vec<BeaconBlock> = Vec::new();
        let mut i: usize = 0;
        while i < v.len()
            invariant
                slot_ordered(v@),
                v@ == self.by_slot@,
                i <= v@.len(),
                forall|a: int, b: int| 0 <= a < b < out@.len() ==> out@[a].slot < out@[b].slot,
                forall|a: int| 0 <= a < out@.len() ==> exists|k: int| 0 <= k < i && v@[k] == #[trigger] out@[a] && v@[k].slot >= from,
                forall|k: int| 0 <= k < i && v@[k].slot >= from ==> exists|a: int| 0 <= a < out@.len() && #[trigger] out@[a].slot == v@[k].slot,
                out@.len() > 0 ==> exists|k: int| 0 <= k < i && v@[k] == out@.last(),
            decreases v@.len() - i,
        {
            let b = v[i];
            if b.slot >= from {
                let ghost o0 = out@;
                out.push(b);
                proof {
                    assert forall|a: int, c: int| 0 <= a < c < out@.len() implies out@[a].slot < out@[c].slot by {
                        if c == o0.len() {
                            let k = choose|k: int| 0 <= k < i && v@[k] == #[trigger] o0[a] && v@[k].slot >= from;
                            assert(v@[k].slot < v@[i as int].slot);
                        } else {
                            assert(out@[a] == o0[a] && out@[c] == o0[c]);
                        }
                    }
                    assert forall|a: int| 0 <= a < out@.len() implies exists|k: int| 0 <= k < i + 1 && v@[k] == #[trigger] out@[a] && v@[k].slot >= from by {
                        if a < o0.len() {
                            assert(out@[a] == o0[a]);
                            let k = choose|k: int| 0 <= k < i && v@[k] == #[trigger] o0[a] && v@[k].slot >= from;
                        } else {
                            assert(v@[i as int] == out@[a]);
                        }
                    }
                    assert forall|k: int| 0 <= k < i + 1 && v@[k].slot >= from implies exists|a: int| 0 <= a < out@.len() && #[trigger] out@[a].slot == v@[k].slot by {
                        if k < i {
                            let a = choose|a: int| 0 <= a < o0.len() && #[trigger] o0[a].slot == v@[k].slot;
                            assert(out@[a] == o0[a]);
                        } else {
                            assert(out@[o0.len() as int].slot == v@[k].slot);
                        }
                    }
                    assert(v@[i as int] == out@.last());
                }
            }
            i = i + 1;
        }
        proof {
            let m = self.blocks();
            assert forall|a: int| 0 <= a < out@.len() implies #[trigger] out@[a].slot >= from && m.contains_key(out@[a].slot)
                && m[out@[a].slot] == out@[a] by {
                let k = choose|k: int| 0 <= k < v@.len() && v@[k] == #[trigger] out@[a] && v@[k].slot >= from;
                lemma_blocks_of_at(v@, k);
            }
            assert forall|slot: Slot| #[trigger] m.contains_key(slot) && slot >= from implies exists|a: int|
                0 <= a < out@.len() && out@[a].slot == slot by {
                let k = choose|k: int| 0 <= k < v@.len() && #[trigger] v@[k].slot == slot;
                let a = choose|a: int| 0 <= a < out@.len() && #[trigger] out@[a].slot == v@[k].slot;
            }
        }
        out
    }
}

impl BeaconChainReader for SimBeaconStorage {
    fn get_beacon_block_by_slot(&self, slot: Slot) -> (b: Option<BeaconBlock>)
        ensures
            b == self.slot_read(slot),
    {
        self.block_by_slot(slot)
    }

    fn get_beacon_block_by_hash(&self, hash: BeaconBlockHash) -> (b: Option<BeaconBlock>)
        ensures
            b == self.hash_read(hash),
    {
        self.block_by_hash(hash)
    }

    fn latest_committed_slot(&self) -> (l: Option<Slot>)
        ensures
            l is None <==> self.blocks().dom().is_empty(),
            l matches Some(m) ==> self.blocks().contains_key(m) && forall|s: Slot|
                #[trigger] self.blocks().contains_key(s) ==> s <= m,
    {
        self.latest_slot()
    }

    fn iter_beacon_blocks_from(&self, from: Slot) -> (out: Vec<BeaconBlock>)
        ensures
            blocks_from(self.blocks(), from, out@),
    {
        self.blocks_from_slot(from)
    }
}

impl BeaconChainWriter for SimBeaconStorage {
    fn commit_beacon_block(&mut self, block: &BeaconBlock)
        ensures
            committed(*old(self), *block, *final(self)),
    {
        self.commit(block);
    }
}

/// A read after a commit gives back the committed block, by its slot and by
/// its hash, and leaves every other slot as it was; the latest slot is at
/// least the committed one.
pub proof fn lemma_read_after_commit(
    before: SimBeaconStorage,
    block: BeaconBlock,
    after: SimBeaconStorage,
    other: Slot,
)
    requires
        committed(before, block, after),
    ensures
        after.slot_read(block.slot) == Some(block),
        after.hash_read(block.block_hash) == Some(block),
        other != block.slot ==> after.slot_read(other) == before.slot_read(other),
        after.latest() matches Some(l) && l >= block.slot,
{
}

/// Committing keeps the hash index consistent with the slot store, unless
/// the commit replaces a block of another hash at an occupied slot.
pub proof fn lemma_commit_keeps_hash_consistency(
    before: SimBeaconStorage,
    block: BeaconBlock,
    after: SimBeaconStorage,
)
    requires
        committed(before, block, after),
        before.hash_consistent(),
        before.blocks().contains_key(block.slot) ==> before.blocks()[block.slot].block_hash == block.block_hash,
    ensures
        after.hash_consistent(),
{
    assert forall|h: BeaconBlockHash| #[trigger] after.hash_index().contains_key(h) implies after.blocks().contains_key(
        after.hash_index()[h],
    ) && after.blocks()[after.hash_index()[h]].block_hash == h by {
        if h != block.block_hash {
            assert(before.hash_index().contains_key(h));
        }
    }
}

/// A read by hash gives back only a block whose hash it is.
pub proof fn lemma_hash_read_carries_hash(s: SimBeaconStorage, hash: BeaconBlockHash)
    ensures
        s.hash_read(hash) matches Some(b) ==> b.block_hash == hash,
{
}

} // verus!
