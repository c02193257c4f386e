//! Split observer-cohort lifecycle on the beacon state: the admission-time
//! draw of a committee-size cohort from the free pool, and its release when
//! the split is cancelled.
use std::collections::BTreeMap;

use rand::rngs::StdRng;
use rand::{RngExt, SeedableRng};
use vstd::bytes::spec_u64_to_le_bytes;
use vstd::prelude::*;
use vstd::std_specs::iter::IteratorSpec;
use vstd::string::StringSliceAdditionalSpecFns;

use crate::hashing::{blake3_digest, blake3_hash};
use crate::types::{can_split, left_child, right_child, shard_children, Epoch, ShardId, ValidatorId};

verus! {

/// A validator's placement in the network.
#[derive(Debug, Clone, Copy, PartialEq, Eq, Structural)]
pub enum ValidatorStatus {
    /// In the free pool, available for a cohort draw.
    Pooled,
    /// Drawn into the pending split of `shard`, syncing a child.
    Observing { shard: ShardId, placed_at_epoch: Epoch },
    /// Seated on `shard`'s committee.
    OnShard { shard: ShardId, ready: bool },
    /// Left the validator set.
    Exited,
}

/// One validator's record in the beacon state.
#[derive(Debug, Clone, Copy, PartialEq, Eq, Structural)]
pub struct ValidatorRecord {
    pub id: ValidatorId,
    pub status: ValidatorStatus,
}

/// A cohort member's assignment: the child it syncs, and whether it has
/// signalled ready.
#[derive(Debug, Clone, Copy, PartialEq, Eq, Structural)]
pub struct CohortSeat {
    pub child: ShardId,
    pub ready: bool,
}

/// A reshape admitted but not yet executed.
pub enum PendingReshape {
    /// A split staffed by an observer cohort.
    Split { cohort: BTreeMap<ValidatorId, CohortSeat> },
    /// A merge; it carries no cohort.
    Merge,
}

/// The part of the beacon state the cohort lifecycle reads and writes.
pub struct BeaconState {
    /// Every validator record, in increasing id order.
    pub validators: Vec<ValidatorRecord>,
    /// Each shard's lookahead committee.
    pub next_shard_committees: BTreeMap<ShardId, Vec<ValidatorId>>,
    /// Target committee size.
    pub shard_size: u64,
    /// The beacon's current randomness.
    pub randomness: [u8; 32],
    /// The current epoch.
    pub current_epoch: Epoch,
}

/// The ids of the pooled records of `recs`, in order.
pub open spec fn pooled_ids(recs: Seq<ValidatorRecord>) -> Seq<ValidatorId>
    decreases recs.len(),
{
    if recs.len() == 0 {
        Seq::empty()
    } else {
        let rest = pooled_ids(recs.drop_last());
        if recs.last().status is Pooled {
            rest.push(recs.last().id)
        } else {
            rest
        }
    }
}

impl BeaconState {
    /// Records are in strictly increasing id order.
    pub open spec fn wf(&self) -> bool {
        forall|i: int, j: int|
            0 <= i < j < self.validators@.len() ==> self.validators@[i].id
                < self.validators@[j].id
    }

    /// The pooled validators, in increasing id order.
    pub fn pooled_validators(&self) -> (pool: Vec<ValidatorId>)
        ensures
            pool@ == pooled_ids(self.validators@),
    {
        let mut pool: Vec<ValidatorId> = Vec::new();
        let mut i: usize = 0;
        while i < self.validators.len()
            invariant
                i <= self.validators@.len(),
                pool@ == pooled_ids(self.validators@.take(i as int)),
            decreases self.validators@.len() - i,
        {
            let rec = self.validators[i];
            assert(self.validators@.take(i + 1).drop_last() == self.validators@.take(i as int));
            if let ValidatorStatus::Pooled = rec.status {
                pool.push(rec.id);
            }
            i = i + 1;
        }
        assert(self.validators@.take(i as int) == self.validators@);
        pool
    }
}

/// Every pooled id is the id of a pooled record; in a well-formed state the
/// pooled ids are strictly increasing.
proof fn lemma_pooled_ids_props(recs: Seq<ValidatorRecord>)
    requires
        forall|i: int, j: int| 0 <= i < j < recs.len() ==> recs[i].id < recs[j].id,
    ensures
        forall|k: int| 0 <= k < pooled_ids(recs).len() ==> exists|r: int|
            0 <= r < recs.len() && recs[r].id == #[trigger] pooled_ids(recs)[k] && recs[r].status is Pooled,
        forall|a: int, b: int| 0 <= a < b < pooled_ids(recs).len() ==> pooled_ids(recs)[a] < pooled_ids(recs)[b],
        forall|k: int| 0 <= k < pooled_ids(recs).len() && recs.len() > 0 ==> pooled_ids(recs)[k] <= recs.last().id,
    decreases recs.len(),
{
    if recs.len() > 0 {
        let init = recs.drop_last();
        lemma_pooled_ids_props(init);
        let p = pooled_ids(init);
        assert forall|k: int| 0 <= k < p.len() && init.len() > 0 implies p[k] < recs.last().id by {
            assert(p[k] <= init.last().id);
        }
        assert forall|k: int| 0 <= k < pooled_ids(recs).len() implies exists|r: int|
            0 <= r < recs.len() && recs[r].id == #[trigger] pooled_ids(recs)[k] && recs[r].status is Pooled by {
            if k < p.len() {
                let r = choose|r: int| 0 <= r < init.len() && init[r].id == p[k] && init[r].status is Pooled;
                assert(recs[r] == init[r]);
            } else {
                assert(recs[recs.len() - 1] == recs.last());
            }
        }
        if p.len() > 0 {
            assert(init.len() > 0);
        }
    }
}

/// Domain tag of the cohort-draw seed.
pub const DOMAIN_RESHAPE_COHORT: &'static str = "hyperscale-reshape-cohort-v1";

/// The bytes hashed into the cohort-draw seed:
/// `domain || randomness || epoch (8 LE) || target (8 LE)`.
pub open spec fn cohort_seed_message(randomness: Seq<u8>, epoch: Epoch, target: ShardId) -> Seq<u8> {
    DOMAIN_RESHAPE_COHORT.spec_bytes() + randomness + spec_u64_to_le_bytes(epoch)
        + spec_u64_to_le_bytes(target)
}

/// The seed of `target`'s cohort draw in `state`.
pub fn cohort_seed(state: &BeaconState, target: ShardId) -> (seed: [u8; 32])
    ensures
        seed@ == blake3_digest(cohort_seed_message(state.randomness@, state.current_epoch, target)),
{
    let mut msg = vstd::slice::slice_to_vec(DOMAIN_RESHAPE_COHORT.as_bytes());
    let mut rnd = vstd::slice::slice_to_vec(state.randomness.as_slice());
    msg.append(&mut rnd);
    let mut epoch_bytes = vstd::bytes::u64_to_le_bytes(state.current_epoch);
    msg.append(&mut epoch_bytes);
    let mut target_bytes = vstd::bytes::u64_to_le_bytes(target);
    msg.append(&mut target_bytes);
    blake3_hash(msg.as_slice())
}

#[verifier::external_type_specification]
#[verifier::external_body]
pub struct ExStdRng(StdRng);

/// Calls `StdRng::from_seed`; nothing is claimed of the generator.
#[verifier::external_body]
fn prng_from(seed: [u8; 32]) -> StdRng {
    StdRng::from_seed(seed)
}

/// Calls `RngExt::random_range` on `0..=hi`. The contract claims only that
/// the draw is at most `hi`; which value comes back is left unsaid.
#[verifier::external_body]
fn random_index_up_to(rng: &mut StdRng, hi: usize) -> (j: usize)
    ensures
        j <= hi,
{
    rng.random_range(0..=hi)
}

/// Whether `shuffled` is a reordering of `pool`, a sequence without repeats.
pub open spec fn is_reordering(shuffled: Seq<ValidatorId>, pool: Seq<ValidatorId>) -> bool {
    &&& shuffled.len() == pool.len()
    &&& shuffled.no_duplicates()
    &&& forall|x: ValidatorId| shuffled.contains(x) <==> pool.contains(x)
}

/// `s` with the entries at `i` and `j` exchanged.
pub open spec fn swapped(s: Seq<ValidatorId>, i: int, j: int) -> Seq<ValidatorId> {
    s.update(i, s[j]).update(j, s[i])
}

/// A Fisher-Yates pass over `s` driven by `draws`, counting down from
/// position `top`: the `k`-th draw names the entry swapped into position
/// `top - k`.
pub open spec fn fisher_yates(s: Seq<ValidatorId>, top: int, draws: Seq<int>) -> Seq<ValidatorId>
    decreases draws.len(),
{
    if draws.len() == 0 {
        s
    } else {
        swapped(fisher_yates(s, top, draws.drop_last()), top - (draws.len() - 1), draws.last())
    }
}

/// Whether each draw names an entry at or below the position it fills.
pub open spec fn draws_in_range(top: int, draws: Seq<int>) -> bool {
    forall|k: int| 0 <= k < draws.len() ==> 0 <= #[trigger] draws[k] <= top - k
}

/// The number of draws a Fisher-Yates pass over `n` entries makes.
pub open spec fn draw_count(n: int) -> int {
    if n > 1 {
        n - 1
    } else {
        0
    }
}

/// Shuffle `pool` in place with a Fisher-Yates pass driven by `rng`: for
/// each position from the last down to the second, the entry there is
/// exchanged with one drawn from the positions up to it. Which entries are
/// drawn rests on the generator.
fn shuffle(pool: &mut Vec<ValidatorId>, rng: &mut StdRng)
    requires
        old(pool)@.no_duplicates(),
    ensures
        is_reordering(final(pool)@, old(pool)@),
        exists|draws: Seq<int>|
            draws.len() == draw_count(old(pool)@.len() as int) && draws_in_range(old(pool)@.len() - 1, draws)
                && final(pool)@ == #[trigger] fisher_yates(old(pool)@, old(pool)@.len() - 1, draws),
{
    let ghost orig = pool@;
    let n = pool.len();
    let mut i: usize = n;
    let ghost mut draws: Seq<int> = Seq::empty();
    while i > 1
        invariant
            1 <= n ==> 1 <= i <= n,
            n == 0 ==> i == 0,
            is_reordering(pool@, orig),
            pool@.len() == n,
            orig.len() == n,
            draws.len() == n - i,
            draws_in_range(n - 1, draws),
            pool@ == fisher_yates(orig, n - 1, draws),
        decreases i,
    {
        i = i - 1;
        let j = random_index_up_to(rng, i);
        proof {
            let prev = draws;
            draws = draws.push(j as int);
            assert(draws.drop_last() =~= prev);
        }
        let a = pool[i];
        let b = pool[j];
        let ghost before = pool@;
        pool[i] = b;
        pool[j] = a;
        proof {
            assert(pool@ == before.update(i as int, b).update(j as int, a));
            assert(pool@ == swapped(before, i as int, j as int));
            assert(pool@ == fisher_yates(orig, n - 1, draws));
            assert forall|x: ValidatorId| pool@.contains(x) <==> before.contains(x) by {
                if pool@.contains(x) {
                    let k = choose|k: int| 0 <= k < pool@.len() && pool@[k] == x;
                    if k == i {
                        assert(before[j as int] == x);
                    } else if k == j {
                        assert(before[i as int] == x);
                    } else {
                        assert(before[k] == x);
                    }
                }
                if before.contains(x) {
                    let k = choose|k: int| 0 <= k < before.len() && before[k] == x;
                    if k == i {
                        assert(pool@[j as int] == x);
                    } else if k == j {
                        assert(pool@[i as int] == x);
                    } else {
                        assert(pool@[k] == x);
                    }
                }
            }
        }
    }
    assert(draws.len() == draw_count(n as int));
}

/// Whether `drawn` is the first `k` entries of some reordering of `pool`.
pub open spec fn is_shuffled_prefix(drawn: Seq<ValidatorId>, pool: Seq<ValidatorId>, k: int) -> bool {
    exists|shuffled: Seq<ValidatorId>| #[trigger] is_reordering(shuffled, pool) && drawn == shuffled.take(k)
}

/// The child a cohort member at draw position `i` syncs: the first
/// `ceil(size / 2)` go left, the rest right.
pub open spec fn seat_child(i: int, size: int, target: ShardId) -> ShardId {
    if i < (size + 1) / 2 {
        left_child(target) as ShardId
    } else {
        right_child(target) as ShardId
    }
}

/// `recs` with every record whose id is in `drawn` moved to observing
/// `target` as of `epoch`.
pub open spec fn mark_observers(recs: Seq<ValidatorRecord>, drawn: Set<ValidatorId>, target: ShardId, epoch: Epoch) -> Seq<ValidatorRecord> {
    recs.map_values(|r: ValidatorRecord| if drawn.contains(r.id) {
        ValidatorRecord { id: r.id, status: ValidatorStatus::Observing { shard: target, placed_at_epoch: epoch } }
    } else {
        r
    })
}

/// The committees with each member list by its view.
pub open spec fn committees_view(committees: Map<ShardId, Vec<ValidatorId>>) -> Map<ShardId, Seq<ValidatorId>> {
    committees.map_values(|v: Vec<ValidatorId>| v@)
}

/// The members `committees` lists for `shard`, or none.
pub open spec fn members_of(committees: Map<ShardId, Vec<ValidatorId>>, shard: ShardId) -> Seq<ValidatorId> {
    if committees.contains_key(shard) {
        committees[shard]@
    } else {
        Seq::empty()
    }
}

/// What a cohort draw of `drawn` (in draw order) does to the state and
/// what it returns.
pub open spec fn cohort_drawn(
    pre: &BeaconState,
    post: &BeaconState,
    target: ShardId,
    drawn: Seq<ValidatorId>,
    cohort: Map<ValidatorId, CohortSeat>,
) -> bool {
    let pool = pooled_ids(pre.validators@);
    let size = (pre.shard_size as usize) as int;
    let k = if size < pool.len() { size } else { pool.len() as int };
    &&& is_shuffled_prefix(drawn, pool, k)
    &&& drawn.no_duplicates()
    &&& cohort.dom() == drawn.to_set()
    &&& forall|i: int| 0 <= i < drawn.len() ==> #[trigger] cohort[drawn[i]] == (CohortSeat {
        child: seat_child(i, size, target),
        ready: false,
    })
    &&& post.validators@ == mark_observers(pre.validators@, drawn.to_set(), target, pre.current_epoch)
    &&& committees_view(post.next_shard_committees@) == if k > 0 {
        committees_view(pre.next_shard_committees@).insert(
            target,
            members_of(pre.next_shard_committees@, target) + drawn,
        )
    } else {
        committees_view(pre.next_shard_committees@)
    }
    &&& post.shard_size == pre.shard_size
    &&& post.randomness == pre.randomness
    &&& post.current_epoch == pre.current_epoch
}

/// Move every record whose id is `id` to observing `target`.
fn set_observing(validators: &mut Vec<ValidatorRecord>, id: ValidatorId, target: ShardId, epoch: Epoch)
    ensures
        final(validators)@ == old(validators)@.map_values(|r: ValidatorRecord| if r.id == id {
            ValidatorRecord { id: r.id, status: ValidatorStatus::Observing { shard: target, placed_at_epoch: epoch } }
        } else {
            r
        }),
{
    let ghost orig = validators@;
    let mut i: usize = 0;
    while i < validators.len()
        invariant
            validators@.len() == orig.len(),
            i <= orig.len(),
            forall|k: int| 0 <= k < i ==> validators@[k] == (if orig[k].id == id {
                ValidatorRecord { id: orig[k].id, status: ValidatorStatus::Observing { shard: target, placed_at_epoch: epoch } }
            } else {
                orig[k]
            }),
            forall|k: int| i <= k < orig.len() ==> validators@[k] == orig[k],
        decreases orig.len() - i,
    {
        if validators[i].id == id {
            validators[i] = ValidatorRecord {
                id,
                status: ValidatorStatus::Observing { shard: target, placed_at_epoch: epoch },
            };
        }
        i = i + 1;
    }
    assert(validators@ =~= orig.map_values(|r: ValidatorRecord| if r.id == id {
        ValidatorRecord { id: r.id, status: ValidatorStatus::Observing { shard: target, placed_at_epoch: epoch } }
    } else {
        r
    }));
}

/// Draw a committee-size observer cohort for the pending split of `target`
/// from the free pool: the pool is shuffled with a generator seeded by
/// [`cohort_seed`], the first `shard_size` shuffled validators are drawn,
/// the first `ceil(shard_size / 2)` of them are seated on the left child and
/// the rest on the right. Each drawn validator becomes observing `target` and
/// joins `target`'s lookahead committee, in draw order.
pub fn draw_split_cohort(state: &mut BeaconState, target: ShardId) -> (cohort: BTreeMap<ValidatorId, CohortSeat>)
    requires
        old(state).wf(),
        can_split(target),
    ensures
        exists|drawn: Seq<ValidatorId>| #[trigger] cohort_drawn(old(state), final(state), target, drawn, cohort@),
{
    let ghost pre_validators = state.validators@;
    let mut pool = state.pooled_validators();
    proof {
        lemma_pooled_ids_props(state.validators@);
        assert(pool@.no_duplicates());
    }
    let ghost pool0 = pool@;
    let size = state.shard_size as usize;

    let seed = cohort_seed(state, target);
    let mut prng = prng_from(seed);
    shuffle(&mut pool, &mut prng);
    let ghost shuffled = pool@;
    pool.truncate(size);
    let ghost k: int = if size < pool0.len() { size as int } else { pool0.len() as int };
    assert(pool@ == shuffled.take(k));

    let (left, right) = shard_children(target);
    let half = size / 2 + size % 2;
    let mut cohort: BTreeMap<ValidatorId, CohortSeat> = BTreeMap::new();
    let mut i: usize = 0;
    while i < pool.len()
        invariant
            pool@ == shuffled.take(k),
            pool@.no_duplicates(),
            i <= pool@.len(),
            half == (size + 1) / 2,
            left == left_child(target),
            right == right_child(target),
            cohort@.dom() == pool@.take(i as int).to_set(),
            forall|m: int| 0 <= m < i ==> #[trigger] cohort@[pool@[m]] == (CohortSeat {
                child: seat_child(m, size as int, target),
                ready: false,
            }),
            state.validators@ == mark_observers(pre_validators, pool@.take(i as int).to_set(), target, state.current_epoch),
            state.next_shard_committees@ == old(state).next_shard_committees@,
            state.shard_size == old(state).shard_size,
            state.randomness == old(state).randomness,
            state.current_epoch == old(state).current_epoch,
        decreases pool@.len() - i,
    {
        let id = pool[i];
        let child = if i < half { left } else { right };
        cohort.insert(id, CohortSeat { child, ready: false });
        let ghost before = state.validators@;
        set_observing(&mut state.validators, id, target, state.current_epoch);
        proof {
            let s0 = pool@.take(i as int);
            let s1 = pool@.take(i + 1);
            assert(s1 == s0.push(id));
            s0.lemma_push_to_set_commute(id);
            assert(s1.to_set() == s0.to_set().insert(id));
            assert(state.validators@ =~= mark_observers(pre_validators, s1.to_set(), target, state.current_epoch));
            assert forall|m: int| 0 <= m < i + 1 implies #[trigger] cohort@[pool@[m]] == (CohortSeat {
                child: seat_child(m, size as int, target),
                ready: false,
            }) by {
                if m < i {
                    assert(pool@[m] != id);
                }
            }
        }
        i = i + 1;
    }
    assert(pool@.take(i as int) == pool@);
    if pool.len() > 0 {
        let mut members: Vec<ValidatorId> = match state.next_shard_committees.remove(&target) {
            Some(m) => m,
            None => Vec::new(),
        };
        let mut drawn = vstd::slice::slice_to_vec(pool.as_slice());
        members.append(&mut drawn);
        state.next_shard_committees.insert(target, members);
        assert(committees_view(state.next_shard_committees@) =~= committees_view(old(state).next_shard_committees@).insert(
            target,
            members_of(old(state).next_shard_committees@, target) + pool@,
        ));
    }
    proof {
        assert(is_reordering(shuffled, pooled_ids(old(state).validators@)) && pool@ == shuffled.take(k));
        assert(pool@.no_duplicates());
        let pl = pooled_ids(old(state).validators@);
        let sz = (old(state).shard_size as usize) as int;
        let kk = if sz < pl.len() { sz } else { pl.len() as int };
        assert(kk == k);
        assert(is_reordering(shuffled, pl));
        assert(is_shuffled_prefix(pool@, pl, kk));
        assert(cohort@.dom() == pool@.to_set());
        assert(forall|m: int| 0 <= m < pool@.len() ==> #[trigger] cohort@[pool@[m]] == (CohortSeat {
            child: seat_child(m, sz, target),
            ready: false,
        }));
        assert(state.validators@ == mark_observers(old(state).validators@, pool@.to_set(), target, old(state).current_epoch));
        assert(committees_view(state.next_shard_committees@) == if kk > 0 {
            committees_view(old(state).next_shard_committees@).insert(
                target,
                members_of(old(state).next_shard_committees@, target) + pool@,
            )
        } else {
            committees_view(old(state).next_shard_committees@)
        });
        assert(state.shard_size == old(state).shard_size);
        assert(state.randomness == old(state).randomness);
    }
    assert(cohort_drawn(old(state), state, target, pool@, cohort@));
    cohort
}

/// Whether `r` observes `target`'s pending split.
pub open spec fn observes(r: ValidatorRecord, target: ShardId) -> bool {
    r.status matches ValidatorStatus::Observing { shard, .. } && shard == target
}

/// `recs` with every observer of `target` listed in `cohort` back in the pool.
pub open spec fn release_observers(recs: Seq<ValidatorRecord>, cohort: Map<ValidatorId, CohortSeat>, target: ShardId) -> Seq<ValidatorRecord> {
    recs.map_values(|r: ValidatorRecord| if cohort.contains_key(r.id) && observes(r, target) {
        ValidatorRecord { id: r.id, status: ValidatorStatus::Pooled }
    } else {
        r
    })
}

/// Releasing a cohort touches only its members still observing `target`,
/// each of which goes back to the pool under its own id; every other record
/// (an exited member, one seated elsewhere, one observing another split,
/// or a validator outside the cohort) is left exactly as it was.
pub proof fn lemma_release_touches_only_observers(
    recs: Seq<ValidatorRecord>,
    cohort: Map<ValidatorId, CohortSeat>,
    target: ShardId,
)
    ensures
        release_observers(recs, cohort, target).len() == recs.len(),
        forall|i: int| 0 <= i < recs.len() && !(recs[i].status matches ValidatorStatus::Observing { shard, .. } && shard == target)
            ==> #[trigger] release_observers(recs, cohort, target)[i] == recs[i],
        forall|i: int| 0 <= i < recs.len() && !cohort.contains_key(recs[i].id)
            ==> #[trigger] release_observers(recs, cohort, target)[i] == recs[i],
        forall|i: int| 0 <= i < recs.len() && cohort.contains_key(recs[i].id) && (recs[i].status matches ValidatorStatus::Observing { shard, .. } && shard == target)
            ==> #[trigger] release_observers(recs, cohort, target)[i] == (ValidatorRecord { id: recs[i].id, status: ValidatorStatus::Pooled }),
{
}

/// Predicate "not a member of `cohort`".
pub open spec fn not_in_cohort(cohort: Map<ValidatorId, CohortSeat>) -> spec_fn(ValidatorId) -> bool {
    |m: ValidatorId| !cohort.contains_key(m)
}

/// Return a cancelled or abandoned split's cohort to the pool: each cohort
/// member leaves `target`'s lookahead committee, and each member still
/// observing `target` goes back to the pool. A merge carries no cohort and
/// releases nothing.
pub fn release_cohort(state: &mut BeaconState, target: ShardId, reshape: &PendingReshape)
    ensures
        final(state).shard_size == old(state).shard_size,
        final(state).randomness == old(state).randomness,
        final(state).current_epoch == old(state).current_epoch,
        match reshape {
            PendingReshape::Merge => {
                &&& final(state).validators@ == old(state).validators@
                &&& committees_view(final(state).next_shard_committees@) == committees_view(
                    old(state).next_shard_committees@,
                )
            },
            PendingReshape::Split { cohort } => {
                &&& final(state).validators@ == release_observers(old(state).validators@, cohort@, target)
                &&& committees_view(final(state).next_shard_committees@) == if old(
                    state,
                ).next_shard_committees@.contains_key(target) {
                    committees_view(old(state).next_shard_committees@).insert(
                        target,
                        old(state).next_shard_committees@[target]@.filter(not_in_cohort(cohort@)),
                    )
                } else {
                    committees_view(old(state).next_shard_committees@)
                }
            },
        },
{
    let cohort = match reshape {
        PendingReshape::Split { cohort } => cohort,
        PendingReshape::Merge => {
            return ;
        },
    };
    release_split_cohort(state, target, cohort);
}

/// The split arm of [`release_cohort`].
fn release_split_cohort(state: &mut BeaconState, target: ShardId, cohort: &BTreeMap<ValidatorId, CohortSeat>)
    ensures
        final(state).shard_size == old(state).shard_size,
        final(state).randomness == old(state).randomness,
        final(state).current_epoch == old(state).current_epoch,
        final(state).validators@ == release_observers(old(state).validators@, cohort@, target),
        committees_view(final(state).next_shard_committees@) == if old(
            state,
        ).next_shard_committees@.contains_key(target) {
            committees_view(old(state).next_shard_committees@).insert(
                target,
                old(state).next_shard_committees@[target]@.filter(not_in_cohort(cohort@)),
            )
        } else {
            committees_view(old(state).next_shard_committees@)
        },
{
    if let Some(members) = state.next_shard_committees.remove(&target) {
        let mut kept: Vec<ValidatorId> = Vec::new();
        let mut i: usize = 0;
        while i < members.len()
            invariant
                i <= members@.len(),
                kept@ == members@.take(i as int).filter(not_in_cohort(cohort@)),
            decreases members@.len() - i,
        {
            let m = members[i];
            proof {
                assert(members@.take(i + 1) == members@.take(i as int).push(m));
                members@.take(i as int).lemma_filter_push(m, not_in_cohort(cohort@));
            }
            if !cohort.contains_key(&m) {
                kept.push(m);
            }
            i = i + 1;
        }
        assert(members@.take(i as int) == members@);
        state.next_shard_committees.insert(target, kept);
        assert(committees_view(state.next_shard_committees@) =~= committees_view(old(state).next_shard_committees@).insert(
            target,
            old(state).next_shard_committees@[target]@.filter(not_in_cohort(cohort@)),
        ));
    } else {
        assert(state.next_shard_committees@ == old(state).next_shard_committees@);
    }
    let ghost orig = state.validators@;
    let ghost committees_after = state.next_shard_committees@;
    let mut j: usize = 0;
    while j < state.validators.len()
        invariant
            state.validators@.len() == orig.len(),
            j <= orig.len(),
            forall|k: int| 0 <= k < j ==> state.validators@[k] == (if cohort@.contains_key(orig[k].id) && observes(orig[k], target) {
                ValidatorRecord { id: orig[k].id, status: ValidatorStatus::Pooled }
            } else {
                orig[k]
            }),
            forall|k: int| j <= k < orig.len() ==> state.validators@[k] == orig[k],
            state.next_shard_committees@ == committees_after,
            state.shard_size == old(state).shard_size,
            state.randomness == old(state).randomness,
            state.current_epoch == old(state).current_epoch,
        decreases orig.len() - j,
    {
        let rec = state.validators[j];
        let is_observer = match rec.status {
            ValidatorStatus::Observing { shard, .. } => shard == target,
            _ => false,
        };
        if is_observer && cohort.contains_key(&rec.id) {
            state.validators[j] = ValidatorRecord { id: rec.id, status: ValidatorStatus::Pooled };
        }
        j = j + 1;
    }
    assert(state.validators@ =~= release_observers(orig, cohort@, target));
}

/// Releasing a drawn cohort undoes the draw on the validator records: every
/// drawn validator was pooled, became an observer of `target`, and goes back
/// to the pool, while every other record is untouched throughout. On the
/// target's lookahead committee, releasing leaves exactly the members that
/// were there before the draw and are not in the cohort.
pub proof fn lemma_release_undoes_draw(
    pre: &BeaconState,
    post: &BeaconState,
    target: ShardId,
    drawn: Seq<ValidatorId>,
    cohort: Map<ValidatorId, CohortSeat>,
)
    requires
        pre.wf(),
        cohort_drawn(pre, post, target, drawn, cohort),
    ensures
        release_observers(post.validators@, cohort, target) == pre.validators@,
        drawn.len() > 0 ==> post.next_shard_committees@[target]@.filter(not_in_cohort(cohort))
            == members_of(pre.next_shard_committees@, target).filter(not_in_cohort(cohort)),
{
    let recs = pre.validators@;
    let pool = pooled_ids(recs);
    let size = (pre.shard_size as usize) as int;
    let k = if size < pool.len() { size } else { pool.len() as int };
    lemma_pooled_ids_props(recs);
    let shuffled = choose|sh: Seq<ValidatorId>| #[trigger] is_reordering(sh, pool) && drawn == sh.take(k);
    assert forall|r: int| 0 <= r < recs.len() && drawn.to_set().contains(recs[r].id) implies recs[r].status is Pooled by {
        let x = recs[r].id;
        assert(drawn.contains(x));
        let a = choose|a: int| 0 <= a < drawn.len() && drawn[a] == x;
        assert(shuffled[a] == x);
        assert(shuffled.contains(x));
        assert(pool.contains(x));
        let b = choose|b: int| 0 <= b < pool.len() && pool[b] == x;
        let r2 = choose|r2: int| 0 <= r2 < recs.len() && recs[r2].id == #[trigger] pool[b] && recs[r2].status is Pooled;
        if r2 < r {
            assert(recs[r2].id < recs[r].id);
        } else if r < r2 {
            assert(recs[r].id < recs[r2].id);
        }
    }
    let marked = mark_observers(recs, drawn.to_set(), target, pre.current_epoch);
    assert(release_observers(marked, cohort, target) =~= recs);
    if drawn.len() > 0 {
        let m = members_of(pre.next_shard_committees@, target);
        assert(committees_view(post.next_shard_committees@).contains_key(target));
        assert(committees_view(post.next_shard_committees@)[target] == m + drawn);
        assert(post.next_shard_committees@.contains_key(target));
        assert(post.next_shard_committees@[target]@ == m + drawn);
        let pred = not_in_cohort(cohort);
        Seq::filter_distributes_over_add(m, drawn, pred);
        let f = drawn.filter(pred);
        if f.len() > 0 {
            let e = f[0];
            assert(f.contains(e));
            drawn.lemma_filter_contains_rev(pred, e);
            assert(drawn.to_set().contains(e));
        }
        assert(f =~= Seq::<ValidatorId>::empty());
        assert(m + f =~= m);
    }
}

/// Whether `pairs` lists the cohort's members with their children, in
/// increasing member order.
pub open spec fn cohort_pairs(cohort: Map<ValidatorId, CohortSeat>, pairs: Seq<(ValidatorId, ShardId)>) -> bool {
    &&& pairs.len() == cohort.dom().len()
    &&& forall|i: int, j: int| 0 <= i < j < pairs.len() ==> pairs[i].0 < pairs[j].0
    &&& forall|i: int| 0 <= i < pairs.len() ==> cohort.contains_key(#[trigger] pairs[i].0) && cohort[pairs[i].0].child
        == pairs[i].1
}

/// Validator ids order as the integers they are.
proof fn lemma_u64_keys_obey_cmp()
    ensures
        vstd::std_specs::btree::key_obeys_cmp_spec::<ValidatorId>(),
        vstd::laws_cmp::obeys_cmp::<ValidatorId>(),
{
    broadcast use vstd::std_specs::btree::group_btree_axioms;
    broadcast use vstd::laws_cmp::group_laws_cmp;
}

/// The cohort of a pending split as `(observer, child)` pairs in member
/// order; a merge has none.
pub fn pending_split_cohort(reshape: &PendingReshape) -> (pairs: Option<Vec<(ValidatorId, ShardId)>>)
    ensures
        match reshape {
            PendingReshape::Merge => pairs is None,
            PendingReshape::Split { cohort } => pairs matches Some(p) && cohort_pairs(cohort@, p@),
        },
{
    broadcast use vstd::std_specs::btree::group_btree_axioms;

    let cohort = match reshape {
        PendingReshape::Split { cohort } => cohort,
        PendingReshape::Merge => {
            return None;
        },
    };
    let ghost listed = vstd::std_specs::btree::spec_btree_map_iter(cohort).remaining();
    proof {
        lemma_u64_keys_obey_cmp();
    }
    let mut out: Vec<(ValidatorId, ShardId)> = Vec::new();
    for (v, seat) in it: cohort.iter()
        invariant
            it.seq() == listed,
            out@.len() == it.index(),
            forall|i: int| 0 <= i < out@.len() ==> #[trigger] out@[i] == (*listed[i].0, listed[i].1.child),
    {
        out.push((*v, seat.child));
    }
    proof {
        lemma_u64_keys_obey_cmp();
        assert(out@.len() == listed.len());
        let keys = listed.map_values(|kv: (&ValidatorId, &CohortSeat)| *kv.0);
        assert(vstd::std_specs::btree::increasing_seq(keys));
        assert forall|i: int, j: int| 0 <= i < j < out@.len() implies out@[i].0 < out@[j].0 by {
            assert(keys[i] == out@[i].0);
            assert(keys[j] == out@[j].0);
            assert(vstd::std_specs::cmp::OrdSpec::cmp_spec(&keys[i], &keys[j]) is Less);
        }
    }
    Some(out)
}

} // verus!
