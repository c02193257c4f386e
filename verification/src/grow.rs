//! Growing a single-shard genesis into a uniform power-of-two partition by
//! splitting: the target leaves, the budgets, and when growth is done. A
//! network only ever reaches a deeper partition by splitting, so every
//! harness grows through these decisions.
use vstd::arithmetic::power2::{lemma_pow2_pos, lemma_pow2_unfold, pow2};
use vstd::prelude::*;

use crate::types::ShardId;

verus! {

/// Epochs of lead before a threshold vote activates: enough for the vote to
/// commit and fold into the tally before it is read.
pub const VOTE_ACTIVATE_LEAD: u64 = 4;

/// Epochs one generation of splits is budgeted per level of depth.
pub const GROW_EPOCHS_PER_LEVEL: u32 = 40;

/// Whether `n` is a power of two that fits a `u32`.
pub open spec fn is_power_of_two(n: u32) -> bool {
    exists|d: nat| d < 32 && n == pow2(d)
}

/// The leaf at position `i` of depth `depth`, in heap numbering.
pub open spec fn leaf_spec(depth: nat, i: int) -> int {
    pow2(depth) + i
}

/// The depth of a uniform partition of `target` leaves: `log2(target)`.
pub fn grow_depth(target: u32) -> (depth: u32)
    requires
        is_power_of_two(target),
    ensures
        depth < 32,
        target == pow2(depth as nat),
{
    let ghost d0 = choose|d: nat| d < 32 && target == pow2(d);
    let mut depth: u32 = 0;
    let mut p: u64 = 1;
    proof {
        assert(pow2(0) == 1) by {
            vstd::arithmetic::power2::lemma2_to64();
        }
    }
    while p != target as u64
        invariant
            depth <= d0,
            d0 < 32,
            target == pow2(d0),
            p == pow2(depth as nat),
        decreases d0 - depth,
    {
        proof {
            if depth == d0 {
                assert(false);
            }
            lemma_pow2_strictly_increases(depth as nat, d0);
            lemma_pow2_unfold((depth + 1) as nat);
        }
        p = p * 2;
        depth = depth + 1;
    }
    proof {
        if depth < d0 {
            lemma_pow2_strictly_increases(depth as nat, d0);
        }
    }
    depth
}

/// `pow2` grows strictly.
proof fn lemma_pow2_strictly_increases(a: nat, b: nat)
    requires
        a < b,
    ensures
        pow2(a) < pow2(b),
{
    vstd::arithmetic::power2::lemma_pow2_strictly_increases(a, b);
}

/// The leaves of a uniform partition of `target` leaves, left to right:
/// `ShardId::leaf(depth, i)` for `i` in `0..target`.
pub fn grow_leaves(target: u32) -> (leaves: Vec<ShardId>)
    requires
        is_power_of_two(target),
    ensures
        leaves@.len() == target,
        forall|i: int| 0 <= i < target ==> #[trigger] leaves@[i] == leaf_spec(
            choose|d: nat| d < 32 && target == pow2(d),
            i,
        ),
{
    let depth = grow_depth(target);
    let ghost d0 = choose|d: nat| d < 32 && target == pow2(d);
    proof {
        if d0 != depth {
            if d0 < depth {
                lemma_pow2_strictly_increases(d0, depth as nat);
            } else {
                lemma_pow2_strictly_increases(depth as nat, d0);
            }
        }
    }
    let first = target as u64;
    let mut leaves: Vec<ShardId> = Vec::new();
    let mut i: u32 = 0;
    while i < target
        invariant
            i <= target,
            first == target,
            target == pow2(d0),
            leaves@.len() == i,
            forall|j: int| 0 <= j < i ==> #[trigger] leaves@[j] == leaf_spec(d0, j),
        decreases target - i,
    {
        leaves.push(first + i as u64);
        i = i + 1;
    }
    leaves
}

/// The epoch budget for growing to `depth`: forty epochs per level, and at
/// least forty.
pub fn grow_budget_epochs(depth: u32) -> (budget: u32)
    requires
        depth < 32,
    ensures
        budget == (if depth >= 1 { depth * GROW_EPOCHS_PER_LEVEL } else { GROW_EPOCHS_PER_LEVEL as int }),
{
    let b = depth * GROW_EPOCHS_PER_LEVEL;
    if b >= GROW_EPOCHS_PER_LEVEL {
        b
    } else {
        GROW_EPOCHS_PER_LEVEL
    }
}

/// Whether every target leaf serves and has committed past genesis, given
/// each leaf's committed height (`None` where it does not serve yet).
pub fn grown(committed_heights: &[Option<u64>]) -> (done: bool)
    ensures
        done == forall|i: int| 0 <= i < committed_heights@.len() ==> (#[trigger] committed_heights@[i] matches Some(
            h,
        ) && h > 0),
{
    let mut i: usize = 0;
    while i < committed_heights.len()
        invariant
            i <= committed_heights@.len(),
            forall|j: int| 0 <= j < i ==> (#[trigger] committed_heights@[j] matches Some(h) && h > 0),
        decreases committed_heights@.len() - i,
    {
        match committed_heights[i] {
            Some(h) => {
                if h == 0 {
                    return false;
                }
            },
            None => {
                return false;
            },
        }
        i = i + 1;
    }
    true
}

/// The epoch a threshold vote cast at `current` activates at.
pub fn threshold_activation_epoch(current: u64) -> (at: u64)
    requires
        current + VOTE_ACTIVATE_LEAD <= u64::MAX,
    ensures
        at == current + VOTE_ACTIVATE_LEAD,
{
    current + VOTE_ACTIVATE_LEAD
}

/// `n` beacon epochs of `epoch_duration_ms` each, in milliseconds, clamped at
/// the largest representable duration.
pub fn epochs(epoch_duration_ms: u64, n: u64) -> (ms: u64)
    ensures
        ms == (if epoch_duration_ms * n <= u64::MAX { (epoch_duration_ms * n) as u64 } else { u64::MAX }),
{
    match epoch_duration_ms.checked_mul(n) {
        Some(ms) => ms,
        None => u64::MAX,
    }
}

/// Whether a frontier of `frontier_len` leaves has reached `target_shards`,
/// so growth stops; otherwise every frontier leaf splits once more.
pub fn grow_reached(frontier_len: usize, target_shards: u32) -> (done: bool)
    ensures
        done == (frontier_len >= target_shards),
{
    frontier_len as u64 >= target_shards as u64
}

/// Whether the `j`-th parent-half host can take an observer of `child`: its
/// member flipped to the sibling, and no earlier observer took the host.
pub open spec fn host_free(halves: Seq<(u64, ShardId)>, child: ShardId, used: Seq<u64>, j: int) -> bool {
    halves[j].1 != child && !used.contains(halves[j].0)
}

/// The first free host for an observer of `child`, if any.
pub open spec fn first_free_host(halves: Seq<(u64, ShardId)>, child: ShardId, used: Seq<u64>) -> Option<int> {
    if exists|j: int|
        0 <= j < halves.len() && #[trigger] host_free(halves, child, used, j) && forall|k: int|
            0 <= k < j ==> !host_free(halves, child, used, k) {
        Some(
            choose|j: int|
                0 <= j < halves.len() && #[trigger] host_free(halves, child, used, j) && forall|k: int|
                    0 <= k < j ==> !host_free(halves, child, used, k),
        )
    } else {
        None
    }
}

/// The hosts the observers of `observer_children`, in order, reopen their
/// synced stores on: each takes the first free host after the earlier
/// ones took theirs; `None` when some observer finds no free host.
pub open spec fn observer_hosts(halves: Seq<(u64, ShardId)>, observer_children: Seq<ShardId>) -> Option<Seq<u64>>
    decreases observer_children.len(),
{
    if observer_children.len() == 0 {
        Some(Seq::empty())
    } else {
        match observer_hosts(halves, observer_children.drop_last()) {
            None => None,
            Some(used) => match first_free_host(halves, observer_children.last(), used) {
                None => None,
                Some(j) => Some(used.push(halves[j].0)),
            },
        }
    }
}

/// Where each synced observer reopens its store when a split's members
/// flip onto the children. `halves` lists each parent member's host and
/// the child it flipped to; an observer of a child takes, in order, the
/// first host whose member flipped to the sibling and that no earlier
/// observer took. `None` when an observer finds no such host.
pub fn assign_observer_hosts(halves: &[(u64, ShardId)], observer_children: &[ShardId]) -> (hosts: Option<Vec<u64>>)
    ensures
        match hosts {
            Some(h) => observer_hosts(halves@, observer_children@) == Some(h@),
            None => observer_hosts(halves@, observer_children@) is None,
        },
{
    let mut used: Vec<u64> = Vec::new();
    let mut i: usize = 0;
    while i < observer_children.len()
        invariant
            i <= observer_children@.len(),
            observer_hosts(halves@, observer_children@.take(i as int)) == Some(used@),
        decreases observer_children@.len() - i,
    {
        let child = observer_children[i];
        let mut j: usize = 0;
        let mut found: Option<usize> = None;
        while j < halves.len()
            invariant_except_break
                j <= halves@.len(),
                found is None,
                forall|k: int| 0 <= k < j ==> !host_free(halves@, child, used@, k),
            ensures
                found matches Some(f) ==> f < halves@.len() && host_free(halves@, child, used@, f as int)
                    && forall|k: int| 0 <= k < f ==> !host_free(halves@, child, used@, k),
                found is None ==> forall|k: int| 0 <= k < halves@.len() ==> !host_free(halves@, child, used@, k),
            decreases halves@.len() - j,
        {
            let (node, flipped_to) = halves[j];
            if flipped_to != child {
                let mut taken = false;
                let mut u: usize = 0;
                while u < used.len()
                    invariant
                        u <= used@.len(),
                        taken == exists|q: int| 0 <= q < u && used@[q] == node,
                    decreases used@.len() - u,
                {
                    if used[u] == node {
                        taken = true;
                    }
                    u = u + 1;
                }
                if !taken {
                    found = Some(j);
                    break;
                }
            }
            j = j + 1;
        }
        let ghost prefix = observer_children@.take(i + 1);
        proof {
            assert(prefix.drop_last() =~= observer_children@.take(i as int));
            assert(prefix.last() == child);
        }
        match found {
            None => {
                proof {
                    assert(first_free_host(halves@, child, used@) is None);
                    lemma_observer_hosts_stuck(halves@, observer_children@, i as int);
                }
                return None;
            },
            Some(f) => {
                proof {
                    let w = choose|w: int|
                        0 <= w < halves@.len() && #[trigger] host_free(halves@, child, used@, w) && forall|k: int|
                            0 <= k < w ==> !host_free(halves@, child, used@, k);
                    if w < f {
                        assert(!host_free(halves@, child, used@, w));
                    } else if f < w {
                        assert(!host_free(halves@, child, used@, f as int));
                    }
                    assert(first_free_host(halves@, child, used@) == Some(f as int));
                }
                used.push(halves[f].0);
            },
        }
        i = i + 1;
    }
    assert(observer_children@.take(i as int) =~= observer_children@);
    Some(used)
}

/// Once an observer finds no free host, the whole assignment fails.
proof fn lemma_observer_hosts_stuck(halves: Seq<(u64, ShardId)>, children: Seq<ShardId>, i: int)
    requires
        0 <= i < children.len(),
        observer_hosts(halves, children.take(i + 1)) is None,
    ensures
        observer_hosts(halves, children) is None,
    decreases children.len() - i,
{
    if i + 1 < children.len() {
        assert(children.take(i + 2).drop_last() =~= children.take(i + 1));
        lemma_observer_hosts_stuck(halves, children, i + 1);
    } else {
        assert(children.take(i + 1) =~= children);
    }
}

/// Whether `host` carries a parent member that flipped to another child than
/// `child`.
pub open spec fn sibling_host(halves: Seq<(u64, ShardId)>, child: ShardId, host: u64) -> bool {
    exists|j: int| 0 <= j < halves.len() && #[trigger] halves[j].0 == host && halves[j].1 != child
}

/// Every observer reopens on a host whose member flipped to the sibling of
/// the observer's child, and no host takes two observers.
pub proof fn lemma_observer_hosts_are_sibling_and_distinct(
    halves: Seq<(u64, ShardId)>,
    observer_children: Seq<ShardId>,
    hosts: Seq<u64>,
)
    requires
        observer_hosts(halves, observer_children) == Some(hosts),
    ensures
        hosts.len() == observer_children.len(),
        hosts.no_duplicates(),
        forall|i: int| 0 <= i < hosts.len() ==> sibling_host(halves, observer_children[i], #[trigger] hosts[i]),
    decreases observer_children.len(),
{
    if observer_children.len() > 0 {
        let init = observer_children.drop_last();
        let used = observer_hosts(halves, init).unwrap();
        lemma_observer_hosts_are_sibling_and_distinct(halves, init, used);
        let child = observer_children.last();
        let j = first_free_host(halves, child, used).unwrap();
        assert(hosts == used.push(halves[j].0));
        assert(host_free(halves, child, used, j));
        assert forall|i: int| 0 <= i < hosts.len() implies sibling_host(halves, observer_children[i], #[trigger] hosts[i]) by {
            if i < used.len() {
                assert(hosts[i] == used[i]);
                assert(observer_children[i] == init[i]);
            } else {
                assert(halves[j].0 == hosts[i]);
            }
        }
        assert forall|a: int, b: int| 0 <= a < hosts.len() && 0 <= b < hosts.len() && a != b implies hosts[a] != hosts[b] by {
            if a < used.len() && b < used.len() {
                assert(hosts[a] == used[a] && hosts[b] == used[b]);
            } else if a < used.len() {
                assert(used.contains(hosts[a]));
            } else {
                assert(used.contains(hosts[b]));
            }
        }
    }
}

} // verus!
