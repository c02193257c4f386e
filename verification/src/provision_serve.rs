//! Serving inbound provision requests from a target shard: which of a
//! block's transactions a target shard is owed state for, and over which
//! nodes. For each transaction, the source nodes are its declared nodes
//! owned by the local shard and the target nodes those owned by the
//! requesting shard, each sorted and deduplicated; a transaction with no
//! node on either side is not served. The same assembly backs the gossip
//! path, so a receiver absorbs identical node lists whichever transport
//! delivered the provision.
use vstd::prelude::*;

use crate::types::Digest;

verus! {

/// A 30-byte substate node id.
pub type NodeId = [u8; 30];

/// Byte order of node ids: the first differing byte decides.
pub open spec fn node_lt(a: Seq<u8>, b: Seq<u8>) -> bool {
    exists|i: int| #![trigger a[i], b[i]] 0 <= i < a.len() && i < b.len() && a[i] < b[i] && forall|j: int|
        0 <= j < i ==> a[j] == b[j]
}

/// Whether `s` is strictly increasing in byte order.
pub open spec fn strictly_sorted(s: Seq<NodeId>) -> bool {
    forall|i: int, j: int| 0 <= i < j < s.len() ==> node_lt(s[i]@, s[j]@)
}

/// The node ids of `declared` owned by `shard`.
pub open spec fn owned_by(declared: Seq<(NodeId, u64)>, shard: u64) -> Set<NodeId> {
    Set::new(|n: NodeId| exists|k: int| 0 <= k < declared.len() && #[trigger] declared[k] == (n, shard))
}

/// `a` sorts before `b` and `b` before `c`: `a` before `c`.
proof fn lemma_node_lt_transitive(a: NodeId, b: NodeId, c: NodeId)
    requires
        node_lt(a@, b@),
        node_lt(b@, c@),
    ensures
        node_lt(a@, c@),
{
    let i = choose|i: int| #![trigger a@[i], b@[i]] 0 <= i < 30 && a@[i] < b@[i] && forall|j: int| 0 <= j < i ==> a@[j] == b@[j];
    let k = choose|k: int| #![trigger b@[k], c@[k]] 0 <= k < 30 && b@[k] < c@[k] && forall|j: int| 0 <= j < k ==> b@[j] == c@[j];
    let m = if i < k { i } else { k };
    assert(a@[m] < c@[m]);
    assert(forall|j: int| 0 <= j < m ==> a@[j] == c@[j]);
}

/// No node id sorts before itself, and two ids never sort before each
/// other.
proof fn lemma_node_lt_asymmetric(a: NodeId, b: NodeId)
    ensures
        !(node_lt(a@, b@) && node_lt(b@, a@)),
        !node_lt(a@, a@),
{
    if node_lt(a@, b@) && node_lt(b@, a@) {
        let i = choose|i: int| #![trigger a@[i], b@[i]] 0 <= i < 30 && a@[i] < b@[i] && forall|j: int| 0 <= j < i ==> a@[j] == b@[j];
        let k = choose|k: int| #![trigger b@[k], a@[k]] 0 <= k < 30 && b@[k] < a@[k] && forall|j: int| 0 <= j < k ==> b@[j] == a@[j];
        if i < k {
            assert(b@[i] == a@[i]);
        } else if k < i {
            assert(a@[k] == b@[k]);
        }
    }
}

/// Compare two node ids in byte order: `Less`, `Equal` or `Greater` as
/// `-1`, `0`, `1`.
fn node_order(a: &NodeId, b: &NodeId) -> (c: i8)
    ensures
        c == -1 <==> node_lt(a@, b@),
        c == 0 <==> a@ == b@,
        c == 1 <==> node_lt(b@, a@),
        c == -1 || c == 0 || c == 1,
{
    let mut i: usize = 0;
    while i < 30
        invariant
            i <= 30,
            a@.len() == 30,
            b@.len() == 30,
            forall|j: int| 0 <= j < i ==> a@[j] == b@[j],
        decreases 30 - i,
    {
        if a[i] < b[i] {
            proof {
                assert(a@[i as int] < b@[i as int]);
                lemma_node_lt_asymmetric(*a, *b);
                assert(a@ != b@);
            }
            return -1;
        }
        if a[i] > b[i] {
            proof {
                assert(b@[i as int] < a@[i as int]);
                lemma_node_lt_asymmetric(*a, *b);
                assert(a@ != b@);
            }
            return 1;
        }
        i = i + 1;
    }
    assert(a@ =~= b@);
    proof {
        lemma_node_lt_asymmetric(*a, *b);
    }
    0
}

/// The node ids of `declared` owned by `shard`, sorted and without
/// repeats. `declared` pairs each declared node with the shard that owns
/// it.
pub fn nodes_owned_by(declared: &[(NodeId, u64)], shard: u64) -> (nodes: Vec<NodeId>)
    ensures
        strictly_sorted(nodes@),
        nodes@.to_set() == owned_by(declared@, shard),
{
    let mut nodes: Vec<NodeId> = Vec::new();
    let mut k: usize = 0;
    while k < declared.len()
        invariant
            k <= declared@.len(),
            strictly_sorted(nodes@),
            nodes@.to_set() == owned_by(declared@.take(k as int), shard),
        decreases declared@.len() - k,
    {
        let (node, owner) = declared[k];
        let ghost before = nodes@;
        proof {
            assert(declared@.take(k + 1) == declared@.take(k as int).push(declared@[k as int]));
        }
        if owner == shard {
            let mut p: usize = 0;
            let mut present = false;
            while p < nodes.len()
                invariant_except_break
                    p <= nodes@.len(),
                    nodes@ == before,
                    !present,
                    forall|q: int| 0 <= q < p ==> node_lt(nodes@[q]@, node@),
                ensures
                    p <= nodes@.len(),
                    nodes@ == before,
                    forall|q: int| 0 <= q < p ==> node_lt(nodes@[q]@, node@),
                    present ==> p < nodes@.len() && nodes@[p as int]@ == node@,
                    !present ==> (p < nodes@.len() ==> node_lt(node@, nodes@[p as int]@)),
                decreases nodes@.len() - p,
            {
                let c = node_order(&nodes[p], &node);
                if c == 0 {
                    present = true;
                    break;
                }
                if c == 1 {
                    break;
                }
                p = p + 1;
            }
            if !present {
                nodes.insert(p, node);
                proof {
                    let after = nodes@;
                    assert(after == before.insert(p as int, node));
                    assert forall|i: int, j: int| 0 <= i < j < after.len() implies node_lt(after[i]@, after[j]@) by {
                        if j < p {
                            assert(after[i] == before[i] && after[j] == before[j]);
                        } else if j == p {
                            assert(after[i] == before[i]);
                        } else if i == p {
                            assert(after[j] == before[j - 1]);
                            if j - 1 > p {
                                lemma_node_lt_transitive(node, before[p as int], before[j - 1]);
                            }
                        } else if i < p {
                            assert(after[i] == before[i] && after[j] == before[j - 1]);
                        } else {
                            assert(after[i] == before[i - 1] && after[j] == before[j - 1]);
                        }
                    }
                    assert(after.to_set() =~= before.to_set().insert(node)) by {
                        assert forall|x: NodeId| after.to_set().contains(x) implies before.to_set().insert(node).contains(x) by {
                            let i = choose|i: int| 0 <= i < after.len() && after[i] == x;
                            if i < p {
                                assert(before[i] == x);
                            } else if i > p {
                                assert(before[i - 1] == x);
                            }
                        }
                        assert forall|x: NodeId| before.to_set().insert(node).contains(x) implies after.to_set().contains(x) by {
                            if x == node {
                                assert(after[p as int] == x);
                            } else {
                                let i = choose|i: int| 0 <= i < before.len() && before[i] == x;
                                if i < p {
                                    assert(after[i] == x);
                                } else {
                                    assert(after[i + 1] == x);
                                }
                            }
                        }
                    }
                }
            } else {
                proof {
                    assert(node == nodes@[p as int]) by {
                        assert(node@ =~= nodes@[p as int]@);
                    }
                    assert(before.to_set().insert(node) =~= before.to_set());
                }
            }
        }
        proof {
            let pre = declared@.take(k as int);
            let post = declared@.take(k + 1);
            assert(owned_by(post, shard) =~= if owner == shard {
                owned_by(pre, shard).insert(node)
            } else {
                owned_by(pre, shard)
            }) by {
                assert forall|n: NodeId| owned_by(post, shard).contains(n) implies (if owner == shard {
                    owned_by(pre, shard).insert(node)
                } else {
                    owned_by(pre, shard)
                }).contains(n) by {
                    let j = choose|j: int| 0 <= j < post.len() && #[trigger] post[j] == (n, shard);
                    if j < k {
                        assert(pre[j] == post[j]);
                    }
                }
                assert forall|n: NodeId| owned_by(pre, shard).contains(n) implies owned_by(post, shard).contains(n) by {
                    let j = choose|j: int| 0 <= j < pre.len() && #[trigger] pre[j] == (n, shard);
                    assert(post[j] == pre[j]);
                }
                if owner == shard {
                    assert(post[k as int] == (node, shard));
                }
            }
        }
        k = k + 1;
    }
    assert(declared@.take(k as int) =~= declared@);
    nodes
}

/// One transaction of the requested block: its hash, and each node it
/// declares (reads, then writes) paired with the shard that owns it.
pub struct DeclaredTx {
    pub tx_hash: Digest,
    pub declared: Vec<(NodeId, u64)>,
}

/// What a target shard is owed for one transaction: the local nodes whose
/// state is provisioned and the target nodes used for conflict detection.
pub struct ServedTx {
    pub tx_hash: Digest,
    pub source_nodes: Vec<NodeId>,
    pub target_nodes: Vec<NodeId>,
}

/// Whether `served` is `tx` served to `target_shard` from `local_shard`.
pub open spec fn serves(tx: DeclaredTx, local_shard: u64, target_shard: u64, served: ServedTx) -> bool {
    &&& served.tx_hash == tx.tx_hash
    &&& strictly_sorted(served.source_nodes@)
    &&& served.source_nodes@.to_set() == owned_by(tx.declared@, local_shard)
    &&& strictly_sorted(served.target_nodes@)
    &&& served.target_nodes@.to_set() == owned_by(tx.declared@, target_shard)
}

/// Whether `tx` is served at all: it declares nodes on both sides.
pub open spec fn is_served(tx: DeclaredTx, local_shard: u64, target_shard: u64) -> bool {
    !owned_by(tx.declared@, local_shard).is_empty() && !owned_by(tx.declared@, target_shard).is_empty()
}

/// The provision plan of a block for `target_shard`: the transactions the
/// target is owed, in block order, with their sorted node lists.
pub fn plan_provisions(txs: &[DeclaredTx], local_shard: u64, target_shard: u64) -> (plan: Vec<ServedTx>)
    ensures
        exists|picked: Seq<int>| #[trigger] plan_picks(txs@, local_shard, target_shard, picked, plan@),
{
    let mut plan: Vec<ServedTx> = Vec::new();
    let ghost mut picked: Seq<int> = Seq::empty();
    let mut i: usize = 0;
    while i < txs.len()
        invariant
            i <= txs@.len(),
            plan_picks(txs@.take(i as int), local_shard, target_shard, picked, plan@),
        decreases txs@.len() - i,
    {
        let tx = &txs[i];
        let source_nodes = nodes_owned_by(tx.declared.as_slice(), local_shard);
        let target_nodes = nodes_owned_by(tx.declared.as_slice(), target_shard);
        let ghost pre = txs@.take(i as int);
        let ghost post = txs@.take(i + 1);
        proof {
            assert(pre =~= post.take(i as int));
        }
        if source_nodes.len() > 0 && target_nodes.len() > 0 {
            let ghost before = plan@;
            let ghost picked_before = picked;
            plan.push(ServedTx { tx_hash: tx.tx_hash, source_nodes, target_nodes });
            proof {
                assert(post[i as int] == *tx);
                assert(source_nodes@.to_set().contains(source_nodes@[0]));
                assert(target_nodes@.to_set().contains(target_nodes@[0]));
                picked = picked.push(i as int);
                assert(plan@.drop_last() =~= before);
                lemma_plan_extend(txs@, i as int, local_shard, target_shard, picked_before, before, picked, plan@);
            }
        } else {
            proof {
                if source_nodes.len() == 0 {
                    assert(source_nodes@.to_set() =~= Set::<NodeId>::empty());
                }
                if target_nodes.len() == 0 {
                    assert(target_nodes@.to_set() =~= Set::<NodeId>::empty());
                }
                assert(!is_served(txs@[i as int], local_shard, target_shard));
                lemma_plan_skip(txs@, i as int, local_shard, target_shard, picked, plan@);
            }
        }
        i = i + 1;
    }
    assert(txs@.take(i as int) =~= txs@);
    plan
}

/// Whether `plan` serves exactly the transactions of `txs` at the
/// increasing positions `picked`: those that are served, in order.
pub open spec fn plan_picks(
    txs: Seq<DeclaredTx>,
    local_shard: u64,
    target_shard: u64,
    picked: Seq<int>,
    plan: Seq<ServedTx>,
) -> bool {
    &&& picked.len() == plan.len()
    &&& forall|a: int, b: int| 0 <= a < b < picked.len() ==> picked[a] < picked[b]
    &&& forall|a: int| 0 <= a < picked.len() ==> 0 <= #[trigger] picked[a] < txs.len()
    &&& forall|a: int| 0 <= a < picked.len() ==> serves(txs[picked[a]], local_shard, target_shard, #[trigger] plan[a])
    &&& forall|t: int| 0 <= t < txs.len() ==> (is_served(#[trigger] txs[t], local_shard, target_shard)
        <==> picked.contains(t))
}

proof fn lemma_plan_extend(
    txs: Seq<DeclaredTx>,
    i: int,
    local_shard: u64,
    target_shard: u64,
    picked: Seq<int>,
    plan: Seq<ServedTx>,
    picked2: Seq<int>,
    plan2: Seq<ServedTx>,
)
    requires
        0 <= i < txs.len(),
        plan_picks(txs.take(i), local_shard, target_shard, picked, plan),
        picked2 == picked.push(i),
        plan2.drop_last() == plan,
        plan2.len() == plan.len() + 1,
        serves(txs[i], local_shard, target_shard, plan2.last()),
        is_served(txs[i], local_shard, target_shard),
    ensures
        plan_picks(txs.take(i + 1), local_shard, target_shard, picked2, plan2),
{
    let pre = txs.take(i);
    let post = txs.take(i + 1);
    assert forall|a: int| 0 <= a < picked2.len() implies serves(post[picked2[a]], local_shard, target_shard, #[trigger] plan2[a]) by {
        if a < picked.len() {
            assert(plan2[a] == plan[a]);
            assert(post[picked[a]] == pre[picked[a]]);
        }
    }
    assert forall|t: int| 0 <= t < post.len() implies (is_served(#[trigger] post[t], local_shard, target_shard)
        <==> picked2.contains(t)) by {
        if t < i {
            assert(post[t] == pre[t]);
            if picked.contains(t) {
                let a = choose|a: int| 0 <= a < picked.len() && picked[a] == t;
                assert(picked2[a] == t);
            }
            if picked2.contains(t) {
                let a = choose|a: int| 0 <= a < picked2.len() && picked2[a] == t;
                assert(a < picked.len());
                assert(picked[a] == t);
            }
        } else {
            assert(picked2[picked.len() as int] == i);
        }
    }
}

proof fn lemma_plan_skip(
    txs: Seq<DeclaredTx>,
    i: int,
    local_shard: u64,
    target_shard: u64,
    picked: Seq<int>,
    plan: Seq<ServedTx>,
)
    requires
        0 <= i < txs.len(),
        plan_picks(txs.take(i), local_shard, target_shard, picked, plan),
        !is_served(txs[i], local_shard, target_shard),
    ensures
        plan_picks(txs.take(i + 1), local_shard, target_shard, picked, plan),
{
    let pre = txs.take(i);
    let post = txs.take(i + 1);
    assert forall|a: int| 0 <= a < picked.len() implies serves(post[picked[a]], local_shard, target_shard, #[trigger] plan[a]) by {
        assert(post[picked[a]] == pre[picked[a]]);
    }
    assert forall|t: int| 0 <= t < post.len() implies (is_served(#[trigger] post[t], local_shard, target_shard)
        <==> picked.contains(t)) by {
        if t < i {
            assert(post[t] == pre[t]);
        } else {
            if picked.contains(t) {
                let a = choose|a: int| 0 <= a < picked.len() && picked[a] == t;
            }
        }
    }
}

/// Whether the pairs' keys are strictly increasing in byte order.
pub open spec fn keys_strictly_sorted(s: Seq<(NodeId, NodeId)>) -> bool {
    forall|i: int, j: int| 0 <= i < j < s.len() ==> node_lt(s[i].0@, s[j].0@)
}

/// Whether no two pairs share a key.
pub open spec fn keys_distinct(s: Seq<(NodeId, NodeId)>) -> bool {
    forall|i: int, j: int| 0 <= i < j < s.len() ==> s[i].0 != s[j].0
}

/// The `(vault, owner)` pairs of an ownership walk ordered by vault, as a
/// provision carries them. The walk yields each vault once.
pub fn sort_owned_nodes(pairs: Vec<(NodeId, NodeId)>) -> (sorted: Vec<(NodeId, NodeId)>)
    requires
        keys_distinct(pairs@),
    ensures
        keys_strictly_sorted(sorted@),
        sorted@.len() == pairs@.len(),
        sorted@.to_set() == pairs@.to_set(),
{
    let mut sorted: Vec<(NodeId, NodeId)> = Vec::new();
    let mut k: usize = 0;
    while k < pairs.len()
        invariant
            k <= pairs@.len(),
            keys_distinct(pairs@),
            keys_strictly_sorted(sorted@),
            sorted@.len() == k,
            sorted@.to_set() == pairs@.take(k as int).to_set(),
        decreases pairs@.len() - k,
    {
        let pair = pairs[k];
        let ghost before = sorted@;
        let mut p: usize = 0;
        while p < sorted.len()
            invariant_except_break
                p <= sorted@.len(),
                sorted@ == before,
                forall|q: int| 0 <= q < p ==> node_lt(sorted@[q].0@, pair.0@),
            ensures
                p <= sorted@.len(),
                sorted@ == before,
                forall|q: int| 0 <= q < p ==> node_lt(sorted@[q].0@, pair.0@),
                p < sorted@.len() ==> node_lt(pair.0@, sorted@[p as int].0@) || sorted@[p as int].0@ == pair.0@,
            decreases sorted@.len() - p,
        {
            let c = node_order(&sorted[p].0, &pair.0);
            if c != -1 {
                break;
            }
            p = p + 1;
        }
        proof {
            if p < before.len() && before[p as int].0@ == pair.0@ {
                assert(before.to_set().contains(before[p as int]));
                let j = choose|j: int| 0 <= j < k && pairs@.take(k as int)[j] == before[p as int];
                assert(before[p as int].0 =~= pair.0);
                assert(pairs@[j].0 == pairs@[k as int].0);
                assert(false);
            }
        }
        sorted.insert(p, pair);
        proof {
            let after = sorted@;
            assert(after == before.insert(p as int, pair));
            assert forall|i: int, j: int| 0 <= i < j < after.len() implies node_lt(after[i].0@, after[j].0@) by {
                if j < p {
                    assert(after[i] == before[i] && after[j] == before[j]);
                } else if j == p {
                    assert(after[i] == before[i]);
                } else if i == p {
                    assert(after[j] == before[j - 1]);
                    if j - 1 > p {
                        lemma_node_lt_transitive(pair.0, before[p as int].0, before[j - 1].0);
                    }
                } else if i < p {
                    assert(after[i] == before[i] && after[j] == before[j - 1]);
                } else {
                    assert(after[i] == before[i - 1] && after[j] == before[j - 1]);
                }
            }
            assert(pairs@.take(k + 1) =~= pairs@.take(k as int).push(pair));
            assert(after.to_set() =~= before.to_set().insert(pair)) by {
                assert forall|x: (NodeId, NodeId)| after.to_set().contains(x) implies before.to_set().insert(pair).contains(x) by {
                    let i = choose|i: int| 0 <= i < after.len() && after[i] == x;
                    if i < p {
                        assert(before[i] == x);
                    } else if i > p {
                        assert(before[i - 1] == x);
                    }
                }
                assert forall|x: (NodeId, NodeId)| before.to_set().insert(pair).contains(x) implies after.to_set().contains(x) by {
                    if x == pair {
                        assert(after[p as int] == x);
                    } else {
                        let i = choose|i: int| 0 <= i < before.len() && before[i] == x;
                        if i < p {
                            assert(after[i] == x);
                        } else {
                            assert(after[i + 1] == x);
                        }
                    }
                }
            }
            pairs@.take(k as int).lemma_push_to_set_commute(pair);
        }
        k = k + 1;
    }
    assert(pairs@.take(k as int) =~= pairs@);
    sorted
}

/// A set of node ids has one strictly sorted listing: two strictly sorted
/// sequences holding the same ids are equal.
proof fn lemma_sorted_listing_unique(a: Seq<NodeId>, b: Seq<NodeId>)
    requires
        strictly_sorted(a),
        strictly_sorted(b),
        a.to_set() == b.to_set(),
    ensures
        a == b,
    decreases a.len(),
{
    if a.len() == 0 {
        if b.len() > 0 {
            assert(b.to_set().contains(b[0]));
            assert(!a.to_set().contains(b[0]));
        }
        assert(a =~= b);
    } else {
        assert(a.to_set().contains(a[0]));
        assert(b.len() > 0) by {
            if b.len() == 0 {
                assert(!b.to_set().contains(a[0]));
            }
        }
        assert(b.to_set().contains(b[0]));
        if a[0] != b[0] {
            let k = choose|k: int| 0 <= k < b.len() && b[k] == a[0];
            let m = choose|m: int| 0 <= m < a.len() && a[m] == b[0];
            assert(k != 0 && m != 0);
            assert(node_lt(b[0]@, b[k]@));
            assert(node_lt(a[0]@, a[m]@));
            lemma_node_lt_asymmetric(a[0], b[0]);
            assert(false);
        }
        let ar = a.drop_first();
        let br = b.drop_first();
        assert forall|x: NodeId| ar.to_set().contains(x) <==> br.to_set().contains(x) by {
            if ar.to_set().contains(x) {
                let i = choose|i: int| 0 <= i < ar.len() && ar[i] == x;
                assert(a[i + 1] == x);
                assert(node_lt(a[0]@, x@));
                lemma_node_lt_asymmetric(x, x);
                assert(x != a[0]);
                assert(b.to_set().contains(x));
                let j = choose|j: int| 0 <= j < b.len() && b[j] == x;
                assert(j != 0);
                assert(br[j - 1] == x);
            }
            if br.to_set().contains(x) {
                let i = choose|i: int| 0 <= i < br.len() && br[i] == x;
                assert(b[i + 1] == x);
                assert(node_lt(b[0]@, x@));
                lemma_node_lt_asymmetric(x, x);
                assert(x != b[0]);
                assert(a.to_set().contains(x));
                let j = choose|j: int| 0 <= j < a.len() && a[j] == x;
                assert(j != 0);
                assert(ar[j - 1] == x);
            }
        }
        assert(ar.to_set() =~= br.to_set());
        lemma_sorted_listing_unique(ar, br);
        assert(a =~= seq![a[0]] + ar);
        assert(b =~= seq![b[0]] + br);
    }
}

/// Node lists depend only on which nodes a transaction declares for a
/// shard, not on the order or repetition of its declarations: two
/// declaration lists naming the same nodes for `shard` give the same list.
pub proof fn lemma_owned_nodes_canonical(
    first: Seq<(NodeId, u64)>,
    second: Seq<(NodeId, u64)>,
    shard: u64,
    first_nodes: Seq<NodeId>,
    second_nodes: Seq<NodeId>,
)
    requires
        owned_by(first, shard) == owned_by(second, shard),
        strictly_sorted(first_nodes),
        first_nodes.to_set() == owned_by(first, shard),
        strictly_sorted(second_nodes),
        second_nodes.to_set() == owned_by(second, shard),
    ensures
        first_nodes == second_nodes,
{
    lemma_sorted_listing_unique(first_nodes, second_nodes);
}


/// A substate entry read from the store: its storage key and encoded value.
pub struct SubstateEntry {
    pub storage_key: Vec<u8>,
    pub value: Vec<u8>,
}

/// What the store gave for one planned transaction at the block's state
/// version: the ownership walk over its source nodes (the `(vault, owner)`
/// pairs, each vault once), `None` when that version was unavailable; and
/// the state entries of the expanded nodes, `None` when unavailable (or
/// not read because the walk failed).
pub struct TxStateRead {
    pub ownership: Option<Vec<(NodeId, NodeId)>>,
    pub entries: Option<Vec<SubstateEntry>>,
}

/// One transaction's provision: the local state entries, the target nodes
/// for conflict detection, and the `(vault, owner)` pairs ordered by vault.
pub struct ProvisionEntry {
    pub tx_hash: Digest,
    pub entries: Vec<SubstateEntry>,
    pub target_nodes: Vec<NodeId>,
    pub owned_nodes: Vec<(NodeId, NodeId)>,
}

/// The provisions a source shard serves a target shard for one block,
/// with one batched inclusion proof (encoded) over all their entries.
pub struct Provisions {
    pub source_shard: u64,
    pub target_shard: u64,
    pub block_height: u64,
    pub proof: Vec<u8>,
    pub transactions: Vec<ProvisionEntry>,
}

/// Whether the store gave both the ownership walk and the entries.
pub open spec fn read_ok(r: TxStateRead) -> bool {
    r.ownership is Some && r.entries is Some
}

/// Whether every read succeeded.
pub open spec fn all_reads_ok(reads: Seq<TxStateRead>) -> bool {
    forall|i: int| 0 <= i < reads.len() ==> read_ok(#[trigger] reads[i])
}

/// Whether `e` is the provision of planned transaction `served` from its
/// successful read `read`.
pub open spec fn provisions_entry(served: ServedTx, read: TxStateRead, e: ProvisionEntry) -> bool {
    &&& e.tx_hash == served.tx_hash
    &&& e.entries == read.entries.unwrap()
    &&& e.target_nodes == served.target_nodes
    &&& keys_strictly_sorted(e.owned_nodes@)
    &&& e.owned_nodes@.to_set() == read.ownership.unwrap()@.to_set()
}

/// The storage keys of `es`, in order.
pub open spec fn entry_keys(es: Seq<SubstateEntry>) -> Seq<Seq<u8>> {
    es.map_values(|e: SubstateEntry| e.storage_key@)
}

/// The keys the batched proof covers: every read entry's storage key, in
/// plan order.
pub open spec fn proof_keys(reads: Seq<TxStateRead>) -> Seq<Seq<u8>>
    decreases reads.len(),
{
    if reads.len() == 0 {
        Seq::empty()
    } else {
        proof_keys(reads.drop_last()) + match reads.last().entries {
            Some(es) => entry_keys(es@),
            None => Seq::empty(),
        }
    }
}

/// The storage keys to hand the batched proof generation: each read
/// entry's key, in plan order (the proof sorts and deduplicates them).
pub fn provision_proof_keys(reads: &[TxStateRead]) -> (keys: Vec<Vec<u8>>)
    ensures
        keys@.map_values(|k: Vec<u8>| k@) == proof_keys(reads@),
{
    let mut keys: Vec<Vec<u8>> = Vec::new();
    let mut i: usize = 0;
    while i < reads.len()
        invariant
            i <= reads@.len(),
            keys@.map_values(|k: Vec<u8>| k@) == proof_keys(reads@.take(i as int)),
        decreases reads@.len() - i,
    {
        let ghost before = keys@.map_values(|k: Vec<u8>| k@);
        proof {
            assert(reads@.take(i + 1).drop_last() =~= reads@.take(i as int));
        }
        match &reads[i].entries {
            Some(es) => {
                let mut j: usize = 0;
                while j < es.len()
                    invariant
                        j <= es@.len(),
                        keys@.map_values(|k: Vec<u8>| k@) == before + entry_keys(es@.take(j as int)),
                    decreases es@.len() - j,
                {
                    let ghost pre = keys@;
                    let k = vstd::slice::slice_to_vec(es[j].storage_key.as_slice());
                    keys.push(k);
                    proof {
                        assert(keys@ == pre.push(k));
                        assert(keys@.map_values(|k: Vec<u8>| k@) =~= pre.map_values(|k: Vec<u8>| k@).push(k@));
                        assert(entry_keys(es@.take(j + 1)) =~= entry_keys(es@.take(j as int)).push(es@[j as int].storage_key@));
                        assert(before + entry_keys(es@.take(j + 1)) =~= (before + entry_keys(es@.take(j as int))).push(k@));
                    }
                    j = j + 1;
                }
                proof {
                    assert(es@.take(j as int) =~= es@);
                }
            },
            None => {
                proof {
                    assert(before + Seq::<Seq<u8>>::empty() =~= before);
                }
            },
        }
        i = i + 1;
    }
    assert(reads@.take(i as int) =~= reads@);
    keys
}

/// Assemble the provision response for `target_shard` from the block's
/// plan (`None` when the block is missing), the store's reads for each
/// planned transaction, and the batched proof over their entries (`None`
/// when its generation failed). There is no response when the block is
/// missing, when any planned transaction's ownership walk or entries are
/// unavailable, or when a non-empty plan has no proof; otherwise one
/// provision per planned transaction, in plan order, with an empty proof
/// for an empty plan.
#[verifier::loop_isolation(false)]
pub fn assemble_provisions(
    local_shard: u64,
    target_shard: u64,
    block_height: u64,
    plan: Option<Vec<ServedTx>>,
    reads: Vec<TxStateRead>,
    batch_proof: Option<Vec<u8>>,
) -> (resp: Option<Provisions>)
    requires
        plan matches Some(p) ==> reads@.len() == p@.len(),
        forall|i: int| 0 <= i < reads@.len() ==> (#[trigger] reads@[i].ownership matches Some(o) ==> keys_distinct(o@)),
    ensures
        resp is Some <==> (plan is Some && all_reads_ok(reads@) && (plan.unwrap()@.len() == 0 || batch_proof is Some)),
        resp matches Some(b) ==> {
            &&& b.source_shard == local_shard
            &&& b.target_shard == target_shard
            &&& b.block_height == block_height
            &&& b.proof@ == (if plan.unwrap()@.len() == 0 {
                Seq::<u8>::empty()
            } else {
                batch_proof.unwrap()@
            })
            &&& b.transactions@.len() == plan.unwrap()@.len()
            &&& forall|i: int| 0 <= i < b.transactions@.len() ==> provisions_entry(
                plan.unwrap()@[i],
                reads@[i],
                #[trigger] b.transactions@[i],
            )
        },
{
    let plan = match plan {
        Some(p) => p,
        None => return None,
    };
    let ghost plan0 = plan@;
    let ghost reads0 = reads@;
    let n = plan.len();
    let mut plan = plan;
    let mut reads = reads;
    let mut transactions: Vec<ProvisionEntry> = Vec::new();
    while transactions.len() < n
        invariant
            n == plan0.len(),
            reads0.len() == n,
            transactions@.len() <= n,
            plan@ == plan0.subrange(transactions@.len() as int, n as int),
            reads@ == reads0.subrange(transactions@.len() as int, n as int),
            forall|i: int| 0 <= i < n ==> (#[trigger] reads0[i].ownership matches Some(o) ==> keys_distinct(o@)),
            forall|i: int| 0 <= i < transactions@.len() ==> read_ok(#[trigger] reads0[i]),
            forall|i: int| 0 <= i < transactions@.len() ==> provisions_entry(plan0[i], reads0[i], #[trigger] transactions@[i]),
        decreases n - transactions@.len(),
    {
        let ghost k = transactions@.len() as int;
        let served = plan.remove(0);
        let read = reads.remove(0);
        assert(served == plan0[k] && read == reads0[k]);
        let ownership = match read.ownership {
            Some(o) => o,
            None => {
                assert(!read_ok(reads0[k]));
                return None;
            },
        };
        let entries = match read.entries {
            Some(e) => e,
            None => {
                assert(!read_ok(reads0[k]));
                return None;
            },
        };
        let owned_nodes = sort_owned_nodes(ownership);
        transactions.push(ProvisionEntry { tx_hash: served.tx_hash, entries, target_nodes: served.target_nodes, owned_nodes });
        proof {
            assert(plan@ =~= plan0.subrange(transactions@.len() as int, n as int));
            assert(reads@ =~= reads0.subrange(transactions@.len() as int, n as int));
        }
    }
    let proof_bytes = if n == 0 {
        Vec::new()
    } else {
        match batch_proof {
            Some(p) => p,
            None => return None,
        }
    };
    Some(Provisions { source_shard: local_shard, target_shard, block_height, proof: proof_bytes, transactions })
}

} // verus!
