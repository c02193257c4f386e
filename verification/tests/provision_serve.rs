use hyperscale::provision_serve::{
    assemble_provisions, nodes_owned_by, plan_provisions, provision_proof_keys, sort_owned_nodes, DeclaredTx, NodeId, ServedTx,
    SubstateEntry, TxStateRead,
};

fn node(b: u8) -> NodeId {
    let mut n = [0u8; 30];
    n[0] = b;
    n[29] = b;
    n
}

#[test]
fn local_nodes_come_out_sorted_without_repeats() {
    let declared = vec![(node(9), 0), (node(3), 0), (node(5), 1), (node(3), 0), (node(1), 0)];
    assert_eq!(nodes_owned_by(&declared, 0), vec![node(1), node(3), node(9)]);
    assert_eq!(nodes_owned_by(&declared, 1), vec![node(5)]);
    assert!(nodes_owned_by(&declared, 2).is_empty());
}

#[test]
fn later_bytes_break_ties_in_node_order() {
    let mut a = [7u8; 30];
    let mut b = [7u8; 30];
    a[29] = 2;
    b[29] = 1;
    assert_eq!(nodes_owned_by(&[(a, 4), (b, 4), (a, 4)], 4), vec![b, a]);
}

#[test]
fn only_transactions_touching_both_shards_are_served() {
    let txs = vec![
        DeclaredTx { tx_hash: (1, 0, 0, 0), declared: vec![(node(2), 0), (node(8), 1)] },
        DeclaredTx { tx_hash: (2, 0, 0, 0), declared: vec![(node(4), 0)] },
        DeclaredTx { tx_hash: (3, 0, 0, 0), declared: vec![(node(6), 1)] },
        DeclaredTx { tx_hash: (4, 0, 0, 0), declared: vec![(node(7), 1), (node(3), 0), (node(1), 0), (node(7), 1)] },
        DeclaredTx { tx_hash: (5, 0, 0, 0), declared: vec![] },
    ];
    let plan = plan_provisions(&txs, 0, 1);
    assert_eq!(plan.len(), 2);
    assert_eq!(plan[0].tx_hash, (1, 0, 0, 0));
    assert_eq!(plan[0].source_nodes, vec![node(2)]);
    assert_eq!(plan[0].target_nodes, vec![node(8)]);
    assert_eq!(plan[1].tx_hash, (4, 0, 0, 0));
    assert_eq!(plan[1].source_nodes, vec![node(1), node(3)]);
    assert_eq!(plan[1].target_nodes, vec![node(7)]);
}

#[test]
fn a_block_without_cross_shard_transactions_serves_nothing() {
    let txs = vec![DeclaredTx { tx_hash: (1, 0, 0, 0), declared: vec![(node(2), 0), (node(3), 0)] }];
    assert!(plan_provisions(&txs, 0, 1).is_empty());
    assert!(plan_provisions(&[], 0, 1).is_empty());
}

#[test]
fn owned_nodes_are_ordered_by_vault() {
    let pairs = vec![(node(5), node(50)), (node(1), node(10)), (node(3), node(30))];
    assert_eq!(sort_owned_nodes(pairs), vec![(node(1), node(10)), (node(3), node(30)), (node(5), node(50))]);
    assert!(sort_owned_nodes(Vec::new()).is_empty());
}

#[test]
fn node_lists_do_not_depend_on_declaration_order() {
    let a = vec![(node(4), 0), (node(2), 0), (node(9), 1), (node(4), 0)];
    let b = vec![(node(2), 0), (node(9), 1), (node(4), 0)];
    assert_eq!(nodes_owned_by(&a, 0), nodes_owned_by(&b, 0));
    assert_eq!(nodes_owned_by(&a, 1), nodes_owned_by(&b, 1));
}

fn served(h: u64, target: u8) -> ServedTx {
    ServedTx { tx_hash: (h, 0, 0, 0), source_nodes: vec![node(1)], target_nodes: vec![node(target)] }
}

fn entry(k: u8) -> SubstateEntry {
    SubstateEntry { storage_key: vec![k, k], value: vec![k] }
}

fn read_ok(pairs: Vec<(NodeId, NodeId)>, keys: &[u8]) -> TxStateRead {
    TxStateRead { ownership: Some(pairs), entries: Some(keys.iter().map(|k| entry(*k)).collect()) }
}

#[test]
fn a_missing_block_serves_nothing() {
    assert!(assemble_provisions(0, 1, 7, None, Vec::new(), Some(vec![1])).is_none());
}

#[test]
fn an_unavailable_walk_or_entry_read_serves_nothing() {
    let walk_missing = vec![read_ok(vec![], &[1]), TxStateRead { ownership: None, entries: None }];
    assert!(assemble_provisions(0, 1, 7, Some(vec![served(1, 4), served(2, 5)]), walk_missing, Some(vec![9])).is_none());
    let entries_missing = vec![TxStateRead { ownership: Some(vec![]), entries: None }];
    assert!(assemble_provisions(0, 1, 7, Some(vec![served(1, 4)]), entries_missing, Some(vec![9])).is_none());
}

#[test]
fn a_non_empty_plan_without_a_proof_serves_nothing() {
    assert!(assemble_provisions(0, 1, 7, Some(vec![served(1, 4)]), vec![read_ok(vec![], &[1])], None).is_none());
}

#[test]
fn an_empty_plan_serves_an_empty_bundle_with_an_empty_proof() {
    let p = assemble_provisions(2, 3, 7, Some(Vec::new()), Vec::new(), None).expect("served");
    assert_eq!((p.source_shard, p.target_shard, p.block_height), (2, 3, 7));
    assert!(p.proof.is_empty());
    assert!(p.transactions.is_empty());
}

#[test]
fn provisions_follow_the_plan_with_owned_nodes_by_vault() {
    let reads = vec![
        read_ok(vec![(node(8), node(1)), (node(2), node(3))], &[5]),
        read_ok(vec![(node(4), node(4))], &[6, 7]),
    ];
    let p = assemble_provisions(0, 1, 7, Some(vec![served(10, 4), served(11, 5)]), reads, Some(vec![9, 9])).expect("served");
    assert_eq!(p.proof, vec![9, 9]);
    assert_eq!(p.transactions.len(), 2);
    assert_eq!(p.transactions[0].tx_hash, (10, 0, 0, 0));
    assert_eq!(p.transactions[0].owned_nodes, vec![(node(2), node(3)), (node(8), node(1))]);
    assert_eq!(p.transactions[0].target_nodes, vec![node(4)]);
    assert_eq!(p.transactions[0].entries.len(), 1);
    assert_eq!(p.transactions[1].tx_hash, (11, 0, 0, 0));
    assert_eq!(p.transactions[1].entries[1].storage_key, vec![7, 7]);
}

#[test]
fn the_proof_covers_every_entry_key_in_plan_order() {
    let reads = vec![read_ok(vec![], &[3, 1]), read_ok(vec![], &[]), read_ok(vec![], &[2])];
    assert_eq!(provision_proof_keys(&reads), vec![vec![3, 3], vec![1, 1], vec![2, 2]]);
}
