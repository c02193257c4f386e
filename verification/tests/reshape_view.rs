use std::collections::BTreeMap;

use hyperscale::reshape_view::{recipients_for, ReshapeView, ShardAnchor};

fn anchor(hash: u64) -> ShardAnchor {
    ShardAnchor { state_root: (0, 0, 0, 0), block_hash: (hash, 0, 0, 0), height: 4, weighted_timestamp: 0 }
}

fn view() -> ReshapeView {
    let mut boundaries = BTreeMap::new();
    boundaries.insert(1u64, anchor(9));
    boundaries.insert(2u64, anchor(9));
    boundaries.insert(3u64, anchor(0));
    let mut committees = BTreeMap::new();
    committees.insert(1u64, vec![1, 2, 3, 5]);
    ReshapeView { cohort_seats: Vec::new(), boundaries, committees }
}

#[test]
fn committees_and_boundaries_read_back() {
    let v = view();
    assert_eq!(v.committee(1), vec![1, 2, 3, 5]);
    assert!(v.committee(7).is_empty());
    assert!(v.committee_contains(1, 5));
    assert!(!v.committee_contains(1, 4));
    assert_eq!(v.boundary(2).map(|a| a.height), Some(4));
    assert!(v.boundary(5).is_none());
}

#[test]
fn a_zero_block_hash_anchor_is_not_seeded() {
    let v = view();
    assert!(v.seeded(2));
    assert!(!v.seeded(3));
    assert!(!v.seeded(4));
    assert!(!v.children_seeded(1));
}

#[test]
fn recipients_exclude_the_signer() {
    let v = view();
    assert_eq!(recipients_for(&v, 1, 5), vec![1, 2, 3]);
    assert_eq!(recipients_for(&v, 1, 9), vec![1, 2, 3, 5]);
    assert!(recipients_for(&v, 8, 1).is_empty());
}
