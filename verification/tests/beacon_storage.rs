use hyperscale::beacon_storage::{BeaconBlock, BeaconChainReader, BeaconChainWriter, SimBeaconStorage};
use hyperscale::recovery::BeaconBlockHeader;

fn block(slot: u64, tag: u64) -> BeaconBlock {
    BeaconBlock {
        slot,
        block_hash: (tag, slot, 0, 0),
        header: BeaconBlockHeader {
            epoch: slot,
            parent_hash: (0, 0, 0, 0),
            proposals_root: (0, 0, 0, 0),
            state_root: (0, 0, 0, 0),
            recovery_cert_hash: (0, 0, 0, 0),
        },
    }
}

fn slots(blocks: &[BeaconBlock]) -> Vec<u64> {
    blocks.iter().map(|b| b.slot).collect()
}

#[test]
fn an_empty_store_has_no_blocks() {
    let s = SimBeaconStorage::new();
    assert!(s.get_beacon_block_by_slot(0).is_none());
    assert!(s.get_beacon_block_by_hash((1, 0, 0, 0)).is_none());
    assert_eq!(s.latest_committed_slot(), None);
    assert!(s.iter_beacon_blocks_from(0).is_empty());
}

#[test]
fn a_committed_block_reads_back_by_slot_and_hash() {
    let mut s = SimBeaconStorage::new();
    let b = block(3, 7);
    s.commit_beacon_block(&b);
    assert_eq!(s.get_beacon_block_by_slot(3).map(|x| x.block_hash), Some(b.block_hash));
    assert_eq!(s.get_beacon_block_by_hash(b.block_hash).map(|x| x.slot), Some(3));
    assert!(s.get_beacon_block_by_slot(4).is_none());
    assert_eq!(s.latest_committed_slot(), Some(3));
}

#[test]
fn blocks_iterate_in_slot_order_from_a_slot() {
    let mut s = SimBeaconStorage::new();
    for slot in [5, 1, 9, 3, 7] {
        s.commit_beacon_block(&block(slot, 1));
    }
    assert_eq!(slots(&s.iter_beacon_blocks_from(0)), vec![1, 3, 5, 7, 9]);
    assert_eq!(slots(&s.iter_beacon_blocks_from(4)), vec![5, 7, 9]);
    assert_eq!(slots(&s.iter_beacon_blocks_from(9)), vec![9]);
    assert!(s.iter_beacon_blocks_from(10).is_empty());
    assert_eq!(s.latest_committed_slot(), Some(9));
}

#[test]
fn recommitting_a_slot_replaces_its_block() {
    let mut s = SimBeaconStorage::new();
    let a = block(2, 1);
    let b = block(2, 2);
    s.commit_beacon_block(&a);
    s.commit_beacon_block(&b);
    assert_eq!(s.get_beacon_block_by_slot(2).map(|x| x.block_hash), Some(b.block_hash));
    assert_eq!(s.get_beacon_block_by_hash(b.block_hash).map(|x| x.block_hash), Some(b.block_hash));
    // The old hash no longer names a stored block.
    assert!(s.get_beacon_block_by_hash(a.block_hash).is_none());
    assert_eq!(slots(&s.iter_beacon_blocks_from(0)), vec![2]);
}

#[test]
fn latest_slot_is_the_highest_committed() {
    let mut s = SimBeaconStorage::new();
    s.commit_beacon_block(&block(10, 1));
    s.commit_beacon_block(&block(4, 1));
    assert_eq!(s.latest_committed_slot(), Some(10));
    assert_eq!(s.latest_slot(), Some(10));
}
