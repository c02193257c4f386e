use hyperscale::types::Digest;
use hyperscale::verification::{BeaconVerificationPipeline, SkipRequestSlotKey, SpcMsgKind};

fn block_hash(seed: u8) -> Digest {
    (seed as u64, 0, 0, 0)
}

fn skip_key(seed: u8) -> SkipRequestSlotKey {
    (block_hash(seed), seed as u64, seed as u64)
}

#[test]
fn empty_after_new() {
    let p = BeaconVerificationPipeline::new();
    assert_eq!(p.in_flight_count(), 0);
    assert!(!p.is_block_in_flight(block_hash(0)));
}

#[test]
fn mark_block_in_flight_first_time_returns_true() {
    let mut p = BeaconVerificationPipeline::new();
    assert!(p.mark_block_in_flight(block_hash(1)));
    assert!(p.is_block_in_flight(block_hash(1)));
    assert_eq!(p.in_flight_count(), 1);
}

#[test]
fn duplicate_mark_returns_false() {
    let mut p = BeaconVerificationPipeline::new();
    assert!(p.mark_block_in_flight(block_hash(1)));
    assert!(!p.mark_block_in_flight(block_hash(1)));
    assert_eq!(p.in_flight_count(), 1);
}

#[test]
fn forget_clears_in_flight_and_allows_remark() {
    let mut p = BeaconVerificationPipeline::new();
    p.mark_block_in_flight(block_hash(2));
    p.forget_block(block_hash(2));
    assert!(!p.is_block_in_flight(block_hash(2)));
    assert!(p.mark_block_in_flight(block_hash(2)));
}

#[test]
fn forget_unknown_slot_is_noop() {
    let mut p = BeaconVerificationPipeline::new();
    p.forget_block(block_hash(99));
    assert!(!p.is_block_in_flight(block_hash(99)));
    assert_eq!(p.in_flight_count(), 0);
}

#[test]
fn domains_are_independent() {
    let mut p = BeaconVerificationPipeline::new();
    p.mark_block_in_flight(block_hash(5));
    p.mark_skip_request_in_flight(skip_key(5));
    assert_eq!(p.in_flight_count(), 2);
    p.forget_block(block_hash(5));
    assert_eq!(p.in_flight_count(), 1);
}

#[test]
fn every_pool_dedups_and_clears() {
    let mut p = BeaconVerificationPipeline::new();
    assert!(p.mark_skip_request_in_flight(skip_key(1)));
    assert!(!p.mark_skip_request_in_flight(skip_key(1)));
    assert!(p.mark_pc_vote_in_flight((1, 2, 3, 4)));
    assert!(!p.mark_pc_vote_in_flight((1, 2, 3, 4)));
    assert!(p.mark_pc_vote_in_flight((1, 2, 3, 5)));
    assert!(p.mark_spc_msg_in_flight((1, 2, 3, SpcMsgKind::NewView)));
    assert!(p.mark_spc_msg_in_flight((1, 2, 3, SpcMsgKind::EmptyView)));
    assert!(!p.mark_spc_msg_in_flight((1, 2, 3, SpcMsgKind::NewView)));
    assert_eq!(p.in_flight_count(), 5);
    p.forget_skip_request(skip_key(1));
    p.forget_pc_vote((1, 2, 3, 4));
    p.forget_spc_msg((1, 2, 3, SpcMsgKind::NewView));
    assert_eq!(p.in_flight_count(), 2);
    assert!(p.mark_spc_msg_in_flight((1, 2, 3, SpcMsgKind::NewView)));
    assert!(p.mark_spc_msg_in_flight((1, 2, 3, SpcMsgKind::NewCommit)));
    assert_eq!(p.in_flight_count(), 4);
}
