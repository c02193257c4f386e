use hyperscale::recovery::{
    recovery_cert_signers, recovery_equivocation_signers, recovery_quorum, verify_recovery_cert,
    verify_recovery_equivocation, BeaconBlockHeader, RecoveryCertificate, RecoveryEquivocation, RecoveryRequest,
    SignerBitfield,
};
use hyperscale::types::Digest;

fn anchor() -> Digest {
    (0xA, 0xB, 0xC, 0xD)
}

fn sample_header(epoch: u64) -> BeaconBlockHeader {
    BeaconBlockHeader {
        epoch,
        parent_hash: (1, 0, 0, 0),
        proposals_root: (2, 0, 0, 0),
        state_root: (3, 0, 0, 0),
        recovery_cert_hash: (0, 0, 0, 0),
    }
}

/// Validator `equivocator_position` requests recovery from the anchor at
/// `anchor_epoch` and also signs (with everyone else) a header at
/// `header_epoch`.
fn genuine_equivocation(
    anchor_epoch: u64,
    recovery_round: u32,
    header_epoch: u64,
    equivocator_position: usize,
    num_validators: usize,
) -> (RecoveryEquivocation, Vec<u64>) {
    let lookup: Vec<u64> = (0..num_validators as u64).collect();
    let validator = lookup[equivocator_position];
    let request = RecoveryRequest {
        last_block_hash: anchor(),
        last_block_epoch: anchor_epoch,
        recovery_round,
        signer: validator,
        sig: vec![1, 2, 3],
    };
    let mut block_signers = SignerBitfield::new(num_validators);
    for i in 0..num_validators {
        block_signers.set(i);
    }
    let ev = RecoveryEquivocation {
        validator,
        request,
        block_header: sample_header(header_epoch),
        block_signers,
        block_aggregate_sig: vec![4, 5, 6],
    };
    (ev, lookup)
}

fn genuine_cert(anchor_epoch: u64, recovery_round: u32, pool_size: usize, signer_count: usize) -> RecoveryCertificate {
    let mut signers = SignerBitfield::new(pool_size);
    for i in 0..signer_count {
        signers.set(i);
    }
    RecoveryCertificate {
        last_block_hash: anchor(),
        last_block_epoch: anchor_epoch,
        recovery_round,
        excluded_validators: Vec::new(),
        signers,
        aggregate_sig: vec![7, 8, 9],
    }
}

#[test]
fn accepts_genuine_equivocation() {
    let (ev, lookup) = genuine_equivocation(5, 0, 6, 2, 4);
    assert_eq!(recovery_equivocation_signers(&ev, &lookup), Some((2, vec![0, 1, 2, 3])));
    assert!(verify_recovery_equivocation(&ev, &lookup, true, true));
}

#[test]
fn rejects_no_semantic_contradiction() {
    let (ev, lookup) = genuine_equivocation(5, 0, 5, 2, 4);
    assert!(recovery_equivocation_signers(&ev, &lookup).is_none());
    assert!(!verify_recovery_equivocation(&ev, &lookup, true, true));
}

#[test]
fn rejects_request_signer_mismatch() {
    let (mut ev, lookup) = genuine_equivocation(5, 0, 6, 2, 4);
    ev.request = RecoveryRequest { last_block_hash: anchor(), last_block_epoch: 5, recovery_round: 0, signer: 3, sig: vec![9] };
    assert!(recovery_equivocation_signers(&ev, &lookup).is_none());
    assert!(!verify_recovery_equivocation(&ev, &lookup, true, true));
}

#[test]
fn rejects_validator_bit_unset() {
    let (mut ev, lookup) = genuine_equivocation(5, 0, 6, 2, 4);
    ev.block_signers.clear(2);
    assert!(recovery_equivocation_signers(&ev, &lookup).is_none());
    assert!(!verify_recovery_equivocation(&ev, &lookup, true, true));
}

#[test]
fn rejects_unknown_validator() {
    let (mut ev, lookup) = genuine_equivocation(5, 0, 6, 2, 4);
    ev.validator = 99;
    assert!(recovery_equivocation_signers(&ev, &lookup).is_none());
    assert!(!verify_recovery_equivocation(&ev, &lookup, true, true));
}

#[test]
fn rejects_bitfield_wider_than_lookup() {
    let (mut ev, lookup) = genuine_equivocation(5, 0, 6, 2, 4);
    let mut wide = SignerBitfield::new(8);
    for i in 0..4 {
        wide.set(i);
    }
    ev.block_signers = wide;
    assert!(recovery_equivocation_signers(&ev, &lookup).is_none());
    assert!(!verify_recovery_equivocation(&ev, &lookup, true, true));
}

#[test]
fn equivocation_names_the_first_position_of_the_validator() {
    let (mut ev, _) = genuine_equivocation(5, 0, 6, 1, 4);
    let lookup = vec![7, 1, 1, 9];
    ev.validator = 1;
    ev.request.signer = 1;
    assert_eq!(recovery_equivocation_signers(&ev, &lookup), Some((1, vec![0, 1, 2, 3])));
}

#[test]
fn quorum_is_two_thirds_rounded_up_plus_one() {
    assert_eq!(recovery_quorum(0), 1);
    assert_eq!(recovery_quorum(1), 2);
    assert_eq!(recovery_quorum(3), 3);
    assert_eq!(recovery_quorum(4), 4);
    assert_eq!(recovery_quorum(7), 6);
    assert_eq!(recovery_quorum(100), 68);
}

#[test]
fn cert_accepts_genuine_quorum() {
    let cert = genuine_cert(5, 0, 7, 6);
    assert_eq!(recovery_cert_signers(&cert, 7, None), Some(vec![0, 1, 2, 3, 4, 5]));
    assert!(verify_recovery_cert(&cert, 7, None, true));
}

#[test]
fn cert_rejects_below_quorum() {
    let cert = genuine_cert(5, 0, 7, 5);
    assert!(recovery_cert_signers(&cert, 7, None).is_none());
    assert!(!verify_recovery_cert(&cert, 7, None, true));
}

#[test]
fn cert_rejects_bitfield_size_mismatch() {
    let cert = genuine_cert(5, 0, 7, 6);
    assert!(recovery_cert_signers(&cert, 6, None).is_none());
    assert!(!verify_recovery_cert(&cert, 6, None, true));
}

#[test]
fn cert_rejects_non_monotonic_round_at_same_anchor() {
    let prev = genuine_cert(5, 1, 7, 6);
    let same_round = genuine_cert(5, 1, 7, 6);
    assert!(recovery_cert_signers(&same_round, 7, Some(&prev)).is_none());
    let lower_round = genuine_cert(5, 0, 7, 6);
    assert!(recovery_cert_signers(&lower_round, 7, Some(&prev)).is_none());
    assert!(!verify_recovery_cert(&same_round, 7, Some(&prev), true));
    assert!(!verify_recovery_cert(&lower_round, 7, Some(&prev), true));
}

#[test]
fn cert_accepts_round_zero_at_different_anchor() {
    let prev = genuine_cert(5, 5, 7, 6);
    let new_anchor = genuine_cert(6, 0, 7, 6);
    assert!(recovery_cert_signers(&new_anchor, 7, Some(&prev)).is_some());
    assert!(verify_recovery_cert(&new_anchor, 7, Some(&prev), true));
}

#[test]
fn cert_accepts_a_higher_round_at_the_same_anchor() {
    let prev = genuine_cert(5, 1, 7, 6);
    let next = genuine_cert(5, 2, 7, 7);
    assert_eq!(recovery_cert_signers(&next, 7, Some(&prev)), Some(vec![0, 1, 2, 3, 4, 5, 6]));
}

#[test]
fn cert_over_an_empty_pool_needs_a_signer() {
    let cert = genuine_cert(5, 0, 0, 0);
    assert!(recovery_cert_signers(&cert, 0, None).is_none());
}

#[test]
fn bitfield_reports_set_positions() {
    let mut b = SignerBitfield::new(5);
    b.set(1);
    b.set(4);
    assert_eq!(b.num_validators(), 5);
    assert_eq!(b.set_indices(), vec![1, 4]);
    assert_eq!(b.count_ones(), 2);
    assert!(b.is_set(4));
    assert!(!b.is_set(2));
    assert!(!b.is_set(9));
    b.clear(4);
    assert_eq!(b.count_ones(), 1);
}

#[test]
fn rejects_tampered_request_signature() {
    // The request signature no longer verifies under the validator's key.
    let (ev, lookup) = genuine_equivocation(5, 0, 6, 2, 4);
    assert!(!verify_recovery_equivocation(&ev, &lookup, false, true));
}

#[test]
fn rejects_tampered_block_header() {
    // A header at another epoch keeps the evidence well formed, but the
    // block aggregate was made over the original header's bytes.
    let (mut ev, lookup) = genuine_equivocation(5, 0, 6, 2, 4);
    ev.block_header = sample_header(10);
    assert!(recovery_equivocation_signers(&ev, &lookup).is_some());
    assert!(!verify_recovery_equivocation(&ev, &lookup, true, false));
}

#[test]
fn cert_rejects_tampered_aggregate_sig() {
    let cert = genuine_cert(5, 0, 7, 6);
    assert!(!verify_recovery_cert(&cert, 7, None, false));
}

#[test]
fn cert_rejects_rebadged_round() {
    // Re-badging the round keeps the certificate well formed, but the
    // aggregate was made over the round-0 message.
    let mut rebadged = genuine_cert(5, 0, 7, 6);
    rebadged.recovery_round = 1;
    assert!(recovery_cert_signers(&rebadged, 7, None).is_some());
    assert!(!verify_recovery_cert(&rebadged, 7, None, false));
}
