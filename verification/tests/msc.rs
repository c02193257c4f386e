use std::collections::BTreeSet;

use hyperscale::msc::{
    accusation_demotes, hash_proposal_msc, rank_shift_for_view, update_rank, verify_empty_low_accusation, MscEmptyLowAccusation,
    MscSlotProposal,
};
use hyperscale::types::{PcValueElement, PcVector, PC_VALUE_ELEMENT_BYTES};

fn elem(b: u8) -> PcValueElement {
    [b; PC_VALUE_ELEMENT_BYTES]
}

fn rank4() -> Vec<u64> {
    (0..4).collect()
}

#[test]
fn hash_proposal_msc_deterministic_and_avoids_bottom() {
    let p = MscSlotProposal { slot: 7, content: PcVector::new(vec![elem(1), elem(2)]) };
    let h1 = hash_proposal_msc(&p);
    let h2 = hash_proposal_msc(&p);
    assert_eq!(h1, h2);
    assert_ne!(h1, [0u8; PC_VALUE_ELEMENT_BYTES]);
}

#[test]
fn hash_proposal_msc_differs_across_slots_and_content() {
    let a = hash_proposal_msc(&MscSlotProposal { slot: 1, content: PcVector::new(vec![elem(0xAA)]) });
    let b = hash_proposal_msc(&MscSlotProposal { slot: 2, content: PcVector::new(vec![elem(0xAA)]) });
    let c = hash_proposal_msc(&MscSlotProposal { slot: 1, content: PcVector::new(vec![elem(0xBB)]) });
    assert_ne!(a, b);
    assert_ne!(a, c);
}

#[test]
fn hash_proposal_msc_binds_the_slot_prefix() {
    // The same content hashed twice at one slot agrees; an empty vector
    // hashes too.
    let e1 = hash_proposal_msc(&MscSlotProposal { slot: 0, content: PcVector::empty() });
    let e2 = hash_proposal_msc(&MscSlotProposal { slot: 0, content: PcVector::new(Vec::new()) });
    assert_eq!(e1, e2);
    let e3 = hash_proposal_msc(&MscSlotProposal { slot: u64::MAX, content: PcVector::empty() });
    assert_ne!(e1, e3);
}

#[test]
fn a_proposal_hashes_its_domain_slot_and_sbor_payload() {
    let p = MscSlotProposal { slot: 7, content: PcVector::new(vec![elem(1), elem(2)]) };
    let mut msg = b"hyperscale-msc-slot-proposal-v1".to_vec();
    msg.extend_from_slice(&7u64.to_le_bytes());
    msg.extend_from_slice(&[0x5b, 0x20, 0x20, 0x02]);
    for b in [1u8, 2u8] {
        msg.extend_from_slice(&[0x07, 0x20]);
        msg.extend_from_slice(&[b; 32]);
    }
    assert_eq!(hash_proposal_msc(&p), *blake3::hash(&msg).as_bytes());
}

#[test]
fn a_long_proposal_carries_a_two_byte_length() {
    let p = MscSlotProposal { slot: 3, content: PcVector::new(vec![elem(9); 200]) };
    let mut msg = b"hyperscale-msc-slot-proposal-v1".to_vec();
    msg.extend_from_slice(&3u64.to_le_bytes());
    msg.extend_from_slice(&[0x5b, 0x20, 0x20, 0xC8, 0x01]);
    for _ in 0..200 {
        msg.extend_from_slice(&[0x07, 0x20]);
        msg.extend_from_slice(&[9u8; 32]);
    }
    assert_eq!(hash_proposal_msc(&p), *blake3::hash(&msg).as_bytes());
}

#[test]
fn update_rank_identity_when_no_demotions() {
    let rank = rank4();
    let high = PcVector::new(vec![elem(1), elem(2), elem(3), elem(4)]);
    let accused = BTreeSet::new();
    assert_eq!(update_rank(&rank, &high, &accused), rank);
}

#[test]
fn update_rank_demotes_first_excluded_when_high_short() {
    let rank = rank4();
    let high = PcVector::new(vec![elem(1), elem(2)]);
    let accused = BTreeSet::new();
    assert_eq!(update_rank(&rank, &high, &accused), vec![0, 1, 3, 2]);
}

#[test]
fn update_rank_demotes_accused_to_tail() {
    let rank = rank4();
    let high = PcVector::new(vec![elem(1), elem(2), elem(3), elem(4)]);
    let mut accused = BTreeSet::new();
    accused.insert(1u64);
    accused.insert(3u64);
    assert_eq!(update_rank(&rank, &high, &accused), vec![0, 2, 1, 3]);
}

#[test]
fn update_rank_refuses_to_demote_everyone() {
    let rank = rank4();
    let high = PcVector::empty();
    let mut accused = BTreeSet::new();
    accused.insert(1u64);
    accused.insert(2u64);
    accused.insert(3u64);
    assert_eq!(update_rank(&rank, &high, &accused), rank);
}

#[test]
fn update_rank_ignores_accused_outside_the_committee() {
    // An accused id outside the ranking still counts toward the demoted
    // set but moves nobody; the first-excluded fold-in still applies.
    let rank = rank4();
    let high = PcVector::new(vec![elem(1)]);
    let mut accused = BTreeSet::new();
    accused.insert(42u64);
    assert_eq!(update_rank(&rank, &high, &accused), vec![0, 2, 3, 1]);
}

#[test]
fn update_rank_keeps_a_permutation_with_demoted_last() {
    let rank: Vec<u64> = vec![10, 20, 30, 40, 50];
    let high = PcVector::new(vec![elem(1), elem(2), elem(3)]);
    let mut accused = BTreeSet::new();
    accused.insert(10u64);
    let next = update_rank(&rank, &high, &accused);
    assert_eq!(next, vec![20, 30, 50, 10, 40]);
    let mut sorted = next.clone();
    sorted.sort();
    assert_eq!(sorted, rank);
}

#[test]
fn rank_shift_matches_view_offsets() {
    assert_eq!(rank_shift_for_view(0, 4), 0);
    assert_eq!(rank_shift_for_view(1, 4), 0);
    assert_eq!(rank_shift_for_view(2, 4), 0);
    assert_eq!(rank_shift_for_view(3, 4), 1);
    assert_eq!(rank_shift_for_view(7, 4), 1);
    assert_eq!(rank_shift_for_view(9, 3), 1);
}

#[test]
fn accusation_demotes_resolves_via_rank_shift() {
    let rank = rank4();
    let acc = MscEmptyLowAccusation { slot: 1, view: 3, proof: Vec::new() };
    assert_eq!(accusation_demotes(&acc, &rank), Some(1));
}

#[test]
fn accusation_demotes_empty_rank_returns_none() {
    let acc = MscEmptyLowAccusation { slot: 1, view: 3, proof: Vec::new() };
    assert_eq!(accusation_demotes(&acc, &[]), None);
}

#[test]
fn update_rank_counts_only_members_toward_refusal() {
    let rank: Vec<u64> = vec![0, 1, 2];
    let high = PcVector::new(vec![elem(1), elem(2), elem(3)]);
    let accused: BTreeSet<u64> = [1u64, 7, 8].into_iter().collect();
    assert_eq!(update_rank(&rank, &high, &accused), vec![0, 2, 1]);
}

#[test]
fn an_accusation_needs_a_view_past_the_first_and_a_verifying_certificate() {
    let at = |view: u64| MscEmptyLowAccusation { slot: 4, view, proof: vec![1, 2, 3] };
    assert!(verify_empty_low_accusation(&at(2), true));
    assert!(verify_empty_low_accusation(&at(9), true));
    assert!(!verify_empty_low_accusation(&at(1), true));
    assert!(!verify_empty_low_accusation(&at(0), true));
    assert!(!verify_empty_low_accusation(&at(2), false));
}
