use std::collections::BTreeMap;

use hyperscale::cohort::{
    cohort_seed, draw_split_cohort, pending_split_cohort, release_cohort, BeaconState, CohortSeat, PendingReshape,
    ValidatorRecord, ValidatorStatus,
};

fn state(pooled: u64, seated: u64, shard_size: u64) -> BeaconState {
    let mut validators = Vec::new();
    for id in 0..seated {
        validators.push(ValidatorRecord { id, status: ValidatorStatus::OnShard { shard: 1, ready: true } });
    }
    for id in seated..seated + pooled {
        validators.push(ValidatorRecord { id, status: ValidatorStatus::Pooled });
    }
    let mut committees = BTreeMap::new();
    committees.insert(1u64, (0..seated).collect::<Vec<u64>>());
    BeaconState { validators, next_shard_committees: committees, shard_size, randomness: [3u8; 32], current_epoch: 9 }
}

#[test]
fn a_draw_takes_a_committee_of_pooled_validators_split_across_the_children() {
    let mut s = state(10, 4, 4);
    let cohort = draw_split_cohort(&mut s, 1);
    assert_eq!(cohort.len(), 4);
    assert_eq!(cohort.values().filter(|seat| seat.child == 2).count(), 2);
    assert_eq!(cohort.values().filter(|seat| seat.child == 3).count(), 2);
    assert!(cohort.values().all(|seat| !seat.ready));
    for id in cohort.keys() {
        assert!(*id >= 4, "only pooled validators are drawn");
        let rec = s.validators.iter().find(|r| r.id == *id).unwrap();
        assert_eq!(rec.status, ValidatorStatus::Observing { shard: 1, placed_at_epoch: 9 });
    }
    let committee = &s.next_shard_committees[&1];
    assert_eq!(committee.len(), 8);
    assert_eq!(&committee[..4], &[0, 1, 2, 3]);
    let pooled_left = s.validators.iter().filter(|r| r.status == ValidatorStatus::Pooled).count();
    assert_eq!(pooled_left, 6);
}

#[test]
fn a_draw_is_deterministic_in_the_state() {
    let mut a = state(10, 4, 4);
    let mut b = state(10, 4, 4);
    assert_eq!(cohort_seed(&a, 1), cohort_seed(&b, 1));
    assert_ne!(cohort_seed(&a, 1), cohort_seed(&a, 2));
    let ca = draw_split_cohort(&mut a, 1);
    let cb = draw_split_cohort(&mut b, 1);
    assert_eq!(ca.keys().collect::<Vec<_>>(), cb.keys().collect::<Vec<_>>());
}

#[test]
fn a_short_pool_yields_a_short_cohort_with_the_odd_member_left() {
    let mut s = state(3, 4, 4);
    let cohort = draw_split_cohort(&mut s, 1);
    assert_eq!(cohort.len(), 3);
    assert_eq!(cohort.values().filter(|seat| seat.child == 2).count(), 2);
}

#[test]
fn an_empty_pool_draws_nobody_and_leaves_committees_alone() {
    let mut s = state(0, 4, 4);
    let cohort = draw_split_cohort(&mut s, 1);
    assert!(cohort.is_empty());
    assert_eq!(s.next_shard_committees[&1], vec![0, 1, 2, 3]);
}

#[test]
fn releasing_a_drawn_cohort_restores_the_pool_and_committee() {
    let mut s = state(6, 2, 2);
    let before: Vec<ValidatorRecord> = s.validators.clone();
    let cohort = draw_split_cohort(&mut s, 1);
    assert_eq!(cohort.len(), 2);
    release_cohort(&mut s, 1, &PendingReshape::Split { cohort });
    assert_eq!(s.validators, before);
    assert_eq!(s.next_shard_committees[&1], vec![0, 1]);
}

#[test]
fn releasing_a_merge_changes_nothing() {
    let mut s = state(6, 2, 2);
    let before: Vec<ValidatorRecord> = s.validators.clone();
    release_cohort(&mut s, 1, &PendingReshape::Merge);
    assert_eq!(s.validators, before);
}

#[test]
fn pooled_validators_are_listed_in_id_order() {
    let s = state(3, 2, 2);
    assert_eq!(s.pooled_validators(), vec![2, 3, 4]);
}

#[test]
fn a_pending_split_lists_its_cohort_in_member_order() {
    let mut cohort = BTreeMap::new();
    cohort.insert(9u64, CohortSeat { child: 3, ready: false });
    cohort.insert(4u64, CohortSeat { child: 2, ready: true });
    cohort.insert(6u64, CohortSeat { child: 3, ready: false });
    assert_eq!(pending_split_cohort(&PendingReshape::Split { cohort }), Some(vec![(4, 2), (6, 3), (9, 3)]));
    assert_eq!(pending_split_cohort(&PendingReshape::Merge), None);
    let mut s = state(8, 4, 4);
    let drawn = draw_split_cohort(&mut s, 1);
    let pairs = pending_split_cohort(&PendingReshape::Split { cohort: drawn }).unwrap();
    assert_eq!(pairs.len(), 4);
    assert!(pairs.windows(2).all(|w| w[0].0 < w[1].0));
}
