use hyperscale::grow::{assign_observer_hosts, epochs, grow_budget_epochs, grow_depth, grow_leaves, grow_reached, grown, threshold_activation_epoch};

#[test]
fn depth_is_log2_of_the_target() {
    assert_eq!(grow_depth(1), 0);
    assert_eq!(grow_depth(2), 1);
    assert_eq!(grow_depth(8), 3);
    assert_eq!(grow_depth(1 << 31), 31);
}

#[test]
fn leaves_are_the_target_depth_left_to_right() {
    assert_eq!(grow_leaves(1), vec![1]);
    assert_eq!(grow_leaves(2), vec![2, 3]);
    assert_eq!(grow_leaves(4), vec![4, 5, 6, 7]);
}

#[test]
fn budget_is_forty_epochs_per_level_and_at_least_forty() {
    assert_eq!(grow_budget_epochs(0), 40);
    assert_eq!(grow_budget_epochs(1), 40);
    assert_eq!(grow_budget_epochs(3), 120);
}

#[test]
fn growth_is_done_once_every_leaf_committed_past_genesis() {
    assert!(grown(&[]));
    assert!(grown(&[Some(1), Some(5)]));
    assert!(!grown(&[Some(1), None]));
    assert!(!grown(&[Some(0), Some(3)]));
    assert!(grow_reached(4, 4));
    assert!(!grow_reached(2, 4));
}

#[test]
fn epochs_saturate() {
    assert_eq!(epochs(500, 8), 4_000);
    assert_eq!(epochs(u64::MAX, 2), u64::MAX);
    assert_eq!(threshold_activation_epoch(10), 14);
}

#[test]
fn observers_reopen_on_hosts_that_flipped_to_the_sibling() {
    // Four parent members on hosts 10..13: two flipped left (2), two right (3).
    let halves = [(10, 2), (11, 2), (12, 3), (13, 3)];
    assert_eq!(assign_observer_hosts(&halves, &[2, 3, 2, 3]), Some(vec![12, 10, 13, 11]));
    assert_eq!(assign_observer_hosts(&halves, &[]), Some(vec![]));
    // A third observer of the left child finds no free right-flipped host.
    assert_eq!(assign_observer_hosts(&halves, &[2, 2, 2]), None);
}
