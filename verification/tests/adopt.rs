use hyperscale::adopt::{verified_recovered_state, RecoveredState};
use hyperscale::orchestrator::ChainOrigin;

fn origin() -> ChainOrigin {
    ChainOrigin { genesis_height: 10, anchor_wt: 0 }
}

#[test]
fn matching_root_yields_the_seat_state() {
    let root = (1, 2, 3, 4);
    let recovered = verified_recovered_state(root, root, origin(), 4_096).expect("matches");
    assert_eq!(recovered.substate_bytes, 4_096);
    assert_eq!(recovered.chain_origin, origin());
    assert_eq!(recovered, RecoveredState { substate_bytes: 4_096, chain_origin: origin() });
}

#[test]
fn diverged_root_fails_closed() {
    let adopted = (1, 2, 3, 4);
    let expected = (1, 2, 3, 5);
    let err = verified_recovered_state(adopted, expected, origin(), 0).unwrap_err();
    assert!(err.contains("does not match the anchor"));
}
