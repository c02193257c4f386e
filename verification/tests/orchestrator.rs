use std::collections::BTreeMap;

use hyperscale::orchestrator::{
    BlockRequest, BlockResponse, ChainOrigin, FetchKind, FetchedKind, ObserverDuty, ObserverFollow, ObserverPhase,
    ObserverSync, ReshapeEvent, ReshapeOrchestrator, ReshapeRequest, SplitGenesis, AdoptKind,
};
use hyperscale::reshape_view::{CohortSeatEntry, ReshapeView, ShardAnchor};
use hyperscale::types::Digest;

const ROOT: u64 = 1;
const LEFT: u64 = 2;
const RIGHT: u64 = 3;

/// A snap-sync stand-in: two state ranges, then one import.
#[derive(Clone)]
struct Bootstrap {
    anchor: ShardAnchor,
    issued: bool,
    received: usize,
    import_taken: bool,
    root: Option<Digest>,
}

impl ObserverSync for Bootstrap {
    fn started(parent: u64, anchor: ShardAnchor, child: u64) -> Self {
        Self::start(parent, anchor, child)
    }
    fn requests(&self) -> Vec<(usize, Vec<u8>)> {
        self.clone().next_requests()
    }
    fn requests_taken(&self) -> Self {
        let mut b = self.clone();
        let _ = b.next_requests();
        b
    }
    fn import(&self) -> Option<(u64, Vec<Vec<u8>>)> {
        self.clone().take_import()
    }
    fn import_taken(&self) -> Self {
        let mut b = self.clone();
        let _ = b.take_import();
        b
    }
    fn root(&self) -> Option<Digest> {
        self.imported_root()
    }
    fn anchor_of(&self) -> ShardAnchor {
        self.anchor()
    }
    fn ranged(&self, sub_range: usize, response: Vec<u8>) -> Self {
        let mut b = self.clone();
        b.on_state_range(sub_range, &response);
        b
    }
    fn range_failed(&self, sub_range: usize) -> Self {
        let mut b = self.clone();
        b.on_state_range_failure(sub_range);
        b
    }
    fn imported(&self, root: Digest) -> Self {
        let mut b = self.clone();
        b.on_imported(root);
        b
    }
    fn start(_parent: u64, anchor: ShardAnchor, _child: u64) -> Self {
        Bootstrap { anchor, issued: false, received: 0, import_taken: false, root: None }
    }
    fn next_requests(&mut self) -> Vec<(usize, Vec<u8>)> {
        if self.issued {
            return Vec::new();
        }
        self.issued = true;
        vec![(0, vec![0]), (1, vec![1])]
    }
    fn take_import(&mut self) -> Option<(u64, Vec<Vec<u8>>)> {
        if self.received == 2 && !self.import_taken {
            self.import_taken = true;
            Some((self.anchor.height, vec![vec![9]]))
        } else {
            None
        }
    }
    fn imported_root(&self) -> Option<Digest> {
        self.root
    }
    fn anchor(&self) -> ShardAnchor {
        self.anchor
    }
    fn on_state_range(&mut self, _sub_range: usize, _response: &Vec<u8>) {
        self.received += 1;
    }
    fn on_state_range_failure(&mut self, _sub_range: usize) {
        self.issued = false;
    }
    fn on_imported(&mut self, root: Digest) {
        self.root = Some(root);
    }
}

/// A follow stand-in that asks for one block at a time.
#[derive(Clone)]
struct Tail {
    next: u64,
    in_flight: bool,
    pending: Option<u64>,
}

impl ObserverFollow for Tail {
    fn started(anchor: ShardAnchor, child: u64, root: Digest) -> Self {
        Self::start(anchor, child, root)
    }
    fn request(&self) -> Option<BlockRequest> {
        self.clone().next_request()
    }
    fn requested(&self) -> Self {
        let mut t = self.clone();
        let _ = t.next_request();
        t
    }
    fn apply(&self) -> Option<(u64, Vec<Vec<u8>>)> {
        self.clone().take_apply()
    }
    fn apply_taken(&self) -> Self {
        let mut t = self.clone();
        let _ = t.take_apply();
        t
    }
    fn answered(&self, response: BlockResponse) -> Self {
        let mut t = self.clone();
        t.on_response(&response);
        t
    }
    fn failed(&self) -> Self {
        let mut t = self.clone();
        t.on_failure();
        t
    }
    fn applies(&self, root: Digest) -> bool {
        self.clone().on_applied(root)
    }
    fn applied(&self, root: Digest) -> Self {
        let mut t = self.clone();
        let _ = t.on_applied(root);
        t
    }
    fn start(anchor: ShardAnchor, _child: u64, _root: Digest) -> Self {
        Tail { next: anchor.height + 1, in_flight: false, pending: None }
    }
    fn next_request(&mut self) -> Option<BlockRequest> {
        if self.in_flight {
            return None;
        }
        self.in_flight = true;
        Some(BlockRequest { from: self.next, to: self.next })
    }
    fn take_apply(&mut self) -> Option<(u64, Vec<Vec<u8>>)> {
        self.pending.take().map(|h| (h, Vec::new()))
    }
    fn on_response(&mut self, _response: &BlockResponse) {
        self.in_flight = false;
        self.pending = Some(self.next);
        self.next += 1;
    }
    fn on_failure(&mut self) {
        self.in_flight = false;
    }
    fn on_applied(&mut self, root: Digest) -> bool {
        root != (0xBAD, 0, 0, 0)
    }
}

/// Derives a genesis from any certified terminal that is not empty.
struct Genesis;

impl SplitGenesis for Genesis {
    fn derived(&self, child: u64, certified: Vec<u8>, anchor: ShardAnchor) -> Option<(ChainOrigin, Vec<u8>)> {
        self.split_genesis_from_terminal(child, &certified, &anchor)
    }
    fn split_genesis_from_terminal(&self, _child: u64, certified: &Vec<u8>, anchor: &ShardAnchor) -> Option<(ChainOrigin, Vec<u8>)> {
        if certified.is_empty() {
            None
        } else {
            Some((ChainOrigin { genesis_height: anchor.height, anchor_wt: anchor.weighted_timestamp }, certified.clone()))
        }
    }
}

type Orch = ReshapeOrchestrator<Bootstrap, Tail, Genesis>;

fn anchor() -> ShardAnchor {
    ShardAnchor { state_root: (0, 0, 0, 0), block_hash: (5, 5, 5, 5), height: 8, weighted_timestamp: 0 }
}

fn view(committees: &[(u64, &[u64])], cohort: &[(u64, u64, u64)], seeded: &[u64]) -> ReshapeView {
    let mut c = BTreeMap::new();
    for (s, members) in committees {
        c.insert(*s, members.to_vec());
    }
    let mut b = BTreeMap::new();
    for s in seeded {
        b.insert(*s, anchor());
    }
    ReshapeView {
        cohort_seats: cohort.iter().map(|(parent, validator, child)| CohortSeatEntry { parent: *parent, validator: *validator, child: *child }).collect(),
        boundaries: b,
        committees: c,
    }
}

fn duty(phase: ObserverPhase<Bootstrap, Tail>) -> ObserverDuty<Bootstrap, Tail> {
    ObserverDuty { parent: ROOT, child: LEFT, validator: 5, phase, open_requested: true, store_opened: true }
}

#[test]
fn detects_a_cohort_seat_and_opens_the_store() {
    let v = view(&[], &[(ROOT, 5, LEFT)], &[]);
    let mut orch: Orch = ReshapeOrchestrator::new(vec![5], Genesis);
    let requests = orch.step(&v, Vec::new());
    assert!(
        matches!(requests.as_slice(), [ReshapeRequest::OpenStore { shard }] if *shard == LEFT),
        "a held cohort seat must open the child store",
    );
}

#[test]
fn ignores_a_cohort_seat_this_host_does_not_hold() {
    let v = view(&[], &[(ROOT, 9, LEFT)], &[]);
    let mut orch: Orch = ReshapeOrchestrator::new(vec![5], Genesis);
    assert!(orch.step(&v, Vec::new()).is_empty());
}

#[test]
fn syncing_forwards_the_bootstrap_state_ranges() {
    let v = view(&[(ROOT, &[1, 2, 3, 4])], &[], &[ROOT]);
    let mut orch: Orch = ReshapeOrchestrator::new(vec![5], Genesis);
    orch.insert_duty(duty(ObserverPhase::Syncing(Bootstrap::start(ROOT, anchor(), LEFT))));
    let requests = orch.step(&v, Vec::new());
    assert!(
        requests.iter().any(|r| matches!(r, ReshapeRequest::Fetch { from, kind: FetchKind::StateRange { .. }, .. } if *from == ROOT)),
        "a syncing duty must forward the bootstrap's state ranges",
    );
}

#[test]
fn following_reasserts_ready_to_the_parent_committee() {
    let v = view(&[(ROOT, &[1, 2, 3, 5])], &[], &[ROOT]);
    let mut orch: Orch = ReshapeOrchestrator::new(vec![5], Genesis);
    orch.insert_duty(duty(ObserverPhase::Following(Tail::start(anchor(), LEFT, (0, 0, 0, 0)))));
    let requests = orch.step(&v, Vec::new());
    assert!(requests.iter().any(|r| matches!(
        r,
        ReshapeRequest::BroadcastReady { validator, recipients, .. } if *validator == 5 && !recipients.contains(&5) && recipients.len() == 3
    )));
}

#[test]
fn the_gate_advances_a_follower_to_the_terminal_fetch() {
    let v = view(&[(LEFT, &[1, 2])], &[], &[ROOT, LEFT, RIGHT]);
    let mut orch: Orch = ReshapeOrchestrator::new(vec![5], Genesis);
    orch.insert_duty(duty(ObserverPhase::Following(Tail::start(anchor(), LEFT, (0, 0, 0, 0)))));
    let _ = orch.step(&v, Vec::new());
    let requests = orch.step(&v, Vec::new());
    assert!(
        requests.iter().any(|r| matches!(
            r,
            ReshapeRequest::Fetch { duty, from, kind: FetchKind::Block { .. }, .. } if *duty == LEFT && *from == LEFT
        )),
        "once the children seed, the child committee is asked for the last parent block",
    );
}

#[test]
fn a_prepared_duty_seats_once_the_placement_lands() {
    let v = view(&[(LEFT, &[1, 5])], &[], &[]);
    let mut orch: Orch = ReshapeOrchestrator::new(vec![5], Genesis);
    orch.insert_duty(duty(ObserverPhase::Prepared));
    let requests = orch.step(&v, Vec::new());
    assert!(
        matches!(requests.as_slice(), [ReshapeRequest::Seat { shard }] if *shard == LEFT),
        "a prepared duty must seat once placed on the child",
    );
}

#[test]
fn a_prepared_duty_waits_until_placed() {
    let v = view(&[(LEFT, &[1, 2])], &[], &[]);
    let mut orch: Orch = ReshapeOrchestrator::new(vec![5], Genesis);
    orch.insert_duty(duty(ObserverPhase::Prepared));
    assert!(orch.step(&v, Vec::new()).is_empty());
}

#[test]
fn the_store_open_is_requested_once() {
    let v = view(&[], &[(ROOT, 5, LEFT)], &[]);
    let mut orch: Orch = ReshapeOrchestrator::new(vec![5], Genesis);
    assert_eq!(orch.step(&v, Vec::new()).len(), 1);
    assert!(orch.step(&v, Vec::new()).is_empty());
}

#[test]
fn a_full_split_observer_duty_runs_to_its_seat() {
    let parent_committee: &[u64] = &[1, 2, 3, 4];
    let mut orch: Orch = ReshapeOrchestrator::new(vec![5], Genesis);
    let syncing_view = view(&[(ROOT, parent_committee)], &[(ROOT, 5, LEFT)], &[ROOT]);

    // Opening: the store open is requested; once opened the duty syncs.
    let r = orch.step(&syncing_view, Vec::new());
    assert!(matches!(r.as_slice(), [ReshapeRequest::OpenStore { shard }] if *shard == LEFT));
    let r = orch.step(&syncing_view, vec![ReshapeEvent::Opened { shard: LEFT }]);
    assert!(r.is_empty());

    // Syncing: two ranges go out; both answers lead to an import.
    let r = orch.step(&syncing_view, Vec::new());
    assert_eq!(r.iter().filter(|q| matches!(q, ReshapeRequest::Fetch { kind: FetchKind::StateRange { .. }, .. })).count(), 2);
    let r = orch.step(
        &syncing_view,
        vec![
            ReshapeEvent::Fetched { duty: LEFT, kind: FetchedKind::StateRange { sub_range: 0, response: vec![] } },
            ReshapeEvent::Fetched { duty: LEFT, kind: FetchedKind::StateRange { sub_range: 1, response: vec![] } },
        ],
    );
    assert!(matches!(r.as_slice(), [ReshapeRequest::ImportBoundary { shard, height: 8, .. }] if *shard == LEFT));

    // The import lands: the duty follows and re-asserts ready.
    let r = orch.step(&syncing_view, vec![ReshapeEvent::Imported { shard: LEFT, root: (1, 1, 1, 1) }]);
    assert!(r.is_empty());
    let r = orch.step(&syncing_view, Vec::new());
    assert!(r.iter().any(|q| matches!(q, ReshapeRequest::BroadcastReady { validator: 5, recipients, .. } if recipients.len() == 4)));
    assert!(r.iter().any(|q| matches!(q, ReshapeRequest::Fetch { kind: FetchKind::Block { request }, .. } if request.from == 9)));

    // Both children seed: the follower stops, then asks once for block 7.
    let gated = view(&[(ROOT, parent_committee), (LEFT, &[1, 2])], &[(ROOT, 5, LEFT)], &[ROOT, LEFT, RIGHT]);
    assert!(orch.step(&gated, Vec::new()).is_empty());
    let r = orch.step(&gated, Vec::new());
    assert!(matches!(
        r.as_slice(),
        [ReshapeRequest::Fetch { duty, from, kind: FetchKind::Block { request }, .. }] if *duty == LEFT && *from == LEFT && request.from == 7 && request.to == 7
    ));
    assert!(orch.step(&gated, Vec::new()).is_empty());

    // A failed terminal fetch re-arms it.
    let r = orch.step(&gated, vec![ReshapeEvent::FetchFailed { duty: LEFT, kind: FetchKind::Block { request: BlockRequest { from: 7, to: 7 } } }]);
    assert_eq!(r.len(), 1);

    // The terminal arrives: genesis is derived and adopted once.
    let r = orch.step(
        &gated,
        vec![ReshapeEvent::Fetched { duty: LEFT, kind: FetchedKind::Block { response: BlockResponse { certified: Some(vec![42]) } } }],
    );
    assert!(matches!(
        r.as_slice(),
        [ReshapeRequest::Adopt { shard, kind: AdoptKind::Split, origin, genesis }] if *shard == LEFT && origin.genesis_height == 8 && *genesis == vec![42]
    ));
    assert!(orch.step(&gated, Vec::new()).is_empty());

    // Adopted, but not yet placed: it waits; once placed it seats and leaves.
    assert!(orch.step(&gated, vec![ReshapeEvent::Adopted { shard: LEFT }]).is_empty());
    let placed = view(&[(ROOT, parent_committee), (LEFT, &[1, 5])], &[], &[ROOT, LEFT, RIGHT]);
    let r = orch.step(&placed, Vec::new());
    assert!(matches!(r.as_slice(), [ReshapeRequest::Seat { shard }] if *shard == LEFT));
    assert!(orch.step(&placed, Vec::new()).is_empty());
}

#[test]
fn a_diverged_follow_drops_the_duty() {
    let v = view(&[(ROOT, &[1, 2, 3, 4])], &[], &[ROOT]);
    let mut orch: Orch = ReshapeOrchestrator::new(vec![5], Genesis);
    orch.insert_duty(duty(ObserverPhase::Following(Tail::start(anchor(), LEFT, (0, 0, 0, 0)))));
    let r = orch.step(&v, vec![ReshapeEvent::Applied { shard: LEFT, root: (0xBAD, 0, 0, 0) }]);
    assert!(r.is_empty());
}

#[test]
fn events_for_unknown_duties_are_ignored() {
    let v = view(&[], &[], &[]);
    let mut orch: Orch = ReshapeOrchestrator::new(vec![5], Genesis);
    let r = orch.step(&v, vec![ReshapeEvent::Opened { shard: 77 }, ReshapeEvent::Adopted { shard: 77 }]);
    assert!(r.is_empty());
}
