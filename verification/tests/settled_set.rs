use std::collections::BTreeSet;

use hyperscale::settled_set::{
    fetch_for, response_fold, ResponseFold, handle_settled_waves_fetch_failed, handle_settled_waves_response_received, process_start_settled_set_sync,
    settled_set_tick, settled_waves_response, SettledOutcome, SettledSetOutput, SettledSetSyncHost, SettledWalk,
    SettledWavesRequest, SettledWavesResponse, SETTLED_WALK_START_HEIGHT,
};
use hyperscale::types::Digest;

const SHARD: u64 = 1;

/// A backward walk over a chain whose blocks reveal `(wave, parent hash)`.
#[derive(Clone)]
struct Walk {
    next_height: u64,
    expected: Digest,
    start_height: u64,
    in_flight: bool,
    waves: BTreeSet<u64>,
}

fn encode_reveal(wave: u64, parent: Digest) -> Vec<u8> {
    let mut out = wave.to_le_bytes().to_vec();
    for part in [parent.0, parent.1, parent.2, parent.3] {
        out.extend_from_slice(&part.to_le_bytes());
    }
    out
}

fn decode_reveal(bytes: &[u8]) -> Option<(u64, Digest)> {
    if bytes.len() != 40 {
        return None;
    }
    let word = |i: usize| u64::from_le_bytes(bytes[i * 8..i * 8 + 8].try_into().unwrap());
    Some((word(0), (word(1), word(2), word(3), word(4))))
}

impl SettledWalk for Walk {
    type Waves = BTreeSet<u64>;

    fn started(shard: u64, terminal_height: u64, terminal_block_hash: Digest, start_height: u64) -> Self {
        Self::start(shard, terminal_height, terminal_block_hash, start_height)
    }

    fn request(&self) -> Option<SettledWavesRequest> {
        self.clone().next_request()
    }

    fn requested(&self) -> Self {
        let mut w = self.clone();
        let _ = w.next_request();
        w
    }

    fn outcome(&self, response: SettledWavesResponse) -> SettledOutcome {
        self.clone().on_response(&response)
    }

    fn answered(&self, response: SettledWavesResponse) -> Self {
        let mut w = self.clone();
        let _ = w.on_response(&response);
        w
    }

    fn failed(&self) -> Self {
        let mut w = self.clone();
        w.on_failure();
        w
    }

    fn complete(&self) -> bool {
        self.is_complete()
    }

    fn settled(&self) -> BTreeSet<u64> {
        self.waves.clone()
    }

    fn start(_shard: u64, terminal_height: u64, terminal_block_hash: Digest, start_height: u64) -> Self {
        Walk { next_height: terminal_height, expected: terminal_block_hash, start_height, in_flight: false, waves: BTreeSet::new() }
    }

    fn next_request(&mut self) -> Option<SettledWavesRequest> {
        if self.in_flight || self.is_complete() {
            return None;
        }
        self.in_flight = true;
        Some(SettledWavesRequest { height: self.next_height, block_hash: self.expected })
    }

    fn on_response(&mut self, response: &SettledWavesResponse) -> SettledOutcome {
        self.in_flight = false;
        match &response.reveal {
            None => SettledOutcome::NotYetAvailable,
            Some(bytes) => match decode_reveal(bytes) {
                Some((wave, parent)) => {
                    self.waves.insert(wave);
                    self.next_height -= 1;
                    self.expected = parent;
                    SettledOutcome::Accepted
                }
                None => SettledOutcome::Rejected,
            },
        }
    }

    fn on_failure(&mut self) {
        self.in_flight = false;
    }

    fn is_complete(&self) -> bool {
        self.next_height < self.start_height
    }

    fn into_settled(self) -> BTreeSet<u64> {
        self.waves
    }
}

fn block_hash(height: u64) -> Digest {
    (height * 11, 0, 0, 0)
}

/// Serve a chain of `count` blocks: block `h` settles wave `100 + h`.
fn serve(count: u64, request: &SettledWavesRequest) -> SettledWavesResponse {
    if request.height == 0 || request.height > count || request.block_hash != block_hash(request.height) {
        return SettledWavesResponse::not_found();
    }
    SettledWavesResponse::found(encode_reveal(100 + request.height, block_hash(request.height - 1)))
}

#[test]
fn reconstructs_and_completes_against_a_served_chain() {
    let mut host: SettledSetSyncHost<Walk> = SettledSetSyncHost::new();
    let mut outputs = host.start(SHARD, 3, block_hash(3), 9_000, vec![7], SETTLED_WALK_START_HEIGHT);
    let mut completed = None;
    while let Some(output) = outputs.pop() {
        match output {
            SettledSetOutput::Fetch { shard, request, .. } => {
                assert_eq!(shard, SHARD);
                let response = serve(3, &request);
                outputs.extend(host.on_response(SHARD, &response));
            }
            SettledSetOutput::Complete { shard, waves, terminal_wt } => {
                assert_eq!(shard, SHARD);
                assert_eq!(terminal_wt, 9_000);
                completed = Some(waves);
            }
        }
    }
    assert_eq!(completed.expect("walk completes"), BTreeSet::from([101, 102, 103]));
    assert!(!host.has_pending(), "the driver is dropped on completion");
}

#[test]
fn not_found_parks_until_the_next_tick() {
    let mut host: SettledSetSyncHost<Walk> = SettledSetSyncHost::new();
    let outputs = host.start(SHARD, 2, (0, 0, 0, 0), 1, vec![0, 1], SETTLED_WALK_START_HEIGHT);
    assert!(matches!(outputs.as_slice(), [SettledSetOutput::Fetch { peer: Some(0), .. }]));
    let parked = host.on_response(SHARD, &SettledWavesResponse::not_found());
    assert!(parked.is_empty(), "a not-found parks rather than spins");
    assert!(host.has_pending());
    let ticked = host.on_tick();
    assert!(matches!(ticked.as_slice(), [SettledSetOutput::Fetch { peer: Some(1), .. }]));
}

#[test]
fn dedupes_by_terminal_block() {
    let mut host: SettledSetSyncHost<Walk> = SettledSetSyncHost::new();
    let _ = host.start(SHARD, 2, (0xA, 0, 0, 0), 1, vec![], SETTLED_WALK_START_HEIGHT);
    let dup = host.start(SHARD, 2, (0xA, 0, 0, 0), 1, vec![], SETTLED_WALK_START_HEIGHT);
    assert!(dup.is_empty(), "same terminal does not restart the walk");
    let replaced = host.start(SHARD, 3, (0xB, 0, 0, 0), 1, vec![], SETTLED_WALK_START_HEIGHT);
    assert!(
        matches!(replaced.as_slice(), [SettledSetOutput::Fetch { request, peer: None, .. }] if request.height == 3),
        "a revised terminal restarts the walk from the new block",
    );
}

#[test]
fn an_outstanding_fetch_is_not_reissued_on_tick() {
    let mut host: SettledSetSyncHost<Walk> = SettledSetSyncHost::new();
    let first = host.start(SHARD, 2, block_hash(2), 5, vec![3], SETTLED_WALK_START_HEIGHT);
    assert_eq!(first.len(), 1);
    assert!(host.on_tick().is_empty());
}

#[test]
fn a_transport_failure_rotates_and_rearms() {
    let mut host: SettledSetSyncHost<Walk> = SettledSetSyncHost::new();
    let _ = host.start(SHARD, 2, block_hash(2), 5, vec![3, 4, 5], SETTLED_WALK_START_HEIGHT);
    host.on_failure(SHARD);
    let ticked = host.on_tick();
    assert!(matches!(ticked.as_slice(), [SettledSetOutput::Fetch { peer: Some(4), request, .. }] if request.height == 2));
}

#[test]
fn responses_for_unknown_shards_are_ignored() {
    let mut host: SettledSetSyncHost<Walk> = SettledSetSyncHost::new();
    assert!(!host.has_pending());
    assert!(host.on_response(9, &SettledWavesResponse::not_found()).is_empty());
    host.on_failure(9);
    assert!(host.on_tick().is_empty());
    assert!(!host.has_pending());
}

#[test]
fn a_rejected_response_rotates_the_peer() {
    let mut host: SettledSetSyncHost<Walk> = SettledSetSyncHost::new();
    let _ = host.start(SHARD, 2, block_hash(2), 5, vec![3, 4], SETTLED_WALK_START_HEIGHT);
    let out = host.on_response(SHARD, &SettledWavesResponse::found(vec![1, 2, 3]));
    assert!(out.is_empty());
    let ticked = host.on_tick();
    assert!(matches!(ticked.as_slice(), [SettledSetOutput::Fetch { peer: Some(4), .. }]));
}

#[test]
fn glue_starts_from_the_first_block_past_genesis() {
    let mut host: SettledSetSyncHost<Walk> = SettledSetSyncHost::new();
    let mut outputs = process_start_settled_set_sync(&mut host, SHARD, 2, block_hash(2), 77, vec![1]);
    let mut done = None;
    while let Some(output) = outputs.pop() {
        match output {
            SettledSetOutput::Fetch { request, .. } => {
                let reveal = serve(2, &request).reveal;
                outputs.extend(handle_settled_waves_response_received(&mut host, SHARD, reveal));
            }
            SettledSetOutput::Complete { waves, terminal_wt, .. } => {
                assert_eq!(terminal_wt, 77);
                done = Some(waves);
            }
        }
    }
    assert_eq!(done, Some(BTreeSet::from([101, 102])));
    assert!(settled_set_tick(&mut host).is_empty());
}

#[test]
fn glue_failure_and_not_found_paths() {
    let mut host: SettledSetSyncHost<Walk> = SettledSetSyncHost::new();
    let first = process_start_settled_set_sync(&mut host, SHARD, 4, block_hash(4), 1, vec![8, 9]);
    assert_eq!(first.len(), 1);
    handle_settled_waves_fetch_failed(&mut host, SHARD);
    let again = settled_set_tick(&mut host);
    assert!(matches!(again.as_slice(), [SettledSetOutput::Fetch { peer: Some(9), .. }]));
    let parked = handle_settled_waves_response_received(&mut host, SHARD, None);
    assert!(parked.is_empty());
    assert!(settled_waves_response(None).reveal.is_none());
    assert_eq!(settled_waves_response(Some(vec![5])).reveal, Some(vec![5]));
}

#[test]
fn a_verdict_picks_the_fold() {
    assert_eq!(response_fold(&SettledOutcome::Accepted, true), ResponseFold::Complete);
    assert_eq!(response_fold(&SettledOutcome::Accepted, false), ResponseFold::Continue);
    assert_eq!(response_fold(&SettledOutcome::NotYetAvailable, false), ResponseFold::Rotate);
    assert_eq!(response_fold(&SettledOutcome::Rejected, true), ResponseFold::Rotate);
}

#[test]
fn a_fetch_goes_to_the_peer_at_the_cursor() {
    let request = SettledWavesRequest { height: 4, block_hash: (1, 2, 3, 4) };
    let out = fetch_for::<BTreeSet<u64>>(SHARD, &[10, 11, 12], 4, Some(request));
    assert!(matches!(out, Some(SettledSetOutput::Fetch { shard: SHARD, peer: Some(11), request: r }) if r.height == 4));
    assert!(matches!(fetch_for::<BTreeSet<u64>>(SHARD, &[], 4, Some(request)), Some(SettledSetOutput::Fetch { peer: None, .. })));
    assert!(fetch_for::<BTreeSet<u64>>(SHARD, &[10], 0, None).is_none());
}
