//! Per-shard settled-set reconstruction host: one backward walk per
//! terminated shard, with the scheduling around it — which peer to ask,
//! when a stalled walk re-arms, and when the walk is complete. The walk
//! itself is supplied by the caller; the host's scheduling is verified.
use vstd::prelude::*;

use crate::types::{hash_eq, Digest, ShardId, ValidatorId};

verus! {

/// A fetch of the settled waves revealed by the block at `height`.
#[derive(Debug, Clone, Copy)]
pub struct SettledWavesRequest {
    pub height: u64,
    pub block_hash: Digest,
}

/// A settled-waves response: the encoded reveal, or `None` when the peer
/// did not hold the height.
pub struct SettledWavesResponse {
    pub reveal: Option<Vec<u8>>,
}

impl SettledWavesResponse {
    /// The response of a peer that does not hold the height.
    pub fn not_found() -> (r: SettledWavesResponse)
        ensures
            r.reveal is None,
    {
        SettledWavesResponse { reveal: None }
    }

    /// The response carrying `reveal`.
    pub fn found(reveal: Vec<u8>) -> (r: SettledWavesResponse)
        ensures
            r.reveal == Some(reveal),
    {
        SettledWavesResponse { reveal: Some(reveal) }
    }
}

/// How a walk folded a response.
pub enum SettledOutcome {
    /// The block was accepted; the walk moved on.
    Accepted,
    /// The peer did not hold the height.
    NotYetAvailable,
    /// The response did not match the chain being walked.
    Rejected,
}

/// The backward walk over a terminated shard's tail chain. Each operation
/// is described by spec functions of the walk's state: what it returns and
/// the state it leaves, so that the host's scheduling can be stated over them.
pub trait SettledWalk: Sized {
    /// The settled wave-ids the walk collects.
    type Waves;

    /// The walk that starts from the terminal block down to `start_height`.
    spec fn started(shard: ShardId, terminal_height: u64, terminal_block_hash: Digest, start_height: u64) -> Self;

    /// Start walking back from the terminal block down to `start_height`.
    fn start(shard: ShardId, terminal_height: u64, terminal_block_hash: Digest, start_height: u64) -> (w: Self)
        ensures
            w == Self::started(shard, terminal_height, terminal_block_hash, start_height),
    ;

    /// The fetch this walk hands out next.
    spec fn request(&self) -> Option<SettledWavesRequest>;

    /// This walk once it handed out its next fetch.
    spec fn requested(&self) -> Self;

    /// The next fetch, or `None` while one is outstanding or the walk is done.
    fn next_request(&mut self) -> (r: Option<SettledWavesRequest>)
        ensures
            r == old(self).request(),
            *final(self) == old(self).requested(),
    ;

    /// This walk's verdict on `response`.
    spec fn outcome(&self, response: SettledWavesResponse) -> SettledOutcome;

    /// This walk once it folded `response`.
    spec fn answered(&self, response: SettledWavesResponse) -> Self;

    fn on_response(&mut self, response: &SettledWavesResponse) -> (o: SettledOutcome)
        ensures
            o == old(self).outcome(*response),
            *final(self) == old(self).answered(*response),
    ;

    /// This walk once its outstanding fetch failed.
    spec fn failed(&self) -> Self;

    fn on_failure(&mut self)
        ensures
            *final(self) == old(self).failed(),
    ;

    /// Whether the walk reached its start height.
    spec fn complete(&self) -> bool;

    fn is_complete(&self) -> (b: bool)
        ensures
            b == self.complete(),
    ;

    /// The waves this walk collected.
    spec fn settled(&self) -> Self::Waves;

    fn into_settled(self) -> (w: Self::Waves)
        ensures
            w == self.settled(),
    ;
}

/// What the io glue should do after folding an input into the host.
pub enum SettledSetOutput<W> {
    /// Issue this fetch against `shard`'s terminal committee, biased to `peer`.
    Fetch { shard: ShardId, peer: Option<ValidatorId>, request: SettledWavesRequest },
    /// The walk reached its start height: `shard`'s settled set is complete.
    Complete { shard: ShardId, waves: W, terminal_wt: u64 },
}

/// One in-flight reconstruction.
struct SettledSetDriver<S> {
    shard: ShardId,
    walk: S,
    terminal_block_hash: Digest,
    peers: Vec<ValidatorId>,
    terminal_wt: u64,
    cursor: usize,
}

/// One reconstruction: its scheduling state and its walk.
pub struct DriverView<S> {
    pub terminal_block_hash: Digest,
    pub peers: Seq<ValidatorId>,
    pub terminal_wt: u64,
    pub cursor: usize,
    pub walk: S,
}

/// The peer a driver with `peers` and `cursor` asks: none when it has no
/// peers, else the one at `cursor` modulo the number of peers.
pub open spec fn peer_at(peers: Seq<ValidatorId>, cursor: usize) -> Option<ValidatorId> {
    if peers.len() == 0 {
        None
    } else {
        Some(peers[(cursor as int) % (peers.len() as int)])
    }
}

/// `d` after a stall: the cursor rotated to the next peer.
pub open spec fn rotated<S>(d: DriverView<S>) -> DriverView<S> {
    DriverView { cursor: d.cursor.wrapping_add(1), ..d }
}

/// `d` with its walk moved on to `walk`.
pub open spec fn with_walk<S>(d: DriverView<S>, walk: S) -> DriverView<S> {
    DriverView { walk, ..d }
}

spec fn drivers_map<S>(ds: Seq<SettledSetDriver<S>>) -> Map<ShardId, DriverView<S>> {
    Map::new(
        |s: ShardId| exists|i: int| 0 <= i < ds.len() && #[trigger] ds[i].shard == s,
        |s: ShardId| driver_view(ds[choose|i: int| 0 <= i < ds.len() && #[trigger] ds[i].shard == s]),
    )
}

spec fn unique_shards<S>(ds: Seq<SettledSetDriver<S>>) -> bool {
    forall|i: int, j: int| 0 <= i < ds.len() && 0 <= j < ds.len() && i != j ==> ds[i].shard != ds[j].shard
}

proof fn lemma_map_at<S>(ds: Seq<SettledSetDriver<S>>, i: int)
    requires
        unique_shards(ds),
        0 <= i < ds.len(),
    ensures
        drivers_map(ds).contains_key(ds[i].shard),
        drivers_map(ds)[ds[i].shard] == driver_view(ds[i]),
{
    let s = ds[i].shard;
    let j = choose|j: int| 0 <= j < ds.len() && #[trigger] ds[j].shard == s;
    assert(i == j);
}

proof fn lemma_map_len<S>(ds: Seq<SettledSetDriver<S>>)
    requires
        unique_shards(ds),
    ensures
        drivers_map(ds).dom().finite(),
        drivers_map(ds).len() == ds.len(),
    decreases ds.len(),
{
    if ds.len() == 0 {
        assert(drivers_map(ds).dom() =~= Set::<ShardId>::empty());
    } else {
        let init = ds.drop_last();
        assert(unique_shards(init)) by {
            assert forall|a: int, b: int| 0 <= a < init.len() && 0 <= b < init.len() && a != b implies init[a].shard != init[b].shard by {
                assert(init[a] == ds[a] && init[b] == ds[b]);
            }
        }
        lemma_map_len(init);
        assert(!drivers_map(init).contains_key(ds.last().shard)) by {
            if drivers_map(init).contains_key(ds.last().shard) {
                let k = choose|k: int| 0 <= k < init.len() && #[trigger] init[k].shard == ds.last().shard;
                assert(ds[k].shard == ds[ds.len() - 1].shard);
            }
        }
        lemma_map_push(init, ds.last());
        assert(init.push(ds.last()) == ds);
    }
}

proof fn lemma_map_update<S>(ds: Seq<SettledSetDriver<S>>, i: int, d: SettledSetDriver<S>)
    requires
        unique_shards(ds),
        0 <= i < ds.len(),
        d.shard == ds[i].shard,
    ensures
        unique_shards(ds.update(i, d)),
        drivers_map(ds.update(i, d)) == drivers_map(ds).insert(d.shard, driver_view(d)),
{
    let ds2 = ds.update(i, d);
    assert forall|a: int, b: int| 0 <= a < ds2.len() && 0 <= b < ds2.len() && a != b implies ds2[a].shard != ds2[b].shard by {
        assert(ds2[a].shard == ds[a].shard && ds2[b].shard == ds[b].shard);
    }
    assert forall|s: ShardId| #[trigger] drivers_map(ds2).contains_key(s) == drivers_map(ds).insert(d.shard, driver_view(d)).contains_key(s) by {
        if drivers_map(ds).contains_key(s) {
            let k = choose|k: int| 0 <= k < ds.len() && #[trigger] ds[k].shard == s;
            assert(ds2[k].shard == s);
        }
        if drivers_map(ds2).contains_key(s) {
            let k = choose|k: int| 0 <= k < ds2.len() && #[trigger] ds2[k].shard == s;
            assert(ds[k].shard == s);
        }
        assert(ds2[i].shard == d.shard);
    }
    assert forall|s: ShardId| drivers_map(ds2).contains_key(s) implies #[trigger] drivers_map(ds2)[s] == drivers_map(ds).insert(d.shard, driver_view(d))[s] by {
        let k = choose|k: int| 0 <= k < ds2.len() && #[trigger] ds2[k].shard == s;
        lemma_map_at(ds2, k);
        if k != i {
            lemma_map_at(ds, k);
        }
    }
    assert(drivers_map(ds2) =~= drivers_map(ds).insert(d.shard, driver_view(d)));
}

proof fn lemma_map_remove<S>(ds: Seq<SettledSetDriver<S>>, i: int)
    requires
        unique_shards(ds),
        0 <= i < ds.len(),
    ensures
        unique_shards(ds.remove(i)),
        drivers_map(ds.remove(i)) == drivers_map(ds).remove(ds[i].shard),
{
    let ds2 = ds.remove(i);
    let gone = ds[i].shard;
    assert forall|a: int| 0 <= a < ds2.len() implies #[trigger] ds2[a] == ds[if a < i { a } else { a + 1 }] by {}
    assert forall|a: int, b: int| 0 <= a < ds2.len() && 0 <= b < ds2.len() && a != b implies ds2[a].shard != ds2[b].shard by {
        assert(ds2[a] == ds[if a < i { a } else { a + 1 }]);
        assert(ds2[b] == ds[if b < i { b } else { b + 1 }]);
    }
    assert forall|s: ShardId| #[trigger] drivers_map(ds2).contains_key(s) == drivers_map(ds).remove(gone).contains_key(s) by {
        if drivers_map(ds2).contains_key(s) {
            let k = choose|k: int| 0 <= k < ds2.len() && #[trigger] ds2[k].shard == s;
            let k0 = if k < i { k } else { k + 1 };
            assert(ds2[k] == ds[k0]);
            assert(ds[k0].shard == s);
            assert(k0 != i);
        }
        if drivers_map(ds).remove(gone).contains_key(s) {
            let k = choose|k: int| 0 <= k < ds.len() && #[trigger] ds[k].shard == s;
            assert(k != i);
            let k2 = if k < i { k } else { k - 1 };
            assert(ds2[k2] == ds[k]);
        }
    }
    assert forall|s: ShardId| drivers_map(ds2).contains_key(s) implies #[trigger] drivers_map(ds2)[s] == drivers_map(ds).remove(gone)[s] by {
        let k = choose|k: int| 0 <= k < ds2.len() && #[trigger] ds2[k].shard == s;
        lemma_map_at(ds2, k);
        let k0 = if k < i { k } else { k + 1 };
        assert(ds2[k] == ds[k0]);
        lemma_map_at(ds, k0);
    }
    assert(drivers_map(ds2) =~= drivers_map(ds).remove(gone));
}

proof fn lemma_map_push<S>(ds: Seq<SettledSetDriver<S>>, d: SettledSetDriver<S>)
    requires
        unique_shards(ds),
        !drivers_map(ds).contains_key(d.shard),
    ensures
        unique_shards(ds.push(d)),
        drivers_map(ds.push(d)) == drivers_map(ds).insert(d.shard, driver_view(d)),
{
    let ds2 = ds.push(d);
    assert forall|a: int, b: int| 0 <= a < ds2.len() && 0 <= b < ds2.len() && a != b implies ds2[a].shard != ds2[b].shard by {
        if a == ds.len() {
            assert(ds[b].shard == ds2[b].shard);
        } else if b == ds.len() {
            assert(ds[a].shard == ds2[a].shard);
        } else {
            assert(ds[a].shard == ds2[a].shard && ds[b].shard == ds2[b].shard);
        }
    }
    assert forall|s: ShardId| #[trigger] drivers_map(ds2).contains_key(s) == drivers_map(ds).insert(d.shard, driver_view(d)).contains_key(s) by {
        if drivers_map(ds).contains_key(s) {
            let k = choose|k: int| 0 <= k < ds.len() && #[trigger] ds[k].shard == s;
            assert(ds2[k].shard == s);
        }
        if drivers_map(ds2).contains_key(s) {
            let k = choose|k: int| 0 <= k < ds2.len() && #[trigger] ds2[k].shard == s;
            if k < ds.len() {
                assert(ds[k].shard == s);
            }
        }
        assert(ds2[ds.len() as int].shard == d.shard);
    }
    assert forall|s: ShardId| drivers_map(ds2).contains_key(s) implies #[trigger] drivers_map(ds2)[s] == drivers_map(ds).insert(d.shard, driver_view(d))[s] by {
        let k = choose|k: int| 0 <= k < ds2.len() && #[trigger] ds2[k].shard == s;
        lemma_map_at(ds2, k);
        if k < ds.len() {
            assert(ds2[k] == ds[k]);
            lemma_map_at(ds, k);
        }
    }
    assert(drivers_map(ds2) =~= drivers_map(ds).insert(d.shard, driver_view(d)));
}

/// What starting a reconstruction of `shard` at terminal block
/// `terminal_block_hash` does to the drivers `before`: nothing when that
/// terminal is already being walked; otherwise a fresh walk at the first
/// peer replaces any running one, and the fetch it hands out first is issued.
pub open spec fn start_effect<S: SettledWalk>(
    before: Map<ShardId, DriverView<S>>,
    shard: ShardId,
    terminal_height: u64,
    terminal_block_hash: Digest,
    terminal_wt: u64,
    peers: Seq<ValidatorId>,
    start_height: u64,
    after: Map<ShardId, DriverView<S>>,
    outputs: Seq<SettledSetOutput<S::Waves>>,
) -> bool {
    if before.contains_key(shard) && before[shard].terminal_block_hash == terminal_block_hash {
        &&& outputs.len() == 0
        &&& after == before
    } else {
        let w = S::started(shard, terminal_height, terminal_block_hash, start_height);
        let d = DriverView { terminal_block_hash, peers, terminal_wt, cursor: 0, walk: w.requested() };
        &&& after == before.insert(shard, d)
        &&& outputs == optional_outputs(fetch_for_spec::<S::Waves>(shard, peers, 0, w.request()))
    }
}

/// How a walk's verdict on a response moves its scheduling: a stall (the
/// peer lacked the block, or the response did not match) rotates the peer;
/// an accepted block either continues the walk or, when the walk is now
/// complete, finishes it.
#[derive(Debug, Clone, Copy, PartialEq, Eq, Structural)]
pub enum ResponseFold {
    Rotate,
    Continue,
    Complete,
}

/// The fold a verdict `outcome` calls for, `complete` being whether the
/// walk is complete after an accepted block.
pub open spec fn response_fold_spec(outcome: SettledOutcome, complete: bool) -> ResponseFold {
    match outcome {
        SettledOutcome::Accepted => if complete {
            ResponseFold::Complete
        } else {
            ResponseFold::Continue
        },
        _ => ResponseFold::Rotate,
    }
}

/// The fold a walk's verdict calls for.
pub fn response_fold(outcome: &SettledOutcome, complete: bool) -> (fold: ResponseFold)
    ensures
        fold == response_fold_spec(*outcome, complete),
{
    match outcome {
        SettledOutcome::Accepted => if complete {
            ResponseFold::Complete
        } else {
            ResponseFold::Continue
        },
        _ => ResponseFold::Rotate,
    }
}

/// The fetch a driver of `shard` with `peers` at `cursor` issues when its
/// walk hands out `request`: none when the walk withholds one.
pub open spec fn fetch_for_spec<W>(
    shard: ShardId,
    peers: Seq<ValidatorId>,
    cursor: usize,
    request: Option<SettledWavesRequest>,
) -> Option<SettledSetOutput<W>> {
    match request {
        Some(r) => Some(SettledSetOutput::Fetch { shard, peer: peer_at(peers, cursor), request: r }),
        None => None,
    }
}

/// The fetch a driver issues for the request its walk handed out, biased
/// to the peer at its cursor.
pub fn fetch_for<W>(shard: ShardId, peers: &[ValidatorId], cursor: usize, request: Option<SettledWavesRequest>) -> (out:
    Option<SettledSetOutput<W>>)
    ensures
        out == fetch_for_spec::<W>(shard, peers@, cursor, request),
{
    let request = match request {
        Some(r) => r,
        None => return None,
    };
    let peer = if peers.len() == 0 {
        None
    } else {
        Some(peers[cursor % peers.len()])
    };
    Some(SettledSetOutput::Fetch { shard, peer, request })
}

/// The outputs an optional output stands for.
pub open spec fn optional_outputs<W>(o: Option<SettledSetOutput<W>>) -> Seq<SettledSetOutput<W>> {
    match o {
        Some(x) => seq![x],
        None => Seq::empty(),
    }
}

/// What fold `fold` does to `shard`'s running walk, `walk` being the walk
/// once it folded the response: a rotation issues nothing; a continuation
/// keeps the scheduling and issues the fetch the walk hands out next; a
/// completion drops the driver and reports the walk's settled set with its
/// terminal timestamp.
pub open spec fn fold_effect<S: SettledWalk>(
    before: Map<ShardId, DriverView<S>>,
    shard: ShardId,
    fold: ResponseFold,
    walk: S,
    after: Map<ShardId, DriverView<S>>,
    outputs: Seq<SettledSetOutput<S::Waves>>,
) -> bool {
    let d = before[shard];
    match fold {
        ResponseFold::Rotate => outputs.len() == 0 && after == before.insert(shard, rotated(with_walk(d, walk))),
        ResponseFold::Continue => after == before.insert(shard, with_walk(d, walk.requested())) && outputs
            == optional_outputs(fetch_for_spec::<S::Waves>(shard, d.peers, d.cursor, walk.request())),
        ResponseFold::Complete => after == before.remove(shard) && outputs == seq![
            SettledSetOutput::Complete { shard, waves: walk.settled(), terminal_wt: d.terminal_wt },
        ],
    }
}

/// What folding `response` for `shard` does to the drivers `before`:
/// nothing for a shard with no walk; otherwise the walk folds it, and its
/// verdict, with whether it is then complete, picks the fold.
pub open spec fn response_effect<S: SettledWalk>(
    before: Map<ShardId, DriverView<S>>,
    shard: ShardId,
    response: SettledWavesResponse,
    after: Map<ShardId, DriverView<S>>,
    outputs: Seq<SettledSetOutput<S::Waves>>,
) -> bool {
    if !before.contains_key(shard) {
        outputs.len() == 0 && after == before
    } else {
        let w = before[shard].walk;
        let answered = w.answered(response);
        fold_effect(before, shard, response_fold_spec(w.outcome(response), answered.complete()), answered, after, outputs)
    }
}

/// What a transport failure of `shard`'s fetch does: the walk re-arms and
/// its peer rotates.
pub open spec fn failure_effect<S: SettledWalk>(
    before: Map<ShardId, DriverView<S>>,
    shard: ShardId,
    after: Map<ShardId, DriverView<S>>,
) -> bool {
    &&& !before.contains_key(shard) ==> after == before
    &&& before.contains_key(shard) ==> after == before.insert(
        shard,
        rotated(with_walk(before[shard], before[shard].walk.failed())),
    )
}

/// The shard an output concerns.
pub open spec fn output_shard<W>(o: SettledSetOutput<W>) -> ShardId {
    match o {
        SettledSetOutput::Fetch { shard, .. } => shard,
        SettledSetOutput::Complete { shard, .. } => shard,
    }
}

/// The fetch `shard`'s walk issues on a tick: the one it hands out, to its
/// current peer.
pub open spec fn tick_fetch<S: SettledWalk>(before: Map<ShardId, DriverView<S>>, shard: ShardId) -> Option<
    SettledSetOutput<S::Waves>,
> {
    fetch_for_spec::<S::Waves>(shard, before[shard].peers, before[shard].cursor, before[shard].walk.request())
}

/// Whether `o` is the tick fetch of one of the walks in `before`.
pub open spec fn fetch_of_some<S: SettledWalk>(before: Map<ShardId, DriverView<S>>, o: SettledSetOutput<S::Waves>) -> bool {
    exists|s: ShardId| #[trigger] before.contains_key(s) && tick_fetch(before, s) == Some(o)
}

/// What a tick does: every running walk is asked for its next fetch, and
/// the outputs are exactly the fetches they handed out, one per walk that
/// handed one out; the scheduling state is otherwise unchanged.
pub open spec fn tick_effect<S: SettledWalk>(
    before: Map<ShardId, DriverView<S>>,
    after: Map<ShardId, DriverView<S>>,
    outputs: Seq<SettledSetOutput<S::Waves>>,
) -> bool {
    &&& after.dom() == before.dom()
    &&& forall|s: ShardId| #[trigger] before.contains_key(s) ==> after[s] == with_walk(before[s], before[s].walk.requested())
    &&& forall|k: int| 0 <= k < outputs.len() ==> fetch_of_some(before, #[trigger] outputs[k])
    &&& forall|s: ShardId| #[trigger] before.contains_key(s) && tick_fetch(before, s) is Some ==> outputs.contains(
        tick_fetch(before, s).unwrap(),
    )
    &&& forall|k: int, l: int| 0 <= k < l < outputs.len() ==> output_shard(#[trigger] outputs[k]) != output_shard(
        #[trigger] outputs[l],
    )
}

/// Starts are deduplicated by terminal block: a second start for the same
/// terminal changes nothing and issues nothing, whatever peers and timestamp
/// it carries; a start for another terminal block replaces the walk with a
/// fresh one.
pub proof fn lemma_start_dedup<S: SettledWalk>(
    before: Map<ShardId, DriverView<S>>,
    shard: ShardId,
    terminal_height: u64,
    terminal_block_hash: Digest,
    terminal_wt: u64,
    peers: Seq<ValidatorId>,
    start_height: u64,
    started: Map<ShardId, DriverView<S>>,
    first: Seq<SettledSetOutput<S::Waves>>,
    again_height: u64,
    again_hash: Digest,
    again_wt: u64,
    again_peers: Seq<ValidatorId>,
    restarted: Map<ShardId, DriverView<S>>,
    second: Seq<SettledSetOutput<S::Waves>>,
)
    requires
        start_effect(before, shard, terminal_height, terminal_block_hash, terminal_wt, peers, start_height, started, first),
        start_effect(started, shard, again_height, again_hash, again_wt, again_peers, start_height, restarted, second),
    ensures
        started.contains_key(shard) && started[shard].terminal_block_hash == terminal_block_hash,
        again_hash == terminal_block_hash ==> restarted == started && second.len() == 0,
        again_hash != terminal_block_hash ==> restarted == started.insert(
            shard,
            DriverView {
                terminal_block_hash: again_hash,
                peers: again_peers,
                terminal_wt: again_wt,
                cursor: 0,
                walk: S::started(shard, again_height, again_hash, start_height).requested(),
            },
        ),
{
}

/// Drives one settled-set walk per past-terminal shard.
pub struct SettledSetSyncHost<S> {
    /// One driver per shard (see `wf`), in the order the walks started; a
    /// tick visits them in this order.
    drivers: Vec<SettledSetDriver<S>>,
}

spec fn driver_view<S>(d: SettledSetDriver<S>) -> DriverView<S> {
    DriverView {
        terminal_block_hash: d.terminal_block_hash,
        peers: d.peers@,
        terminal_wt: d.terminal_wt,
        cursor: d.cursor,
        walk: d.walk,
    }
}

impl<S: SettledWalk> SettledSetSyncHost<S> {
    /// The running reconstructions, by shard.
    pub closed spec fn drivers(&self) -> Map<ShardId, DriverView<S>> {
        drivers_map(self.drivers@)
    }

    /// At most one driver per shard.
    pub closed spec fn wf(&self) -> bool {
        unique_shards(self.drivers@)
    }

    /// An empty host.
    pub fn new() -> (h: Self)
        ensures
            h.wf(),
            h.drivers() == Map::<ShardId, DriverView<S>>::empty(),
    {
        let h = SettledSetSyncHost { drivers: Vec::new() };
        assert(h.drivers() =~= Map::<ShardId, DriverView<S>>::empty());
        assert(unique_shards(h.drivers@));
        h
    }

    /// Whether any reconstruction is unfinished.
    pub fn has_pending(&self) -> (b: bool)
        ensures
            b == !self.drivers().is_empty(),
    {
        if self.drivers.len() > 0 {
            assert(drivers_map(self.drivers@).contains_key(self.drivers@[0].shard));
            true
        } else {
            assert(self.drivers() =~= Map::<ShardId, DriverView<S>>::empty());
            false
        }
    }

    fn find(&self, shard: ShardId) -> (idx: Option<usize>)
        requires
            self.wf(),
        ensures
            idx is None <==> !self.drivers().contains_key(shard),
            idx matches Some(i) ==> i < self.drivers@.len() && self.drivers@[i as int].shard == shard,
    {
        proof {
            if self.drivers().contains_key(shard) {
                let k = choose|k: int| 0 <= k < self.drivers@.len() && #[trigger] self.drivers@[k].shard == shard;
            }
        }
        let mut i: usize = 0;
        while i < self.drivers.len()
            invariant
                i <= self.drivers@.len(),
                forall|k: int| 0 <= k < i ==> self.drivers@[k].shard != shard,
            decreases self.drivers@.len() - i,
        {
            if self.drivers[i].shard == shard {
                return Some(i);
            }
            i = i + 1;
        }
        None
    }

    /// The next fetch `driver` wants, if any: the fetch for the request
    /// its walk hands out.
    fn next_fetch(driver: &mut SettledSetDriver<S>) -> (out: Option<SettledSetOutput<S::Waves>>)
        ensures
            final(driver).shard == old(driver).shard,
            driver_view(*final(driver)) == with_walk(driver_view(*old(driver)), old(driver).walk.requested()),
            out == fetch_for_spec::<S::Waves>(old(driver).shard, old(driver).peers@, old(driver).cursor, old(driver).walk.request()),
    {
        let request = driver.walk.next_request();
        fetch_for(driver.shard, driver.peers.as_slice(), driver.cursor, request)
    }
}

impl<S: SettledWalk> SettledSetSyncHost<S> {
    /// Begin reconstructing `shard`'s settled set from its terminal anchor.
    /// A start for the terminal already in flight is a no-op; a start naming
    /// a different terminal block replaces the running walk.
    pub fn start(
        &mut self,
        shard: ShardId,
        terminal_height: u64,
        terminal_block_hash: Digest,
        terminal_wt: u64,
        peers: Vec<ValidatorId>,
        start_height: u64,
    ) -> (outputs: Vec<SettledSetOutput<S::Waves>>)
        requires
            old(self).wf(),
        ensures
            final(self).wf(),
            start_effect(
                old(self).drivers(),
                shard,
                terminal_height,
                terminal_block_hash,
                terminal_wt,
                peers@,
                start_height,
                final(self).drivers(),
                outputs@,
            ),
    {
        let ghost peers0 = peers@;
        let ghost w0 = S::started(shard, terminal_height, terminal_block_hash, start_height);
        let ghost fresh = DriverView { terminal_block_hash, peers: peers0, terminal_wt, cursor: 0, walk: w0.requested() };
        if let Some(i) = self.find(shard) {
            proof {
                lemma_map_at(self.drivers@, i as int);
            }
            if hash_eq(&self.drivers[i].terminal_block_hash, &terminal_block_hash) {
                return Vec::new();
            }
            let ghost pre = self.drivers@;
            let _old = self.drivers.remove(i);
            proof {
                lemma_map_remove(pre, i as int);
            }
        }
        let mut driver = SettledSetDriver {
            shard,
            walk: S::start(shard, terminal_height, terminal_block_hash, start_height),
            terminal_block_hash,
            peers,
            terminal_wt,
            cursor: 0,
        };
        let first = Self::next_fetch(&mut driver);
        let ghost pre = self.drivers@;
        proof {
            lemma_map_push(pre, driver);
        }
        self.drivers.push(driver);
        let mut outputs: Vec<SettledSetOutput<S::Waves>> = Vec::new();
        if let Some(o) = first {
            outputs.push(o);
        }
        assert(outputs@ =~= optional_outputs(first));
        assert(self.drivers() =~= old(self).drivers().insert(shard, fresh));
        outputs
    }

    /// Fold a settled-waves response into `shard`'s walk. Accepting the
    /// last block completes the walk and drops its driver; an accepted
    /// intermediate block immediately fetches the next; a not-yet-available
    /// or rejected response rotates the peer and waits for the next tick.
    pub fn on_response(&mut self, shard: ShardId, response: &SettledWavesResponse) -> (outputs: Vec<SettledSetOutput<S::Waves>>)
        requires
            old(self).wf(),
        ensures
            final(self).wf(),
            response_effect(old(self).drivers(), shard, *response, final(self).drivers(), outputs@),
    {
        let i = match self.find(shard) {
            Some(i) => i,
            None => return Vec::new(),
        };
        let ghost pre = self.drivers@;
        proof {
            lemma_map_at(pre, i as int);
        }
        let mut driver = self.drivers.remove(i);
        let outcome = driver.walk.on_response(response);
        let ghost answered = driver.walk;
        let complete = match outcome {
            SettledOutcome::Accepted => driver.walk.is_complete(),
            _ => false,
        };
        let fold = response_fold(&outcome, complete);
        assert(fold == response_fold_spec(outcome, answered.complete()));
        let mut outputs: Vec<SettledSetOutput<S::Waves>> = Vec::new();
        match fold {
            ResponseFold::Continue => {
                let next = Self::next_fetch(&mut driver);
                if let Some(o) = next {
                    outputs.push(o);
                }
                self.drivers.insert(i, driver);
                proof {
                    assert(self.drivers@ == pre.update(i as int, self.drivers@[i as int]));
                    lemma_map_update(pre, i as int, self.drivers@[i as int]);
                    assert(outputs@ =~= optional_outputs(next));
                }
                outputs
            },
            ResponseFold::Complete => {
                proof {
                    lemma_map_remove(pre, i as int);
                }
                let terminal_wt = driver.terminal_wt;
                let waves = driver.walk.into_settled();
                outputs.push(SettledSetOutput::Complete { shard, waves, terminal_wt });
                assert(outputs@ =~= seq![SettledSetOutput::Complete { shard, waves: answered.settled(), terminal_wt }]);
                outputs
            },
            ResponseFold::Rotate => {
                driver.cursor = driver.cursor.wrapping_add(1);
                self.drivers.insert(i, driver);
                proof {
                    assert(self.drivers@ == pre.update(i as int, self.drivers@[i as int]));
                    lemma_map_update(pre, i as int, self.drivers@[i as int]);
                }
                outputs
            },
        }
    }

    /// A transport-level failure of `shard`'s outstanding fetch: the walk
    /// re-arms and the peer rotates; the next tick re-issues.
    pub fn on_failure(&mut self, shard: ShardId)
        requires
            old(self).wf(),
        ensures
            final(self).wf(),
            failure_effect(old(self).drivers(), shard, final(self).drivers()),
    {
        if let Some(i) = self.find(shard) {
            let ghost pre = self.drivers@;
            proof {
                lemma_map_at(pre, i as int);
            }
            let mut driver = self.drivers.remove(i);
            driver.walk.on_failure();
            driver.cursor = driver.cursor.wrapping_add(1);
            self.drivers.insert(i, driver);
            proof {
                assert(self.drivers@ == pre.update(i as int, self.drivers@[i as int]));
                lemma_map_update(pre, i as int, self.drivers@[i as int]);
            }
        }
    }

    /// Re-issue every stalled walk's next fetch: every running walk is asked
    /// for its next fetch, at most one per walk, each to the walk's current
    /// peer.
    pub fn on_tick(&mut self) -> (outputs: Vec<SettledSetOutput<S::Waves>>)
        requires
            old(self).wf(),
        ensures
            final(self).wf(),
            tick_effect(old(self).drivers(), final(self).drivers(), outputs@),
    {
        let ghost m0 = self.drivers();
        let ghost ds0 = self.drivers@;
        let mut outputs: Vec<SettledSetOutput<S::Waves>> = Vec::new();
        let ghost mut src: Seq<int> = Seq::empty();
        let mut i: usize = 0;
        while i < self.drivers.len()
            invariant
                m0 == old(self).drivers(),
                ds0 == old(self).drivers@,
                m0 == drivers_map(ds0),
                unique_shards(ds0),
                i <= self.drivers@.len(),
                self.drivers@.len() == ds0.len(),
                forall|j: int| 0 <= j < ds0.len() ==> #[trigger] self.drivers@[j].shard == ds0[j].shard,
                forall|j: int| 0 <= j < i ==> driver_view(#[trigger] self.drivers@[j]) == with_walk(driver_view(ds0[j]), ds0[j].walk.requested()),
                forall|j: int| i <= j < ds0.len() ==> #[trigger] self.drivers@[j] == ds0[j],
                src.len() == outputs@.len(),
                forall|a: int, b: int| 0 <= a < b < src.len() ==> src[a] < src[b],
                forall|a: int| 0 <= a < src.len() ==> 0 <= #[trigger] src[a] < i,
                forall|a: int| 0 <= a < src.len() ==> tick_fetch(m0, ds0[src[a]].shard) == Some(#[trigger] outputs@[a]),
                forall|j: int| 0 <= j < i && tick_fetch(m0, ds0[j].shard) is Some ==> exists|a: int| 0 <= a < src.len() && #[trigger] src[a] == j,
            decreases self.drivers@.len() - i,
        {
            proof {
                lemma_map_at(ds0, i as int);
            }
            let mut driver = self.drivers.remove(i);
            assert(driver == ds0[i as int]);
            let next = Self::next_fetch(&mut driver);
            let ghost sh = driver.shard;
            let ghost pre = self.drivers@;
            let ghost src0 = src;
            assert(m0[sh] == driver_view(ds0[i as int]));
            assert(tick_fetch(m0, ds0[i as int].shard) == next);
            self.drivers.insert(i, driver);
            if let Some(o) = next {
                outputs.push(o);
                proof {
                    src = src.push(i as int);
                }
            }
            proof {
                assert forall|j: int| 0 <= j < ds0.len() implies #[trigger] self.drivers@[j].shard == ds0[j].shard by {
                    if j < i {
                    } else if j > i {
                    }
                }
                assert forall|j: int| 0 <= j < i + 1 && tick_fetch(m0, ds0[j].shard) is Some implies exists|a: int|
                    0 <= a < src.len() && #[trigger] src[a] == j by {
                    if j == i {
                        assert(src[src.len() - 1] == j);
                    } else {
                        let a = choose|a: int| 0 <= a < src0.len() && #[trigger] src0[a] == j;
                        assert(src[a] == src0[a]);
                    }
                }
            }
            i = i + 1;
        }
        proof {
            let ds = self.drivers@;
            assert(unique_shards(ds)) by {
                assert forall|a: int, b: int| 0 <= a < ds.len() && 0 <= b < ds.len() && a != b implies ds[a].shard != ds[b].shard by {
                    assert(ds[a].shard == ds0[a].shard && ds[b].shard == ds0[b].shard);
                }
            }
            assert forall|s: ShardId| #[trigger] drivers_map(ds).contains_key(s) == m0.contains_key(s) by {
                if drivers_map(ds).contains_key(s) {
                    let k = choose|k: int| 0 <= k < ds.len() && #[trigger] ds[k].shard == s;
                    assert(ds0[k].shard == s);
                }
                if m0.contains_key(s) {
                    let k = choose|k: int| 0 <= k < ds0.len() && #[trigger] ds0[k].shard == s;
                    assert(ds[k].shard == s);
                }
            }
            assert(self.drivers().dom() =~= m0.dom());
            assert forall|s: ShardId| #[trigger] m0.contains_key(s) implies self.drivers()[s] == with_walk(m0[s], m0[s].walk.requested()) by {
                let k = choose|k: int| 0 <= k < ds0.len() && #[trigger] ds0[k].shard == s;
                lemma_map_at(ds0, k);
                assert(ds[k].shard == s);
                lemma_map_at(ds, k);
            }
            assert forall|k: int| 0 <= k < outputs@.len() implies fetch_of_some(m0, #[trigger] outputs@[k]) by {
                lemma_map_at(ds0, src[k]);
            }
            assert forall|s: ShardId| #[trigger] m0.contains_key(s) && tick_fetch(m0, s) is Some implies outputs@.contains(
                tick_fetch(m0, s).unwrap(),
            ) by {
                let j = choose|j: int| 0 <= j < ds0.len() && #[trigger] ds0[j].shard == s;
                let a = choose|a: int| 0 <= a < src.len() && #[trigger] src[a] == j;
                assert(tick_fetch(m0, ds0[src[a]].shard) == Some(outputs@[a]));
            }
            assert forall|k: int, l: int| 0 <= k < l < outputs@.len() implies output_shard(#[trigger] outputs@[k])
                != output_shard(#[trigger] outputs@[l]) by {
                assert(src[k] < src[l]);
                assert(ds0[src[k]].shard != ds0[src[l]].shard);
            }
        }
        outputs
    }
}

/// The first height a settled-set walk fetches: the block after genesis,
/// which carries no certificates.
pub const SETTLED_WALK_START_HEIGHT: u64 = 1;

/// Begin (or deduplicate) `shard`'s settled-set reconstruction from its
/// terminal anchor, walking down to the first block past genesis; returns
/// the first fetch to issue, if any.
pub fn process_start_settled_set_sync<S: SettledWalk>(
    host: &mut SettledSetSyncHost<S>,
    shard: ShardId,
    terminal_height: u64,
    terminal_block_hash: Digest,
    terminal_wt: u64,
    peers: Vec<ValidatorId>,
) -> (outputs: Vec<SettledSetOutput<S::Waves>>)
    requires
        old(host).wf(),
    ensures
        final(host).wf(),
        start_effect(
            old(host).drivers(),
            shard,
            terminal_height,
            terminal_block_hash,
            terminal_wt,
            peers@,
            SETTLED_WALK_START_HEIGHT,
            final(host).drivers(),
            outputs@,
        ),
{
    host.start(shard, terminal_height, terminal_block_hash, terminal_wt, peers, SETTLED_WALK_START_HEIGHT)
}

/// The response a reveal stands for: found when a peer sent one, not found
/// when it did not hold the height.
pub fn settled_waves_response(reveal: Option<Vec<u8>>) -> (r: SettledWavesResponse)
    ensures
        r.reveal == reveal,
{
    match reveal {
        Some(bytes) => SettledWavesResponse::found(bytes),
        None => SettledWavesResponse::not_found(),
    }
}

/// A settled-waves reveal arrived for `source_shard` (`None` when the peer
/// did not hold the height): fold it into the walk.
pub fn handle_settled_waves_response_received<S: SettledWalk>(
    host: &mut SettledSetSyncHost<S>,
    source_shard: ShardId,
    reveal: Option<Vec<u8>>,
) -> (outputs: Vec<SettledSetOutput<S::Waves>>)
    requires
        old(host).wf(),
    ensures
        final(host).wf(),
        response_effect(old(host).drivers(), source_shard, SettledWavesResponse { reveal }, final(host).drivers(), outputs@),
{
    let response = settled_waves_response(reveal);
    host.on_response(source_shard, &response)
}

/// A settled-waves fetch for `source_shard` failed at the transport level:
/// the walk re-arms and the next tick retries.
pub fn handle_settled_waves_fetch_failed<S: SettledWalk>(host: &mut SettledSetSyncHost<S>, source_shard: ShardId)
    requires
        old(host).wf(),
    ensures
        final(host).wf(),
        failure_effect(old(host).drivers(), source_shard, final(host).drivers()),
{
    host.on_failure(source_shard)
}

/// Re-issue every stalled reconstruction's next fetch on the periodic tick.
pub fn settled_set_tick<S: SettledWalk>(host: &mut SettledSetSyncHost<S>) -> (outputs: Vec<SettledSetOutput<S::Waves>>)
    requires
        old(host).wf(),
    ensures
        final(host).wf(),
        tick_effect(old(host).drivers(), final(host).drivers(), outputs@),
{
    host.on_tick()
}

} // verus!
