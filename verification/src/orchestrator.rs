//! The sans-io reshape orchestrator for the split observer duty: when to
//! open the child store, sync, re-assert ready, follow, fetch the terminal,
//! adopt and seat. The snap-sync and follow sequencers and the genesis
//! derivation are supplied by the caller; the orchestrator owns only the
//! per-duty sequencing decisions, which are what is verified here.
use vstd::prelude::*;

use crate::reshape_view::{other_than, recipients_for, CohortSeatEntry, ReshapeView, ShardAnchor};
use crate::types::{can_split, Digest, ShardId, ValidatorId};

verus! {

/// A request for the committed blocks at heights `from..=to`.
#[derive(Debug, Clone, Copy, PartialEq, Eq, Structural)]
pub struct BlockRequest {
    pub from: u64,
    pub to: u64,
}

/// A block response: the certified block, encoded, when the peer held it.
pub struct BlockResponse {
    pub certified: Option<Vec<u8>>,
}

/// A chain's origin: its genesis height and anchor weighted timestamp.
#[derive(Debug, Clone, Copy, PartialEq, Eq, Structural)]
pub struct ChainOrigin {
    pub genesis_height: u64,
    pub anchor_wt: u64,
}

/// What a fetch asks the adapter to retrieve.
#[allow(inconsistent_fields)]
pub enum FetchKind {
    /// A snap-sync state sub-range (encoded request), paired by `sub_range`.
    StateRange { sub_range: usize, request: Vec<u8> },
    /// Committed blocks by height.
    Block { request: BlockRequest },
}

/// Which genesis derivation an adoption performs.
#[derive(Debug, Clone, Copy, PartialEq, Eq, Structural)]
pub enum AdoptKind {
    /// A split child adopts from its parent's terminal contribution.
    Split,
    /// A merge parent adopts from both children's terminal contributions.
    Merge,
}

/// A unit of io the orchestrator asks the adapter to perform.
#[allow(inconsistent_fields)]
pub enum ReshapeRequest {
    /// Open (wiping any stale directory) `shard`'s store.
    OpenStore { shard: ShardId },
    /// Fetch from `peers` serving `from`, on behalf of duty `duty`.
    Fetch { duty: ShardId, from: ShardId, peers: Vec<ValidatorId>, kind: FetchKind },
    /// Write encoded `leaves` into `shard`'s store at `height`.
    ImportBoundary { shard: ShardId, height: u64, leaves: Vec<Vec<u8>> },
    /// Apply a followed block's encoded receipts into `shard`'s store.
    ApplyFollow { shard: ShardId, height: u64, receipts: Vec<Vec<u8>> },
    /// Sign a ready signal for `validator` at `anchor` and notify `recipients`.
    BroadcastReady { validator: ValidatorId, anchor: ShardAnchor, recipients: Vec<ValidatorId> },
    /// Adopt `shard`'s derived genesis (encoded), verified against the anchor.
    Adopt { shard: ShardId, kind: AdoptKind, origin: ChainOrigin, genesis: Vec<u8> },
    /// Seat the prepared `shard`.
    Seat { shard: ShardId },
}

/// What a successful fetch carried back.
#[allow(inconsistent_fields)]
pub enum FetchedKind {
    /// A state sub-range response (encoded).
    StateRange { sub_range: usize, response: Vec<u8> },
    /// A block response.
    Block { response: BlockResponse },
}

/// An io result fed back into [`ReshapeOrchestrator::step`].
#[allow(inconsistent_fields)]
pub enum ReshapeEvent {
    Opened { shard: ShardId },
    Fetched { duty: ShardId, kind: FetchedKind },
    FetchFailed { duty: ShardId, kind: FetchKind },
    Imported { shard: ShardId, root: Digest },
    Applied { shard: ShardId, root: Digest },
    Adopted { shard: ShardId },
}

/// The snap-sync sequencer of an observer's child span. Each operation is
/// described by spec functions of the sequencer's state: what it returns and
/// the state it leaves.
pub trait ObserverSync: Sized {
    /// The sequencer that syncs `child`'s span from `parent`'s `anchor`.
    spec fn started(parent: ShardId, anchor: ShardAnchor, child: ShardId) -> Self;

    /// Start syncing `child`'s span from `parent`'s attested `anchor`.
    fn start(parent: ShardId, anchor: ShardAnchor, child: ShardId) -> (b: Self)
        ensures
            b == Self::started(parent, anchor, child),
    ;

    /// The state-range fetches this sequencer hands out now.
    spec fn requests(&self) -> Vec<(usize, Vec<u8>)>;

    /// This sequencer once it handed out its fetches.
    spec fn requests_taken(&self) -> Self;

    /// The state-range fetches to issue now, with their sub-range ids.
    fn next_requests(&mut self) -> (r: Vec<(usize, Vec<u8>)>)
        ensures
            r == old(self).requests(),
            *final(self) == old(self).requests_taken(),
    ;

    /// The boundary import this sequencer hands out now.
    spec fn import(&self) -> Option<(u64, Vec<Vec<u8>>)>;

    /// This sequencer once it handed out its import.
    spec fn import_taken(&self) -> Self;

    /// The assembled boundary import, once every range is in.
    fn take_import(&mut self) -> (r: Option<(u64, Vec<Vec<u8>>)>)
        ensures
            r == old(self).import(),
            *final(self) == old(self).import_taken(),
    ;

    /// The root the import reached, once it completed.
    spec fn root(&self) -> Option<Digest>;

    /// The imported root, once the import completed.
    fn imported_root(&self) -> (r: Option<Digest>)
        ensures
            r == self.root(),
    ;

    /// The anchor this sequencer syncs from.
    spec fn anchor_of(&self) -> ShardAnchor;

    /// The anchor the sync runs from.
    fn anchor(&self) -> (a: ShardAnchor)
        ensures
            a == self.anchor_of(),
    ;

    /// This sequencer once it folded the response for `sub_range`.
    spec fn ranged(&self, sub_range: usize, response: Vec<u8>) -> Self;

    fn on_state_range(&mut self, sub_range: usize, response: &Vec<u8>)
        ensures
            *final(self) == old(self).ranged(sub_range, *response),
    ;

    /// This sequencer once the fetch of `sub_range` failed.
    spec fn range_failed(&self, sub_range: usize) -> Self;

    fn on_state_range_failure(&mut self, sub_range: usize)
        ensures
            *final(self) == old(self).range_failed(sub_range),
    ;

    /// This sequencer once the import reached `root`.
    spec fn imported(&self, root: Digest) -> Self;

    fn on_imported(&mut self, root: Digest)
        ensures
            *final(self) == old(self).imported(root),
    ;
}

/// The follow sequencer that keeps a synced child store current with its
/// parent's chain, described, like the snap-sync sequencer, by spec
/// functions of its state.
pub trait ObserverFollow: Sized {
    /// The sequencer that follows from `anchor` with the store at `root`.
    spec fn started(anchor: ShardAnchor, child: ShardId, root: Digest) -> Self;

    /// Start following from `anchor` with the store at `root`.
    fn start(anchor: ShardAnchor, child: ShardId, root: Digest) -> (t: Self)
        ensures
            t == Self::started(anchor, child, root),
    ;

    /// The block fetch this sequencer hands out now.
    spec fn request(&self) -> Option<BlockRequest>;

    /// This sequencer once it handed out its fetch.
    spec fn requested(&self) -> Self;

    /// The next block fetch, if one is due.
    fn next_request(&mut self) -> (r: Option<BlockRequest>)
        ensures
            r == old(self).request(),
            *final(self) == old(self).requested(),
    ;

    /// The receipts this sequencer hands out to apply now.
    spec fn apply(&self) -> Option<(u64, Vec<Vec<u8>>)>;

    /// This sequencer once it handed out its receipts.
    spec fn apply_taken(&self) -> Self;

    /// A fetched block's receipts to apply, if one is ready.
    fn take_apply(&mut self) -> (r: Option<(u64, Vec<Vec<u8>>)>)
        ensures
            r == old(self).apply(),
            *final(self) == old(self).apply_taken(),
    ;

    /// This sequencer once it folded `response`.
    spec fn answered(&self, response: BlockResponse) -> Self;

    fn on_response(&mut self, response: &BlockResponse)
        ensures
            *final(self) == old(self).answered(*response),
    ;

    /// This sequencer once its outstanding fetch failed.
    spec fn failed(&self) -> Self;

    fn on_failure(&mut self)
        ensures
            *final(self) == old(self).failed(),
    ;

    /// Whether the store reaching `root` keeps this sequencer on its chain.
    spec fn applies(&self, root: Digest) -> bool;

    /// This sequencer once the store reached `root`.
    spec fn applied(&self, root: Digest) -> Self;

    /// Fold an applied root; `false` when the store diverged.
    fn on_applied(&mut self, root: Digest) -> (ok: bool)
        ensures
            ok == old(self).applies(root),
            *final(self) == old(self).applied(root),
    ;
}

/// Derivation of a split child's genesis from its parent's certified terminal.
pub trait SplitGenesis {
    /// The origin and encoded genesis derived for `child` from the encoded
    /// `certified` terminal, or `None` when it does not match `anchor`.
    spec fn derived(&self, child: ShardId, certified: Vec<u8>, anchor: ShardAnchor) -> Option<(ChainOrigin, Vec<u8>)>;

    /// The derived origin and encoded genesis, or `None` when the terminal
    /// does not match `anchor`.
    fn split_genesis_from_terminal(&self, child: ShardId, certified: &Vec<u8>, anchor: &ShardAnchor) -> (r: Option<(ChainOrigin, Vec<u8>)>)
        ensures
            r == self.derived(child, *certified, *anchor),
    ;
}

/// One observer's progress through its split duty.
pub enum ObserverPhase<B, T> {
    /// Awaiting the child store open.
    Opening,
    /// Syncing the child span from the parent's attested anchor.
    Syncing(B),
    /// Synced; re-asserting ready and following the parent.
    Following(T),
    /// The children seeded; fetching the certified terminal.
    FetchingTerminal { anchor: ShardAnchor, requested: bool },
    /// Genesis derived; the adopt is emitted on the next advance.
    Adopting { origin: ChainOrigin, genesis: Vec<u8> },
    /// Adopt emitted; awaiting the verified adopted root.
    AwaitingAdopt,
    /// Genesis adopted; awaiting the placement that seats it.
    Prepared,
}

/// One split observer duty, keyed by the child it syncs.
pub struct ObserverDuty<B, T> {
    pub parent: ShardId,
    pub child: ShardId,
    pub validator: ValidatorId,
    pub phase: ObserverPhase<B, T>,
    pub open_requested: bool,
    pub store_opened: bool,
}

/// A duty's identity: `(child, parent, validator)`.
pub type DutyId = (ShardId, ShardId, ValidatorId);

/// The identity of `d`.
pub open spec fn duty_id<B, T>(d: ObserverDuty<B, T>) -> DutyId {
    (d.child, d.parent, d.validator)
}

/// The terminal height of an anchor at `height`: the block before it, or
/// the anchor height itself at height zero.
pub open spec fn terminal_height(height: u64) -> u64 {
    if height > 0 { (height - 1) as u64 } else { height }
}

/// Whether request `r` is one that a duty with identity `(c, p, v)` may
/// emit when reading `view`.
pub open spec fn request_of_duty(r: &ReshapeRequest, view: &ReshapeView, c: ShardId, p: ShardId, v: ValidatorId) -> bool {
    match r {
        ReshapeRequest::OpenStore { shard } => *shard == c,
        ReshapeRequest::Fetch { duty, from, peers, kind } => {
            &&& *duty == c
            &&& {
                ||| (*from == p && peers@ == view.committee_spec(p))
                ||| (*from == c && peers@ == view.committee_spec(c) && (kind matches FetchKind::Block { request }
                    && request.from == request.to))
            }
        },
        ReshapeRequest::ImportBoundary { shard, .. } => *shard == c,
        ReshapeRequest::ApplyFollow { shard, .. } => *shard == c,
        ReshapeRequest::BroadcastReady { validator, anchor, recipients } => {
            &&& *validator == v
            &&& view.boundary_spec(p) == Some(*anchor)
            &&& recipients@ == view.committee_spec(p).filter(other_than(v))
        },
        ReshapeRequest::Adopt { shard, kind, .. } => *shard == c && *kind == AdoptKind::Split,
        ReshapeRequest::Seat { shard } => *shard == c && view.committee_spec(c).contains(v),
    }
}

/// Whether `r` is a request one of the duties identified in `ids` may emit.
pub open spec fn request_well_formed(r: &ReshapeRequest, view: &ReshapeView, ids: Set<DutyId>) -> bool {
    exists|id: DutyId| #[trigger] ids.contains(id) && request_of_duty(r, view, id.0, id.1, id.2)
}

/// The per-host reshape orchestrator.
pub struct ReshapeOrchestrator<B, T, G> {
    /// This host's validator ids.
    me: Vec<ValidatorId>,
    /// In-flight observer duties, one per child, in the order they were
    /// discovered. A step advances them in this order, so the order of the
    /// requests it returns is fixed by it and stated in `step`'s contract.
    observers: Vec<ObserverDuty<B, T>>,
    /// The genesis derivation.
    genesis: G,
}

impl<B: ObserverSync, T: ObserverFollow, G: SplitGenesis> ReshapeOrchestrator<B, T, G> {
    /// The validator ids this host runs.
    pub closed spec fn hosted(&self) -> Seq<ValidatorId> {
        self.me@
    }

    /// The in-flight duties.
    pub closed spec fn duties(&self) -> Seq<ObserverDuty<B, T>> {
        self.observers@
    }

    /// The genesis derivation the duties adopt through.
    pub closed spec fn derivation(&self) -> G {
        self.genesis
    }

    /// No two duties sync the same child, and every duty's parent can split.
    pub open spec fn wf(&self) -> bool {
        &&& forall|i: int, j: int|
            0 <= i < j < self.duties().len() ==> self.duties()[i].child != self.duties()[j].child
        &&& forall|i: int| 0 <= i < self.duties().len() ==> can_split(#[trigger] self.duties()[i].parent)
    }

    /// Whether some duty syncs `child`.
    pub open spec fn has_duty(&self, child: ShardId) -> bool {
        has_child(self.duties(), child)
    }

    /// A fresh orchestrator for a host running `me`.
    pub fn new(me: Vec<ValidatorId>, genesis: G) -> (o: Self)
        ensures
            o.hosted() == me@,
            o.duties().len() == 0,
            o.derivation() == genesis,
            o.wf(),
    {
        ReshapeOrchestrator { me, observers: Vec::new(), genesis }
    }
}

/// Whether every request `out` holds past position `from` is one the duty
/// `(c, p, v)` may emit.
pub open spec fn emitted_by(out: Seq<ReshapeRequest>, from: int, view: &ReshapeView, c: ShardId, p: ShardId, v: ValidatorId) -> bool {
    forall|k: int| from <= k < out.len() ==> request_of_duty(&#[trigger] out[k], view, c, p, v)
}

/// Whether `out` holds no store-open request.
pub open spec fn no_open_store(out: Seq<ReshapeRequest>) -> bool {
    forall|k: int| 0 <= k < out.len() ==> !(#[trigger] out[k] is OpenStore)
}

/// Appending a request other than a store open keeps a suffix free of store
/// opens.
proof fn lemma_no_open_store_push(out: Seq<ReshapeRequest>, start: int, r: ReshapeRequest)
    requires
        0 <= start <= out.len(),
        no_open_store(out.subrange(start, out.len() as int)),
        !(r is OpenStore),
    ensures
        no_open_store(out.push(r).subrange(start, out.len() + 1int)),
{
    assert(out.push(r).subrange(start, out.len() + 1int) =~= out.subrange(start, out.len() as int).push(r));
}

/// Whether `r` is the state-range fetch of duty `c` from its parent `p`
/// for the sequencer's fetch `q`, addressed to the parent's committee.
pub open spec fn is_range_fetch(r: ReshapeRequest, view: &ReshapeView, c: ShardId, p: ShardId, q: (usize, Vec<u8>)) -> bool {
    r matches ReshapeRequest::Fetch { duty, from, peers, kind: FetchKind::StateRange { sub_range, request } } && duty == c
        && from == p && peers@ == view.committee_spec(p) && sub_range == q.0 && request == q.1
}

/// Whether `new` is what a syncing duty `c` of parent `p` emits when its
/// sequencer hands out the fetches `reqs` and then the import `imp`: one
/// fetch per sub-range, in order, then the boundary import if there is one.
pub open spec fn sync_emitted(
    new: Seq<ReshapeRequest>,
    view: &ReshapeView,
    c: ShardId,
    p: ShardId,
    reqs: Seq<(usize, Vec<u8>)>,
    imp: Option<(u64, Vec<Vec<u8>>)>,
) -> bool {
    &&& new.len() == reqs.len() + (if imp is Some { 1int } else { 0int })
    &&& forall|k: int| 0 <= k < reqs.len() ==> is_range_fetch(#[trigger] new[k], view, c, p, reqs[k])
    &&& imp matches Some((height, leaves)) ==> new[reqs.len() as int] == (ReshapeRequest::ImportBoundary {
        shard: c,
        height,
        leaves,
    })
}

/// Whether `new` is what a following duty `(c, p, v)` emits when its
/// sequencer hands out the fetch `req` and then the receipts `ap`: one ready
/// signal to the parent's committee but `v` while the parent has a boundary,
/// then the block fetch if there is one, then the apply if there is one.
pub open spec fn follow_emitted(
    new: Seq<ReshapeRequest>,
    view: &ReshapeView,
    c: ShardId,
    p: ShardId,
    v: ValidatorId,
    req: Option<BlockRequest>,
    ap: Option<(u64, Vec<Vec<u8>>)>,
) -> bool {
    let r = if view.boundary_spec(p) is Some { 1int } else { 0int };
    let f = if req is Some { 1int } else { 0int };
    let a = if ap is Some { 1int } else { 0int };
    &&& new.len() == r + f + a
    &&& r == 1 ==> (new[0] matches ReshapeRequest::BroadcastReady { validator, anchor, recipients } && validator == v
        && view.boundary_spec(p) == Some(anchor) && recipients@ == view.committee_spec(p).filter(other_than(v)))
    &&& req matches Some(rq) ==> (new[r] matches ReshapeRequest::Fetch { duty, from, peers, kind: FetchKind::Block { request } }
        && duty == c && from == p && peers@ == view.committee_spec(p) && request == rq)
    &&& ap matches Some((height, receipts)) ==> new[r + f] == (ReshapeRequest::ApplyFollow { shard: c, height, receipts })
}

/// The phase an opening duty moves to: syncing from the parent's boundary
/// once the store is open and the parent has one, else still opening.
pub open spec fn opening_next<B: ObserverSync, T: ObserverFollow>(duty: ObserverDuty<B, T>, view: &ReshapeView) -> ObserverPhase<B, T> {
    if duty.store_opened && view.boundary_spec(duty.parent) is Some {
        ObserverPhase::Syncing(B::started(duty.parent, view.boundary_spec(duty.parent).unwrap(), duty.child))
    } else {
        ObserverPhase::Opening
    }
}

/// The phase a syncing duty with sequencer `b` moves to: following from the
/// sync's anchor once the import reached a root, else still syncing.
pub open spec fn synced_phase<B: ObserverSync, T: ObserverFollow>(b: B, child: ShardId) -> ObserverPhase<B, T> {
    match b.root() {
        Some(root) => ObserverPhase::Following(T::started(b.anchor_of(), child, root)),
        None => ObserverPhase::Syncing(b),
    }
}

/// `duty` moved to phase `phase`.
pub open spec fn in_phase<B, T>(duty: ObserverDuty<B, T>, phase: ObserverPhase<B, T>) -> ObserverDuty<B, T> {
    ObserverDuty { phase, ..duty }
}

/// What one advance of `duty` does over `view`: the requests it appends
/// (`new`) and the duty it keeps (`None` once it seats).
pub open spec fn advance_effect<B: ObserverSync, T: ObserverFollow>(
    duty: ObserverDuty<B, T>,
    view: &ReshapeView,
    new: Seq<ReshapeRequest>,
    kept: Option<ObserverDuty<B, T>>,
) -> bool {
    let c = duty.child;
    let p = duty.parent;
    let v = duty.validator;
    &&& (duty.open_requested || !(duty.phase is Opening)) ==> no_open_store(new)
    &&& match duty.phase {
        ObserverPhase::Opening => {
            &&& kept == Some(ObserverDuty { open_requested: true, ..in_phase(duty, opening_next::<B, T>(duty, view)) })
            &&& new == (if duty.open_requested {
                Seq::empty()
            } else {
                seq![ReshapeRequest::OpenStore { shard: c }]
            })
        },
        ObserverPhase::Syncing(b) => {
            let b1 = b.requests_taken();
            &&& kept == Some(in_phase(duty, synced_phase::<B, T>(b1.import_taken(), c)))
            &&& sync_emitted(new, view, c, p, b.requests()@, b1.import())
        },
        ObserverPhase::Following(t) => {
            if view.children_seeded_spec(p) && view.boundary_spec(c) is Some {
                &&& kept == Some(in_phase(duty, ObserverPhase::FetchingTerminal { anchor: view.boundary_spec(c).unwrap(), requested: false }))
                &&& new.len() == 0
            } else {
                let t1 = t.requested();
                &&& kept == Some(in_phase(duty, ObserverPhase::Following(t1.apply_taken())))
                &&& follow_emitted(new, view, c, p, v, t.request(), t1.apply())
            }
        },
        ObserverPhase::FetchingTerminal { anchor, requested } => {
            &&& kept == Some(in_phase(duty, ObserverPhase::FetchingTerminal { anchor, requested: true }))
            &&& new.len() == (if requested { 0int } else { 1int })
            &&& new.len() == 1 ==> (new[0] matches ReshapeRequest::Fetch { duty: dc, from, peers, kind }
                && dc == c && from == c && peers@ == view.committee_spec(c)
                && kind == (FetchKind::Block { request: BlockRequest { from: terminal_height(anchor.height), to: terminal_height(anchor.height) } }))
        },
        ObserverPhase::Adopting { origin, genesis } => {
            &&& kept == Some(in_phase(duty, ObserverPhase::AwaitingAdopt))
            &&& new == seq![ReshapeRequest::Adopt { shard: c, kind: AdoptKind::Split, origin, genesis }]
        },
        ObserverPhase::AwaitingAdopt => kept == Some(duty) && new.len() == 0,
        ObserverPhase::Prepared => {
            if view.committee_spec(c).contains(v) {
                &&& kept is None
                &&& new == seq![ReshapeRequest::Seat { shard: c }]
            } else {
                &&& kept == Some(duty)
                &&& new.len() == 0
            }
        },
    }
}

impl<B: ObserverSync, T: ObserverFollow, G: SplitGenesis> ReshapeOrchestrator<B, T, G> {
    /// Advance one observer duty, appending its current io to `out`; the duty
    /// is dropped (`None`) once it seats.
    fn advance_observer(duty: ObserverDuty<B, T>, view: &ReshapeView, out: &mut Vec<ReshapeRequest>) -> (kept: Option<ObserverDuty<B, T>>)
        requires
            can_split(duty.parent),
        ensures
            final(out)@.len() >= old(out)@.len(),
            final(out)@.subrange(0, old(out)@.len() as int) == old(out)@,
            emitted_by(final(out)@, old(out)@.len() as int, view, duty.child, duty.parent, duty.validator),
            advance_effect(duty, view, final(out)@.subrange(old(out)@.len() as int, final(out)@.len() as int), kept),
    {
        let ghost start = out@.len();
        let ghost d0 = duty;
        let ObserverDuty { parent, child, validator, phase, open_requested, store_opened } = duty;
        let mut open_requested = open_requested;
        let next: ObserverPhase<B, T> = match phase {
            ObserverPhase::Opening => {
                if !open_requested {
                    out.push(ReshapeRequest::OpenStore { shard: child });
                    open_requested = true;
                }
                let mut next = ObserverPhase::Opening;
                if store_opened {
                    if let Some(anchor) = view.boundary(parent) {
                        next = ObserverPhase::Syncing(B::start(parent, anchor, child));
                    }
                }
                proof {
                    let new = out@.subrange(start as int, out@.len() as int);
                    if d0.open_requested {
                        assert(new =~= Seq::<ReshapeRequest>::empty());
                    } else {
                        assert(new =~= seq![ReshapeRequest::OpenStore { shard: child }]);
                    }
                }
                next
            },
            ObserverPhase::Syncing(bootstrap) => {
                let mut bootstrap = bootstrap;
                let mut reqs = bootstrap.next_requests();
                let ghost reqs0 = reqs@;
                let ghost b1 = bootstrap;
                while reqs.len() > 0
                    invariant
                        bootstrap == b1,
                        out@.len() >= start,
                        out@.subrange(0, start as int) == old(out)@,
                        emitted_by(out@, start as int, view, child, parent, validator),
                        no_open_store(out@.subrange(start as int, out@.len() as int)),
                        out@.len() - start <= reqs0.len(),
                        reqs@ == reqs0.subrange(out@.len() - start, reqs0.len() as int),
                        forall|k: int| 0 <= k < out@.len() - start ==> is_range_fetch(#[trigger] out@[start + k], view, child, parent, reqs0[k]),
                    decreases reqs@.len(),
                {
                    let ghost n = out@.len() - start;
                    let (sub_range, request) = reqs.remove(0);
                    assert((sub_range, request) == reqs0[n]);
                    let peers = view.committee(parent);
                    let ghost pushed_from = out@;
                    out.push(ReshapeRequest::Fetch {
                        duty: child,
                        from: parent,
                        peers,
                        kind: FetchKind::StateRange { sub_range, request },
                    });
                    proof {
                        lemma_no_open_store_push(pushed_from, start as int, out@.last());
                        assert(reqs@ =~= reqs0.subrange(out@.len() - start, reqs0.len() as int));
                        assert forall|k: int| 0 <= k < out@.len() - start implies is_range_fetch(#[trigger] out@[start + k], view, child, parent, reqs0[k]) by {
                            if k < n {
                                assert(out@[start + k] == pushed_from[start + k]);
                            }
                        }
                    }
                    assert(out@.subrange(0, start as int) == old(out)@);
                }
                let ghost fetched = out@;
                let imp = bootstrap.take_import();
                let ghost imp0 = imp;
                if let Some((height, leaves)) = imp {
                    let ghost pushed_from = out@;
                    out.push(ReshapeRequest::ImportBoundary { shard: child, height, leaves });
                    proof { lemma_no_open_store_push(pushed_from, start as int, out@.last()); }
                    assert(out@.subrange(0, start as int) == old(out)@);
                }
                proof {
                    let new = out@.subrange(start as int, out@.len() as int);
                    assert forall|k: int| 0 <= k < reqs0.len() implies is_range_fetch(#[trigger] new[k], view, child, parent, reqs0[k]) by {
                        assert(new[k] == out@[start + k]);
                        assert(out@[start + k] == fetched[start + k]);
                    }
                    assert(sync_emitted(new, view, child, parent, reqs0, imp0));
                }
                match bootstrap.imported_root() {
                    Some(root) => {
                        let anchor = bootstrap.anchor();
                        ObserverPhase::Following(T::start(anchor, child, root))
                    },
                    None => ObserverPhase::Syncing(bootstrap),
                }
            },
            ObserverPhase::Following(tail) => {
                let mut tail = tail;
                let mut gate: Option<ShardAnchor> = None;
                if view.children_seeded(parent) {
                    gate = view.boundary(child);
                }
                match gate {
                    Some(anchor) => ObserverPhase::FetchingTerminal { anchor, requested: false },
                    None => {
                        if let Some(anchor) = view.boundary(parent) {
                            let recipients = recipients_for(view, parent, validator);
                            let ghost pushed_from = out@;
                            out.push(ReshapeRequest::BroadcastReady { validator, anchor, recipients });
                            proof { lemma_no_open_store_push(pushed_from, start as int, out@.last()); }
                            assert(out@.subrange(0, start as int) == old(out)@);
                        }
                        let ghost readied = out@;
                        let req = tail.next_request();
                        let ghost req0 = req;
                        if let Some(request) = req {
                            let peers = view.committee(parent);
                            let ghost pushed_from = out@;
                            out.push(ReshapeRequest::Fetch {
                                duty: child,
                                from: parent,
                                peers,
                                kind: FetchKind::Block { request },
                            });
                            proof { lemma_no_open_store_push(pushed_from, start as int, out@.last()); }
                            assert(out@.subrange(0, start as int) == old(out)@);
                        }
                        let ghost requested = out@;
                        let ap = tail.take_apply();
                        let ghost ap0 = ap;
                        if let Some((height, receipts)) = ap {
                            let ghost pushed_from = out@;
                            out.push(ReshapeRequest::ApplyFollow { shard: child, height, receipts });
                            proof { lemma_no_open_store_push(pushed_from, start as int, out@.last()); }
                            assert(out@.subrange(0, start as int) == old(out)@);
                        }
                        proof {
                            let new = out@.subrange(start as int, out@.len() as int);
                            let r = if view.boundary_spec(parent) is Some { 1int } else { 0int };
                            let f = if req0 is Some { 1int } else { 0int };
                            assert(readied.len() == start + r);
                            assert(requested.len() == start + r + f);
                            if r == 1 {
                                assert(new[0] == out@[start as int]);
                                assert(out@[start as int] == readied[start as int]);
                            }
                            if f == 1 {
                                assert(new[r] == out@[start + r]);
                                assert(out@[start + r] == requested[start + r]);
                            }
                            assert(follow_emitted(new, view, child, parent, validator, req0, ap0));
                        }
                        ObserverPhase::Following(tail)
                    },
                }
            },
            ObserverPhase::FetchingTerminal { anchor, requested } => {
                if !requested {
                    let terminal = if anchor.height > 0 { anchor.height - 1 } else { anchor.height };
                    let peers = view.committee(child);
                    let ghost pushed_from = out@;
                    out.push(ReshapeRequest::Fetch {
                        duty: child,
                        from: child,
                        peers,
                        kind: FetchKind::Block { request: BlockRequest { from: terminal, to: terminal } },
                    });
                    proof { lemma_no_open_store_push(pushed_from, start as int, out@.last()); }
                }
                ObserverPhase::FetchingTerminal { anchor, requested: true }
            },
            ObserverPhase::Adopting { origin, genesis } => {
                let ghost pushed_from = out@;
                out.push(ReshapeRequest::Adopt { shard: child, kind: AdoptKind::Split, origin, genesis });
                proof { lemma_no_open_store_push(pushed_from, start as int, out@.last()); }
                assert(out@.subrange(start as int, out@.len() as int) =~= seq![out@.last()]);
                ObserverPhase::AwaitingAdopt
            },
            ObserverPhase::AwaitingAdopt => ObserverPhase::AwaitingAdopt,
            ObserverPhase::Prepared => {
                if view.committee_contains(child, validator) {
                    out.push(ReshapeRequest::Seat { shard: child });
                    assert(out@.subrange(start as int, out@.len() as int) =~= seq![ReshapeRequest::Seat { shard: child }]);
                    return None;
                }
                ObserverPhase::Prepared
            },
        };
        let kept = ObserverDuty { parent, child, validator, phase: next, open_requested, store_opened };
        assert(out@.subrange(0, start as int) == old(out)@);
        Some(kept)
    }
}

/// The duty key an event is routed by.
pub open spec fn event_key(e: &ReshapeEvent) -> ShardId {
    match e {
        ReshapeEvent::Opened { shard } => *shard,
        ReshapeEvent::Fetched { duty, .. } => *duty,
        ReshapeEvent::FetchFailed { duty, .. } => *duty,
        ReshapeEvent::Imported { shard, .. } => *shard,
        ReshapeEvent::Applied { shard, .. } => *shard,
        ReshapeEvent::Adopted { shard } => *shard,
    }
}

/// What routing event `e` to duty `old` turns it into, `g` deriving split
/// geneses (`None`: the duty is dropped). An event that does not fit the
/// duty's phase leaves it as it is.
pub open spec fn event_result<B: ObserverSync, T: ObserverFollow, G: SplitGenesis>(
    old: ObserverDuty<B, T>,
    e: &ReshapeEvent,
    g: G,
) -> Option<ObserverDuty<B, T>> {
    match e {
        ReshapeEvent::Opened { .. } => Some(ObserverDuty { store_opened: true, ..old }),
        ReshapeEvent::Fetched { kind, .. } => match kind {
            FetchedKind::StateRange { sub_range, response } => match old.phase {
                ObserverPhase::Syncing(b) => Some(in_phase(old, ObserverPhase::Syncing(b.ranged(*sub_range, *response)))),
                _ => Some(old),
            },
            FetchedKind::Block { response } => match old.phase {
                ObserverPhase::Following(t) => Some(in_phase(old, ObserverPhase::Following(t.answered(*response)))),
                ObserverPhase::FetchingTerminal { anchor, .. } => Some(in_phase(old, terminal_fetched::<B, T, G>(old.child, anchor, *response, g))),
                _ => Some(old),
            },
        },
        ReshapeEvent::FetchFailed { kind, .. } => match (old.phase, kind) {
            (ObserverPhase::Syncing(b), FetchKind::StateRange { sub_range, .. }) => Some(in_phase(old, ObserverPhase::Syncing(b.range_failed(*sub_range)))),
            (ObserverPhase::Following(t), FetchKind::Block { .. }) => Some(in_phase(old, ObserverPhase::Following(t.failed()))),
            (ObserverPhase::FetchingTerminal { anchor, .. }, _) => Some(in_phase(old, ObserverPhase::FetchingTerminal { anchor, requested: false })),
            _ => Some(old),
        },
        ReshapeEvent::Imported { root, .. } => match old.phase {
            ObserverPhase::Syncing(b) => Some(in_phase(old, ObserverPhase::Syncing(b.imported(*root)))),
            _ => Some(old),
        },
        ReshapeEvent::Applied { root, .. } => match old.phase {
            ObserverPhase::Following(t) => if t.applies(*root) {
                Some(in_phase(old, ObserverPhase::Following(t.applied(*root))))
            } else {
                None
            },
            _ => Some(old),
        },
        ReshapeEvent::Adopted { .. } => match old.phase {
            ObserverPhase::AwaitingAdopt => Some(in_phase(old, ObserverPhase::Prepared)),
            _ => Some(old),
        },
    }
}

/// The phase a duty fetching `child`'s terminal at `anchor` moves to on the
/// block `response`: adopting the genesis `g` derives from the certified
/// terminal, or, when there is none or it does not match, fetching again.
pub open spec fn terminal_fetched<B, T, G: SplitGenesis>(child: ShardId, anchor: ShardAnchor, response: BlockResponse, g: G) -> ObserverPhase<B, T> {
    match response.certified {
        Some(certified) => match g.derived(child, certified, anchor) {
            Some((origin, genesis)) => ObserverPhase::Adopting { origin, genesis },
            None => ObserverPhase::FetchingTerminal { anchor, requested: false },
        },
        None => ObserverPhase::FetchingTerminal { anchor, requested: false },
    }
}

/// Whether some duty in `duties` syncs `child`.
pub open spec fn has_child<B, T>(duties: Seq<ObserverDuty<B, T>>, child: ShardId) -> bool {
    exists|i: int| 0 <= i < duties.len() && #[trigger] duties[i].child == child
}

/// What routing event `e` does to the duty list `before`: nothing when no
/// duty awaits it; otherwise the awaiting duty is replaced in place by what
/// `event_result` turns it into, or dropped.
pub open spec fn event_routed<B: ObserverSync, T: ObserverFollow, G: SplitGenesis>(
    before: Seq<ObserverDuty<B, T>>,
    e: &ReshapeEvent,
    g: G,
    after: Seq<ObserverDuty<B, T>>,
) -> bool {
    &&& !has_child(before, event_key(e)) ==> after == before
    &&& has_child(before, event_key(e)) ==> exists|i: int| {
        &&& 0 <= i < before.len()
        &&& #[trigger] before[i].child == event_key(e)
        &&& after == match event_result(before[i], e, g) {
            Some(d) => before.update(i, d),
            None => before.remove(i),
        }
    }
}

/// Whether routing `events` in order turns the duty list `start` into `end`.
pub open spec fn events_applied<B: ObserverSync, T: ObserverFollow, G: SplitGenesis>(
    start: Seq<ObserverDuty<B, T>>,
    events: Seq<ReshapeEvent>,
    g: G,
    end: Seq<ObserverDuty<B, T>>,
) -> bool
    decreases events.len(),
{
    if events.len() == 0 {
        end == start
    } else {
        exists|mid: Seq<ObserverDuty<B, T>>| events_applied(start, events.drop_last(), g, mid)
            && #[trigger] event_routed(mid, &events.last(), g, end)
    }
}

/// Routing one more event extends a routed prefix.
proof fn lemma_events_step<B: ObserverSync, T: ObserverFollow, G: SplitGenesis>(
    start: Seq<ObserverDuty<B, T>>,
    events: Seq<ReshapeEvent>,
    e: ReshapeEvent,
    g: G,
    mid: Seq<ObserverDuty<B, T>>,
    end: Seq<ObserverDuty<B, T>>,
)
    requires
        events_applied(start, events, g, mid),
        event_routed(mid, &e, g, end),
    ensures
        events_applied(start, events.push(e), g, end),
{
    let evs = events.push(e);
    assert(evs.drop_last() =~= events);
    assert(evs.last() == e);
}

/// Whether discovery over `view` for a host running `me` turns the duty
/// list `before` into `after`: the old duties stay in place, each new one is
/// a held cohort seat starting afresh, and every held seat has a duty.
pub open spec fn discovered<B, T>(
    before: Seq<ObserverDuty<B, T>>,
    view: &ReshapeView,
    me: Seq<ValidatorId>,
    after: Seq<ObserverDuty<B, T>>,
) -> bool {
    &&& after.len() >= before.len()
    &&& after.subrange(0, before.len() as int) == before
    &&& forall|i: int| before.len() <= i < after.len() ==> {
        &&& held_seat_ids(view, me).contains(duty_id(#[trigger] after[i]))
        &&& after[i].phase is Opening
        &&& !after[i].open_requested
        &&& !after[i].store_opened
    }
    &&& forall|s: CohortSeatEntry| held_seat(view, me, s) ==> has_child(after, s.child)
}

/// Whether advancing each duty of `list` in order, over `view`, emits `out`
/// and keeps `fin`: each duty appends its own requests, as
/// `advance_effect` and `emitted_by` describe, and is kept unless it seated.
pub open spec fn advance_all<B: ObserverSync, T: ObserverFollow>(
    list: Seq<ObserverDuty<B, T>>,
    view: &ReshapeView,
    out: Seq<ReshapeRequest>,
    fin: Seq<ObserverDuty<B, T>>,
) -> bool
    decreases list.len(),
{
    if list.len() == 0 {
        out.len() == 0 && fin.len() == 0
    } else {
        let d = list.last();
        exists|cut: int, kept: Option<ObserverDuty<B, T>>| {
            &&& 0 <= cut <= out.len()
            &&& #[trigger] advance_effect(d, view, out.subrange(cut, out.len() as int), kept)
            &&& emitted_by(out, cut, view, d.child, d.parent, d.validator)
            &&& match kept {
                Some(k) => fin.len() > 0 && fin.last() == k && advance_all(
                    list.drop_last(),
                    view,
                    out.subrange(0, cut),
                    fin.drop_last(),
                ),
                None => advance_all(list.drop_last(), view, out.subrange(0, cut), fin),
            }
        }
    }
}

impl<B: ObserverSync, T: ObserverFollow, G: SplitGenesis> ReshapeOrchestrator<B, T, G> {
    /// The position of the duty syncing `child`, if any.
    fn find_duty(&self, child: ShardId) -> (idx: Option<usize>)
        ensures
            idx is None <==> !self.has_duty(child),
            idx matches Some(i) ==> i < self.duties().len() && self.duties()[i as int].child == child,
    {
        let mut i: usize = 0;
        while i < self.observers.len()
            invariant
                i <= self.observers@.len(),
                forall|k: int| 0 <= k < i ==> self.observers@[k].child != child,
            decreases self.observers@.len() - i,
        {
            if self.observers[i].child == child {
                return Some(i);
            }
            i = i + 1;
        }
        None
    }

    /// Route one io result to the duty awaiting it.
    fn apply_event(&mut self, event: ReshapeEvent)
        requires
            old(self).wf(),
        ensures
            final(self).wf(),
            final(self).hosted() == old(self).hosted(),
            final(self).derivation() == old(self).derivation(),
            event_routed(old(self).duties(), &event, old(self).derivation(), final(self).duties()),
    {
        let key = match &event {
            ReshapeEvent::Opened { shard } => *shard,
            ReshapeEvent::Fetched { duty, .. } => *duty,
            ReshapeEvent::FetchFailed { duty, .. } => *duty,
            ReshapeEvent::Imported { shard, .. } => *shard,
            ReshapeEvent::Applied { shard, .. } => *shard,
            ReshapeEvent::Adopted { shard } => *shard,
        };
        let ghost ev0 = event;
        let idx = match self.find_duty(key) {
            Some(i) => i,
            None => return,
        };
        let ghost before = self.observers@;
        let duty = self.observers.remove(idx);
        let ghost d0 = duty;
        let ObserverDuty { parent, child, validator, phase, open_requested, store_opened } = duty;
        let mut store_opened = store_opened;
        let mut keep = true;
        let next: ObserverPhase<B, T> = match event {
            ReshapeEvent::Opened { .. } => {
                store_opened = true;
                phase
            },
            ReshapeEvent::Fetched { kind, .. } => match (phase, kind) {
                (ObserverPhase::Syncing(bootstrap), FetchedKind::StateRange { sub_range, response }) => {
                    let mut bootstrap = bootstrap;
                    bootstrap.on_state_range(sub_range, &response);
                    ObserverPhase::Syncing(bootstrap)
                },
                (ObserverPhase::Following(tail), FetchedKind::Block { response }) => {
                    let mut tail = tail;
                    tail.on_response(&response);
                    ObserverPhase::Following(tail)
                },
                (ObserverPhase::FetchingTerminal { anchor, .. }, FetchedKind::Block { response }) => {
                    let derived = match &response.certified {
                        Some(certified) => self.genesis.split_genesis_from_terminal(child, certified, &anchor),
                        None => None,
                    };
                    match derived {
                        Some((origin, genesis)) => ObserverPhase::Adopting { origin, genesis },
                        None => ObserverPhase::FetchingTerminal { anchor, requested: false },
                    }
                },
                (phase, _) => phase,
            },
            ReshapeEvent::FetchFailed { kind, .. } => match (phase, kind) {
                (ObserverPhase::Syncing(bootstrap), FetchKind::StateRange { sub_range, .. }) => {
                    let mut bootstrap = bootstrap;
                    bootstrap.on_state_range_failure(sub_range);
                    ObserverPhase::Syncing(bootstrap)
                },
                (ObserverPhase::Following(tail), FetchKind::Block { .. }) => {
                    let mut tail = tail;
                    tail.on_failure();
                    ObserverPhase::Following(tail)
                },
                (ObserverPhase::FetchingTerminal { anchor, .. }, _) => ObserverPhase::FetchingTerminal { anchor, requested: false },
                (phase, _) => phase,
            },
            ReshapeEvent::Imported { root, .. } => match phase {
                ObserverPhase::Syncing(bootstrap) => {
                    let mut bootstrap = bootstrap;
                    bootstrap.on_imported(root);
                    ObserverPhase::Syncing(bootstrap)
                },
                phase => phase,
            },
            ReshapeEvent::Applied { root, .. } => match phase {
                ObserverPhase::Following(tail) => {
                    let mut tail = tail;
                    if !tail.on_applied(root) {
                        // A diverged follow fails closed: the duty is dropped.
                        keep = false;
                    }
                    ObserverPhase::Following(tail)
                },
                phase => phase,
            },
            ReshapeEvent::Adopted { .. } => match phase {
                ObserverPhase::AwaitingAdopt => ObserverPhase::Prepared,
                phase => phase,
            },
        };
        if keep {
            let kd = ObserverDuty { parent, child, validator, phase: next, open_requested, store_opened };
            assert(event_result(d0, &ev0, self.genesis) == Some(kd));
            self.observers.insert(idx, kd);
            assert(self.observers@ == before.update(idx as int, kd));
        } else {
            assert(event_result(d0, &ev0, self.genesis) is None);
            assert(self.observers@ == before.remove(idx as int));
        }
    }
}

impl<B: ObserverSync, T: ObserverFollow, G: SplitGenesis> ReshapeOrchestrator<B, T, G> {
    /// Install `duty`, replacing the duty that syncs the same child if there
    /// is one.
    pub fn insert_duty(&mut self, duty: ObserverDuty<B, T>)
        requires
            old(self).wf(),
            can_split(duty.parent),
        ensures
            final(self).wf(),
            final(self).hosted() == old(self).hosted(),
            final(self).derivation() == old(self).derivation(),
            !old(self).has_duty(duty.child) ==> final(self).duties() == old(self).duties().push(duty),
            old(self).has_duty(duty.child) ==> exists|i: int|
                0 <= i < old(self).duties().len() && #[trigger] old(self).duties()[i].child == duty.child
                    && final(self).duties() == old(self).duties().update(i, duty),
    {
        let ghost before = self.observers@;
        match self.find_duty(duty.child) {
            Some(i) => {
                let _ = self.observers.remove(i);
                self.observers.insert(i, duty);
                assert(self.observers@ =~= before.update(i as int, duty));
            },
            None => {
                self.observers.push(duty);
            },
        }
    }
}

/// Whether `me` holds cohort seat `s` of `view`.
pub open spec fn held_seat(view: &ReshapeView, me: Seq<ValidatorId>, s: CohortSeatEntry) -> bool {
    view.cohort_seats@.contains(s) && me.contains(s.validator)
}

/// The duty identities of the cohort seats `me` holds in `view`.
pub open spec fn held_seat_ids(view: &ReshapeView, me: Seq<ValidatorId>) -> Set<DutyId> {
    Set::new(|id: DutyId| exists|s: CohortSeatEntry| #[trigger] held_seat(view, me, s) && id == (s.child, s.parent, s.validator))
}

/// The identities of `duties`.
pub open spec fn ids_of<B, T>(duties: Seq<ObserverDuty<B, T>>) -> Set<DutyId> {
    Set::new(|id: DutyId| exists|i: int| 0 <= i < duties.len() && #[trigger] duty_id(duties[i]) == id)
}

/// Every cohort seat's parent can split.
pub open spec fn seats_valid(view: &ReshapeView) -> bool {
    forall|k: int| 0 <= k < view.cohort_seats@.len() ==> can_split(#[trigger] view.cohort_seats@[k].parent)
}

/// Whether `out` holds a `Seat` for `child`.
pub open spec fn seats_child(out: Seq<ReshapeRequest>, child: ShardId) -> bool {
    exists|k: int| 0 <= k < out.len() && (#[trigger] out[k] matches ReshapeRequest::Seat { shard } && shard == child)
}

impl<B: ObserverSync, T: ObserverFollow, G: SplitGenesis> ReshapeOrchestrator<B, T, G> {
    /// Whether this host runs `v`.
    fn hosts_validator(&self, v: ValidatorId) -> (b: bool)
        ensures
            b == self.hosted().contains(v),
    {
        let mut i: usize = 0;
        while i < self.me.len()
            invariant
                i <= self.me@.len(),
                forall|k: int| 0 <= k < i ==> self.me@[k] != v,
            decreases self.me@.len() - i,
        {
            if self.me[i] == v {
                assert(self.me@[i as int] == v);
                return true;
            }
            i = i + 1;
        }
        false
    }

    /// Open an observer duty for every cohort seat this host holds that it
    /// is not already running.
    fn discover_observer_duties(&mut self, view: &ReshapeView)
        requires
            old(self).wf(),
            seats_valid(view),
        ensures
            final(self).wf(),
            final(self).hosted() == old(self).hosted(),
            final(self).derivation() == old(self).derivation(),
            discovered(old(self).duties(), view, old(self).hosted(), final(self).duties()),
    {
        let ghost before = self.observers@;
        let mut k: usize = 0;
        while k < view.cohort_seats.len()
            invariant
                self.wf(),
                seats_valid(view),
                self.hosted() == old(self).hosted(),
                self.derivation() == old(self).derivation(),
                k <= view.cohort_seats@.len(),
                self.duties().len() >= before.len(),
                self.duties().subrange(0, before.len() as int) == before,
                forall|i: int| before.len() <= i < self.duties().len() ==> {
                    &&& held_seat_ids(view, old(self).hosted()).contains(duty_id(#[trigger] self.duties()[i]))
                    &&& self.duties()[i].phase is Opening
                    &&& !self.duties()[i].open_requested
                    &&& !self.duties()[i].store_opened
                },
                forall|j: int| 0 <= j < k && self.hosted().contains(view.cohort_seats@[j].validator)
                    ==> self.has_duty(#[trigger] view.cohort_seats@[j].child),
            decreases view.cohort_seats@.len() - k,
        {
            let seat = view.cohort_seats[k];
            if self.hosts_validator(seat.validator) && self.find_duty(seat.child).is_none() {
                let ghost pre = self.observers@;
                proof {
                    assert(can_split(view.cohort_seats@[k as int].parent));
                    assert(held_seat(view, old(self).hosted(), seat));
                    assert(held_seat_ids(view, old(self).hosted()).contains((seat.child, seat.parent, seat.validator)));
                }
                self.observers.push(ObserverDuty {
                    parent: seat.parent,
                    child: seat.child,
                    validator: seat.validator,
                    phase: ObserverPhase::Opening,
                    open_requested: false,
                    store_opened: false,
                });
                proof {
                    assert(self.observers@ == pre.push(self.observers@.last()));
                    assert forall|j: int| 0 <= j < k + 1 && self.hosted().contains(view.cohort_seats@[j].validator)
                        implies self.has_duty(#[trigger] view.cohort_seats@[j].child) by {
                        if j < k {
                            let i = choose|i: int| 0 <= i < pre.len() && #[trigger] pre[i].child == view.cohort_seats@[j].child;
                            assert(self.duties()[i].child == pre[i].child);
                        } else {
                            assert(self.duties()[pre.len() as int].child == seat.child);
                        }
                    }
                    assert(self.duties().subrange(0, before.len() as int) == before);
                }
            }
            k = k + 1;
        }
        proof {
            assert forall|s: CohortSeatEntry| held_seat(view, old(self).hosted(), s) implies self.has_duty(s.child) by {
                let j = choose|j: int| 0 <= j < view.cohort_seats@.len() && view.cohort_seats@[j] == s;
                assert(self.hosted().contains(view.cohort_seats@[j].validator));
            }
        }
    }
}

impl<B: ObserverSync, T: ObserverFollow, G: SplitGenesis> ReshapeOrchestrator<B, T, G> {
    /// Advance every duty one step: apply the io results in `events`,
    /// discover new duties from `view`, and return the io the adapter should
    /// perform. Every request concerns a duty that was running before the
    /// step or a cohort seat this host holds in `view`; every held seat has
    /// a running duty afterwards unless its child was just seated.
    pub fn step(&mut self, view: &ReshapeView, events: Vec<ReshapeEvent>) -> (requests: Vec<ReshapeRequest>)
        requires
            old(self).wf(),
            seats_valid(view),
        ensures
            final(self).wf(),
            final(self).hosted() == old(self).hosted(),
            final(self).derivation() == old(self).derivation(),
            forall|k: int| 0 <= k < requests@.len() ==> request_well_formed(
                &#[trigger] requests@[k],
                view,
                ids_of(old(self).duties()).union(held_seat_ids(view, old(self).hosted())),
            ),
            forall|s: CohortSeatEntry| held_seat(view, old(self).hosted(), s) ==> final(self).has_duty(s.child)
                || seats_child(requests@, s.child),
            forall|i: int| 0 <= i < final(self).duties().len() ==> ids_of(old(self).duties()).union(
                held_seat_ids(view, old(self).hosted()),
            ).contains(duty_id(#[trigger] final(self).duties()[i])),
            exists|routed: Seq<ObserverDuty<B, T>>, found: Seq<ObserverDuty<B, T>>| {
                &&& #[trigger] events_applied(old(self).duties(), events@, old(self).derivation(), routed)
                &&& #[trigger] discovered(routed, view, old(self).hosted(), found)
                &&& advance_all(found, view, requests@, final(self).duties())
            },
    {
        let ghost allowed = ids_of(self.duties()).union(held_seat_ids(view, self.hosted()));
        let ghost me0 = self.hosted();
        let ghost evs0 = events@;
        let ghost d0 = self.duties();
        let mut events = events;
        while events.len() > 0
            invariant
                self.wf(),
                self.hosted() == me0,
                allowed == ids_of(old(self).duties()).union(held_seat_ids(view, me0)),
                forall|i: int| 0 <= i < self.duties().len() ==> allowed.contains(duty_id(#[trigger] self.duties()[i])),
                events@.len() <= evs0.len(),
                events@ == evs0.subrange(evs0.len() - events@.len(), evs0.len() as int),
                d0 == old(self).duties(),
                self.derivation() == old(self).derivation(),
                events_applied(d0, evs0.take(evs0.len() - events@.len()), old(self).derivation(), self.duties()),
            decreases events@.len(),
        {
            let ghost n = evs0.len() - events@.len();
            let event = events.remove(0);
            let ghost pre = self.duties();
            self.apply_event(event);
            proof {
                let taken = evs0.take(n + 1);
                assert(taken.drop_last() =~= evs0.take(n));
                assert(evs0[n] == event);
                assert(taken.last() == event);
                assert(events_applied(d0, taken.drop_last(), old(self).derivation(), pre));
                lemma_events_step(d0, evs0.take(n), event, old(self).derivation(), pre, self.duties());
                assert(evs0.take(n).push(event) =~= taken);
                assert(events@ =~= evs0.subrange(evs0.len() - events@.len(), evs0.len() as int));
            }
            proof {
                assert forall|i: int| 0 <= i < self.duties().len() implies allowed.contains(duty_id(#[trigger] self.duties()[i])) by {
                    if self.duties() != pre {
                        let j = choose|j: int| {
                            &&& 0 <= j < pre.len()
                            &&& #[trigger] pre[j].child == event_key(&event)
                            &&& self.duties() == match event_result(pre[j], &event, old(self).derivation()) {
                                Some(d) => pre.update(j, d),
                                None => pre.remove(j),
                            }
                        };
                        if event_result(pre[j], &event, old(self).derivation()) is None {
                            if i < j {
                                assert(self.duties()[i] == pre[i]);
                            } else {
                                assert(self.duties()[i] == pre[i + 1]);
                            }
                        } else if i != j {
                            assert(self.duties()[i] == pre[i]);
                        } else {
                            assert(duty_id(self.duties()[i]) == duty_id(pre[j]));
                        }
                    }
                }
            }
        }
        let ghost pre_discover = self.duties();
        proof {
            assert(evs0.take(evs0.len() as int) =~= evs0);
        }
        self.discover_observer_duties(view);
        proof {
            assert forall|i: int| 0 <= i < self.duties().len() implies allowed.contains(duty_id(#[trigger] self.duties()[i])) by {
                if i < pre_discover.len() {
                    assert(self.duties()[i] == pre_discover[i]);
                }
            }
        }

        let mut pending: Vec<ObserverDuty<B, T>> = Vec::new();
        std::mem::swap(&mut pending, &mut self.observers);
        let ghost list = pending@;
        assert(list.len() == pending.len());
        let mut requests: Vec<ReshapeRequest> = Vec::new();
        let mut p: usize = 0;
        while pending.len() > 0
            invariant
                self.hosted() == me0,
                self.derivation() == old(self).derivation(),
                allowed == ids_of(old(self).duties()).union(held_seat_ids(view, me0)),
                p + pending@.len() == list.len(),
                list.len() <= usize::MAX,
                pending@ == list.subrange(p as int, list.len() as int),
                forall|a: int, b: int| 0 <= a < b < list.len() ==> list[a].child != list[b].child,
                forall|a: int| 0 <= a < list.len() ==> can_split(#[trigger] list[a].parent),
                forall|a: int| 0 <= a < list.len() ==> allowed.contains(duty_id(#[trigger] list[a])),
                forall|s: CohortSeatEntry| held_seat(view, me0, s) ==> exists|a: int| 0 <= a < list.len() && #[trigger] list[a].child == s.child,
                forall|j: int| 0 <= j < self.observers@.len() ==> exists|a: int| 0 <= a < p && duty_id(#[trigger] self.observers@[j]) == duty_id(list[a]),
                forall|j: int| 0 <= j < self.observers@.len() ==> can_split(#[trigger] self.observers@[j].parent),
                forall|i: int, j: int| 0 <= i < j < self.observers@.len() ==> self.observers@[i].child != self.observers@[j].child,
                forall|a: int| 0 <= a < p ==> (exists|j: int| 0 <= j < self.observers@.len() && #[trigger] self.observers@[j].child == list[a].child)
                    || seats_child(requests@, #[trigger] list[a].child),
                forall|k: int| 0 <= k < requests@.len() ==> request_well_formed(&#[trigger] requests@[k], view, allowed),
                advance_all(list.take(p as int), view, requests@, self.observers@),
            decreases pending@.len(),
        {
            let duty = pending.remove(0);
            let ghost d = duty;
            assert(d == list[p as int]);
            let ghost r0 = requests@;
            let ghost obs0 = self.observers@;
            let kept = Self::advance_observer(duty, view, &mut requests);
            proof {
                let taken = list.take(p + 1);
                assert(taken.drop_last() =~= list.take(p as int));
                assert(taken.last() == d);
                assert(requests@.subrange(0, r0.len() as int) == r0);
                assert(advance_effect(d, view, requests@.subrange(r0.len() as int, requests@.len() as int), kept));
                if kept is Some {
                    let fin = obs0.push(kept.unwrap());
                    assert(fin.drop_last() =~= obs0);
                    assert(advance_all(taken, view, requests@, fin));
                } else {
                    assert(advance_all(taken, view, requests@, obs0));
                }
            }
            proof {
                assert forall|k: int| 0 <= k < requests@.len() implies request_well_formed(&#[trigger] requests@[k], view, allowed) by {
                    if k < r0.len() {
                        assert(requests@[k] == requests@.subrange(0, r0.len() as int)[k]);
                    } else {
                        assert(allowed.contains(duty_id(d)));
                        assert(request_of_duty(&requests@[k], view, d.child, d.parent, d.validator));
                    }
                }
                assert forall|a: int| 0 <= a < p && seats_child(r0, list[a].child) implies seats_child(requests@, #[trigger] list[a].child) by {
                    let k = choose|k: int| 0 <= k < r0.len() && (#[trigger] r0[k] matches ReshapeRequest::Seat { shard } && shard == list[a].child);
                    assert(requests@[k] == requests@.subrange(0, r0.len() as int)[k]);
                }
            }
            match kept {
                Some(kd) => {
                    self.observers.push(kd);
                    proof {
                        assert(self.observers@ == obs0.push(kd));
                        assert forall|i: int, j: int| 0 <= i < j < self.observers@.len() implies self.observers@[i].child != self.observers@[j].child by {
                            if j == obs0.len() {
                                let a = choose|a: int| 0 <= a < p && duty_id(#[trigger] obs0[i]) == duty_id(list[a]);
                                assert(list[a].child != list[p as int].child);
                            }
                        }
                        assert forall|j: int| 0 <= j < self.observers@.len() implies exists|a: int| 0 <= a < p + 1 && duty_id(#[trigger] self.observers@[j]) == duty_id(list[a]) by {
                            if j < obs0.len() {
                                let a = choose|a: int| 0 <= a < p && duty_id(#[trigger] obs0[j]) == duty_id(list[a]);
                                assert(duty_id(self.observers@[j]) == duty_id(list[a]));
                            } else {
                                assert(duty_id(self.observers@[j]) == duty_id(list[p as int]));
                            }
                        }
                        assert forall|a: int| 0 <= a < p + 1 implies (exists|j: int| 0 <= j < self.observers@.len() && #[trigger] self.observers@[j].child == list[a].child)
                            || seats_child(requests@, #[trigger] list[a].child) by {
                            if a < p {
                                if exists|j: int| 0 <= j < obs0.len() && #[trigger] obs0[j].child == list[a].child {
                                    let j = choose|j: int| 0 <= j < obs0.len() && #[trigger] obs0[j].child == list[a].child;
                                    assert(self.observers@[j] == obs0[j]);
                                }
                            } else {
                                assert(self.observers@[obs0.len() as int].child == list[a].child);
                            }
                        }
                    }
                },
                None => {
                    proof {
                        let k = r0.len() as int;
                        assert(requests@[k] == requests@.subrange(r0.len() as int, requests@.len() as int)[0]);
                        assert(seats_child(requests@, list[p as int].child));
                        assert forall|a: int| 0 <= a < p + 1 implies (exists|j: int| 0 <= j < self.observers@.len() && #[trigger] self.observers@[j].child == list[a].child)
                            || seats_child(requests@, #[trigger] list[a].child) by {
                        }
                        assert forall|j: int| 0 <= j < self.observers@.len() implies exists|a: int| 0 <= a < p + 1 && duty_id(#[trigger] self.observers@[j]) == duty_id(list[a]) by {
                            let a = choose|a: int| 0 <= a < p && duty_id(#[trigger] obs0[j]) == duty_id(list[a]);
                        }
                    }
                },
            }
            p = p + 1;
            assert(pending@ == list.subrange(p as int, list.len() as int));
        }
        proof {
            assert forall|i: int| 0 <= i < self.duties().len() implies allowed.contains(duty_id(#[trigger] self.duties()[i])) by {
                let a = choose|a: int| 0 <= a < p && duty_id(#[trigger] self.observers@[i]) == duty_id(list[a]);
            }
            assert(list.take(p as int) =~= list);
            assert(events_applied(d0, evs0, old(self).derivation(), pre_discover));
            assert(discovered(pre_discover, view, me0, list));
            assert(advance_all(list, view, requests@, self.duties()));
            assert forall|s: CohortSeatEntry| held_seat(view, me0, s) implies self.has_duty(s.child) || seats_child(requests@, s.child) by {
                let a = choose|a: int| 0 <= a < list.len() && #[trigger] list[a].child == s.child;
                if exists|j: int| 0 <= j < self.observers@.len() && #[trigger] self.observers@[j].child == list[a].child {
                    let j = choose|j: int| 0 <= j < self.observers@.len() && #[trigger] self.observers@[j].child == list[a].child;
                    assert(self.duties()[j].child == s.child);
                }
            }
        }
        requests
    }
}

/// One-shot requests stay one-shot. A duty whose store open was requested
/// never asks again, and every advance or routed event keeps that flag (an
/// advance out of the opening phase sets it); a requested terminal fetch is
/// not repeated until a failure or a response re-arms it; an adopt is
/// emitted once and the duty then waits for the adoption, emitting nothing;
/// a seat is the last request of a duty, which is then dropped.
pub proof fn lemma_one_shot_requests<B: ObserverSync, T: ObserverFollow, G: SplitGenesis>(
    duty: ObserverDuty<B, T>,
    view: &ReshapeView,
    out: Seq<ReshapeRequest>,
    kept: Option<ObserverDuty<B, T>>,
    e: &ReshapeEvent,
    g: G,
)
    requires
        advance_effect(duty, view, out, kept),
    ensures
        duty.open_requested ==> no_open_store(out),
        kept matches Some(k) ==> k.open_requested == (duty.open_requested || duty.phase is Opening),
        event_result(duty, e, g) matches Some(r) ==> r.open_requested == duty.open_requested,
        (duty.phase matches ObserverPhase::FetchingTerminal { requested, .. } && requested) ==> out.len() == 0,
        duty.phase is Adopting ==> out.len() == 1 && (kept matches Some(k) && k.phase is AwaitingAdopt),
        duty.phase is AwaitingAdopt ==> out.len() == 0,
        kept is None ==> out.len() == 1 && (out[0] matches ReshapeRequest::Seat { shard } && shard == duty.child),
{
}

/// A followed store that diverges fails closed: routing an applied root
/// that the follow sequencer refuses drops the duty, and one that it takes
/// keeps the duty following, with the sequencer moved on.
pub proof fn lemma_diverged_follow_drops<B: ObserverSync, T: ObserverFollow, G: SplitGenesis>(
    duty: ObserverDuty<B, T>,
    tail: T,
    shard: ShardId,
    root: Digest,
    g: G,
)
    requires
        duty.phase == ObserverPhase::<B, T>::Following(tail),
    ensures
        !tail.applies(root) ==> event_result(duty, &ReshapeEvent::Applied { shard, root }, g) is None,
        tail.applies(root) ==> event_result(duty, &ReshapeEvent::Applied { shard, root }, g) == Some(
            in_phase(duty, ObserverPhase::Following(tail.applied(root))),
        ),
{
}

/// Once the children are seeded and the child has its own anchor, a
/// following duty stops following and fetches the certified terminal below
/// the child's anchor (not the parent's): the first advance emits nothing
/// and moves to fetching against the child's anchor, and the next emits one
/// block fetch from the child's committee for the height just below it.
pub proof fn lemma_terminal_fetch_below_child_anchor<B: ObserverSync, T: ObserverFollow>(
    duty: ObserverDuty<B, T>,
    tail: T,
    view: &ReshapeView,
    first: Seq<ReshapeRequest>,
    kept: Option<ObserverDuty<B, T>>,
    second: Seq<ReshapeRequest>,
    after: Option<ObserverDuty<B, T>>,
)
    requires
        duty.phase == ObserverPhase::<B, T>::Following(tail),
        view.children_seeded_spec(duty.parent),
        view.boundary_spec(duty.child) is Some,
        advance_effect(duty, view, first, kept),
        kept is Some,
        advance_effect(kept.unwrap(), view, second, after),
    ensures
        first.len() == 0,
        kept.unwrap().phase == (ObserverPhase::<B, T>::FetchingTerminal {
            anchor: view.boundary_spec(duty.child).unwrap(),
            requested: false,
        }),
        second.len() == 1,
        second[0] matches ReshapeRequest::Fetch { duty: d, from, peers, kind: FetchKind::Block { request } } && d
            == duty.child && from == duty.child && peers@ == view.committee_spec(duty.child) && request.from
            == request.to && (view.boundary_spec(duty.child).unwrap().height > 0 ==> request.from + 1
            == view.boundary_spec(duty.child).unwrap().height) && (view.boundary_spec(duty.child).unwrap().height == 0
            ==> request.from == 0),
{
}

} // verus!
