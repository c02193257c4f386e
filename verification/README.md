# hyperscale

Verified core of a sharded consensus node, written in Verus. Verus checks
every function under `src/` against its `requires`/`ensures` contract.

Modules:

- `types`, `hashing` — identifiers, digests, the shard trie numbering, BLAKE3.
- `msc` — multi-slot consensus helpers: the next slot's ranking, accusation
  demotion, the proposal hash.
- `recovery` — structural checks of recovery certificates and recovery
  equivocations (quorum, round monotonicity, signer positions).
- `verification` — in-flight bookkeeping of asynchronous crypto checks.
- `cohort` — drawing and releasing a split's observer cohort.
- `reshape_view`, `orchestrator` — the split observer duty's sequencing.
- `adopt` — the adoption gate against the beacon anchor.
- `settled_set` — the settled-set reconstruction host and its glue.
- `beacon_storage`, `beacon_cf` — the beacon block store and its key encoding.
- `provision_serve` — which transactions and nodes a provision request serves.
- `dispatch`, `lock_recover`, `grow`, `tree_fixtures` — scheduling, lock
  helpers, growing a partition by splits, and test fixtures.

The sequencers the orchestrator drives (`ObserverSync`, `ObserverFollow`,
`SplitGenesis`) and the settled-set walk (`SettledWalk`) are supplied by the
caller. Each of their operations is described by spec functions of the
implementor's state (what it returns and the state it leaves), and the
orchestrator's and host's contracts are stated over them. An implementation
outside Verus supplies those spec functions as ordinary methods.

Laws of the library are stated as public proof functions beside the code
they are about (`lemma_*`). The tests under `tests/` exercise the executable
functions on concrete values.
