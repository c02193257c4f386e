//! Scheduling of CPU-intensive work across priority-isolated pools.
//!
//! Runners implement [`Dispatch`]; the state machine never sees it. Three
//! routing classes: consensus (liveness-critical, a small dedicated pool),
//! throughput (crypto and execution, one shared work-stealing pool) and I/O.
use rayon::iter::{IntoParallelIterator, ParallelIterator};
use vstd::prelude::*;

verus! {

/// Routing class for [`Dispatch::spawn`].
#[derive(Debug, Clone, Copy, PartialEq, Eq, Structural)]
pub enum DispatchPool {
    /// Liveness-critical work: block votes, QC verification, state root,
    /// proposal building.
    Consensus,
    /// Throughput-bound CPU work: crypto verification, transaction
    /// signature validation, execution.
    Throughput,
    /// Network I/O and other non-CPU work.
    Io,
}

/// Parallelism strategy advertised by a [`Dispatch`] backend.
#[derive(Debug, Clone, Copy, PartialEq, Eq, Structural)]
pub enum Parallelism {
    /// Parallel map over the current worker pool.
    Rayon,
    /// Sequential map on the caller's thread, deterministic.
    Sequential,
}

/// Whether `out` is `f` applied to each of `items`, in order.
pub open spec fn mapped<T, R, F: Fn(T) -> R>(items: Seq<T>, f: F, out: Seq<R>) -> bool {
    &&& out.len() == items.len()
    &&& forall|i: int| 0 <= i < items.len() ==> f.ensures((items[i],), #[trigger] out[i])
}

/// `rayon`'s parallel map over an owned vector: `into_par_iter().map(f)`
/// collected into a `Vec`. Collecting an indexed parallel iterator keeps
/// the input order, so the result holds `f` of each item at its position.
#[verifier::external_body]
fn par_map<T, R, F>(items: Vec<T>, f: F) -> (out: Vec<R>)
    where
        T: Send,
        R: Send,
        F: Fn(T) -> R + Send + Sync,
    requires
        forall|i: int| 0 <= i < items@.len() ==> f.requires((#[trigger] items@[i],)),
    ensures
        mapped(items@, f, out@),
{
    items.into_par_iter().map(f).collect()
}

/// Sequential map: `f` of each item, in order.
fn seq_map<T, R, F>(items: Vec<T>, f: F) -> (out: Vec<R>)
    where
        F: Fn(T) -> R,
    requires
        forall|i: int| 0 <= i < items@.len() ==> f.requires((#[trigger] items@[i],)),
    ensures
        mapped(items@, f, out@),
{
    let ghost orig = items@;
    let n = items.len();
    let mut items = items;
    let mut reversed: Vec<T> = Vec::new();
    while items.len() > 0
        invariant
            items@.len() + reversed@.len() == n,
            n == orig.len(),
            items@ == orig.take(items@.len() as int),
            forall|j: int| 0 <= j < reversed@.len() ==> #[trigger] reversed@[j] == orig[n - 1 - j],
        decreases items@.len(),
    {
        let x = items.pop().unwrap();
        reversed.push(x);
        assert(items@ =~= orig.take(items@.len() as int));
    }
    let mut out: Vec<R> = Vec::new();
    while reversed.len() > 0
        invariant
            reversed@.len() + out@.len() == n,
            n == orig.len(),
            forall|i: int| 0 <= i < orig.len() ==> f.requires((#[trigger] orig[i],)),
            forall|j: int| 0 <= j < reversed@.len() ==> #[trigger] reversed@[j] == orig[n - 1 - j],
            forall|i: int| 0 <= i < out@.len() ==> f.ensures((orig[i],), #[trigger] out@[i]),
        decreases reversed@.len(),
    {
        let ghost k = out@.len();
        let x = reversed.pop().unwrap();
        assert(x == orig[k as int]);
        let r = f(x);
        out.push(r);
    }
    out
}

impl Parallelism {
    /// Map `items` through `f` with this strategy. Both strategies keep the
    /// input order in the result.
    pub fn map<T, R, F>(self, items: Vec<T>, f: F) -> (out: Vec<R>)
        where
            T: Send,
            R: Send,
            F: Fn(T) -> R + Send + Sync,
        requires
            forall|i: int| 0 <= i < items@.len() ==> f.requires((#[trigger] items@[i],)),
        ensures
            mapped(items@, f, out@),
    {
        match self {
            Parallelism::Rayon => par_map(items, f),
            Parallelism::Sequential => seq_map(items, f),
        }
    }
}

/// Schedules CPU-intensive work on priority-isolated pools. Results come
/// back through channels captured in the closures.
pub trait Dispatch: Send + Sync + Clone + 'static {
    /// Spawn a task on the pool corresponding to `pool`.
    fn spawn<F: FnOnce() + Send + 'static>(&self, pool: DispatchPool, f: F);

    /// Current queue depth of `pool`.
    fn queue_depth(&self, pool: DispatchPool) -> usize;

    /// The parallelism strategy this backend uses for in-handler fan-out.
    fn parallelism(&self) -> Parallelism;
}

/// Both strategies compute the same vector: for a function whose result
/// is determined by its argument, any two results of mapping the same
/// items agree, whichever strategy produced each.
pub proof fn lemma_strategies_agree<T, R, F: Fn(T) -> R>(items: Seq<T>, f: F, a: Seq<R>, b: Seq<R>)
    requires
        mapped(items, f, a),
        mapped(items, f, b),
        forall|x: T, r1: R, r2: R| f.ensures((x,), r1) && f.ensures((x,), r2) ==> r1 == r2,
    ensures
        a == b,
{
    assert forall|i: int| 0 <= i < a.len() implies a[i] == b[i] by {
        assert(f.ensures((items[i],), a[i]));
        assert(f.ensures((items[i],), b[i]));
    }
    assert(a =~= b);
}

} // verus!
