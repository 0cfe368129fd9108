//! Work handed to the thread pool.

use rayon::iter::IntoParallelIterator;
use rayon::iter::ParallelIterator;
use vstd::prelude::*;

verus! {

/// Element counts at or above this run on the thread pool.
pub const PARALLEL_THRESHOLD_ELEMENTS: usize = 4096;

/// `rayon`'s indexed parallel `map` over `0..len`, collected.
///
/// `IntoParallelIterator` for `Range<usize>` is an indexed parallel iterator,
/// so `map(f).collect::<Vec<_>>()` calls `f` once for every index below `len`
/// and puts each result at its own index, whatever thread computed it.
#[verifier::external_body]
pub(crate) fn par_collect<R: Send, F: Fn(usize) -> R + Sync + Send>(len: usize, f: F) -> (r: Vec<R>)
    requires
        forall|i: usize| i < len ==> #[trigger] call_requires(f, (i,)),
    ensures
        r.len() == len,
        forall|i: usize| i < len ==> call_ensures(f, (i,), #[trigger] r@[i as int]),
{
    (0..len).into_par_iter().map(f).collect()
}

/// `rayon::current_num_threads`: how many threads the current pool has. The
/// number depends on the machine and the pool's configuration, so nothing is
/// claimed of it.
#[verifier::external_body]
pub(crate) fn pool_threads() -> (r: usize) {
    rayon::current_num_threads()
}

/// Calls `f` for every index below `len` in order.
pub(crate) fn seq_collect<R, F: Fn(usize) -> R>(len: usize, f: F) -> (r: Vec<R>)
    requires
        forall|i: usize| i < len ==> #[trigger] call_requires(f, (i,)),
    ensures
        r.len() == len,
        forall|i: usize| i < len ==> call_ensures(f, (i,), #[trigger] r@[i as int]),
{
    let mut out: Vec<R> = Vec::with_capacity(len);
    let mut i: usize = 0;
    while i < len
        invariant
            0 <= i <= len,
            out.len() == i,
            forall|j: usize| j < len ==> #[trigger] call_requires(f, (j,)),
            forall|j: usize| j < i ==> call_ensures(f, (j,), #[trigger] out@[j as int]),
        decreases len - i,
    {
        out.push(f(i));
        i = i + 1;
    }
    out
}

/// Runs `f` over `0..len`, on the thread pool when the workload is large
/// enough to amortize the pool handshake.
pub fn maybe_parallel<R: Send, F: Fn(usize) -> R + Sync + Send>(len: usize, f: F) -> (r: Vec<R>)
    requires
        forall|i: usize| i < len ==> #[trigger] call_requires(f, (i,)),
    ensures
        r.len() == len,
        forall|i: usize| i < len ==> call_ensures(f, (i,), #[trigger] r@[i as int]),
{
    if len >= PARALLEL_THRESHOLD_ELEMENTS {
        par_collect(len, f)
    } else {
        seq_collect(len, f)
    }
}

} // verus!
