//! Batching transport and epoch plans.
//!
//! Workers pull batch requests from a [`QueueState`], build the batch tensors
//! on their own threads and reply; a [`ResponseReorderer`] yields the replies
//! in submission order so iteration is deterministic regardless of worker
//! completion order.

use std::collections::BTreeMap;
use std::collections::VecDeque;
use vstd::prelude::*;
use vstd::arithmetic::div_mod::*;
use vstd::arithmetic::mul::*;
use vstd::string::*;
use crate::data::rng::{MtState, seeded};
use crate::data::transform::{
    NativeTransform, TransformPipeline, batch_rng, batch_seed, folded_seed, mixed_seed,
    pipeline_outcome,
};
use crate::elem::{Elem, copy_elems};
use crate::error::{ErrorText, OxitorchError, OxitorchResult};
use crate::index::in_shape;
use crate::layout::{law_slice_selects_range, slice_len, span_len};
use crate::tensor::Tensor;
use crate::tensor::indexing::{index_select_error, picks_slices, resolved};
use crate::tensor::laws::lemma_same_data;
use crate::text::{join2, join3, join5, nat_text, usize_string};

verus! {

/// A dataset that worker threads can read.
///
/// `get_batch` gathers the rows named by `indices` into one batch of tensors
/// (e.g. `[inputs, labels]`). Treat the data as immutable: the loader never
/// mutates a source.
pub trait BatchSource<E>: Send + Sync {
    /// Builds the batch of tensors for the given row indices.
    ///
    /// Fails if any index is out of range or the source is internally
    /// inconsistent.
    fn get_batch(&self, indices: &[u64]) -> OxitorchResult<Vec<Tensor<E>>>;
}

/// A work request for a single batch.
#[derive(Debug)]
pub struct BatchRequest {
    /// Submission sequence within the stream (responses echo it back).
    pub seq: u64,
    /// The row indices of this batch.
    pub indices: Vec<u64>,
}

/// A worker's reply, tagged with the request's sequence.
pub enum BatchResponse<E> {
    /// A completed batch of tensors.
    Tensors {
        /// Echo of the request's `seq`.
        seq: u64,
        /// The batch tensors (one per dataset column).
        tensors: Vec<Tensor<E>>,
    },
    /// The worker failed to build the batch (bad indices, source error...).
    Error {
        /// Echo of the request's `seq`.
        seq: u64,
        /// Human-readable failure reason.
        message: String,
    },
}

/// A completed batch of tensors, plus any error that must be raised in plan
/// order (a failure at batch k stops iteration there, not earlier).
pub struct CompletedBatch<E> {
    /// The tensors of the batch (one per dataset column).
    pub tensors: Vec<Tensor<E>>,
    /// Set when the worker failed; the dispatcher raises it at this batch.
    pub error: Option<String>,
}

impl<E> BatchResponse<E> {
    /// The sequence number that the response echoes.
    pub open spec fn number(self) -> u64 {
        match self {
            BatchResponse::Tensors { seq, tensors } => seq,
            BatchResponse::Error { seq, message } => seq,
        }
    }

    /// `b` is the completed batch that the response carries.
    pub open spec fn carries(self, b: CompletedBatch<E>) -> bool {
        match self {
            BatchResponse::Tensors { seq, tensors } => b.tensors == tensors && b.error is None,
            BatchResponse::Error { seq, message } => b.tensors@.len() == 0 && b.error == Some(
                message,
            ),
        }
    }
}

/// A worker's reply to a request, from what the source returned for it.
pub fn respond<E>(seq: u64, outcome: OxitorchResult<Vec<Tensor<E>>>) -> (r: BatchResponse<E>)
    ensures
        match outcome {
            Ok(t) => r == (BatchResponse::Tensors { seq, tensors: t }),
            Err(e) => r matches BatchResponse::Error { seq: s, message } && s == seq && message@
                == e@.message(),
        },
{
    match outcome {
        Ok(tensors) => BatchResponse::Tensors { seq, tensors },
        Err(e) => BatchResponse::Error { seq, message: e.to_string() },
    }
}

// ---- reordering -------------------------------------------------------------------------

/// Reorders completed responses into submission order.
pub struct ResponseReorderer<E> {
    next_seq: u64,
    ready: BTreeMap<u64, CompletedBatch<E>>,
}

/// What a reorderer holds: the number it waits for, and the batches that came
/// early.
pub struct ReorderView<E> {
    pub next: u64,
    pub ready: Map<u64, CompletedBatch<E>>,
}

/// The sequence number after `n`.
pub open spec fn next_number(n: u64) -> u64 {
    if n == u64::MAX {
        0
    } else {
        (n + 1) as u64
    }
}

/// Taking the next batch in order leads from `a` to `b`: it comes out if it
/// has arrived, otherwise nothing changes.
pub open spec fn popped<E>(
    a: ReorderView<E>,
    r: Option<CompletedBatch<E>>,
    b: ReorderView<E>,
) -> bool {
    if a.ready.contains_key(a.next) {
        &&& r == Some(a.ready[a.next])
        &&& b.next == next_number(a.next)
        &&& b.ready == a.ready.remove(a.next)
    } else {
        r is None && b == a
    }
}

impl<E> View for ResponseReorderer<E> {
    type V = ReorderView<E>;

    closed spec fn view(&self) -> ReorderView<E> {
        ReorderView { next: self.next_seq, ready: self.ready@ }
    }
}

impl<E> ResponseReorderer<E> {
    /// A reorderer expecting batches starting at `seq` 0.
    #[must_use]
    pub fn new() -> (r: Self)
        ensures
            r@ == (ReorderView { next: 0u64, ready: Map::<u64, CompletedBatch<E>>::empty() }),
    {
        ResponseReorderer { next_seq: 0, ready: BTreeMap::new() }
    }

    /// Offers a worker response. Returns the batch if it fills the next
    /// expected slot; `None` when it was buffered out of order.
    pub fn accept(&mut self, resp: BatchResponse<E>) -> (r: Option<CompletedBatch<E>>)
        ensures
            accepted(old(self)@, resp, r, final(self)@),
    {
        let ghost given = resp;
        let (seq, batch) = match resp {
            BatchResponse::Tensors { seq, tensors } => (
                seq,
                CompletedBatch { tensors, error: None },
            ),
            BatchResponse::Error { seq, message } => (
                seq,
                CompletedBatch { tensors: Vec::new(), error: Some(message) },
            ),
        };
        assert(given.carries(batch));
        let _ = self.ready.insert(seq, batch);
        self.try_pop()
    }

    /// Returns the next in-order batch if it has already arrived.
    pub fn try_pop(&mut self) -> (r: Option<CompletedBatch<E>>)
        ensures
            popped(old(self)@, r, final(self)@),
    {
        let n: u64 = self.next_seq;
        match self.ready.remove(&n) {
            Some(batch) => {
                self.next_seq = if n == u64::MAX {
                    0
                } else {
                    n + 1
                };
                Some(batch)
            },
            None => {
                assert(self.ready@ =~= old(self).ready@);
                None
            },
        }
    }

    /// Number of completed-but-not-yet-consumed batches.
    pub fn buffered(&self) -> (r: usize)
        ensures
            r == self@.ready.len(),
    {
        self.ready.len()
    }
}

impl<E> Default for ResponseReorderer<E> {
    fn default() -> (r: Self)
        ensures
            r@ == (ReorderView { next: 0u64, ready: Map::<u64, CompletedBatch<E>>::empty() }),
    {
        Self::new()
    }
}

/// Batches come out in submission order: every batch that is taken is the one
/// with the awaited number, and the awaited number moves on by one.
pub proof fn law_reorderer_keeps_order<E>(
    a: ReorderView<E>,
    r: Option<CompletedBatch<E>>,
    b: ReorderView<E>,
)
    requires
        popped(a, r, b),
    ensures
        r is Some <==> a.ready.contains_key(a.next),
        r is Some ==> r == Some(a.ready[a.next]) && b.next == next_number(a.next)
            && !b.ready.contains_key(a.next),
        forall|n: u64| n != a.next ==> (#[trigger] b.ready.contains_key(n) <==> a.ready.contains_key(n)),
        forall|n: u64|
            n != a.next && #[trigger] a.ready.contains_key(n) ==> b.ready[n] == a.ready[n],
{
}

/// A call of a reorderer.
pub enum ReorderCall<E> {
    /// A response is offered.
    Accept(BatchResponse<E>),
    /// The next batch is asked for.
    Pop,
}

/// A run of calls of a reorderer: what each returned, and the states between
/// them.
pub struct ReorderRun<E> {
    pub calls: Seq<ReorderCall<E>>,
    pub results: Seq<Option<CompletedBatch<E>>>,
    pub states: Seq<ReorderView<E>>,
}

/// What offering a response leads to.
pub open spec fn accepted<E>(
    a: ReorderView<E>,
    resp: BatchResponse<E>,
    r: Option<CompletedBatch<E>>,
    b: ReorderView<E>,
) -> bool {
    exists|batch: CompletedBatch<E>| #[trigger]
        resp.carries(batch) && popped(
            ReorderView { next: a.next, ready: a.ready.insert(resp.number(), batch) },
            r,
            b,
        )
}

/// Call `i` of a run leads from the state before it to the one after.
pub open spec fn call_made<E>(run: ReorderRun<E>, i: int) -> bool {
    match run.calls[i] {
        ReorderCall::Accept(resp) => accepted(
            run.states[i],
            resp,
            run.results[i],
            run.states[i + 1],
        ),
        ReorderCall::Pop => popped(run.states[i], run.results[i], run.states[i + 1]),
    }
}

/// The call offers a response with number `n`.
pub open spec fn offers<E>(call: ReorderCall<E>, n: u64) -> bool {
    call matches ReorderCall::Accept(resp) && resp.number() == n
}

/// The call offers `batch` under number `n`.
pub open spec fn offers_batch<E>(call: ReorderCall<E>, n: u64, batch: CompletedBatch<E>) -> bool {
    call matches ReorderCall::Accept(resp) && resp.number() == n && resp.carries(batch)
}

/// A run from a fresh reorderer in which no number is offered twice.
pub open spec fn is_run<E>(run: ReorderRun<E>) -> bool {
    &&& run.results.len() == run.calls.len()
    &&& run.states.len() == run.calls.len() + 1
    &&& run.states[0] == (ReorderView { next: 0u64, ready: Map::<u64, CompletedBatch<E>>::empty() })
    &&& forall|i: int| 0 <= i < run.calls.len() ==> #[trigger] call_made(run, i)
    &&& forall|i: int, j: int, n: u64|
        0 <= i < j < run.calls.len() && #[trigger] offers(run.calls[i], n) ==> !#[trigger] offers(
            run.calls[j],
            n,
        )
}

/// Number `n` is offered by one of the first `m` calls.
pub open spec fn has_arrived<E>(run: ReorderRun<E>, m: int, n: u64) -> bool {
    exists|i: int| 0 <= i < m && #[trigger] offers(run.calls[i], n)
}

/// One of the first `m` calls offers `batch` under number `n`.
pub open spec fn arrived_as<E>(
    run: ReorderRun<E>,
    m: int,
    n: u64,
    batch: CompletedBatch<E>,
) -> bool {
    exists|i: int| 0 <= i < m && #[trigger] offers_batch(run.calls[i], n, batch)
}

/// How many of the first `m` calls offer a response.
pub open spec fn accepted_count<E>(run: ReorderRun<E>, m: int) -> int
    decreases m,
{
    if m <= 0 {
        0
    } else if run.calls[m - 1] is Accept {
        accepted_count(run, m - 1) + 1
    } else {
        accepted_count(run, m - 1)
    }
}

/// The batches that the first `m` calls returned, in the order of the calls.
pub open spec fn delivered<E>(run: ReorderRun<E>, m: int) -> Seq<CompletedBatch<E>>
    decreases m,
{
    if m <= 0 {
        Seq::empty()
    } else {
        match run.results[m - 1] {
            Some(batch) => delivered(run, m - 1).push(batch),
            None => delivered(run, m - 1),
        }
    }
}

/// What holds of a reorderer after `m` calls.
pub open spec fn in_order<E>(run: ReorderRun<E>, m: int) -> bool {
    let s = run.states[m];
    let out = delivered(run, m);
    &&& out.len() <= m
    &&& s.next == out.len()
    &&& forall|k: int|
        0 <= k < out.len() ==> arrived_as(run, m, k as u64, #[trigger] out[k])
    &&& forall|n: u64| #[trigger]
        s.ready.contains_key(n) <==> n >= out.len() && has_arrived(run, m, n)
    &&& forall|n: u64| #[trigger]
        s.ready.contains_key(n) ==> arrived_as(run, m, n, s.ready[n])
    &&& s.ready.dom().finite()
    &&& s.ready.len() == accepted_count(run, m) - out.len()
}

/// One more call keeps what arrived.
proof fn lemma_arrivals_grow<E>(run: ReorderRun<E>, m: int, n: u64)
    requires
        0 <= m < run.calls.len(),
    ensures
        has_arrived(run, m + 1, n) == (has_arrived(run, m, n) || offers(run.calls[m], n)),
        forall|batch: CompletedBatch<E>| #[trigger]
            arrived_as(run, m, n, batch) ==> arrived_as(run, m + 1, n, batch),
{
    if has_arrived(run, m, n) {
        let i = choose|i: int| 0 <= i < m && #[trigger] offers(run.calls[i], n);
        assert(offers(run.calls[i], n));
    }
    assert forall|batch: CompletedBatch<E>| #[trigger] arrived_as(run, m, n, batch) implies arrived_as(
        run,
        m + 1,
        n,
        batch,
    ) by {
        let i = choose|i: int| 0 <= i < m && #[trigger] offers_batch(run.calls[i], n, batch);
        assert(offers_batch(run.calls[i], n, batch));
    }
}

/// Taking a batch keeps the order.
proof fn lemma_pop_in_order<E>(run: ReorderRun<E>, m: int, mid: ReorderView<E>)
    requires
        is_run(run),
        0 <= m < run.calls.len() <= u64::MAX,
        ({
            let out = delivered(run, m);
            &&& out.len() <= m
            &&& mid.next == out.len()
            &&& forall|k: int|
                0 <= k < out.len() ==> arrived_as(run, m + 1, k as u64, #[trigger] out[k])
            &&& forall|n: u64| #[trigger]
                mid.ready.contains_key(n) <==> n >= out.len() && has_arrived(run, m + 1, n)
            &&& forall|n: u64| #[trigger]
                mid.ready.contains_key(n) ==> arrived_as(run, m + 1, n, mid.ready[n])
            &&& mid.ready.dom().finite()
            &&& mid.ready.len() == accepted_count(run, m + 1) - out.len()
        }),
        popped(mid, run.results[m], run.states[m + 1]),
    ensures
        in_order(run, m + 1),
        run.results[m] is Some <==> has_arrived(run, m + 1, delivered(run, m).len() as u64),
{
    let out = delivered(run, m);
    let now = delivered(run, m + 1);
    let next = mid.next;
    if mid.ready.contains_key(next) {
        assert(now == out.push(mid.ready[next]));
        assert forall|k: int| 0 <= k < now.len() implies arrived_as(
            run,
            m + 1,
            k as u64,
            #[trigger] now[k],
        ) by {
            if k < out.len() {
                assert(now[k] == out[k]);
            }
        }
        mid.ready.lemma_remove_key_len(next);
    }
}

proof fn lemma_in_order<E>(run: ReorderRun<E>, m: int)
    requires
        is_run(run),
        run.calls.len() <= u64::MAX,
        0 <= m <= run.calls.len(),
    ensures
        in_order(run, m),
        m > 0 ==> (run.results[m - 1] is Some <==> has_arrived(
            run,
            m,
            delivered(run, m - 1).len() as u64,
        )),
    decreases m,
{
    if m > 0 {
        let p = m - 1;
        lemma_in_order(run, p);
        let a = run.states[p];
        let out = delivered(run, p);
        assert(call_made(run, p));
        assert forall|n: u64| #[trigger] has_arrived(run, m, n) == (has_arrived(run, p, n)
            || offers(run.calls[p], n)) by {
            lemma_arrivals_grow(run, p, n);
        }
        assert forall|k: int| 0 <= k < out.len() implies arrived_as(
            run,
            m,
            k as u64,
            #[trigger] out[k],
        ) by {
            lemma_arrivals_grow(run, p, k as u64);
        }
        match run.calls[p] {
            ReorderCall::Accept(resp) => {
                let batch = choose|batch: CompletedBatch<E>| #[trigger]
                    resp.carries(batch) && popped(
                        ReorderView { next: a.next, ready: a.ready.insert(resp.number(), batch) },
                        run.results[p],
                        run.states[m],
                    );
                let number = resp.number();
                let mid = ReorderView { next: a.next, ready: a.ready.insert(number, batch) };
                assert(offers(run.calls[p], number));
                assert(offers_batch(run.calls[p], number, batch));
                assert(arrived_as(run, m, number, batch));
                assert(!has_arrived(run, p, number)) by {
                    if has_arrived(run, p, number) {
                        let i = choose|i: int|
                            0 <= i < p && #[trigger] offers(run.calls[i], number);
                        assert(offers(run.calls[i], number));
                    }
                }
                assert(number >= out.len()) by {
                    if number < out.len() {
                        let k = number as int;
                        assert(arrived_as(run, p, k as u64, out[k]));
                        let i = choose|i: int|
                            0 <= i < p && #[trigger] offers_batch(run.calls[i], number, out[k]);
                        assert(offers(run.calls[i], number));
                    }
                }
                assert(!a.ready.contains_key(number));
                assert forall|n: u64| #[trigger] mid.ready.contains_key(n) implies arrived_as(
                    run,
                    m,
                    n,
                    mid.ready[n],
                ) by {
                    if n != number {
                        lemma_arrivals_grow(run, p, n);
                        assert(arrived_as(run, p, n, a.ready[n]));
                    }
                }
                assert forall|n: u64| #[trigger] mid.ready.contains_key(n) <==> n >= out.len()
                    && has_arrived(run, m, n) by {
                    assert(offers(run.calls[p], n) <==> n == number);
                    assert(a.ready.contains_key(n) <==> n >= out.len() && has_arrived(run, p, n));
                }
                lemma_pop_in_order(run, p, mid);
            },
            ReorderCall::Pop => {
                assert forall|n: u64| #[trigger] a.ready.contains_key(n) implies arrived_as(
                    run,
                    m,
                    n,
                    a.ready[n],
                ) by {
                    lemma_arrivals_grow(run, p, n);
                    assert(arrived_as(run, p, n, a.ready[n]));
                }
                assert forall|n: u64| #[trigger] a.ready.contains_key(n) <==> n >= out.len()
                    && has_arrived(run, m, n) by {
                    assert(!offers(run.calls[p], n));
                }
                lemma_pop_in_order(run, p, a);
            },
        }
    }
}

/// However responses arrive and batches are asked for, batches come out in
/// submission order without a gap or a repeat. After `m` calls of a run: the
/// `k`-th batch out carries the response with number `k`, which has arrived,
/// as have all before it; what is buffered is what was accepted less what was
/// returned; and a call returns a batch exactly if the next number in order
/// has arrived.
pub proof fn law_reorderer_run<E>(run: ReorderRun<E>, m: int)
    requires
        is_run(run),
        run.calls.len() <= u64::MAX,
        0 <= m <= run.calls.len(),
    ensures
        forall|k: int|
            0 <= k < delivered(run, m).len() ==> arrived_as(
                run,
                m,
                k as u64,
                #[trigger] delivered(run, m)[k],
            ),
        run.states[m].next == delivered(run, m).len(),
        run.states[m].ready.len() == accepted_count(run, m) - delivered(run, m).len(),
        m > 0 ==> (run.results[m - 1] is Some <==> has_arrived(
            run,
            m,
            delivered(run, m - 1).len() as u64,
        )),
{
    lemma_in_order(run, m);
}

// ---- the work queue ---------------------------------------------------------------------

/// The work queue shared by the worker threads: pending requests, and whether
/// the dispatcher has closed it.
pub struct QueueState {
    pending: VecDeque<BatchRequest>,
    closed: bool,
}

/// What a work queue holds.
pub struct QueueView {
    pub pending: Seq<BatchRequest>,
    pub closed: bool,
}

/// What a worker that asks for work is told.
pub enum Poll {
    /// Work on this request.
    Work(BatchRequest),
    /// Nothing to do yet; ask again.
    Wait,
    /// The queue is closed and drained; stop.
    Stop,
}

impl View for QueueState {
    type V = QueueView;

    closed spec fn view(&self) -> QueueView {
        QueueView { pending: self.pending@, closed: self.closed }
    }
}

/// Asking for the next request gives `r` and leads from `a` to `b`: the first
/// pending request comes out; without one, the answer tells whether the queue
/// is closed.
pub open spec fn taken(a: QueueView, r: Poll, b: QueueView) -> bool {
    if a.pending.len() > 0 {
        r == Poll::Work(a.pending[0]) && b == (QueueView { pending: a.pending.skip(1), ..a })
    } else {
        b == a && r == if a.closed {
            Poll::Stop
        } else {
            Poll::Wait
        }
    }
}

/// Adding a request leads from `a` to `b`.
pub open spec fn queued(a: QueueView, req: BatchRequest, b: QueueView) -> bool {
    b == (QueueView { pending: a.pending.push(req), ..a })
}

impl QueueState {
    /// An open, empty queue.
    pub fn new() -> (r: Self)
        ensures
            r@ == (QueueView { pending: Seq::empty(), closed: false }),
    {
        QueueState { pending: VecDeque::new(), closed: false }
    }

    /// The next request; stop only once the queue is closed *and* drained.
    pub fn pop(&mut self) -> (r: Poll)
        ensures
            taken(old(self)@, r, final(self)@),
    {
        match self.pending.pop_front() {
            Some(req) => {
                assert(self@.pending =~= old(self)@.pending.skip(1));
                Poll::Work(req)
            },
            None => {
                if self.closed {
                    Poll::Stop
                } else {
                    Poll::Wait
                }
            },
        }
    }

    /// Adds a request at the end.
    pub fn push(&mut self, req: BatchRequest)
        ensures
            queued(old(self)@, req, final(self)@),
    {
        self.pending.push_back(req);
    }

    /// Closes the queue; pending requests are still handed out.
    pub fn close(&mut self)
        ensures
            final(self)@ == (QueueView { closed: true, ..old(self)@ }),
    {
        self.closed = true;
    }

    /// Submits one batch request, unless the pool is shut down.
    pub fn submit(&mut self, shutdown: bool, seq: u64, indices: Vec<u64>) -> (r: bool)
        ensures
            r == !shutdown,
            shutdown ==> final(self)@ == old(self)@,
            !shutdown ==> queued(old(self)@, (BatchRequest { seq, indices }), final(self)@),
    {
        if shutdown {
            return false;
        }
        self.push(BatchRequest { seq, indices });
        true
    }
}

/// Requests are worked on in the order they were submitted: a request pushed
/// onto `n` pending ones is the first left after `n` pops.
pub proof fn law_queue_is_fifo(pending: Seq<BatchRequest>, req: BatchRequest)
    ensures
        pending.push(req).skip(pending.len() as int) == seq![req],
        forall|k: int|
            0 <= k < pending.len() ==> #[trigger] pending.push(req).skip(k)[0] == pending[k],
{
    assert(pending.push(req).skip(pending.len() as int) =~= seq![req]);
}

/// Requests come out in the order they were submitted, each once: asked again
/// and again, a queue gives what was pending, then what was added last, and
/// then nothing but whether it is closed.
pub proof fn law_queue_runs_in_order(
    a: QueueView,
    req: BatchRequest,
    states: Seq<QueueView>,
    answers: Seq<Poll>,
    n: int,
)
    requires
        states.len() == answers.len() + 1,
        queued(a, req, states[0]),
        forall|k: int|
            0 <= k < answers.len() ==> taken(states[k], #[trigger] answers[k], states[k + 1]),
        0 <= n < answers.len(),
    ensures
        n < a.pending.len() ==> answers[n] == Poll::Work(a.pending[n]),
        n == a.pending.len() ==> answers[n] == Poll::Work(req),
        n > a.pending.len() ==> answers[n] == if a.closed {
            Poll::Stop
        } else {
            Poll::Wait
        },
{
    lemma_left_after(a, req, states, answers, n);
    assert(taken(states[n], answers[n], states[n + 1]));
}

proof fn lemma_left_after(
    a: QueueView,
    req: BatchRequest,
    states: Seq<QueueView>,
    answers: Seq<Poll>,
    n: int,
)
    requires
        states.len() == answers.len() + 1,
        queued(a, req, states[0]),
        forall|k: int|
            0 <= k < answers.len() ==> taken(states[k], #[trigger] answers[k], states[k + 1]),
        0 <= n <= answers.len(),
    ensures
        states[n].closed == a.closed,
        n <= a.pending.len() + 1 ==> states[n].pending == a.pending.push(req).skip(n),
        n > a.pending.len() + 1 ==> states[n].pending.len() == 0,
    decreases n,
{
    let all = a.pending.push(req);
    if n == 0 {
        assert(all.skip(0) =~= all);
    } else {
        lemma_left_after(a, req, states, answers, n - 1);
        assert(taken(states[n - 1], answers[n - 1], states[n - 1 + 1]));
        if n <= all.len() {
            assert(all.skip(n - 1).skip(1) =~= all.skip(n));
        }
    }
}

// ---- epoch plans ------------------------------------------------------------------------

/// Chunk `k` of `order` in chunks of `size`, the last one possibly shorter.
pub open spec fn chunk_of(order: Seq<u64>, size: int, k: int) -> Seq<u64> {
    order.subrange(
        k * size,
        if (k + 1) * size <= order.len() {
            (k + 1) * size
        } else {
            order.len() as int
        },
    )
}

/// How many chunks of `size` the order has.
pub open spec fn chunk_count(order: Seq<u64>, size: int) -> int {
    span_len(0, order.len() as int, size)
}

/// How many batches an epoch has: all chunks, less a short last one when that
/// is dropped and others remain.
pub open spec fn batch_count(order: Seq<u64>, size: int, drop_last: bool) -> int {
    let n = chunk_count(order, size);
    if drop_last && n > 1 && n * size > order.len() {
        n - 1
    } else {
        n
    }
}

/// The batches as the caller sees them.
pub open spec fn plan_view(plan: Seq<Vec<u64>>) -> Seq<Seq<u64>> {
    Seq::new(plan.len(), |k: int| plan[k]@)
}

/// The batches of an epoch.
pub open spec fn plan_of(order: Seq<u64>, size: int, drop_last: bool) -> Seq<Seq<u64>> {
    Seq::new(batch_count(order, size, drop_last) as nat, |k: int| chunk_of(order, size, k))
}

/// The batches one after the other.
pub open spec fn flattened(plan: Seq<Seq<u64>>) -> Seq<u64>
    decreases plan.len(),
{
    if plan.len() == 0 {
        Seq::empty()
    } else {
        flattened(plan.drop_last()) + plan.last()
    }
}

/// A copy of part of an index list.
fn copy_range(order: &[u64], lo: usize, hi: usize) -> (r: Vec<u64>)
    requires
        lo <= hi <= order.len(),
    ensures
        r@ == order@.subrange(lo as int, hi as int),
{
    copy_elems(vstd::slice::slice_subrange(order, lo, hi))
}

/// Per-epoch batch plan: the (possibly shuffled) row order split into
/// batches, honouring `drop_last`.
pub fn epoch_plan(order: &[u64], batch_size: usize, drop_last: bool) -> (r: OxitorchResult<
    Vec<Vec<u64>>,
>)
    ensures
        match r {
            Ok(plan) => batch_size > 0 && plan_view(plan@) == plan_of(
                order@,
                batch_size as int,
                drop_last,
            ),
            Err(e) => batch_size == 0 && e@ == ErrorText::InvalidArgument(
                "batch_size must be >= 1"@,
            ),
        },
{
    if batch_size == 0 {
        return Err(OxitorchError::InvalidArgument("batch_size must be >= 1".to_string()));
    }
    let n: usize = slice_len(0, order.len(), batch_size);
    let size: usize = batch_size;
    let mut batches: Vec<Vec<u64>> = Vec::new();
    let mut k: usize = 0;
    while k < n
        invariant
            0 <= k <= n,
            size > 0,
            size == batch_size,
            n == chunk_count(order@, size as int),
            batches.len() == k,
            k == n ==> batch_count(order@, size as int, drop_last) == n || n == 0,
            forall|j: int|
                0 <= j < k ==> (#[trigger] batches@[j])@ == chunk_of(order@, size as int, j),
        decreases n - k,
    {
        proof {
            law_slice_selects_range(0, order.len() as int, size as int, k as int);
            law_slice_selects_range(0, order.len() as int, size as int, k + 1);
            assert((k + 1) * size == k * size + size) by (nonlinear_arith);
            lemma_mul_nonnegative(k as int, size as int);
        }
        let lo: usize = k * size;
        let left: usize = order.len() - lo;
        let short = left < size;
        let last = k == n - 1;
        if last && drop_last && short && k > 0 {
            proof {
                assert(n * size == k * size + size);
                assert(plan_view(batches@) =~= plan_of(order@, size as int, drop_last));
            }
            return Ok(batches);
        }
        let hi: usize = if short {
            order.len()
        } else {
            lo + size
        };
        batches.push(copy_range(order, lo, hi));
        k = k + 1;
    }
    proof {
        assert(plan_view(batches@) =~= plan_of(order@, size as int, drop_last));
    }
    Ok(batches)
}

proof fn lemma_flattened(order: Seq<u64>, size: int, n: int)
    requires
        size > 0,
        0 <= n <= chunk_count(order, size),
    ensures
        flattened(Seq::new(n as nat, |k: int| chunk_of(order, size, k))) == order.take(
            if n * size <= order.len() {
                n * size
            } else {
                order.len() as int
            },
        ),
    decreases n,
{
    let plan = Seq::new(n as nat, |k: int| chunk_of(order, size, k));
    if n > 0 {
        lemma_flattened(order, size, n - 1);
        let init = Seq::new((n - 1) as nat, |k: int| chunk_of(order, size, k));
        assert(plan.drop_last() =~= init);
        law_slice_selects_range(0, order.len() as int, size, n - 1);
        assert((n - 1) * size + size == n * size) by (nonlinear_arith);
        lemma_mul_nonnegative(n - 1, size);
        let upto = if n * size <= order.len() {
            n * size
        } else {
            order.len() as int
        };
        assert(order.take((n - 1) * size) + order.subrange((n - 1) * size, upto) =~= order.take(
            upto,
        ));
    } else {
        assert(n * size == 0) by (nonlinear_arith)
            requires
                n == 0,
        ;
        assert(plan =~= Seq::<Seq<u64>>::empty());
        assert(order.take(0) =~= Seq::<u64>::empty());
    }
}

/// An epoch visits the rows in order: its batches, joined, are the order
/// itself, or without a dropped last batch the longest whole part of it.
pub proof fn law_plan_covers_order(order: Seq<u64>, size: int, drop_last: bool)
    requires
        size > 0,
    ensures
        !drop_last ==> flattened(plan_of(order, size, drop_last)) == order,
        flattened(plan_of(order, size, drop_last)).len() <= order.len(),
        flattened(plan_of(order, size, drop_last)) == order.take(
            flattened(plan_of(order, size, drop_last)).len() as int,
        ),
        order.len() - flattened(plan_of(order, size, drop_last)).len() < size,
        order.len() > 0 ==> plan_of(order, size, drop_last).len() > 0,
{
    let total = chunk_count(order, size);
    let n = batch_count(order, size, drop_last);
    law_slice_selects_range(0, order.len() as int, size, total);
    if order.len() > 0 {
        law_slice_selects_range(0, order.len() as int, size, 0);
    }
    if total > 0 {
        law_slice_selects_range(0, order.len() as int, size, total - 1);
    }
    assert((total - 1) * size + size == total * size) by (nonlinear_arith);
    lemma_flattened(order, size, n);
    assert(order.take(order.len() as int) =~= order);
    if n == total {
        assert(flattened(plan_of(order, size, drop_last)) == order);
    } else {
        lemma_mul_nonnegative(n, size);
    }
}

/// Every batch of an epoch holds at least one row and at most `size` rows, and
/// every batch but the last holds exactly `size`.
pub proof fn law_batch_sizes(order: Seq<u64>, size: int, drop_last: bool, k: int)
    requires
        size > 0,
        0 <= k < plan_of(order, size, drop_last).len(),
    ensures
        0 < plan_of(order, size, drop_last)[k].len() <= size,
        k < plan_of(order, size, drop_last).len() - 1 ==> plan_of(order, size, drop_last)[k].len()
            == size,
{
    let n = batch_count(order, size, drop_last);
    law_slice_selects_range(0, order.len() as int, size, k);
    law_slice_selects_range(0, order.len() as int, size, k + 1);
    assert((k + 1) * size == k * size + size) by (nonlinear_arith);
    lemma_mul_nonnegative(k, size);
}

// ---- sources ----------------------------------------------------------------------------

/// The rows of a column: its length along dim 0, none for a 0-d tensor.
pub open spec fn rows_of<E>(t: Tensor<E>) -> int {
    if t.dims().len() == 0 {
        0
    } else {
        t.dims()[0] as int
    }
}

pub(crate) fn row_count<E>(t: &Tensor<E>) -> (r: usize)
    ensures
        r == rows_of(*t),
{
    if t.ndim() == 0 {
        0
    } else {
        t.shape()[0]
    }
}

/// The first column whose row count differs from that of the first one.
pub open spec fn first_uneven<E>(columns: Seq<Tensor<E>>, k: int) -> Option<int>
    decreases columns.len() - k,
{
    if k < 0 || k >= columns.len() {
        None
    } else if rows_of(columns[k]) != rows_of(columns[0]) {
        Some(k)
    } else {
        first_uneven(columns, k + 1)
    }
}

/// Why columns make no source, if they do not.
pub open spec fn source_error<E>(columns: Seq<Tensor<E>>) -> Option<ErrorText> {
    if columns.len() == 0 {
        Some(ErrorText::InvalidArgument("a tensor source needs at least one column"@))
    } else if rows_of(columns[0]) == 0 {
        Some(ErrorText::InvalidArgument("a tensor source needs at least one row"@))
    } else {
        match first_uneven(columns, 0) {
            Some(i) => Some(
                ErrorText::ShapeMismatch {
                    lhs: "column "@ + nat_text(i as nat) + " has "@ + nat_text(
                        rows_of(columns[i]) as nat,
                    ) + " rows"@,
                    rhs: nat_text(rows_of(columns[0]) as nat) + " rows"@,
                },
            ),
            None => None,
        }
    }
}

/// An in-memory dataset view over *column tensors*, the standard
/// tensor-dataset case: one tensor per dataset column, each with `n` rows
/// along dim 0 (e.g. images `(n, 1, 28, 28)` + labels `(n,)`).
///
/// `get_batch` gathers the requested rows: each column becomes
/// `index_select(0, indices)`, which keeps every trailing dimension (batches
/// of images stay 4-D).
pub struct TensorBatchSource<E> {
    columns: Vec<Tensor<E>>,
    n: usize,
    /// Augmentations applied to column 0 (the image column) per batch,
    /// seeded from `(epoch_seed, batch indices)`.
    transforms: TransformPipeline<E>,
    /// The epoch's seed (0 when unseeded); folds into per-batch transform
    /// seeds so identical plans across epochs still draw fresh crops.
    epoch_seed: u64,
}

/// What a source holds.
pub struct SourceView<E> {
    pub columns: Seq<Tensor<E>>,
    pub transforms: Seq<NativeTransform<E>>,
    pub epoch_seed: u64,
}

impl<E> View for TensorBatchSource<E> {
    type V = SourceView<E>;

    closed spec fn view(&self) -> SourceView<E> {
        SourceView {
            columns: self.columns@,
            transforms: self.transforms@,
            epoch_seed: self.epoch_seed,
        }
    }
}

impl<E> TensorBatchSource<E> {
    #[verifier::type_invariant]
    spec fn valid(&self) -> bool {
        &&& source_error(self.columns@) is None
        &&& self.n == rows_of(self.columns@[0])
    }

    /// Builds the source from column tensors (all sharing the same row
    /// count along dim 0), applying `transforms` to the first (image)
    /// column inside `get_batch`, seeded by `(epoch_seed, batch indices)`.
    ///
    /// Fails with no columns, mismatched row counts, or zero rows.
    pub fn with_transforms(
        columns: Vec<Tensor<E>>,
        transforms: TransformPipeline<E>,
        epoch_seed: u64,
    ) -> (r: OxitorchResult<Self>)
        ensures
            match r {
                Ok(s) => source_error(columns@) is None && s@ == (SourceView {
                    columns: columns@,
                    transforms: transforms@,
                    epoch_seed,
                }),
                Err(e) => source_error(columns@) == Some(e@),
            },
    {
        let n: usize = match check_columns(&columns) {
            Ok(n) => n,
            Err(e) => {
                return Err(e);
            },
        };
        Ok(TensorBatchSource { columns, n, transforms, epoch_seed })
    }

    /// Builds the source from column tensors (all sharing the same row
    /// count along dim 0).
    ///
    /// Fails with no columns, mismatched row counts, or zero rows.
    pub fn new(columns: Vec<Tensor<E>>) -> (r: OxitorchResult<Self>)
        ensures
            match r {
                Ok(s) => source_error(columns@) is None && s@.columns == columns@
                    && s@.transforms.len() == 0 && s@.epoch_seed == 0,
                Err(e) => source_error(columns@) == Some(e@),
            },
    {
        Self::with_transforms(columns, TransformPipeline::default(), 0)
    }

    /// Number of rows.
    #[must_use]
    pub fn len(&self) -> (r: usize)
        ensures
            r == rows_of(self@.columns[0]),
            r > 0,
    {
        proof {
            use_type_invariant(self);
        }
        self.n
    }

    /// Whether the source is empty; a source never is.
    #[must_use]
    pub fn is_empty(&self) -> (r: bool)
        ensures
            r == (rows_of(self@.columns[0]) == 0),
    {
        self.len() == 0
    }
}

/// The common row count of `columns`.
fn check_columns<E>(columns: &Vec<Tensor<E>>) -> (r: OxitorchResult<usize>)
    ensures
        match r {
            Ok(n) => source_error(columns@) is None && n == rows_of(columns@[0]),
            Err(e) => source_error(columns@) == Some(e@),
        },
{
    if columns.len() == 0 {
        return Err(
            OxitorchError::InvalidArgument("a tensor source needs at least one column".to_string()),
        );
    }
    let n: usize = row_count(&columns[0]);
    if n == 0 {
        return Err(
            OxitorchError::InvalidArgument("a tensor source needs at least one row".to_string()),
        );
    }
    let mut i: usize = 0;
    while i < columns.len()
        invariant
            0 <= i <= columns.len(),
            columns.len() > 0,
            n == rows_of(columns@[0]),
            n > 0,
            first_uneven(columns@, 0) == first_uneven(columns@, i as int),
        decreases columns.len() - i,
    {
        let rows: usize = row_count(&columns[i]);
        if rows != n {
            return Err(
                OxitorchError::ShapeMismatch {
                    lhs: join5(
                        "column ",
                        usize_string(i).as_str(),
                        " has ",
                        usize_string(rows).as_str(),
                        " rows",
                    ),
                    rhs: join2(usize_string(n).as_str(), " rows"),
                },
            );
        }
        i = i + 1;
    }
    Ok(n)
}

/// Row indices as signed numbers.
pub open spec fn signed_rows(indices: Seq<u64>) -> Seq<i64> {
    Seq::new(indices.len(), |k: int| indices[k] as i64)
}

/// Some index names no row.
pub open spec fn has_bad_row(indices: Seq<u64>, n: int) -> bool {
    exists|k: int| 0 <= k < indices.len() && #[trigger] indices[k] >= n
}

/// The complaint about a row index out of range.
pub open spec fn bad_row_error(n: int) -> ErrorText {
    ErrorText::OutOfBounds("index out of range (n="@ + nat_text(n as nat) + ")"@)
}

/// The row count that indices are held against: that of the first column.
pub open spec fn gather_rows<E>(columns: Seq<Tensor<E>>) -> int {
    if columns.len() == 0 {
        0
    } else {
        rows_of(columns[0])
    }
}

/// The first column from `k` on whose selection fails, with its complaint.
pub open spec fn first_gather_error<E>(columns: Seq<Tensor<E>>, rows: Seq<i64>, k: int) -> Option<
    ErrorText,
>
    decreases columns.len() - k,
{
    if k < 0 || k >= columns.len() {
        None
    } else if index_select_error(columns[k].dims(), 0, rows) is Some {
        index_select_error(columns[k].dims(), 0, rows)
    } else {
        first_gather_error(columns, rows, k + 1)
    }
}

/// Why rows cannot be gathered, if they cannot.
pub open spec fn gather_error<E>(columns: Seq<Tensor<E>>, indices: Seq<u64>) -> Option<ErrorText> {
    if has_bad_row(indices, gather_rows(columns)) {
        Some(bad_row_error(gather_rows(columns)))
    } else {
        first_gather_error(columns, signed_rows(indices), 0)
    }
}

/// `out` holds the rows `indices` of every column.
pub open spec fn gather_result<E>(
    columns: Seq<Tensor<E>>,
    indices: Seq<u64>,
    out: Seq<Tensor<E>>,
) -> bool {
    &&& out.len() == columns.len()
    &&& forall|k: int|
        0 <= k < columns.len() ==> picks_slices(
            columns[k],
            0,
            resolved(signed_rows(indices), columns[k].dims()[0] as int),
            #[trigger] out[k],
        )
}

/// Gathers rows from column tensors: `index_select(0, indices)` per column.
/// The shared kernel for worker batches and inline (single-thread) batches.
///
/// Fails if any index is out of range.
pub fn gather_columns<E: Elem>(columns: &Vec<Tensor<E>>, indices: &[u64]) -> (r: OxitorchResult<
    Vec<Tensor<E>>,
>)
    ensures
        match r {
            Ok(out) => gather_error(columns@, indices@) is None && gather_result(
                columns@,
                indices@,
                out@,
            ),
            Err(e) => gather_error(columns@, indices@) == Some(e@),
        },
{
    let n: usize = if columns.len() == 0 {
        0
    } else {
        row_count(&columns[0])
    };
    let mut rows: Vec<i64> = Vec::with_capacity(indices.len());
    let mut k: usize = 0;
    while k < indices.len()
        invariant
            0 <= k <= indices.len(),
            n == gather_rows(columns@),
            rows@ == signed_rows(indices@).take(k as int),
            forall|j: int| 0 <= j < k ==> #[trigger] indices@[j] < n,
        decreases indices.len() - k,
    {
        if indices[k] >= n as u64 {
            assert(has_bad_row(indices@, n as int));
            return Err(
                OxitorchError::OutOfBounds(
                    join3("index out of range (n=", usize_string(n).as_str(), ")"),
                ),
            );
        }
        rows.push(#[verifier::truncate] (indices[k] as i64));
        k = k + 1;
        let ghost all = signed_rows(indices@);
        assert(all.take(k as int) =~= all.take(k - 1).push(all[k - 1]));
    }
    assert(rows@ =~= signed_rows(indices@));
    assert(!has_bad_row(indices@, n as int));
    let mut out: Vec<Tensor<E>> = Vec::with_capacity(columns.len());
    let mut c: usize = 0;
    while c < columns.len()
        invariant
            0 <= c <= columns.len(),
            rows@ == signed_rows(indices@),
            !has_bad_row(indices@, gather_rows(columns@)),
            out.len() == c,
            first_gather_error(columns@, rows@, 0) == first_gather_error(
                columns@,
                rows@,
                c as int,
            ),
            forall|j: int|
                0 <= j < c ==> picks_slices(
                    columns@[j],
                    0,
                    resolved(rows@, columns@[j].dims()[0] as int),
                    #[trigger] out@[j],
                ),
        decreases columns.len() - c,
    {
        match columns[c].index_select(0, rows.as_slice()) {
            Ok(t) => {
                out.push(t);
            },
            Err(e) => {
                return Err(e);
            },
        }
        c = c + 1;
    }
    Ok(out)
}

// ---- batch seeds ------------------------------------------------------------------------

/// Byte `k` of a number, least significant first.
pub open spec fn byte_of(x: u64, k: u64) -> u64 {
    (x >> (8 * k) as u64) & 0xffu64
}

/// One FNV-1a step.
pub open spec fn fnv_step(hash: u64, byte: u64) -> u64 {
    (hash ^ byte).wrapping_mul(0x0000_0100_0000_01b3u64)
}

/// FNV-1a over the first `k` bytes of `x`, continuing from `hash`.
pub open spec fn fnv_bytes(hash: u64, x: u64, k: nat) -> u64
    decreases k,
{
    if k == 0 {
        hash
    } else {
        fnv_step(fnv_bytes(hash, x, (k - 1) as nat), byte_of(x, (k - 1) as u64))
    }
}

/// FNV-1a over the little-endian bytes of every index.
pub open spec fn fnv_of(indices: Seq<u64>) -> u64
    decreases indices.len(),
{
    if indices.len() == 0 {
        0xcbf2_9ce4_8422_2325u64
    } else {
        fnv_bytes(fnv_of(indices.drop_last()), indices.last(), 8)
    }
}

/// Folds a batch's row indices into the per-batch transform seed, so a given
/// `(plan, indices)` sequence is always reproducible: FNV-1a over the
/// little-endian index bytes.
#[must_use]
pub fn indices_seed(indices: &[u64]) -> (r: u64)
    ensures
        r == fnv_of(indices@),
{
    let mut hash: u64 = 0xcbf2_9ce4_8422_2325u64;
    let mut i: usize = 0;
    while i < indices.len()
        invariant
            0 <= i <= indices.len(),
            hash == fnv_of(indices@.take(i as int)),
        decreases indices.len() - i,
    {
        let x: u64 = indices[i];
        let ghost before = hash;
        let mut k: u64 = 0;
        while k < 8
            invariant
                0 <= k <= 8,
                hash == fnv_bytes(before, x, k as nat),
            decreases 8 - k,
        {
            let byte: u64 = (x >> (8 * k)) & 0xffu64;
            hash = (hash ^ byte).wrapping_mul(0x0000_0100_0000_01b3u64);
            k = k + 1;
        }
        i = i + 1;
        assert(indices@.take(i as int).drop_last() =~= indices@.take(i - 1));
    }
    assert(indices@.take(i as int) =~= indices@);
    hash
}

/// The generator that the transforms of a batch draw from.
pub open spec fn batch_state(epoch_seed: u64, indices: Seq<u64>) -> MtState {
    seeded(folded_seed(mixed_seed(epoch_seed, fnv_of(indices))))
}

/// What a source gives for a batch: the gathered rows, with the transforms
/// applied to the first column.
pub open spec fn batch_outcome<E: Elem>(
    s: SourceView<E>,
    indices: Seq<u64>,
    r: OxitorchResult<Vec<Tensor<E>>>,
) -> bool {
    if gather_error(s.columns, indices) is Some {
        r is Err && gather_error(s.columns, indices) == Some(r->Err_0@)
    } else {
        exists|rows: Seq<Tensor<E>>| #[trigger]
            gather_result(s.columns, indices, rows) && if s.transforms.len() == 0 {
                r is Ok && r->Ok_0@ == rows
            } else {
                exists|first: OxitorchResult<Tensor<E>>, t: MtState| #[trigger]
                    pipeline_outcome(
                        s.transforms,
                        rows[0],
                        batch_state(s.epoch_seed, indices),
                        first,
                        t,
                    ) && match first {
                        Ok(x) => r is Ok && r->Ok_0@ == rows.update(0, x),
                        Err(e) => r is Err && r->Err_0 == e,
                    }
            }
    }
}

impl<E: Elem> BatchSource<E> for TensorBatchSource<E> {
    fn get_batch(&self, indices: &[u64]) -> (r: OxitorchResult<Vec<Tensor<E>>>)
        ensures
            batch_outcome(self@, indices@, r),
    {
        proof {
            use_type_invariant(self);
        }
        let mut cols = match gather_columns(&self.columns, indices) {
            Ok(c) => c,
            Err(e) => {
                return Err(e);
            },
        };
        let ghost rows = cols@;
        if !self.transforms.is_empty() {
            let seed: u64 = batch_seed(self.epoch_seed, indices_seed(indices));
            let mut rng = batch_rng(seed);
            let ghost start = rng@;
            let first = self.transforms.apply(&cols[0], &mut rng);
            assert(start == batch_state(self@.epoch_seed, indices@));
            assert(pipeline_outcome(
                self@.transforms,
                rows[0],
                batch_state(self@.epoch_seed, indices@),
                first,
                rng@,
            ));
            assert(gather_result(self@.columns, indices@, rows));
            match first {
                Ok(x) => {
                    cols[0] = x;
                    assert(cols@ =~= rows.update(0, x));
                },
                Err(e) => {
                    return Err(e);
                },
            }
        }
        assert(gather_result(self@.columns, indices@, rows));
        Ok(cols)
    }
}

/// The rows of a batch depend on the columns and the indices alone: gathering
/// them twice gives equal tensors.
pub proof fn law_gather_is_reproducible<E>(
    columns: Seq<Tensor<E>>,
    indices: Seq<u64>,
    a: Seq<Tensor<E>>,
    b: Seq<Tensor<E>>,
    k: int,
)
    requires
        gather_result(columns, indices, a),
        gather_result(columns, indices, b),
        0 <= k < columns.len(),
    ensures
        a.len() == b.len(),
        a[k].dims() == b[k].dims(),
        a[k].data() == b[k].data(),
{
    let picks = resolved(signed_rows(indices), columns[k].dims()[0] as int);
    assert(picks_slices(columns[k], 0, picks, a[k]));
    assert(picks_slices(columns[k], 0, picks, b[k]));
    assert forall|idx: Seq<int>| in_shape(idx, a[k].dims()) implies #[trigger] a[k].at(idx)
        == b[k].at(idx) by {
        assert(in_shape(idx, b[k].dims()));
    }
    lemma_same_data(a[k], b[k]);
}

} // verus!
