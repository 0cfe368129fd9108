//! The data loader: epochs, prefetching and failure reporting.
//!
//! A [`DataLoader`] owns *tensor columns*. Each epoch gets its own source,
//! batch plan and, when seeded, its own shuffle order. [`LoaderIter`] decides
//! what to build or submit next; the threads that do the work are outside.

use vstd::prelude::*;
use vstd::string::*;
use crate::data::batch::{
    BatchRequest, CompletedBatch, TensorBatchSource, epoch_plan, first_uneven, flattened,
    law_plan_covers_order, next_number, plan_of, plan_view, row_count, rows_of, source_error,
};
use crate::data::rng::{
    Mt19937, counting, is_shuffle, law_permutation_is_complete, permutation_of, seeded,
};
use crate::data::transform::{
    NativeTransform, TransformPipeline, finalized, lemma_finalized_injective,
    lemma_golden_injective,
};
use crate::elem::{Elem, copy_elems, is_zero};
use crate::error::OxitorchResult;
use crate::tensor::Tensor;
use crate::text::{debug_string, debug_text, join2, join4, nat_text, same_text, usize_string};

verus! {

// ---- seeds ------------------------------------------------------------------------------

/// Seed sequence for shuffled epochs: each epoch derives a fresh seed from
/// the shared epoch counter, so different epochs see different shuffle orders
/// while staying fully reproducible for a given construction.
#[derive(Debug, Clone, Copy)]
pub struct EpochSeeds {
    base: u64,
    counter: u64,
}

/// What a seed sequence holds.
pub struct SeedsView {
    pub base: u64,
    pub counter: u64,
}

impl View for EpochSeeds {
    type V = SeedsView;

    closed spec fn view(&self) -> SeedsView {
        SeedsView { base: self.base, counter: self.counter }
    }
}

/// The seed of an epoch: a SplitMix64 finalizer over the base seed and the
/// epoch number.
pub open spec fn epoch_seed_of(base: u64, epoch: u64) -> u64 {
    finalized(base.wrapping_add(epoch.wrapping_mul(0x9E37_79B9_7F4A_7C15u64)))
}

/// No two epochs of one base seed share a seed.
pub proof fn law_epoch_seeds_differ(base: u64, e1: u64, e2: u64)
    requires
        e1 != e2,
    ensures
        epoch_seed_of(base, e1) != epoch_seed_of(base, e2),
{
    if epoch_seed_of(base, e1) == epoch_seed_of(base, e2) {
        let a = e1.wrapping_mul(0x9E37_79B9_7F4A_7C15u64);
        let b = e2.wrapping_mul(0x9E37_79B9_7F4A_7C15u64);
        lemma_finalized_injective(base.wrapping_add(a), base.wrapping_add(b));
        assert(a == b);
        lemma_golden_injective(e1, e2);
    }
}

impl EpochSeeds {
    /// A sequence that starts at epoch 0.
    pub fn new(base: u64) -> (r: Self)
        ensures
            r@ == (SeedsView { base, counter: 0 }),
    {
        EpochSeeds { base, counter: 0 }
    }

    /// The seed of the next epoch; the sequence moves on.
    pub fn next(&mut self) -> (r: u64)
        ensures
            r == epoch_seed_of(old(self)@.base, old(self)@.counter),
            final(self)@ == seeds_advanced(old(self)@),
    {
        let seed: u64 = self.seed();
        *self = self.advanced();
        seed
    }

    /// The seed of the next epoch.
    fn seed(&self) -> (r: u64)
        ensures
            r == epoch_seed_of(self@.base, self@.counter),
    {
        let a: u64 = self.base.wrapping_add(self.counter.wrapping_mul(0x9E37_79B9_7F4A_7C15u64));
        let b: u64 = (a ^ (a >> 30)).wrapping_mul(0xBF58_476D_1CE4_E5B9u64);
        let c: u64 = (b ^ (b >> 27)).wrapping_mul(0x94D0_49BB_1331_11EBu64);
        c ^ (c >> 31)
    }

    /// The sequence one epoch on.
    fn advanced(&self) -> (r: Self)
        ensures
            r@ == seeds_advanced(self@),
    {
        let counter: u64 = if self.counter == u64::MAX {
            0
        } else {
            self.counter + 1
        };
        EpochSeeds { base: self.base, counter }
    }
}

// ---- transforms by name -----------------------------------------------------------------

/// What a named transform with arguments `args` means: a transform, or the
/// complaint about it.
pub open spec fn parsed_transform<E: Elem>(
    name: Seq<char>,
    args: Seq<E>,
    r: Result<NativeTransform<E>, String>,
) -> bool {
    if name == "crop"@ {
        if args.len() == 1 {
            match r {
                Ok(t) => is_count(args[0], true) && (t matches NativeTransform::RandomCrop(size)
                    && call_ensures(E::to_count, (args[0],), size)),
                Err(m) => is_count(args[0], false) && m@
                    == "crop expects a single non-negative size argument"@,
            }
        } else {
            r is Err && r->Err_0@ == "crop expects a single non-negative size argument"@
        }
    } else if name == "flip"@ {
        if args.len() == 0 {
            r is Ok && r->Ok_0 == NativeTransform::<E>::RandomHorizontalFlip
        } else {
            r is Err && r->Err_0@ == "flip expects no arguments"@
        }
    } else if name == "normalize"@ {
        if args.len() >= 2 && args.len() % 2 == 0 {
            let mid = args.len() as int / 2;
            r matches Ok(NativeTransform::Normalize(mean, std)) && mean@ == args.take(mid) && std@
                == args.skip(mid)
        } else {
            r is Err && r->Err_0@ == "normalize expects mean... followed by std... of equal length"@
        }
    } else {
        r is Err && r->Err_0@ == "unknown native transform "@ + debug_text(name)
    }
}

/// A number is at least zero, or not, as the element type tells.
pub open spec fn is_count<E: Elem>(a: E, yes: bool) -> bool {
    exists|z: E| #[trigger] is_zero(z) && call_ensures(E::less_equal, (z, a), yes)
}

/// A batch-level transform requested by name: `("crop", [size])`,
/// `("flip", [])`, and `("normalize", [mean..., std...])`, where the normalize
/// vector packs the per-channel means followed by the stds.
pub fn parse_transform<E: Elem>(name: &str, args: &[E]) -> (r: Result<NativeTransform<E>, String>)
    ensures
        parsed_transform(name@, args@, r),
{
    if same_text(name, "crop") {
        if args.len() == 1 {
            let z = E::zero();
            let ok = E::less_equal(z, args[0]);
            assert(is_count(args@[0], ok)) by {
                assert(is_zero(z));
            }
            if ok {
                return Ok(NativeTransform::RandomCrop(E::to_count(args[0])));
            }
        }
        return Err("crop expects a single non-negative size argument".to_string());
    }
    if same_text(name, "flip") {
        if args.len() == 0 {
            return Ok(NativeTransform::RandomHorizontalFlip);
        }
        return Err("flip expects no arguments".to_string());
    }
    if same_text(name, "normalize") {
        if args.len() >= 2 && args.len() % 2 == 0 {
            let mid: usize = args.len() / 2;
            let mean = copy_elems(vstd::slice::slice_subrange(args, 0, mid));
            let std = copy_elems(vstd::slice::slice_subrange(args, mid, args.len()));
            proof {
                assert(mean@ =~= args@.take(mid as int));
                assert(std@ =~= args@.skip(mid as int));
            }
            return Ok(NativeTransform::Normalize(mean, std));
        }
        return Err("normalize expects mean... followed by std... of equal length".to_string());
    }
    Err(join2("unknown native transform ", debug_string(name).as_str()))
}

// ---- the loader -------------------------------------------------------------------------

/// A data loader over tensor columns.
pub struct DataLoader<E> {
    columns: Vec<Tensor<E>>,
    n: usize,
    batch_size: usize,
    drop_last: bool,
    shuffle: bool,
    seeds: Option<EpochSeeds>,
    num_workers: usize,
    transforms: Option<TransformPipeline<E>>,
    /// Per-epoch transform seed generator.
    tseeds: EpochSeeds,
}

/// What a loader holds.
pub struct LoaderView<E> {
    pub columns: Seq<Tensor<E>>,
    pub batch_size: int,
    pub drop_last: bool,
    pub shuffle: bool,
    pub seeds: Option<SeedsView>,
    pub num_workers: int,
    pub transforms: Seq<NativeTransform<E>>,
    pub tseeds: SeedsView,
}

impl<E> View for DataLoader<E> {
    type V = LoaderView<E>;

    closed spec fn view(&self) -> LoaderView<E> {
        LoaderView {
            columns: self.columns@,
            batch_size: self.batch_size as int,
            drop_last: self.drop_last,
            shuffle: self.shuffle,
            seeds: match self.seeds {
                Some(s) => Some(s@),
                None => None,
            },
            num_workers: self.num_workers as int,
            transforms: match self.transforms {
                Some(p) => p@,
                None => Seq::empty(),
            },
            tseeds: self.tseeds@,
        }
    }
}

/// Why settings make no loader, if they do not.
pub open spec fn loader_error<E>(
    columns: Seq<Tensor<E>>,
    batch_size: int,
    empty_pipeline: bool,
) -> Option<Seq<char>> {
    if columns.len() == 0 {
        Some("DataLoader needs at least one tensor column"@)
    } else if rows_of(columns[0]) == 0 {
        Some("DataLoader dataset is empty"@)
    } else if batch_size == 0 {
        Some("batch_size must be >= 1"@)
    } else {
        match first_uneven(columns, 0) {
            Some(i) => Some(
                "column "@ + nat_text(i as nat) + " has "@ + nat_text(rows_of(columns[i]) as nat)
                    + " rows, expected "@ + nat_text(rows_of(columns[0]) as nat),
            ),
            None => if empty_pipeline {
                Some("transforms pipeline is empty; pass None instead"@)
            } else {
                None
            },
        }
    }
}

/// The row order of an epoch: shuffled by the epoch's seed when shuffling is
/// on and seeded, otherwise in sequence.
pub open spec fn epoch_order<E>(s: LoaderView<E>) -> Seq<u64> {
    let n = rows_of(s.columns[0]) as nat;
    match s.seeds {
        Some(seeds) => if s.shuffle {
            permutation_of(
                seeded(low_word(epoch_seed_of(seeds.base, seeds.counter))),
                n,
            ).0
        } else {
            counting(n)
        },
        None => counting(n),
    }
}

/// The low 32 bits.
pub open spec fn low_word(x: u64) -> u32 {
    (x & 0xffff_ffffu64) as u32
}

/// A seed sequence one epoch on.
pub open spec fn seeds_advanced(s: SeedsView) -> SeedsView {
    SeedsView { base: s.base, counter: next_number(s.counter) }
}

/// The loader one epoch on: shuffle seeds move only when they were used.
pub open spec fn epoch_begun<E>(s: LoaderView<E>) -> LoaderView<E> {
    LoaderView {
        seeds: match s.seeds {
            Some(x) => if s.shuffle {
                Some(seeds_advanced(x))
            } else {
                Some(x)
            },
            None => None,
        },
        tseeds: seeds_advanced(s.tseeds),
        ..s
    }
}

/// How many batches may be submitted ahead of the consumer: none without
/// workers, else two more than there are workers.
pub open spec fn prefetch_window(num_workers: int) -> int {
    if num_workers == 0 {
        0
    } else if num_workers + 2 > usize::MAX {
        usize::MAX as int
    } else {
        num_workers + 2
    }
}

/// One epoch: where its batches come from, and the pass over them.
pub struct Epoch<E> {
    /// Gathers rows and applies transforms with this epoch's seed.
    pub source: TensorBatchSource<E>,
    /// The pass over the epoch's plan.
    pub iter: LoaderIter,
}

/// A copy of a list of tensors.
fn copy_columns<E>(columns: &Vec<Tensor<E>>) -> (r: Vec<Tensor<E>>)
    ensures
        r@ == columns@,
{
    let mut out: Vec<Tensor<E>> = Vec::with_capacity(columns.len());
    let mut i: usize = 0;
    while i < columns.len()
        invariant
            0 <= i <= columns.len(),
            out@ == columns@.take(i as int),
        decreases columns.len() - i,
    {
        out.push(columns[i].clone());
        i = i + 1;
        assert(columns@.take(i as int) =~= columns@.take(i - 1).push(columns@[i - 1]));
    }
    assert(columns@.take(i as int) =~= columns@);
    out
}

impl<E> DataLoader<E> {
    #[verifier::type_invariant]
    spec fn valid(&self) -> bool {
        &&& source_error(self.columns@) is None
        &&& self.n == rows_of(self.columns@[0])
        &&& self.batch_size > 0
        &&& self.transforms is Some ==> (self.transforms->0)@.len() > 0
    }

    /// A loader over `columns`: `num_workers` is the thread count (0 means
    /// batches are built on the calling thread); `transforms` apply to the
    /// first column, seeded reproducibly from `transform_seed` per epoch.
    pub fn new(
        columns: Vec<Tensor<E>>,
        batch_size: usize,
        shuffle: bool,
        drop_last: bool,
        seed: Option<u64>,
        num_workers: usize,
        transforms: Option<TransformPipeline<E>>,
        transform_seed: u64,
    ) -> (r: Result<Self, String>)
        ensures
            ({
                let problem = loader_error(
                    columns@,
                    batch_size as int,
                    transforms is Some && (transforms->0)@.len() == 0,
                );
                match r {
                    Ok(l) => problem is None && l@ == (LoaderView {
                        columns: columns@,
                        batch_size: batch_size as int,
                        drop_last,
                        shuffle,
                        seeds: match seed {
                            Some(base) => Some(SeedsView { base, counter: 0 }),
                            None => None,
                        },
                        num_workers: num_workers as int,
                        transforms: match transforms {
                            Some(p) => p@,
                            None => Seq::empty(),
                        },
                        tseeds: SeedsView { base: transform_seed, counter: 0 },
                    }),
                    Err(m) => problem == Some(m@),
                }
            }),
    {
        if columns.len() == 0 {
            return Err("DataLoader needs at least one tensor column".to_string());
        }
        let n: usize = row_count(&columns[0]);
        if n == 0 {
            return Err("DataLoader dataset is empty".to_string());
        }
        if batch_size == 0 {
            return Err("batch_size must be >= 1".to_string());
        }
        let mut i: usize = 0;
        while i < columns.len()
            invariant
                0 <= i <= columns.len(),
                columns.len() > 0,
                n == rows_of(columns@[0]),
                n > 0,
                batch_size > 0,
                first_uneven(columns@, 0) == first_uneven(columns@, i as int),
            decreases columns.len() - i,
        {
            let rows: usize = row_count(&columns[i]);
            if rows != n {
                let mut m = join4(
                    "column ",
                    usize_string(i).as_str(),
                    " has ",
                    usize_string(rows).as_str(),
                );
                m.append(" rows, expected ");
                m.append(usize_string(n).as_str());
                return Err(m);
            }
            i = i + 1;
        }
        if let Some(p) = &transforms {
            if p.is_empty() {
                return Err("transforms pipeline is empty; pass None instead".to_string());
            }
        }
        let seeds = match seed {
            Some(base) => Some(EpochSeeds::new(base)),
            None => None,
        };
        Ok(
            DataLoader {
                columns,
                n,
                batch_size,
                drop_last,
                shuffle,
                seeds,
                num_workers,
                transforms,
                tseeds: EpochSeeds::new(transform_seed),
            },
        )
    }

    /// Number of samples.
    pub fn n(&self) -> (r: usize)
        ensures
            r == rows_of(self@.columns[0]),
    {
        proof {
            use_type_invariant(self);
        }
        self.n
    }

    /// Samples per batch.
    pub fn batch_size(&self) -> (r: usize)
        ensures
            r == self@.batch_size,
    {
        self.batch_size
    }

    /// Number of worker threads.
    pub fn num_workers(&self) -> (r: usize)
        ensures
            r == self@.num_workers,
    {
        self.num_workers
    }

    /// Starts an epoch: a fresh pass over batched columns, with its own
    /// shuffle order (when seeded) and transform seed.
    pub fn begin_epoch(&mut self) -> (r: OxitorchResult<Epoch<E>>)
        ensures
            final(self)@ == epoch_begun(old(self)@),
            ({
                let s = old(self)@;
                match r {
                    Ok(e) => {
                        &&& e.source@.columns == s.columns
                        &&& e.source@.transforms == s.transforms
                        &&& s.transforms.len() > 0 ==> e.source@.epoch_seed == epoch_seed_of(
                            s.tseeds.base,
                            s.tseeds.counter,
                        )
                        &&& e.iter@ == (IterView {
                            plan: plan_of(epoch_order(s), s.batch_size, s.drop_last),
                            next_seq: 0,
                            next_submit: 0,
                            outstanding: 0,
                            window: prefetch_window(s.num_workers),
                        })
                    },
                    Err(_) => false,
                }
            }),
    {
        let order = self.next_order();
        proof {
            use_type_invariant(&*self);
        }
        let tseed: u64 = self.tseeds.seed();
        self.tseeds = self.tseeds.advanced();
        self.make_epoch(order, tseed)
    }

    /// An epoch over the rows in `order`, its transforms seeded by `tseed`.
    fn make_epoch(&self, order: Vec<u64>, tseed: u64) -> (r: OxitorchResult<Epoch<E>>)
        ensures
            match r {
                Ok(e) => {
                    &&& e.source@.columns == self@.columns
                    &&& e.source@.transforms == self@.transforms
                    &&& self@.transforms.len() > 0 ==> e.source@.epoch_seed == tseed
                    &&& e.iter@ == (IterView {
                        plan: plan_of(order@, self@.batch_size, self@.drop_last),
                        next_seq: 0,
                        next_submit: 0,
                        outstanding: 0,
                        window: prefetch_window(self@.num_workers),
                    })
                },
                Err(_) => false,
            },
    {
        proof {
            use_type_invariant(self);
        }
        let held = copy_columns(&self.columns);
        let plan = match epoch_plan(order.as_slice(), self.batch_size, self.drop_last) {
            Ok(p) => p,
            Err(e) => {
                return Err(e);
            },
        };
        let made = match &self.transforms {
            Some(p) => TensorBatchSource::with_transforms(held, p.clone(), tseed),
            None => TensorBatchSource::new(held),
        };
        let source = match made {
            Ok(s) => s,
            Err(e) => {
                return Err(e);
            },
        };
        assert(source@.transforms =~= self@.transforms);
        let window: usize = if self.num_workers == 0 {
            0
        } else if self.num_workers > usize::MAX - 2 {
            usize::MAX
        } else {
            self.num_workers + 2
        };
        Ok(Epoch { source, iter: LoaderIter::new(plan, window) })
    }

    /// The row order of the next epoch.
    fn next_order(&mut self) -> (r: Vec<u64>)
        ensures
            r@ == epoch_order(old(self)@),
            final(self)@ == (LoaderView { tseeds: old(self)@.tseeds, ..epoch_begun(old(self)@) }),
    {
        proof {
            use_type_invariant(&*self);
        }
        if !self.shuffle {
            return count_up(self.n);
        }
        match self.seeds {
            Some(s) => {
                let x: u64 = s.seed();
                let word: u64 = x & 0xffff_ffffu64;
                assert(x & 0xffff_ffffu64 <= 0xffff_ffffu64) by (bit_vector);
                self.seeds = Some(s.advanced());
                let mut rng = Mt19937::new(word as u32);
                rng.permutation(self.n)
            },
            None => count_up(self.n),
        }
    }
}

/// `0`, `1`, ..., `n - 1`.
fn count_up(n: usize) -> (r: Vec<u64>)
    ensures
        r@ == counting(n as nat),
{
    let mut out: Vec<u64> = Vec::with_capacity(n);
    let mut k: usize = 0;
    while k < n
        invariant
            0 <= k <= n,
            out@ == counting(k as nat),
        decreases n - k,
    {
        out.push(k as u64);
        k = k + 1;
        assert(out@ =~= counting(k as nat));
    }
    out
}

// ---- one pass ---------------------------------------------------------------------------

/// One pass over the loader: batches come from the worker pool, or are built
/// inline without workers, in deterministic plan order.
///
/// The worker path keeps a **prefetch window** of submitted-but-unconsumed
/// batches so workers compute *while* the consumer uses the previous batch;
/// memory stays bounded by the window.
pub struct LoaderIter {
    plan: Vec<Vec<u64>>,
    /// Cursor for the inline (single-thread) path.
    next_seq: usize,
    /// Next plan slot to submit on the worker path.
    next_submit: usize,
    /// Submitted-but-not-yet-consumed batches (worker path).
    outstanding: usize,
    window: usize,
}

/// What a pass holds.
pub struct IterView {
    pub plan: Seq<Seq<u64>>,
    pub next_seq: int,
    pub next_submit: int,
    pub outstanding: int,
    pub window: int,
}

impl View for LoaderIter {
    type V = IterView;

    closed spec fn view(&self) -> IterView {
        IterView {
            plan: plan_view(self.plan@),
            next_seq: self.next_seq as int,
            next_submit: self.next_submit as int,
            outstanding: self.outstanding as int,
            window: self.window as int,
        }
    }
}

/// What a pass asks for when the next batch is wanted.
pub enum LoaderStep {
    /// The epoch is exhausted.
    Finished,
    /// Build batch `seq` from these rows on the calling thread.
    Build {
        /// The place of the batch in the plan.
        seq: usize,
        /// The rows of the batch.
        indices: Vec<u64>,
    },
    /// Wait for the worker pool's next batch in order.
    Await,
}

/// How many plan slots are submitted next: as many as the window and the plan
/// allow.
pub open spec fn top_up_count(s: IterView) -> int {
    let room = s.window - s.outstanding;
    let left = s.plan.len() - s.next_submit;
    if room <= 0 || left <= 0 {
        0
    } else if room <= left {
        room
    } else {
        left
    }
}

/// The pass after `k` more plan slots were submitted.
pub open spec fn submitted(s: IterView, k: int) -> IterView {
    IterView { next_submit: s.next_submit + k, outstanding: s.outstanding + k, ..s }
}

/// `requests` are the next `requests.len()` plan slots, numbered by their
/// place.
pub open spec fn are_next_requests(s: IterView, requests: Seq<BatchRequest>) -> bool {
    forall|j: int|
        0 <= j < requests.len() ==> (#[trigger] requests[j]).seq == s.next_submit + j
            && requests[j].indices@ == s.plan[s.next_submit + j]
}

/// The window and the plan bound what is submitted.
pub open spec fn valid_pass(s: IterView) -> bool {
    &&& 0 <= s.next_seq <= s.plan.len()
    &&& 0 <= s.next_submit <= s.plan.len()
    &&& 0 <= s.outstanding <= s.next_submit
    &&& s.outstanding <= s.window
}

/// Filling the window with `requests` leads from `s` to `t`.
pub open spec fn topped_up(s: IterView, requests: Seq<BatchRequest>, t: IterView) -> bool {
    &&& requests.len() == top_up_count(s)
    &&& are_next_requests(s, requests)
    &&& t == submitted(s, requests.len() as int)
}

/// Asking for the next batch gives `r` and leads from `s` to `t`.
pub open spec fn step_taken(s: IterView, r: LoaderStep, t: IterView) -> bool {
    if s.window == 0 {
        if s.next_seq >= s.plan.len() {
            r is Finished && t == s
        } else {
            &&& r matches LoaderStep::Build { seq, indices } && seq == s.next_seq && indices@
                == s.plan[s.next_seq]
            &&& t == (IterView { next_seq: s.next_seq + 1, ..s })
        }
    } else {
        t == s && if s.outstanding == 0 {
            r is Finished
        } else {
            r is Await
        }
    }
}

/// Taking the worker pool's next batch gives `r`, refills the window with
/// `requests` and leads from `s` to `t`.
pub open spec fn delivered_to<E>(
    s: IterView,
    batch: Option<CompletedBatch<E>>,
    r: Result<Vec<Tensor<E>>, String>,
    requests: Seq<BatchRequest>,
    t: IterView,
) -> bool {
    match batch {
        None => r is Err && r->Err_0@ == "DataLoader worker pool shut down mid-epoch"@
            && requests.len() == 0 && t == s,
        Some(b) => match b.error {
            Some(m) => r is Err && r->Err_0@ == "DataLoader worker failed: "@ + m@
                && requests.len() == 0 && t == (IterView { outstanding: 0, ..s }),
            None => r == Ok::<Vec<Tensor<E>>, String>(b.tensors) && topped_up(
                IterView { outstanding: s.outstanding - 1, ..s },
                requests,
                t,
            ),
        },
    }
}

impl LoaderIter {
    /// A pass over `plan`, with nothing submitted yet.
    pub fn new(plan: Vec<Vec<u64>>, window: usize) -> (r: Self)
        ensures
            r@ == (IterView {
                plan: plan_view(plan@),
                next_seq: 0,
                next_submit: 0,
                outstanding: 0,
                window: window as int,
            }),
            valid_pass(r@),
    {
        LoaderIter { plan, next_seq: 0, next_submit: 0, outstanding: 0, window }
    }

    /// The requests that fill the prefetch window.
    pub fn top_up(&mut self) -> (r: Vec<BatchRequest>)
        requires
            valid_pass(old(self)@),
        ensures
            valid_pass(final(self)@),
            topped_up(old(self)@, r@, final(self)@),
    {
        let ghost start = self@;
        let mut out: Vec<BatchRequest> = Vec::new();
        while self.outstanding < self.window && self.next_submit < self.plan.len()
            invariant
                start == old(self)@,
                valid_pass(start),
                valid_pass(self@),
                self@ == submitted(start, out.len() as int),
                out.len() <= top_up_count(start),
                are_next_requests(start, out@),
            decreases self.plan.len() - self.next_submit,
        {
            let indices = copy_elems(self.plan[self.next_submit].as_slice());
            let seq: u64 = self.next_submit as u64;
            assert(indices@ == start.plan[start.next_submit + out.len()]);
            let ghost before = out@;
            out.push(BatchRequest { seq, indices });
            proof {
                assert forall|j: int| 0 <= j < out@.len() implies (#[trigger] out@[j]).seq
                    == start.next_submit + j && out@[j].indices@ == start.plan[start.next_submit
                    + j] by {
                    if j < before.len() {
                        assert(out@[j] == before[j]);
                    }
                }
            }
            self.next_submit = self.next_submit + 1;
            self.outstanding = self.outstanding + 1;
        }
        out
    }

    /// What to do when the next batch is wanted.
    pub fn next_step(&mut self) -> (r: LoaderStep)
        requires
            valid_pass(old(self)@),
        ensures
            valid_pass(final(self)@),
            step_taken(old(self)@, r, final(self)@),
    {
        if self.window == 0 {
            if self.next_seq >= self.plan.len() {
                return LoaderStep::Finished;
            }
            let seq: usize = self.next_seq;
            let indices = copy_elems(self.plan[seq].as_slice());
            self.next_seq = seq + 1;
            return LoaderStep::Build { seq, indices };
        }
        if self.outstanding == 0 {
            LoaderStep::Finished
        } else {
            LoaderStep::Await
        }
    }

    /// Takes the worker pool's next batch: the tensors for the consumer and
    /// the requests that refill the window. A failed batch ends the epoch; so
    /// does a pool that is gone, which delivers nothing.
    pub fn deliver<E>(&mut self, batch: Option<CompletedBatch<E>>) -> (r: (
        Result<Vec<Tensor<E>>, String>,
        Vec<BatchRequest>,
    ))
        requires
            valid_pass(old(self)@),
            old(self)@.outstanding > 0,
        ensures
            valid_pass(final(self)@),
            delivered_to(old(self)@, batch, r.0, r.1@, final(self)@),
    {
        let b = match batch {
            Some(b) => b,
            None => {
                return (
                    Err("DataLoader worker pool shut down mid-epoch".to_string()),
                    Vec::new(),
                );
            },
        };
        self.outstanding = self.outstanding - 1;
        let CompletedBatch { tensors, error } = b;
        if let Some(m) = error {
            self.outstanding = 0;
            return (Err(join2("DataLoader worker failed: ", m.as_str())), Vec::new());
        }
        let more = self.top_up();
        (Ok(tensors), more)
    }
}

/// The outcome of a batch built on the calling thread.
pub fn inline_outcome<E>(seq: usize, built: OxitorchResult<Vec<Tensor<E>>>) -> (r: Result<
    Vec<Tensor<E>>,
    String,
>)
    ensures
        match built {
            Ok(t) => r == Ok::<Vec<Tensor<E>>, String>(t),
            Err(e) => r is Err && r->Err_0@ == "DataLoader failed at batch "@ + nat_text(
                seq as nat,
            ) + ": "@ + e@.message(),
        },
{
    match built {
        Ok(t) => Ok(t),
        Err(e) => Err(
            join4(
                "DataLoader failed at batch ",
                usize_string(seq).as_str(),
                ": ",
                e.to_string().as_str(),
            ),
        ),
    }
}

/// An epoch that drops nothing delivers every row exactly once, shuffled or
/// not.
pub proof fn law_epoch_visits_every_row_once<E>(s: LoaderView<E>)
    requires
        s.columns.len() > 0,
        rows_of(s.columns[0]) <= usize::MAX,
        s.batch_size > 0,
        !s.drop_last,
    ensures
        is_shuffle(
            flattened(plan_of(epoch_order(s), s.batch_size, s.drop_last)),
            rows_of(s.columns[0]) as nat,
        ),
{
    let n = rows_of(s.columns[0]) as nat;
    law_plan_covers_order(epoch_order(s), s.batch_size, s.drop_last);
    match s.seeds {
        Some(seeds) => {
            law_permutation_is_complete(
                seeded(low_word(epoch_seed_of(seeds.base, seeds.counter))),
                n,
            );
        },
        None => {},
    }
    assert(is_shuffle(counting(n), n));
}

/// Prefetching is bounded: however often the window is refilled, no more
/// batches are outstanding than it allows, and a full window submits nothing.
pub proof fn law_prefetch_is_bounded(s: IterView)
    requires
        valid_pass(s),
    ensures
        valid_pass(submitted(s, top_up_count(s))),
        submitted(s, top_up_count(s)).outstanding <= s.window,
        s.outstanding == s.window ==> top_up_count(s) == 0,
        top_up_count(submitted(s, top_up_count(s))) == 0,
{
}

/// A pass with workers over `plan`, after the first top-up and `k` batches
/// that came without an error.
pub open spec fn pass_after(plan: Seq<Seq<u64>>, window: int, k: nat) -> IterView
    decreases k,
{
    if k == 0 {
        let fresh = IterView { plan, next_seq: 0, next_submit: 0, outstanding: 0, window };
        submitted(fresh, top_up_count(fresh))
    } else {
        let s = pass_after(plan, window, (k - 1) as nat);
        let consumed = IterView { outstanding: s.outstanding - 1, ..s };
        submitted(consumed, top_up_count(consumed))
    }
}

/// With workers, an epoch delivers every batch of its plan once: after `k`
/// batches, the first `k` slots are consumed and the window behind them is
/// submitted; something is outstanding exactly as long as a batch is left.
pub proof fn law_worker_epoch_covers_plan(plan: Seq<Seq<u64>>, window: int, k: nat)
    requires
        window > 0,
        k <= plan.len(),
    ensures
        ({
            let s = pass_after(plan, window, k);
            &&& valid_pass(s)
            &&& s.plan == plan
            &&& s.window == window
            &&& s.next_submit - s.outstanding == k
            &&& s.next_submit == if k + window < plan.len() {
                k + window
            } else {
                plan.len() as int
            }
            &&& (s.outstanding == 0 <==> k == plan.len())
        }),
    decreases k,
{
    if k > 0 {
        law_worker_epoch_covers_plan(plan, window, (k - 1) as nat);
    }
}

/// Without workers, asking again and again builds the batches of the plan in
/// order, each once, and then the epoch is finished.
pub proof fn law_inline_epoch_builds_plan(
    plan: Seq<Seq<u64>>,
    states: Seq<IterView>,
    steps: Seq<LoaderStep>,
    n: int,
)
    requires
        states.len() == steps.len() + 1,
        states[0] == (IterView { plan, next_seq: 0, next_submit: 0, outstanding: 0, window: 0 }),
        forall|k: int|
            0 <= k < steps.len() ==> step_taken(states[k], #[trigger] steps[k], states[k + 1]),
        0 <= n < steps.len(),
    ensures
        n < plan.len() ==> (steps[n] matches LoaderStep::Build { seq, indices } && seq == n
            && indices@ == plan[n]),
        n >= plan.len() ==> steps[n] is Finished,
{
    lemma_inline_state(plan, states, steps, n);
    assert(step_taken(states[n], steps[n], states[n + 1]));
}

proof fn lemma_inline_state(
    plan: Seq<Seq<u64>>,
    states: Seq<IterView>,
    steps: Seq<LoaderStep>,
    n: int,
)
    requires
        states.len() == steps.len() + 1,
        states[0] == (IterView { plan, next_seq: 0, next_submit: 0, outstanding: 0, window: 0 }),
        forall|k: int|
            0 <= k < steps.len() ==> step_taken(states[k], #[trigger] steps[k], states[k + 1]),
        0 <= n <= steps.len(),
    ensures
        states[n].plan == plan,
        states[n].window == 0,
        states[n].next_seq == if n < plan.len() {
            n
        } else {
            plan.len() as int
        },
    decreases n,
{
    if n > 0 {
        lemma_inline_state(plan, states, steps, n - 1);
        assert(step_taken(states[n - 1], steps[n - 1], states[n - 1 + 1]));
    }
}

/// With workers, the requests of an epoch are the batches of the plan in order,
/// each once: those of every call go on where the call before stopped, as far
/// as the window reaches, and after `n` batches without an error the first
/// `n + window` slots are submitted, or all.
pub proof fn law_worker_epoch_requests_plan<E>(
    plan: Seq<Seq<u64>>,
    window: int,
    first: Seq<BatchRequest>,
    states: Seq<IterView>,
    batches: Seq<CompletedBatch<E>>,
    results: Seq<Result<Vec<Tensor<E>>, String>>,
    requests: Seq<Seq<BatchRequest>>,
    n: int,
)
    requires
        window > 0,
        states.len() == batches.len() + 1,
        results.len() == batches.len(),
        requests.len() == batches.len(),
        batches.len() <= plan.len(),
        topped_up(
            IterView { plan, next_seq: 0, next_submit: 0, outstanding: 0, window },
            first,
            states[0],
        ),
        forall|k: int|
            0 <= k < batches.len() ==> (#[trigger] batches[k]).error is None && delivered_to(
                states[k],
                Some(batches[k]),
                results[k],
                requests[k],
                states[k + 1],
            ),
        0 <= n <= batches.len(),
    ensures
        states[n].plan == plan,
        states[n].window == window,
        states[n].next_submit == if n + window < plan.len() {
            n + window
        } else {
            plan.len() as int
        },
        states[n].next_submit - states[n].outstanding == n,
        forall|j: int|
            0 <= j < first.len() ==> (#[trigger] first[j]).seq == j && first[j].indices@ == plan[j],
        n > 0 ==> results[n - 1] == Ok::<Vec<Tensor<E>>, String>(batches[n - 1].tensors),
        n > 0 ==> requests[n - 1].len() == states[n].next_submit - states[n - 1].next_submit,
        n > 0 ==> forall|j: int|
            0 <= j < requests[n - 1].len() ==> (#[trigger] requests[n - 1][j]).seq == states[n
                - 1].next_submit + j && requests[n - 1][j].indices@ == plan[states[n
                - 1].next_submit + j],
    decreases n,
{
    if n > 0 {
        law_worker_epoch_requests_plan(
            plan,
            window,
            first,
            states,
            batches,
            results,
            requests,
            n - 1,
        );
        assert(batches[n - 1].error is None);
        assert(delivered_to(
            states[n - 1],
            Some(batches[n - 1]),
            results[n - 1],
            requests[n - 1],
            states[n - 1 + 1],
        ));
    }
}

} // verus!
