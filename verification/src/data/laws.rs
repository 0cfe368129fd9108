//! What holds of batches, their seeds and the files they come from.

use vstd::prelude::*;
use vstd::arithmetic::div_mod::*;
use crate::data::batch::{
    SourceView, batch_outcome, batch_state, byte_of, chunk_count, first_uneven, fnv_bytes, fnv_of,
    fnv_step, gather_error, gather_result, indices_seed, plan_of, rows_of, signed_rows,
    source_error,
};
use crate::data::loader::{
    LoaderView, SeedsView, epoch_begun, epoch_order, epoch_seed_of, law_epoch_seeds_differ,
    loader_error, low_word, parsed_transform, prefetch_window, seeds_advanced,
};
use crate::data::mnist::{be_value, idx1_error, idx1_result, idx3_error, idx3_result, is_pixel};
use crate::data::rng::{Mt19937, MtState, permutation_of};
use crate::data::rng::laws::law_seeding;
use crate::data::transform::{
    NativeTransform, batch_rng, batch_seed, channels_of, finalized, folded_seed,
    lemma_product_injective, mixed_seed, pipeline_outcome,
};
use crate::data::transform::laws::{lemma_pixel, plane_at};
use crate::elem::Elem;
use crate::error::{OxitorchError, OxitorchResult};
use crate::exact::Exact;
use crate::index::{cell, in_shape, lemma_rank1, ravel};
use crate::layout::law_slice_selects_range;
use crate::tensor::Tensor;
use crate::tensor::indexing::{picks_slices, resolved};

verus! {

// ---- seeds ------------------------------------------------------------------------------

proof fn lemma_step_injective(h: u64, g: u64, a: u64, b: u64)
    requires
        fnv_step(h, a) == fnv_step(g, b),
    ensures
        h ^ a == g ^ b,
        a == b ==> h == g,
        h == g ==> a == b,
{
    lemma_product_injective(
        h ^ a,
        g ^ b,
        0x0000_0100_0000_01b3u64,
        0xce96_5057_aff6_957bu64,
        887_285_111_055,
    );
    assert((a == b ==> h == g) && (h == g ==> a == b)) by (bit_vector)
        requires
            h ^ a == g ^ b,
    ;
}

/// Hashing on from different hashes stays different.
proof fn lemma_bytes_injective(h: u64, g: u64, x: u64, y: u64, n: nat, from: nat)
    requires
        from <= n <= 8,
        fnv_bytes(h, x, from) != fnv_bytes(g, y, from),
        forall|k: u64| from <= k < n ==> #[trigger] byte_of(x, k) == byte_of(y, k),
    ensures
        fnv_bytes(h, x, n) != fnv_bytes(g, y, n),
    decreases n,
{
    if n > from {
        lemma_bytes_injective(h, g, x, y, (n - 1) as nat, from);
        let k = (n - 1) as u64;
        assert(byte_of(x, k) == byte_of(y, k));
        if fnv_bytes(h, x, n) == fnv_bytes(g, y, n) {
            lemma_step_injective(
                fnv_bytes(h, x, (n - 1) as nat),
                fnv_bytes(g, y, (n - 1) as nat),
                byte_of(x, k),
                byte_of(y, k),
            );
        }
    }
}

proof fn lemma_bytes_equal(h: u64, x: u64, y: u64, n: nat)
    requires
        n <= 8,
        forall|k: u64| k < n ==> #[trigger] byte_of(x, k) == byte_of(y, k),
    ensures
        fnv_bytes(h, x, n) == fnv_bytes(h, y, n),
    decreases n,
{
    if n > 0 {
        lemma_bytes_equal(h, x, y, (n - 1) as nat);
        assert(byte_of(x, (n - 1) as u64) == byte_of(y, (n - 1) as u64));
    }
}

/// The seed of a batch depends on every byte of every row index: another value
/// for any one of them gives another seed.
pub proof fn law_indices_seed_sees_every_byte(indices: Seq<u64>, i: int, x: u64, k: u64)
    requires
        0 <= i < indices.len(),
        k < 8,
        byte_of(x, k) != byte_of(indices[i], k),
        forall|j: u64| j < 8 && j != k ==> #[trigger] byte_of(x, j) == byte_of(indices[i], j),
    ensures
        fnv_of(indices.update(i, x)) != fnv_of(indices),
    decreases indices.len(),
{
    let other = indices.update(i, x);
    let n = indices.len() - 1;
    if i == n {
        assert(other.drop_last() =~= indices.drop_last());
        let h = fnv_of(indices.drop_last());
        let y = indices[i];
        lemma_bytes_equal(h, x, y, k as nat);
        if fnv_bytes(h, x, (k + 1) as nat) == fnv_bytes(h, y, (k + 1) as nat) {
            lemma_step_injective(
                fnv_bytes(h, x, k as nat),
                fnv_bytes(h, y, k as nat),
                byte_of(x, k),
                byte_of(y, k),
            );
        }
        lemma_bytes_injective(h, h, x, y, 8, (k + 1) as nat);
    } else {
        let init = indices.drop_last();
        assert(other.drop_last() =~= init.update(i, x));
        assert(init[i] == indices[i]);
        law_indices_seed_sees_every_byte(init, i, x, k);
        lemma_bytes_injective(
            fnv_of(other.drop_last()),
            fnv_of(init),
            indices.last(),
            indices.last(),
            8,
            0,
        );
    }
}

/// A number is made of its bytes, the first one least significant.
pub proof fn law_bytes_make_the_number(x: u64)
    ensures
        forall|k: u64| k < 8 ==> #[trigger] byte_of(x, k) < 256,
        x == byte_of(x, 0) + byte_of(x, 1) * 0x100 + byte_of(x, 2) * 0x1_0000 + byte_of(x, 3)
            * 0x100_0000 + byte_of(x, 4) * 0x1_0000_0000 + byte_of(x, 5) * 0x100_0000_0000
            + byte_of(x, 6) * 0x1_0000_0000_0000 + byte_of(x, 7) * 0x100_0000_0000_0000,
{
    assert forall|k: u64| k < 8 implies #[trigger] byte_of(x, k) < 256 by {
        let s = (8 * k) as u64;
        assert((x >> s) & 0xffu64 < 256) by (bit_vector);
    }
    let b0 = byte_of(x, 0);
    let b1 = byte_of(x, 1);
    let b2 = byte_of(x, 2);
    let b3 = byte_of(x, 3);
    let b4 = byte_of(x, 4);
    let b5 = byte_of(x, 5);
    let b6 = byte_of(x, 6);
    let b7 = byte_of(x, 7);
    assert(x == b0 + b1 * 0x100 + b2 * 0x1_0000 + b3 * 0x100_0000 + b4 * 0x1_0000_0000 + b5
        * 0x100_0000_0000 + b6 * 0x1_0000_0000_0000 + b7 * 0x100_0000_0000_0000) by (bit_vector)
        requires
            b0 == (x >> 0) & 0xffu64,
            b1 == (x >> 8) & 0xffu64,
            b2 == (x >> 16) & 0xffu64,
            b3 == (x >> 24) & 0xffu64,
            b4 == (x >> 32) & 0xffu64,
            b5 == (x >> 40) & 0xffu64,
            b6 == (x >> 48) & 0xffu64,
            b7 == (x >> 56) & 0xffu64,
    ;
}

/// The hash of index lists is FNV-1a, computed modulo `2^64`: starting from
/// its offset basis, every byte is xored in and multiplied by the prime
/// `2^40 + 2^8 + 0xb3`.
pub proof fn law_hash_is_fnv(indices: Seq<u64>, x: u64, hash: u64, byte: u64)
    ensures
        fnv_step(hash, byte) == ((hash ^ byte) * (0x100_0000_0000 + 0x100 + 0xb3))
            % 0x1_0000_0000_0000_0000,
        fnv_of(Seq::<u64>::empty()) == 14_695_981_039_346_656_037,
        fnv_of(indices.push(x)) == fnv_bytes(fnv_of(indices), x, 8),
{
    assert(indices.push(x).drop_last() =~= indices);
}

/// The mixing of seeds is the SplitMix64 finalizer, computed modulo `2^64`.
pub proof fn law_seeds_mix(a: u64) -> (r: (u64, u64))
    ensures
        r.0 == ((a ^ (a / 0x4000_0000)) * 13_787_848_793_156_543_929) % 0x1_0000_0000_0000_0000,
        r.1 == ((r.0 ^ (r.0 / 0x800_0000)) * 10_723_151_780_598_845_931) % 0x1_0000_0000_0000_0000,
        finalized(a) == r.1 ^ (r.1 / 0x8000_0000),
{
    let b = (a ^ (a >> 30)).wrapping_mul(0xBF58_476D_1CE4_E5B9u64);
    let c = (b ^ (b >> 27)).wrapping_mul(0x94D0_49BB_1331_11EBu64);
    assert(a >> 30 == a / 0x4000_0000) by (bit_vector);
    assert(b >> 27 == b / 0x800_0000) by (bit_vector);
    assert(c >> 31 == c / 0x8000_0000) by (bit_vector);
    (b, c)
}

/// The seeds of batches and epochs step by the golden-ratio constant.
pub proof fn law_seeds_step(base: u64, n: u64)
    ensures
        mixed_seed(base, n) == finalized(
            base ^ ((n * 11_400_714_819_323_198_485) % 0x1_0000_0000_0000_0000) as u64,
        ),
        epoch_seed_of(base, n) == finalized(
            ((base + n * 11_400_714_819_323_198_485) % 0x1_0000_0000_0000_0000) as u64,
        ),
{
    let m = 0x1_0000_0000_0000_0000int;
    let p = n * 0x9E37_79B9_7F4A_7C15u64;
    lemma_add_mod_noop_right(base as int, p, m);
    let w = n.wrapping_mul(0x9E37_79B9_7F4A_7C15u64);
    assert(w == p % m);
    assert(base.wrapping_add(w) as int == (base + w) % m) by {
        lemma_wrapped(base, w);
    }
}

proof fn lemma_wrapped(a: u64, b: u64)
    ensures
        a.wrapping_add(b) as int == (a + b) % 0x1_0000_0000_0000_0000,
{
    let m = 0x1_0000_0000_0000_0000int;
    if a + b < m {
        lemma_small_mod((a + b) as nat, m as nat);
    } else {
        lemma_mod_add_multiples_vanish(a + b - m, m);
        lemma_small_mod((a + b - m) as nat, m as nat);
    }
}

/// A generator's seed is the two halves of a batch seed, xored.
pub proof fn law_seed_halves_fold(seed: u64)
    ensures
        folded_seed(seed) == ((seed / 0x1_0000_0000) as u32) ^ ((seed % 0x1_0000_0000) as u32),
        low_word(seed) == seed % 0x1_0000_0000,
{
    assert(((seed ^ (seed >> 32)) & 0xffff_ffffu64) as u32 == ((seed / 0x1_0000_0000u64) as u32) ^ ((
    seed % 0x1_0000_0000u64) as u32)) by (bit_vector);
    assert((seed & 0xffff_ffffu64) == seed % 0x1_0000_0000u64) by (bit_vector);
}

// ---- plans ------------------------------------------------------------------------------

/// Without a short last batch, an epoch of at least one batch has full batches
/// only, and as many as fit.
pub proof fn law_drop_last_keeps_full_batches(order: Seq<u64>, size: int, k: int)
    requires
        size > 0,
        order.len() >= size,
    ensures
        plan_of(order, size, true).len() == order.len() as int / size,
        0 <= k < plan_of(order, size, true).len() ==> plan_of(order, size, true)[k].len() == size,
{
    let len = order.len() as int;
    let n = chunk_count(order, size);
    let whole = len / size;
    lemma_fundamental_div_mod(len, size);
    lemma_mod_bound(len, size);
    assert(size * whole == whole * size) by (nonlinear_arith);
    assert(whole >= 1) by (nonlinear_arith)
        requires
            len >= size,
            size > 0,
            len == size * whole + len % size,
            0 <= len % size < size,
    ;
    law_slice_selects_range(0, len, size, whole);
    law_slice_selects_range(0, len, size, whole - 1);
    law_slice_selects_range(0, len, size, whole + 1);
    assert((whole + 1) * size == whole * size + size && (whole - 1) * size == whole * size - size)
        by (nonlinear_arith);
    assert(n == whole || n == whole + 1);
    if 0 <= k < plan_of(order, size, true).len() {
        assert((k + 1) * size <= whole * size && (k + 1) * size == k * size + size && k * size >= 0)
            by (nonlinear_arith)
            requires
                0 <= k < whole,
                size > 0,
        ;
    }
}

/// Batch `k` of an epoch holds the rows from `k * size` on.
pub proof fn law_batch_rows(order: Seq<u64>, size: int, drop_last: bool, k: int, j: int)
    requires
        size > 0,
        0 <= k < plan_of(order, size, drop_last).len(),
        0 <= j < plan_of(order, size, drop_last)[k].len(),
    ensures
        0 <= k * size + j < order.len(),
        plan_of(order, size, drop_last)[k][j] == order[k * size + j],
{
    law_slice_selects_range(0, order.len() as int, size, k);
    assert((k + 1) * size == k * size + size) by (nonlinear_arith);
    assert(k * size >= 0) by (nonlinear_arith)
        requires
            k >= 0,
            size > 0,
    ;
}

/// Row `j` of every gathered column is the row that index `j` names.
pub proof fn law_gather_rows<E>(
    columns: Seq<Tensor<E>>,
    indices: Seq<u64>,
    out: Seq<Tensor<E>>,
    c: int,
    idx: Seq<int>,
)
    requires
        gather_error(columns, indices) is None,
        gather_result(columns, indices, out),
        0 <= c < columns.len(),
        columns[c].dims().len() > 0,
        indices.len() <= usize::MAX,
        forall|k: int| 0 <= k < indices.len() ==> #[trigger] indices[k] <= i64::MAX,
        in_shape(idx, out[c].dims()),
    ensures
        out[c].dims() == columns[c].dims().update(0, indices.len() as usize),
        0 <= idx[0] < indices.len(),
        out[c].at(idx) == columns[c].at(idx.update(0, indices[idx[0]] as int)),
{
    let picks = resolved(signed_rows(indices), columns[c].dims()[0] as int);
    assert(picks_slices(columns[c], 0, picks, out[c]));
    assert(0 <= idx[0] < out[c].dims()[0]);
    assert(picks[idx[0]] == indices[idx[0]]);
}

/// Rows are gathered only where every index names a row of the first column.
pub proof fn law_gather_checks_rows<E>(columns: Seq<Tensor<E>>, indices: Seq<u64>, k: int)
    requires
        columns.len() > 0,
        columns[0].dims().len() > 0,
        gather_error(columns, indices) is None,
        0 <= k < indices.len(),
    ensures
        indices[k] < columns[0].dims()[0],
{
}

proof fn lemma_uneven<E>(columns: Seq<Tensor<E>>, k: int)
    requires
        0 <= k <= columns.len(),
    ensures
        match first_uneven(columns, k) {
            None => forall|i: int|
                k <= i < columns.len() ==> rows_of(#[trigger] columns[i]) == rows_of(columns[0]),
            Some(i) => k <= i < columns.len() && rows_of(columns[i]) != rows_of(columns[0]),
        },
    decreases columns.len() - k,
{
    if k < columns.len() {
        lemma_uneven(columns, k + 1);
    }
}

/// Columns make a source exactly when there are some, with rows, all of them
/// with as many.
pub proof fn law_source_accepted<E>(columns: Seq<Tensor<E>>)
    ensures
        source_error(columns) is None <==> columns.len() > 0 && rows_of(columns[0]) > 0 && (
        forall|i: int|
            0 <= i < columns.len() ==> rows_of(#[trigger] columns[i]) == rows_of(columns[0])),
{
    lemma_uneven(columns, 0);
}

/// A loader is accepted exactly for such columns, batches of at least one row
/// and, where transforms are given, at least one.
pub proof fn law_loader_accepted<E>(columns: Seq<Tensor<E>>, batch_size: int, empty_pipeline: bool)
    ensures
        loader_error(columns, batch_size, empty_pipeline) is None <==> source_error(columns) is None
            && batch_size != 0 && !empty_pipeline,
{
    lemma_uneven(columns, 0);
}

/// With workers, each can have a batch in the making while two more wait.
pub proof fn law_prefetch_keeps_workers_busy(num_workers: int)
    requires
        0 <= num_workers < usize::MAX - 1,
    ensures
        num_workers == 0 ==> prefetch_window(num_workers) == 0,
        num_workers > 0 ==> prefetch_window(num_workers) - num_workers == 2,
{
}

/// Without shuffling an epoch visits the rows in sequence.
pub proof fn law_unshuffled_order<E>(s: LoaderView<E>, k: int)
    requires
        s.columns.len() > 0,
        !s.shuffle,
        0 <= k < rows_of(s.columns[0]) <= u64::MAX,
    ensures
        epoch_order(s).len() == rows_of(s.columns[0]),
        epoch_order(s)[k] == k,
{
}

// ---- files ------------------------------------------------------------------------------

/// Appending a byte to a big-endian number shifts the others up by one place.
pub proof fn law_big_endian(b: Seq<u8>, at: int)
    requires
        0 <= at,
        at + 5 <= b.len(),
    ensures
        0 <= be_value(b, at) < 0x1_0000_0000,
        be_value(b, at + 1) == (be_value(b, at) % 0x100_0000) * 256 + b[at + 4],
        be_value(b, at) / 0x100_0000 == b[at],
{
}

/// A pixel is its byte, as a fraction of 255.
pub proof fn law_pixels_are_fractions<E: Elem>(m: Exact<E>, v: u8, r: E)
    requires
        m.arithmetic(),
        is_pixel(v, r),
    ensures
        (m.val)(r) * 255real == v as int as real,
        0real <= (m.val)(r) <= 1real,
        (m.val)(r) == 1real <==> v == 255,
{
    let (x, full) = choose|x: E, full: E| #[trigger]
        call_ensures(E::divide, (x, full), r) && call_ensures(E::from_byte, (v,), x)
            && call_ensures(E::from_byte, (255u8,), full);
    let a = (m.val)(x);
    let y = a / 255real;
    assert((m.val)(full) == 255real);
    assert(y * 255real == a) by (nonlinear_arith)
        requires
            y == a / 255real,
    ;
}

/// Pixel `(row, col)` of image `n` is read from the bytes behind the header,
/// image by image and row by row.
pub proof fn law_images_are_read_in_order<E: Elem>(
    b: Seq<u8>,
    t: Tensor<E>,
    n: int,
    row: int,
    col: int,
)
    requires
        idx3_error(b) is None,
        idx3_result(b, t),
        0 <= n < be_value(b, 4),
        0 <= row < be_value(b, 8),
        0 <= col < be_value(b, 12),
        be_value(b, 4) <= usize::MAX,
        be_value(b, 8) <= usize::MAX,
        be_value(b, 12) <= usize::MAX,
    ensures
        in_shape(seq![n, 0, row, col], t.dims()),
        is_pixel(
            b[16 + (n * be_value(b, 8) + row) * be_value(b, 12) + col],
            t.at(seq![n, 0, row, col]),
        ),
{
    let idx = seq![n, 0int, row, col];
    let d = t.dims();
    let h = be_value(b, 8);
    let w = be_value(b, 12);
    lemma_pixel(d, idx);
    t.lemma_at(idx);
    assert(plane_at(idx, d) == 0) by {
        assert(idx.subrange(1, 2) =~= seq![0int]);
        lemma_rank1(d.subrange(1, 2), 0);
    }
    assert(channels_of(d) == 1) by {
        lemma_rank1(d.subrange(1, 2), 0);
    }
    let p = ravel(idx, d);
    assert(p == cell(n, row, col, h, w));
    assert(is_pixel(b[16 + p], t.data()[p]));
}

// ---- transforms by name -----------------------------------------------------------------

/// The halves of the arguments of `normalize` are the means and the deviations,
/// as many of each, and together all of them.
pub proof fn law_normalize_arguments<E: Elem>(args: Seq<E>, mean: Vec<E>, std: Vec<E>)
    requires
        parsed_transform("normalize"@, args, Ok(NativeTransform::Normalize(mean, std))),
    ensures
        mean@ + std@ == args,
        mean@.len() == std@.len(),
        mean@.len() > 0,
{
    reveal_strlit("crop");
    reveal_strlit("flip");
    reveal_strlit("normalize");
    assert("crop"@.len() == 4 && "flip"@.len() == 4 && "normalize"@.len() == 9);
    let mid = args.len() as int / 2;
    assert(args.take(mid) + args.skip(mid) =~= args);
}

/// A named crop is accepted exactly for a single number that is not negative.
pub proof fn law_crop_arguments<E: Elem>(
    m: Exact<E>,
    args: Seq<E>,
    r: Result<NativeTransform<E>, String>,
)
    requires
        m.arithmetic(),
        m.ordered(),
        parsed_transform("crop"@, args, r),
    ensures
        r is Ok <==> args.len() == 1 && (m.val)(args[0]) >= 0real,
        r is Ok ==> r->Ok_0 is RandomCrop,
{
}

// ---- epochs -----------------------------------------------------------------------------

/// A seed sequence `n` epochs on.
pub open spec fn seeds_after(s: SeedsView, n: nat) -> SeedsView
    decreases n,
{
    if n == 0 {
        s
    } else {
        seeds_advanced(seeds_after(s, (n - 1) as nat))
    }
}

/// A seed sequence keeps its base and counts its epochs, so that the first
/// `2^64` of them have different seeds.
pub proof fn law_seeds_count_epochs(base: u64, n: nat, k: nat)
    requires
        k < n < 0x1_0000_0000_0000_0000,
    ensures
        ({
            let a = seeds_after(SeedsView { base, counter: 0 }, k);
            let b = seeds_after(SeedsView { base, counter: 0 }, n);
            &&& b.base == base
            &&& b.counter == n
            &&& epoch_seed_of(a.base, a.counter) != epoch_seed_of(b.base, b.counter)
        }),
{
    lemma_seeds_after(base, n);
    lemma_seeds_after(base, k);
    law_epoch_seeds_differ(base, k as u64, n as u64);
}

proof fn lemma_seeds_after(base: u64, n: nat)
    requires
        n < 0x1_0000_0000_0000_0000,
    ensures
        seeds_after(SeedsView { base, counter: 0 }, n) == (SeedsView { base, counter: n as u64 }),
    decreases n,
{
    if n > 0 {
        lemma_seeds_after(base, (n - 1) as nat);
    }
}

/// Starting an epoch keeps a loader's data and settings, and moves the shuffle
/// seeds on exactly when it shuffles with them.
pub proof fn law_epochs_keep_settings<E>(s: LoaderView<E>)
    ensures
        ({
            let t = epoch_begun(s);
            &&& t.columns == s.columns
            &&& t.batch_size == s.batch_size
            &&& t.drop_last == s.drop_last
            &&& t.shuffle == s.shuffle
            &&& t.num_workers == s.num_workers
            &&& t.transforms == s.transforms
            &&& t.tseeds.counter != s.tseeds.counter
            &&& t.tseeds.base == s.tseeds.base
            &&& s.seeds is Some && s.shuffle ==> t.seeds is Some && t.seeds->0.counter
                != s.seeds->0.counter && t.seeds->0.base == s.seeds->0.base
            &&& s.seeds is None || !s.shuffle ==> t.seeds == s.seeds
        }),
{
}

/// A batch is its gathered rows, with the transforms applied to the first
/// column and to no other.
pub proof fn law_transforms_change_first_column<E: Elem>(
    s: SourceView<E>,
    indices: Seq<u64>,
    cols: Vec<Tensor<E>>,
) -> (rows: Seq<Tensor<E>>)
    requires
        s.columns.len() > 0,
        batch_outcome(s, indices, Ok(cols)),
    ensures
        gather_error(s.columns, indices) is None,
        gather_result(s.columns, indices, rows),
        cols@.len() == rows.len(),
        forall|k: int| 0 < k < rows.len() ==> #[trigger] cols@[k] == rows[k],
        s.transforms.len() == 0 ==> cols@ == rows,
        s.transforms.len() > 0 ==> exists|t: MtState| #[trigger]
            pipeline_outcome(
                s.transforms,
                rows[0],
                batch_state(s.epoch_seed, indices),
                Ok(cols@[0]),
                t,
            ),
{
    let rows = choose|rows: Seq<Tensor<E>>| #[trigger]
        gather_result(s.columns, indices, rows) && if s.transforms.len() == 0 {
            cols@ == rows
        } else {
            exists|first: OxitorchResult<Tensor<E>>, t: MtState| #[trigger]
                pipeline_outcome(
                    s.transforms,
                    rows[0],
                    batch_state(s.epoch_seed, indices),
                    first,
                    t,
                ) && match first {
                    Ok(x) => cols@ == rows.update(0, x),
                    Err(e) => false,
                }
        };
    if s.transforms.len() > 0 {
        let (first, t) = choose|first: OxitorchResult<Tensor<E>>, t: MtState| #[trigger]
            pipeline_outcome(
                s.transforms,
                rows[0],
                batch_state(s.epoch_seed, indices),
                first,
                t,
            ) && match first {
                Ok(x) => cols@ == rows.update(0, x),
                Err(e) => false,
            };
        assert(cols@[0] == first->Ok_0);
        assert(first == Ok::<Tensor<E>, OxitorchError>(cols@[0]));
    }
    rows
}

// ---- files, accepted --------------------------------------------------------------------

/// The bytes of an images file are accepted exactly when they hold a header
/// with the right magic number and all the pixels that it announces.
pub proof fn law_images_accepted(b: Seq<u8>)
    requires
        b.len() <= usize::MAX,
    ensures
        idx3_error(b) is None <==> b.len() >= 16 && be_value(b, 0) == 2051 && b.len() >= 16 + be_value(
            b,
            4,
        ) * be_value(b, 8) * be_value(b, 12) && be_value(b, 4) * be_value(b, 8) <= usize::MAX,
{
}

/// The bytes of a labels file are accepted exactly when they hold a header with
/// the right magic number and all the labels that it announces; label `p` is
/// byte `p` behind the header.
pub proof fn law_labels<E: Elem>(m: Exact<E>, b: Seq<u8>, t: Tensor<E>, p: int)
    requires
        m.arithmetic(),
    ensures
        idx1_error(b) is None <==> b.len() >= 8 && be_value(b, 0) == 2049 && b.len() >= 8 + be_value(
            b,
            4,
        ),
        idx1_error(b) is None && idx1_result(b, t) && 0 <= p < be_value(b, 4) ==> t.dims().len() == 1
            && t.count() == be_value(b, 4) && m.num(t, p) == b[8 + p] as int as real,
{
    if idx1_error(b) is None && idx1_result(b, t) && 0 <= p < be_value(b, 4) {
        assert(call_ensures(E::from_byte, (b[8 + p],), t.data()[p]));
    }
}

// ---- generators -------------------------------------------------------------------------

/// The transforms of a batch draw from the generator that hashing its rows,
/// mixing the hash into the epoch's seed and seeding a generator with that
/// gives, whoever does so.
pub proof fn law_batches_draw_alike(
    epoch_seed: u64,
    indices: &[u64],
    hash: u64,
    seed: u64,
    rng: Mt19937,
)
    requires
        call_ensures(indices_seed, (indices,), hash),
        call_ensures(batch_seed, (epoch_seed, hash), seed),
        call_ensures(batch_rng, (seed,), rng),
    ensures
        batch_state(epoch_seed, indices@) == rng@,
        rng@.words[0] == ((seed / 0x1_0000_0000) as u32) ^ ((seed % 0x1_0000_0000) as u32),
{
    law_seed_halves_fold(seed);
    law_seeding(folded_seed(seed), 1);
}

/// A shuffled epoch visits the rows in the order of the permutation that a
/// generator seeded with the low word of the epoch's seed draws.
pub proof fn law_shuffled_order<E>(s: LoaderView<E>, rng: Mt19937, low: u32)
    requires
        s.columns.len() > 0,
        s.shuffle,
        s.seeds is Some,
        low == epoch_seed_of(s.seeds->0.base, s.seeds->0.counter) % 0x1_0000_0000,
        call_ensures(Mt19937::new, (low,), rng),
    ensures
        epoch_order(s) == permutation_of(rng@, rows_of(s.columns[0]) as nat).0,
{
    law_seed_halves_fold(epoch_seed_of(s.seeds->0.base, s.seeds->0.counter));
}

} // verus!
