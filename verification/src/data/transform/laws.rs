//! What the transforms do to the pixels of a batch.

use vstd::prelude::*;
use vstd::arithmetic::div_mod::*;
use crate::data::rng::{MtState, advanced, bounded, is_random, output53, valid_state};
use crate::data::transform::{
    NativeTransform, after_draws, are_coins, channel_at, channels_of, crop_draws, crop_error,
    crop_source, crop_spots, flip_result, flip_source, geometry_error, height_of, is_coin,
    is_deviation, is_standardized, lemma_geometry, lemma_spots, normalize_outcome, pipeline_outcome,
    pipeline_runs, samples_of, transform_outcome, width_of,
};
use crate::elem::Elem;
use crate::exact::Exact;
use crate::exact::values::lemma_reciprocal;
use crate::index::{
    cell, in_shape, index2, lemma_cell, lemma_rank0, lemma_rank1, lemma_rank2, lemma_ravel,
    lemma_ravel_concat, product, ravel,
};
use crate::ops::is_reciprocal;
use crate::tensor::Tensor;

verus! {

/// The sample that an index of an image batch lies in.
pub open spec fn sample_at(idx: Seq<int>) -> int {
    if idx.len() <= 3 {
        0
    } else {
        idx[0]
    }
}

/// The channel that an index of an image batch of dims `dims` lies in.
pub open spec fn plane_at(idx: Seq<int>, dims: Seq<usize>) -> int {
    if idx.len() <= 2 {
        0
    } else if idx.len() == 3 {
        idx[0]
    } else {
        ravel(idx.subrange(1, idx.len() - 2), dims.subrange(1, dims.len() - 2))
    }
}

/// An index with another row and column.
pub open spec fn pixel(idx: Seq<int>, row: int, col: int) -> Seq<int> {
    idx.update(idx.len() - 2, row).update(idx.len() - 1, col)
}

/// The position of a pixel: its plane, row and column.
pub(crate) proof fn lemma_pixel(dims: Seq<usize>, idx: Seq<int>)
    requires
        dims.len() >= 2,
        in_shape(idx, dims),
    ensures
        0 <= sample_at(idx) < samples_of(dims),
        0 <= plane_at(idx, dims) < channels_of(dims),
        0 <= idx[idx.len() - 2] < height_of(dims),
        0 <= idx[idx.len() - 1] < width_of(dims),
        ({
            let plane = sample_at(idx) * channels_of(dims) + plane_at(idx, dims);
            let p = ravel(idx, dims);
            &&& p == cell(
                plane,
                idx[idx.len() - 2],
                idx[idx.len() - 1],
                height_of(dims),
                width_of(dims),
            )
            &&& p % width_of(dims) == idx[idx.len() - 1]
            &&& (p / width_of(dims)) % height_of(dims) == idx[idx.len() - 2]
            &&& (p / width_of(dims)) / height_of(dims) == plane
            &&& plane / channels_of(dims) == sample_at(idx)
            &&& plane % channels_of(dims) == plane_at(idx, dims)
        }),
{
    let n = dims.len() as int;
    let head = idx.take(n - 2);
    let tail = idx.skip(n - 2);
    let hd = dims.take(n - 2);
    let td = dims.skip(n - 2);
    let row = idx[n - 2];
    let col = idx[n - 1];
    let h = height_of(dims);
    let w = width_of(dims);
    assert(idx =~= head + tail);
    assert(dims =~= hd + td);
    lemma_ravel_concat(head, tail, hd, td);
    assert(tail =~= index2(row, col));
    lemma_rank2(td, row, col);
    assert(0 <= idx[n - 2] < dims[n - 2]);
    assert(0 <= idx[n - 1] < dims[n - 1]);
    let s = sample_at(idx);
    let c = plane_at(idx, dims);
    let channels = channels_of(dims);
    if n == 2 {
        lemma_rank0(hd);
        assert(ravel(head, hd) == 0);
    } else if n == 3 {
        lemma_rank1(hd, idx[0]);
        assert(head =~= seq![idx[0]]);
        assert(0 <= idx[0] < dims[0]);
    } else {
        let mid = idx.subrange(1, n - 2);
        let md = dims.subrange(1, n - 2);
        assert(head.skip(1) =~= mid);
        assert(hd.skip(1) =~= md);
        assert(0 <= idx[0] < dims[0]);
        assert(in_shape(mid, md)) by {
            assert forall|j: int| 0 <= j < md.len() implies 0 <= #[trigger] mid[j] < md[j] by {
                assert(0 <= idx[j + 1] < dims[j + 1]);
            }
        }
        lemma_ravel(mid, md);
    }
    let plane = s * channels + c;
    assert(ravel(head, hd) == plane);
    lemma_fundamental_div_mod_converse(plane, channels, s, c);
    assert(plane * (h * w) + (row * w + col) == (plane * h + row) * w + col) by (nonlinear_arith);
    assert(plane >= 0) by (nonlinear_arith)
        requires
            plane == s * channels + c,
            s >= 0,
            channels > 0,
            c >= 0,
    ;
    lemma_cell(plane, row, col, plane + 1, h, w);
}

proof fn lemma_pixel_in(idx: Seq<int>, dims: Seq<usize>, row: int, col: int)
    requires
        dims.len() >= 2,
        idx.len() == dims.len(),
        forall|i: int| 0 <= i < dims.len() - 2 ==> 0 <= #[trigger] idx[i] < dims[i],
        0 <= row < height_of(dims),
        0 <= col < width_of(dims),
    ensures
        in_shape(pixel(idx, row, col), dims),
        sample_at(pixel(idx, row, col)) == sample_at(idx),
        plane_at(pixel(idx, row, col), dims) == plane_at(idx, dims),
{
    let y = pixel(idx, row, col);
    assert forall|j: int| 0 <= j < dims.len() implies 0 <= #[trigger] y[j] < dims[j] by {
        assert(j >= dims.len() - 2 || y[j] == idx[j]);
    }
    if dims.len() > 3 {
        assert(y.subrange(1, y.len() - 2) =~= idx.subrange(1, idx.len() - 2));
    }
}

/// A random crop shows one window of every sample, the same in all its
/// channels, wholly inside the image.
pub proof fn law_crop_shows_a_window<E: Elem>(
    batch: Tensor<E>,
    size: usize,
    s: MtState,
    x: Tensor<E>,
    t: MtState,
) -> (spots: Seq<(int, int)>)
    requires
        valid_state(s),
        transform_outcome(NativeTransform::RandomCrop(size), batch, s, Ok(x), t),
    ensures
        spots.len() == samples_of(batch.dims()),
        forall|k: int|
            0 <= k < spots.len() ==> 0 <= (#[trigger] spots[k]).0 <= height_of(batch.dims()) - size
                && 0 <= spots[k].1 <= width_of(batch.dims()) - size,
        height_of(x.dims()) == size,
        width_of(x.dims()) == size,
        forall|idx: Seq<int>| #[trigger]
            in_shape(idx, x.dims()) ==> {
                let (top, left) = spots[sample_at(idx)];
                let from = pixel(idx, top + idx[idx.len() - 2], left + idx[idx.len() - 1]);
                in_shape(from, batch.dims()) && x.at(idx) == batch.at(from)
            },
{
    let dims = batch.dims();
    let h = height_of(dims);
    let w = width_of(dims);
    let spots = crop_draws(s, dims, size as int).0;
    lemma_spots(s, samples_of(dims) as nat, h - size + 1, w - size + 1);
    assert forall|idx: Seq<int>| #[trigger] in_shape(idx, x.dims()) implies {
        let (top, left) = spots[sample_at(idx)];
        let from = pixel(idx, top + idx[idx.len() - 2], left + idx[idx.len() - 1]);
        in_shape(from, batch.dims()) && x.at(idx) == batch.at(from)
    } by {
        let n = dims.len() as int;
        let xd = x.dims();
        lemma_pixel(xd, idx);
        assert(channels_of(xd) == channels_of(dims)) by {
            if n > 3 {
                assert(xd.subrange(1, n - 2) =~= dims.subrange(1, n - 2));
            }
        }
        assert(plane_at(idx, xd) == plane_at(idx, dims)) by {
            if n > 3 {
                assert(xd.subrange(1, n - 2) =~= dims.subrange(1, n - 2));
            }
        }
        let (top, left) = spots[sample_at(idx)];
        assert(0 <= spots[sample_at(idx)].0);
        let row = top + idx[n - 2];
        let col = left + idx[n - 1];
        assert forall|i: int| 0 <= i < n - 2 implies 0 <= #[trigger] idx[i] < dims[i] by {
            assert(0 <= idx[i] < xd[i]);
        }
        lemma_pixel_in(idx, dims, row, col);
        let from = pixel(idx, row, col);
        lemma_pixel(dims, from);
        x.lemma_at(idx);
        batch.lemma_at(from);
        let p = ravel(idx, xd);
        assert(x.data()[p] == batch.data()[crop_source(
            p,
            size as int,
            h,
            w,
            channels_of(dims),
            spots,
        )]);
    }
    spots
}

/// A horizontal flip shows every sample as it is or with its columns in
/// reverse, all its channels alike.
pub proof fn law_flip_mirrors_or_keeps<E>(batch: Tensor<E>, flips: Seq<bool>, x: Tensor<E>,
    idx: Seq<int>)
    requires
        geometry_error(batch.dims()) is None,
        flip_result(batch, flips, x),
        in_shape(idx, x.dims()),
    ensures
        flips[sample_at(idx)] ==> x.at(idx) == batch.at(
            idx.update(idx.len() - 1, width_of(batch.dims()) - 1 - idx[idx.len() - 1]),
        ),
        !flips[sample_at(idx)] ==> x.at(idx) == batch.at(idx),
{
    let dims = batch.dims();
    let n = dims.len() as int;
    let w = width_of(dims);
    let col = idx[n - 1];
    lemma_pixel(dims, idx);
    let from = pixel(idx, idx[n - 2], w - 1 - col);
    assert forall|i: int| 0 <= i < n - 2 implies 0 <= #[trigger] idx[i] < dims[i] by {}
    lemma_pixel_in(idx, dims, idx[n - 2], w - 1 - col);
    assert(from =~= idx.update(n - 1, w - 1 - col));
    lemma_pixel(dims, from);
    x.lemma_at(idx);
    batch.lemma_at(idx);
    batch.lemma_at(from);
    let p = ravel(idx, dims);
    assert(x.data()[p] == batch.data()[flip_source(
        p,
        height_of(dims),
        w,
        channels_of(dims),
        flips,
    )]);
}

/// A sample is flipped exactly when its uniform number is below one half; the
/// numbers of consecutive samples are drawn one after the other.
pub proof fn law_flip_coins<E: Elem>(m: Exact<E>, s: MtState, flips: Seq<bool>, k: int)
    requires
        m.arithmetic(),
        m.ordered(),
        are_coins::<E>(s, flips),
        0 <= k < flips.len(),
    ensures
        flips[k] <==> output53(after_draws(s, k as nat)) < 0x10_0000_0000_0000,
        after_draws(s, 0) == s,
        after_draws(s, (k + 1) as nat) == advanced(advanced(after_draws(s, k as nat))),
{
    let state = after_draws(s, k as nat);
    assert(is_coin::<E>(state, flips[k]));
    let (u, half) = choose|u: E, half: E| #[trigger]
        is_random(state, u) && #[trigger] call_ensures(E::half, (), half) && call_ensures(
            E::less_equal,
            (half, u),
            !flips[k],
        );
    let x = (m.val)(u);
    let b = output53(state) as int;
    let c = 0x20_0000_0000_0000int as real;
    assert(x * c == b as real);
    let y = (m.val)(half);
    let d = 0x10_0000_0000_0000int as real;
    assert(y * c == d) by (nonlinear_arith)
        requires
            y * 2real == 1real,
            c == 2real * d,
    ;
    if y <= x {
        assert(y * c <= x * c) by (nonlinear_arith)
            requires
                y <= x,
                c > 0real,
        ;
    } else {
        assert(x * c < y * c) by (nonlinear_arith)
            requires
                x < y,
                c > 0real,
        ;
    }
}

/// Normalizing takes the mean of its channel off every pixel and measures what
/// is left in deviations of that channel.
pub proof fn law_normalize_standardizes<E: Elem>(
    m: Exact<E>,
    batch: Tensor<E>,
    mean: Seq<E>,
    std: Seq<E>,
    x: Tensor<E>,
    idx: Seq<int>,
)
    requires
        m.arithmetic(),
        m.ordered(),
        normalize_outcome(batch, mean, std, Ok(x)),
        in_shape(idx, batch.dims()),
    ensures
        x.dims() == batch.dims(),
        0 <= plane_at(idx, batch.dims()) < mean.len(),
        mean.len() == std.len(),
        (m.val)(std[plane_at(idx, batch.dims())]) > 0real,
        (m.val)(x.at(idx)) * (m.val)(std[plane_at(idx, batch.dims())]) == (m.val)(batch.at(idx)) - (
        m.val)(mean[plane_at(idx, batch.dims())]),
{
    let dims = batch.dims();
    lemma_pixel(dims, idx);
    let c = plane_at(idx, dims);
    let p = ravel(idx, dims);
    x.lemma_at(idx);
    batch.lemma_at(idx);
    assert(channel_at(p, height_of(dims), width_of(dims), channels_of(dims)) == c);
    assert(is_standardized(batch.data()[p], mean[c], std[c], x.data()[p]));
    assert(is_deviation(std[c], true));
    let (d, inv) = choose|d: E, inv: E|
        #![trigger call_ensures(E::minus, (batch.data()[p], mean[c]), d), is_reciprocal(std[c], inv)]
        call_ensures(E::minus, (batch.data()[p], mean[c]), d) && is_reciprocal(std[c], inv)
            && call_ensures(E::times, (d, inv), x.data()[p]);
    let s = (m.val)(std[c]);
    assert(s > 0real);
    lemma_reciprocal(m, std[c], inv);
    let a = (m.val)(d);
    let i = (m.val)(inv);
    assert((a * i) * s == a) by (nonlinear_arith)
        requires
            i * s == 1real,
    ;
}

/// The windows of a crop are drawn sample by sample, the top edge of each
/// before its left edge.
pub proof fn law_crop_draws_in_order(s: MtState, n: nat, tops: int, lefts: int)
    requires
        valid_state(s),
        tops > 0,
        lefts > 0,
    ensures
        ({
            let (spots, t) = crop_spots(s, n, tops, lefts);
            let (more, u) = crop_spots(s, n + 1, tops, lefts);
            &&& spots.len() == n
            &&& more.len() == n + 1
            &&& more.take(n as int) == spots
            &&& more[n as int].0 == bounded(t, tops).0
            &&& more[n as int].1 == bounded(bounded(t, tops).1, lefts).0
            &&& u == bounded(bounded(t, tops).1, lefts).1
        }),
{
    lemma_spots(s, n, tops, lefts);
    let spots = crop_spots(s, n, tops, lefts).0;
    let more = crop_spots(s, n + 1, tops, lefts).0;
    assert(more.take(n as int) =~= spots);
}

/// A batch is its samples, their channels, rows and columns: `(n, c, h, w)`,
/// `(c, h, w)` or `(h, w)`.
pub proof fn law_geometry(dims: Seq<usize>)
    requires
        dims.len() >= 2,
    ensures
        product(dims) == samples_of(dims) * channels_of(dims) * (height_of(dims) * width_of(dims)),
        dims.len() == 2 ==> samples_of(dims) == 1 && channels_of(dims) == 1,
        dims.len() == 3 ==> samples_of(dims) == 1 && channels_of(dims) == dims[0],
        dims.len() == 4 ==> samples_of(dims) == dims[0] && channels_of(dims) == dims[1]
            && height_of(dims) == dims[2] && width_of(dims) == dims[3],
        dims.len() > 4 ==> samples_of(dims) == dims[0],
{
    lemma_geometry(dims);
    if dims.len() == 4 {
        lemma_rank1(dims.subrange(1, 2), 0);
        assert(dims.subrange(1, 2) =~= seq![dims[1]]);
    }
}

/// A crop is accepted exactly for a positive size that fits into the image.
pub proof fn law_crop_accepted(dims: Seq<usize>, size: int)
    requires
        size >= 0,
        geometry_error(dims) is None,
    ensures
        crop_error(dims, size) is None <==> 0 < size <= height_of(dims) && size <= width_of(dims),
{
}

/// The first steps of a longer pipeline.
proof fn lemma_prefix_runs<E: Elem>(
    a: Seq<NativeTransform<E>>,
    b: Seq<NativeTransform<E>>,
    k: int,
    batch: Tensor<E>,
    s: MtState,
    x: Tensor<E>,
    t: MtState,
)
    requires
        0 <= k <= a.len(),
        pipeline_runs(a, k, batch, s, x, t),
    ensures
        pipeline_runs(a + b, k, batch, s, x, t),
    decreases k,
{
    if k > 0 {
        let (m, u) = choose|m: Tensor<E>, u: MtState|
            pipeline_runs(a, k - 1, batch, s, m, u) && #[trigger] transform_outcome(
                a[k - 1],
                m,
                u,
                Ok(x),
                t,
            );
        lemma_prefix_runs(a, b, k - 1, batch, s, m, u);
        assert((a + b)[k - 1] == a[k - 1]);
    }
}

proof fn lemma_suffix_runs<E: Elem>(
    a: Seq<NativeTransform<E>>,
    b: Seq<NativeTransform<E>>,
    k: int,
    batch: Tensor<E>,
    s: MtState,
    mid: Tensor<E>,
    u: MtState,
    x: Tensor<E>,
    t: MtState,
)
    requires
        0 <= k <= b.len(),
        pipeline_runs(a, a.len() as int, batch, s, mid, u),
        pipeline_runs(b, k, mid, u, x, t),
    ensures
        pipeline_runs(a + b, a.len() + k, batch, s, x, t),
    decreases k,
{
    if k == 0 {
        lemma_prefix_runs(a, b, a.len() as int, batch, s, x, t);
    } else {
        let (m, w) = choose|m: Tensor<E>, w: MtState|
            pipeline_runs(b, k - 1, mid, u, m, w) && #[trigger] transform_outcome(
                b[k - 1],
                m,
                w,
                Ok(x),
                t,
            );
        lemma_suffix_runs(a, b, k - 1, batch, s, mid, u, m, w);
        assert((a + b)[a.len() + k - 1] == b[k - 1]);
    }
}

/// A pipeline runs its steps from the first to the last: one pipeline after
/// another is the pipeline of all their steps in that order.
pub proof fn law_pipelines_compose<E: Elem>(
    a: Seq<NativeTransform<E>>,
    b: Seq<NativeTransform<E>>,
    batch: Tensor<E>,
    s: MtState,
    mid: Tensor<E>,
    u: MtState,
    x: Tensor<E>,
    t: MtState,
)
    requires
        pipeline_outcome(a, batch, s, Ok(mid), u),
        pipeline_outcome(b, mid, u, Ok(x), t),
    ensures
        pipeline_outcome(a + b, batch, s, Ok(x), t),
{
    lemma_suffix_runs(a, b, b.len() as int, batch, s, mid, u, x, t);
}

/// A pipeline of one step is that step, and one of none changes nothing.
pub proof fn law_short_pipelines<E: Elem>(
    step: NativeTransform<E>,
    batch: Tensor<E>,
    s: MtState,
    x: Tensor<E>,
    t: MtState,
)
    ensures
        pipeline_outcome(seq![step], batch, s, Ok(x), t) <==> transform_outcome(
            step,
            batch,
            s,
            Ok(x),
            t,
        ),
        pipeline_outcome(Seq::<NativeTransform<E>>::empty(), batch, s, Ok(x), t) <==> x == batch
            && t
            == s,
{
    let one = seq![step];
    assert(one[0] == step);
    assert(one.len() as int == 1);
    if pipeline_runs(one, 1, batch, s, x, t) {
        let (m, u) = choose|m: Tensor<E>, u: MtState|
            pipeline_runs(one, 0, batch, s, m, u) && #[trigger] transform_outcome(
                one[0],
                m,
                u,
                Ok(x),
                t,
            );
        assert(m == batch && u == s);
    }
    if transform_outcome(step, batch, s, Ok(x), t) {
        let k = one.len() as int;
        assert(pipeline_runs(one, k - 1, batch, s, batch, s));
        assert(transform_outcome(one[k - 1], batch, s, Ok(x), t));
        assert(pipeline_runs(one, k, batch, s, x, t));
    }
}

} // verus!
