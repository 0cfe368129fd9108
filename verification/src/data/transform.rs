//! Batch transforms executed inside the loader workers.
//!
//! The transforms operate on the *whole gathered batch* as flat element runs.
//!
//! Determinism model: every batch request carries a seed derived from the
//! epoch seed and the batch, so a run is fully reproducible and the inline
//! path produces *bit-identical* batches to the worker path (same seeds, same
//! kernels).
//!
//! Shape contract: transforms address images through the trailing two dims
//! `(h, w)`; everything before them is sample+channel. Batches from the
//! loader are `(n, c, h, w)` (or `(c, h, w)` for single images), laid out
//! channel-major within each sample: each `h*w` plane is contiguous, and
//! sample `i`'s channels are consecutive planes.

use std::sync::Arc;
pub mod laws;

use vstd::prelude::*;
use vstd::arithmetic::div_mod::*;
use vstd::arithmetic::mul::*;
use vstd::string::*;
use crate::data::rng::{
    Mt19937, MtState, advanced, bounded, is_random, law_bounded_draw, seeded, valid_state,
};
use crate::elem::{Elem, is_zero};
use crate::error::{ErrorText, OxitorchError, OxitorchResult};
use crate::index::{
    cell, lemma_cell, lemma_product_concat, lemma_rank0, lemma_rank1, lemma_rank2, product,
};
use crate::layout::{copy_dims, element_count, has_count, overflow, overflow_error};
use crate::ops::is_reciprocal;
use crate::tensor::Tensor;
use crate::text::{dims_string, ints, join2, join3, join4, nat_text, usize_string};

verus! {

/// A batch-level augmentation, applied to the gathered image column.
#[derive(Debug)]
pub enum NativeTransform<E> {
    /// Random `size x size` crop; an independent position per image.
    RandomCrop(usize),
    /// Horizontal flip with probability 0.5, decided per image.
    RandomHorizontalFlip,
    /// Per-channel `(x - mean) / std` standardization.
    Normalize(Vec<E>, Vec<E>),
}

// ---- geometry ---------------------------------------------------------------------------

/// Spatial geometry of an image batch: the trailing two dims are `(h, w)`,
/// and samples own `channels` consecutive planes.
pub struct Geometry {
    /// Number of samples (`shape[0]`, or 1 for `(c, h, w)` / smaller ranks).
    pub samples: usize,
    /// Planes per sample.
    pub channels: usize,
    /// Rows of a plane.
    pub height: usize,
    /// Columns of a plane.
    pub width: usize,
}

/// The number of samples in a batch of dims `dims`.
pub open spec fn samples_of(dims: Seq<usize>) -> int {
    if dims.len() <= 3 {
        1
    } else {
        dims[0] as int
    }
}

/// The number of planes per sample in a batch of dims `dims`.
pub open spec fn channels_of(dims: Seq<usize>) -> int {
    if dims.len() <= 2 {
        1
    } else if dims.len() == 3 {
        dims[0] as int
    } else {
        product(dims.subrange(1, dims.len() - 2)) as int
    }
}

/// The rows of a plane.
pub open spec fn height_of(dims: Seq<usize>) -> int {
    dims[dims.len() - 2] as int
}

/// The columns of a plane.
pub open spec fn width_of(dims: Seq<usize>) -> int {
    dims[dims.len() - 1] as int
}

/// Why a batch has no geometry, if it has none.
pub open spec fn geometry_error(dims: Seq<usize>) -> Option<ErrorText> {
    if dims.len() < 2 {
        Some(
            ErrorText::ShapeMismatch {
                lhs: "rank "@ + nat_text(dims.len()),
                rhs: "image batches need at least (h, w)"@,
            },
        )
    } else if height_of(dims) == 0 || width_of(dims) == 0 {
        Some(
            ErrorText::ShapeMismatch {
                lhs: nat_text(height_of(dims) as nat) + "x"@ + nat_text(width_of(dims) as nat),
                rhs: "non-empty spatial dims"@,
            },
        )
    } else if channels_of(dims) > usize::MAX {
        Some(overflow_error(ints(dims)))
    } else {
        None
    }
}

/// A batch is made of samples, channels, rows and columns.
pub(crate) proof fn lemma_geometry(dims: Seq<usize>)
    requires
        dims.len() >= 2,
    ensures
        product(dims) == samples_of(dims) * channels_of(dims) * (height_of(dims) * width_of(dims)),
{
    let n = dims.len() as int;
    let tail = dims.skip(n - 2);
    assert(dims =~= dims.take(n - 2) + tail);
    lemma_product_concat(dims.take(n - 2), tail);
    lemma_rank2(tail, 0, 0);
    let head = dims.take(n - 2);
    if n == 2 {
        lemma_rank0(head);
    } else if n == 3 {
        lemma_rank1(head, 0);
    } else {
        assert(head.skip(1) =~= dims.subrange(1, n - 2));
    }
    assert(product(head) == samples_of(dims) * channels_of(dims));
}

impl Geometry {
    /// This is the geometry of a batch of dims `dims`.
    pub open spec fn fits(&self, dims: Seq<usize>) -> bool {
        &&& dims.len() >= 2
        &&& self.samples == samples_of(dims)
        &&& self.channels == channels_of(dims)
        &&& self.height == height_of(dims)
        &&& self.width == width_of(dims)
        &&& self.height > 0
        &&& self.width > 0
    }

    /// Reads the geometry of an image batch.
    ///
    /// Fails if the rank is below 2 (no spatial dims) or a spatial dim is 0.
    pub fn of<E>(tensor: &Tensor<E>) -> (r: OxitorchResult<Self>)
        ensures
            match r {
                Ok(g) => geometry_error(tensor.dims()) is None && g.fits(tensor.dims()),
                Err(e) => geometry_error(tensor.dims()) == Some(e@),
            },
    {
        let shape = tensor.shape();
        let rank: usize = shape.len();
        if rank < 2 {
            return Err(
                OxitorchError::ShapeMismatch {
                    lhs: join2("rank ", usize_string(rank).as_str()),
                    rhs: "image batches need at least (h, w)".to_string(),
                },
            );
        }
        let height: usize = shape[rank - 2];
        let width: usize = shape[rank - 1];
        if height == 0 || width == 0 {
            return Err(
                OxitorchError::ShapeMismatch {
                    lhs: join3(
                        usize_string(height).as_str(),
                        "x",
                        usize_string(width).as_str(),
                    ),
                    rhs: "non-empty spatial dims".to_string(),
                },
            );
        }
        if rank == 2 {
            return Ok(Geometry { samples: 1, channels: 1, height, width });
        }
        if rank == 3 {
            return Ok(Geometry { samples: 1, channels: shape[0], height, width });
        }
        let middle = vstd::slice::slice_subrange(shape, 1, rank - 2);
        if !has_count(middle) {
            return Err(overflow(dims_string(shape)));
        }
        Ok(Geometry { samples: shape[0], channels: element_count(middle), height, width })
    }
}

// ---- crop -------------------------------------------------------------------------------

/// The crop positions of the first `n` samples, with the generator's state
/// after drawing them: a top and a left edge for each.
pub open spec fn crop_spots(s: MtState, n: nat, tops: int, lefts: int) -> (
    Seq<(int, int)>,
    MtState,
)
    decreases n,
{
    if n == 0 {
        (Seq::empty(), s)
    } else {
        let (before, t) = crop_spots(s, (n - 1) as nat, tops, lefts);
        let (top, t1) = bounded(t, tops);
        let (left, t2) = bounded(t1, lefts);
        (before.push((top, left)), t2)
    }
}

/// Where element `p` of a cropped batch comes from.
pub open spec fn crop_source(
    p: int,
    size: int,
    h: int,
    w: int,
    channels: int,
    spots: Seq<(int, int)>,
) -> int {
    let plane = (p / size) / size;
    let row = (p / size) % size;
    let col = p % size;
    let (top, left) = spots[plane / channels];
    cell(plane, top + row, left + col, h, w)
}

/// The dims of a cropped batch.
pub open spec fn cropped_dims(dims: Seq<usize>, size: usize) -> Seq<usize> {
    dims.update(dims.len() - 2, size).update(dims.len() - 1, size)
}

/// Why a batch cannot be cropped, if it cannot.
pub open spec fn crop_error(dims: Seq<usize>, size: int) -> Option<ErrorText> {
    if geometry_error(dims) is Some {
        geometry_error(dims)
    } else if size == 0 || size > height_of(dims) || size > width_of(dims) {
        Some(
            ErrorText::InvalidArgument(
                "crop size "@ + nat_text(size as nat) + " exceeds image "@ + nat_text(
                    height_of(dims) as nat,
                ) + "x"@ + nat_text(width_of(dims) as nat),
            ),
        )
    } else {
        None
    }
}

/// `t` is `batch` cropped at the positions `spots`.
pub open spec fn crop_result<E>(
    batch: Tensor<E>,
    size: usize,
    spots: Seq<(int, int)>,
    t: Tensor<E>,
) -> bool {
    let dims = batch.dims();
    &&& t.dims() == cropped_dims(dims, size)
    &&& t.contiguous_layout()
    &&& forall|p: int|
        0 <= p < t.count() ==> #[trigger] t.data()[p] == batch.data()[crop_source(
            p,
            size as int,
            height_of(dims),
            width_of(dims),
            channels_of(dims),
            spots,
        )]
}

/// The crop positions that a generator gives for a batch.
pub open spec fn crop_draws(s: MtState, dims: Seq<usize>, size: int) -> (
    Seq<(int, int)>,
    MtState,
) {
    crop_spots(
        s,
        samples_of(dims) as nat,
        height_of(dims) - size + 1,
        width_of(dims) - size + 1,
    )
}

pub(crate) proof fn lemma_spots(s: MtState, n: nat, tops: int, lefts: int)
    requires
        valid_state(s),
        tops > 0,
        lefts > 0,
    ensures
        crop_spots(s, n, tops, lefts).0.len() == n,
        valid_state(crop_spots(s, n, tops, lefts).1),
        forall|k: int|
            0 <= k < n ==> 0 <= (#[trigger] crop_spots(s, n, tops, lefts).0[k]).0 < tops && 0
                <= crop_spots(s, n, tops, lefts).0[k].1 < lefts,
    decreases n,
{
    if n > 0 {
        lemma_spots(s, (n - 1) as nat, tops, lefts);
        let (before, t) = crop_spots(s, (n - 1) as nat, tops, lefts);
        law_bounded_draw(t, tops);
        let (top, t1) = bounded(t, tops);
        law_bounded_draw(t1, lefts);
    }
}

/// Draws one crop position per sample.
fn draw_spots(rng: &mut Mt19937, n: usize, tops: usize, lefts: usize) -> (r: Vec<(usize, usize)>)
    requires
        tops > 0,
        lefts > 0,
    ensures
        r.len() == n,
        forall|k: int|
            0 <= k < n ==> (
                (#[trigger] r@[k]).0 as int,
                r@[k].1 as int,
            ) == crop_spots(old(rng)@, n as nat, tops as int, lefts as int).0[k],
        forall|k: int| 0 <= k < n ==> (#[trigger] r@[k]).0 < tops && r@[k].1 < lefts,
        final(rng)@ == crop_spots(old(rng)@, n as nat, tops as int, lefts as int).1,
{
    let ghost start = rng@;
    let mut out: Vec<(usize, usize)> = Vec::with_capacity(n);
    let mut k: usize = 0;
    proof {
        rng.lemma_valid();
    }
    while k < n
        invariant
            0 <= k <= n,
            tops > 0,
            lefts > 0,
            start == old(rng)@,
            out.len() == k,
            crop_spots(start, k as nat, tops as int, lefts as int).0.len() == k,
            forall|j: int|
                0 <= j < k ==> ((#[trigger] out@[j]).0 as int, out@[j].1 as int) == crop_spots(
                    start,
                    k as nat,
                    tops as int,
                    lefts as int,
                ).0[j],
            forall|j: int| 0 <= j < k ==> (#[trigger] out@[j]).0 < tops && out@[j].1 < lefts,
            rng@ == crop_spots(start, k as nat, tops as int, lefts as int).1,
        decreases n - k,
    {
        let top: usize = rng.below(tops);
        let left: usize = rng.below(lefts);
        out.push((top, left));
        k = k + 1;
    }
    out
}

/// `RandomCrop` kernel: a random `(top, left)` per image.
///
/// Each sample gets its own crop position (torch's per-item semantics), so
/// the output stays batch-shaped `(n, c, size, size)`.
pub fn random_crop<E: Elem>(batch: &Tensor<E>, size: usize, rng: &mut Mt19937) -> (r:
    OxitorchResult<Tensor<E>>)
    ensures
        match r {
            Ok(t) => crop_error(batch.dims(), size as int) is None && crop_result(
                *batch,
                size,
                crop_draws(old(rng)@, batch.dims(), size as int).0,
                t,
            ) && final(rng)@ == crop_draws(old(rng)@, batch.dims(), size as int).1,
            Err(e) => crop_error(batch.dims(), size as int) == Some(e@) && final(rng)@
                == old(rng)@,
        },
{
    let g = match Geometry::of(batch) {
        Ok(g) => g,
        Err(e) => {
            return Err(e);
        },
    };
    if size == 0 || size > g.height || size > g.width {
        let mut m = join4(
            "crop size ",
            usize_string(size).as_str(),
            " exceeds image ",
            usize_string(g.height).as_str(),
        );
        m.append("x");
        m.append(usize_string(g.width).as_str());
        return Err(OxitorchError::InvalidArgument(m));
    }
    let ghost dims = batch.dims();
    let h: usize = g.height;
    let w: usize = g.width;
    let ghost planes = g.samples * g.channels;
    proof {
        use_type_invariant(batch);
        batch.lemma_wf();
        lemma_geometry(dims);
        rng.lemma_valid();
        lemma_spots(rng@, g.samples as nat, h - size + 1, w - size + 1);
    }
    let ghost spots = crop_draws(rng@, dims, size as int).0;
    let places = draw_spots(rng, g.samples, h - size + 1, w - size + 1);
    let mut shape = copy_dims(batch.shape());
    let rank: usize = shape.len();
    shape[rank - 2] = size;
    shape[rank - 1] = size;
    proof {
        assert(shape@ =~= cropped_dims(dims, size));
        lemma_geometry(shape@);
        if rank > 3 {
            assert(shape@.subrange(1, rank - 2) =~= dims.subrange(1, rank - 2));
        }
        assert(product(shape@) == planes * (size * size));
        assert(size * size <= h * w) by (nonlinear_arith)
            requires
                0 < size <= h,
                size <= w,
        ;
        assert(planes >= 0) by {
            lemma_mul_nonnegative(g.samples as int, g.channels as int);
        }
        assert(planes * (size * size) <= planes * (h * w)) by (nonlinear_arith)
            requires
                size * size <= h * w,
                planes >= 0,
        ;
    }
    let total: usize = element_count(shape.as_slice());
    let flat = batch.to_vec();
    let mut out: Vec<E> = Vec::with_capacity(total);
    let mut p: usize = 0;
    while p < total
        invariant
            0 <= p <= total,
            0 < size <= h,
            size <= w,
            g.fits(dims),
            h == g.height,
            w == g.width,
            planes == g.samples * g.channels,
            total == planes * (size * size),
            flat@ == batch.data(),
            flat.len() == planes * (h * w),
            places.len() == g.samples,
            forall|k: int|
                0 <= k < g.samples ==> ((#[trigger] places@[k]).0 as int, places@[k].1 as int)
                    == spots[k],
            forall|k: int|
                0 <= k < g.samples ==> (#[trigger] places@[k]).0 <= h - size && places@[k].1 <= w
                    - size,
            out.len() == p,
            forall|q: int|
                0 <= q < p ==> #[trigger] out@[q] == flat@[crop_source(
                    q,
                    size as int,
                    h as int,
                    w as int,
                    g.channels as int,
                    spots,
                )],
        decreases total - p,
    {
        let line: usize = p / size;
        let plane: usize = line / size;
        let row: usize = line % size;
        let col: usize = p % size;
        proof {
            lemma_plane_of(p as int, planes, size as int);
            lemma_sample_of(plane as int, g.samples as int, g.channels as int);
        }
        let sample: usize = plane / g.channels;
        let (top, left) = places[sample];
        assert((places@[sample as int].0 as int, places@[sample as int].1 as int)
            == spots[sample as int]);
        proof {
            lemma_cell(
                plane as int,
                top + row,
                left + col,
                planes,
                h as int,
                w as int,
            );
            assert(planes * h * w == planes * (h * w)) by (nonlinear_arith);
            lemma_mul_nonnegative(plane as int, h as int);
            assert(plane * h + (top + row) <= (plane * h + (top + row)) * w) by (nonlinear_arith)
                requires
                    w >= 1,
                    plane * h + (top + row) >= 0,
            ;
        }
        let from: usize = (plane * h + (top + row)) * w + (left + col);
        out.push(flat[from]);
        p = p + 1;
    }
    Ok(Tensor::from_results(shape.as_slice(), out))
}

/// The plane of a position in square planes.
proof fn lemma_plane_of(p: int, planes: int, size: int)
    requires
        0 <= p < planes * (size * size),
        size > 0,
    ensures
        0 <= (p / size) / size < planes,
        0 <= (p / size) % size < size,
        0 <= p % size < size,
{
    let line = p / size;
    lemma_fundamental_div_mod(p, size);
    lemma_mod_bound(p, size);
    lemma_div_pos_is_pos(p, size);
    assert(planes * (size * size) == (planes * size) * size) by (nonlinear_arith);
    assert(line < planes * size) by (nonlinear_arith)
        requires
            p < (planes * size) * size,
            p == size * line + p % size,
            0 <= p % size,
            size > 0,
    ;
    lemma_fundamental_div_mod(line, size);
    lemma_mod_bound(line, size);
    lemma_div_pos_is_pos(line, size);
    assert(line / size < planes) by (nonlinear_arith)
        requires
            line < planes * size,
            line == size * (line / size) + line % size,
            0 <= line % size,
            size > 0,
    ;
}

/// The sample of a plane.
proof fn lemma_sample_of(plane: int, samples: int, channels: int)
    requires
        0 <= plane < samples * channels,
        samples >= 0,
        channels >= 0,
    ensures
        channels > 0,
        0 <= plane / channels < samples,
{
    assert(channels > 0) by (nonlinear_arith)
        requires
            0 <= plane < samples * channels,
            channels >= 0,
    ;
    lemma_fundamental_div_mod(plane, channels);
    lemma_mod_bound(plane, channels);
    lemma_div_pos_is_pos(plane, channels);
    assert(plane / channels < samples) by (nonlinear_arith)
        requires
            plane < samples * channels,
            plane == channels * (plane / channels) + plane % channels,
            0 <= plane % channels,
            channels > 0,
    ;
}

// ---- flip -------------------------------------------------------------------------------

/// The state after `n` uniform draws.
pub open spec fn after_draws(s: MtState, n: nat) -> MtState
    decreases n,
{
    if n == 0 {
        s
    } else {
        advanced(advanced(after_draws(s, (n - 1) as nat)))
    }
}

/// A coin thrown in state `s` says `flip`: the uniform number is below one
/// half.
pub open spec fn is_coin<E: Elem>(s: MtState, flip: bool) -> bool {
    exists|u: E, half: E| #[trigger]
        is_random(s, u) && #[trigger] call_ensures(E::half, (), half) && call_ensures(
            E::less_equal,
            (half, u),
            !flip,
        )
}

/// `flips` are the coins of consecutive samples.
pub open spec fn are_coins<E: Elem>(s: MtState, flips: Seq<bool>) -> bool {
    forall|k: int| 0 <= k < flips.len() ==> is_coin::<E>(after_draws(s, k as nat), #[trigger] flips[k])
}

/// Where element `p` of a flipped batch comes from.
pub open spec fn flip_source(p: int, h: int, w: int, channels: int, flips: Seq<bool>) -> int {
    let col = p % w;
    let plane = (p / w) / h;
    if flips[plane / channels] {
        p - col + (w - 1 - col)
    } else {
        p
    }
}

/// `t` is `batch` with the samples flagged in `flips` mirrored, all channels
/// of a sample together.
pub open spec fn flip_result<E>(batch: Tensor<E>, flips: Seq<bool>, t: Tensor<E>) -> bool {
    let dims = batch.dims();
    &&& t.dims() == dims
    &&& t.contiguous_layout()
    &&& forall|p: int|
        0 <= p < t.count() ==> #[trigger] t.data()[p] == batch.data()[flip_source(
            p,
            height_of(dims),
            width_of(dims),
            channels_of(dims),
            flips,
        )]
}

/// Throws one coin per sample.
fn draw_coins<E: Elem>(rng: &mut Mt19937, n: usize) -> (r: Vec<bool>)
    ensures
        r.len() == n,
        are_coins::<E>(old(rng)@, r@),
        final(rng)@ == after_draws(old(rng)@, n as nat),
{
    let ghost start = rng@;
    let mut out: Vec<bool> = Vec::with_capacity(n);
    let mut k: usize = 0;
    while k < n
        invariant
            0 <= k <= n,
            start == old(rng)@,
            out.len() == k,
            are_coins::<E>(start, out@),
            rng@ == after_draws(start, k as nat),
        decreases n - k,
    {
        let ghost before = out@;
        let ghost s = rng@;
        let u: E = rng.random();
        assert(is_random(s, u));
        let half = E::half();
        let keep = E::less_equal(half, u);
        assert(is_coin::<E>(s, !keep)) by {
            assert(call_ensures(E::less_equal, (half, u), keep));
        }
        out.push(!keep);
        k = k + 1;
        proof {
            assert forall|j: int| 0 <= j < out@.len() implies is_coin::<E>(
                after_draws(start, j as nat),
                #[trigger] out@[j],
            ) by {
                if j < before.len() {
                    assert(out@[j] == before[j]);
                }
            }
        }
    }
    out
}

/// `RandomHorizontalFlip` kernel: per-image coin flip, row reversal in the
/// output (the input is left untouched). All channels of an image flip
/// together.
pub fn random_horizontal_flip<E: Elem>(batch: &Tensor<E>, rng: &mut Mt19937) -> (r: OxitorchResult<
    Tensor<E>,
>)
    ensures
        match r {
            Ok(t) => geometry_error(batch.dims()) is None && (exists|flips: Seq<bool>| #[trigger]
                are_coins::<E>(old(rng)@, flips) && flips.len() == samples_of(batch.dims())
                    && flip_result(*batch, flips, t)) && final(rng)@ == after_draws(
                old(rng)@,
                samples_of(batch.dims()) as nat,
            ),
            Err(e) => geometry_error(batch.dims()) == Some(e@) && final(rng)@ == old(rng)@,
        },
{
    let g = match Geometry::of(batch) {
        Ok(g) => g,
        Err(e) => {
            return Err(e);
        },
    };
    let ghost dims = batch.dims();
    let h: usize = g.height;
    let w: usize = g.width;
    let ghost planes = g.samples * g.channels;
    proof {
        lemma_geometry(dims);
    }
    let flips = draw_coins::<E>(rng, g.samples);
    let flat = batch.to_vec();
    let total: usize = flat.len();
    let mut out: Vec<E> = Vec::with_capacity(total);
    let mut p: usize = 0;
    while p < total
        invariant
            0 <= p <= total,
            g.fits(dims),
            h == g.height,
            w == g.width,
            planes == g.samples * g.channels,
            flat@ == batch.data(),
            total == flat.len(),
            total == planes * (h * w),
            flips.len() == g.samples,
            out.len() == p,
            forall|q: int|
                0 <= q < p ==> #[trigger] out@[q] == flat@[flip_source(
                    q,
                    h as int,
                    w as int,
                    g.channels as int,
                    flips@,
                )],
        decreases total - p,
    {
        let col: usize = p % w;
        let plane: usize = (p / w) / h;
        proof {
            lemma_row_plane(p as int, planes, h as int, w as int);
            lemma_sample_of(plane as int, g.samples as int, g.channels as int);
        }
        let sample: usize = plane / g.channels;
        if flips[sample] {
            out.push(flat[p - col + (w - 1 - col)]);
        } else {
            out.push(flat[p]);
        }
        p = p + 1;
    }
    let t = Tensor::from_results(batch.shape(), out);
    proof {
        assert(flip_result(*batch, flips@, t));
    }
    Ok(t)
}

/// The plane and column of a position, and the room left in its row.
proof fn lemma_row_plane(p: int, planes: int, h: int, w: int)
    requires
        0 <= p < planes * (h * w),
        h > 0,
        w > 0,
    ensures
        0 <= (p / w) / h < planes,
        0 <= p % w < w,
        p % w <= p,
        p - p % w + w <= planes * (h * w),
{
    let line = p / w;
    lemma_fundamental_div_mod(p, w);
    lemma_mod_bound(p, w);
    lemma_div_pos_is_pos(p, w);
    assert(planes * (h * w) == (planes * h) * w) by (nonlinear_arith);
    assert(line < planes * h) by (nonlinear_arith)
        requires
            p < (planes * h) * w,
            p == w * line + p % w,
            0 <= p % w,
            w > 0,
    ;
    assert(w * line >= 0) by (nonlinear_arith)
        requires
            w > 0,
            line >= 0,
    ;
    assert(w * line + w <= (planes * h) * w) by (nonlinear_arith)
        requires
            line + 1 <= planes * h,
            w > 0,
    ;
    lemma_fundamental_div_mod(line, h);
    lemma_mod_bound(line, h);
    lemma_div_pos_is_pos(line, h);
    assert(line / h < planes) by (nonlinear_arith)
        requires
            line < planes * h,
            line == h * (line / h) + line % h,
            0 <= line % h,
            h > 0,
    ;
}

// ---- normalize --------------------------------------------------------------------------

/// The complaint about means or deviations that do not match the channels.
pub open spec fn channels_error(channels: int, means: int, stds: int) -> ErrorText {
    ErrorText::InvalidArgument(
        "normalize expects "@ + nat_text(channels as nat) + " channels, got mean "@ + nat_text(
            means as nat,
        ) + " / std "@ + nat_text(stds as nat),
    )
}

/// The complaint about a deviation that is not positive.
pub open spec fn deviation_error() -> ErrorText {
    ErrorText::InvalidArgument("normalize std must be > 0"@)
}

/// A deviation is positive, or not, as the element type tells.
pub open spec fn is_deviation<E: Elem>(s: E, positive: bool) -> bool {
    exists|z: E| #[trigger] is_zero(z) && call_ensures(E::less_equal, (s, z), !positive)
}

/// `r` is `(x - mean) * (1 / std)`.
pub open spec fn is_standardized<E: Elem>(x: E, mean: E, std: E, r: E) -> bool {
    exists|d: E, inv: E|
        #![trigger call_ensures(E::minus, (x, mean), d), is_reciprocal(std, inv)]
        call_ensures(E::minus, (x, mean), d) && is_reciprocal(std, inv) && call_ensures(
            E::times,
            (d, inv),
            r,
        )
}

/// The channel of element `p`.
pub open spec fn channel_at(p: int, h: int, w: int, channels: int) -> int {
    ((p / w) / h) % channels
}

/// `t` is `batch` with every channel standardized.
pub open spec fn normalize_result<E: Elem>(
    batch: Tensor<E>,
    mean: Seq<E>,
    std: Seq<E>,
    t: Tensor<E>,
) -> bool {
    let dims = batch.dims();
    &&& t.dims() == dims
    &&& t.contiguous_layout()
    &&& forall|p: int|
        0 <= p < t.count() ==> is_standardized(
            batch.data()[p],
            mean[channel_at(p, height_of(dims), width_of(dims), channels_of(dims))],
            std[channel_at(p, height_of(dims), width_of(dims), channels_of(dims))],
            #[trigger] t.data()[p],
        )
}

/// What normalizing gives: a batch, or the first complaint about shape,
/// channels or deviations.
pub open spec fn normalize_outcome<E: Elem>(
    batch: Tensor<E>,
    mean: Seq<E>,
    std: Seq<E>,
    r: OxitorchResult<Tensor<E>>,
) -> bool {
    let dims = batch.dims();
    let channels = channels_of(dims);
    if geometry_error(dims) is Some {
        r is Err && geometry_error(dims) == Some(r->Err_0@)
    } else if mean.len() != channels || std.len() != channels {
        r is Err && r->Err_0@ == channels_error(channels, mean.len() as int, std.len() as int)
    } else {
        match r {
            Ok(t) => normalize_result(batch, mean, std, t) && forall|c: int|
                0 <= c < channels ==> is_deviation(#[trigger] std[c], true),
            Err(e) => e@ == deviation_error() && exists|c: int|
                0 <= c < channels && is_deviation(#[trigger] std[c], false),
        }
    }
}

/// `Normalize` kernel: one subtract/multiply pass over each channel plane.
pub fn normalize<E: Elem>(batch: &Tensor<E>, mean: &[E], std: &[E]) -> (r: OxitorchResult<
    Tensor<E>,
>)
    ensures
        normalize_outcome(*batch, mean@, std@, r),
{
    let g = match Geometry::of(batch) {
        Ok(g) => g,
        Err(e) => {
            return Err(e);
        },
    };
    if mean.len() != g.channels || std.len() != g.channels {
        let mut m = join4(
            "normalize expects ",
            usize_string(g.channels).as_str(),
            " channels, got mean ",
            usize_string(mean.len()).as_str(),
        );
        m.append(" / std ");
        m.append(usize_string(std.len()).as_str());
        return Err(OxitorchError::InvalidArgument(m));
    }
    let mut c: usize = 0;
    while c < std.len()
        invariant
            0 <= c <= std.len(),
            g.fits(batch.dims()),
            geometry_error(batch.dims()) is None,
            mean.len() == g.channels,
            std.len() == g.channels,
            forall|k: int| 0 <= k < c ==> is_deviation(#[trigger] std@[k], true),
        decreases std.len() - c,
    {
        let z = E::zero();
        let bad = E::less_equal(std[c], z);
        assert(is_deviation(std@[c as int], !bad)) by {
            assert(is_zero(z));
        }
        if bad {
            return Err(OxitorchError::InvalidArgument("normalize std must be > 0".to_string()));
        }
        c = c + 1;
    }
    let ghost dims = batch.dims();
    let h: usize = g.height;
    let w: usize = g.width;
    let ghost planes = g.samples * g.channels;
    proof {
        lemma_geometry(dims);
    }
    let flat = batch.to_vec();
    let total: usize = flat.len();
    let mut out: Vec<E> = Vec::with_capacity(total);
    let mut p: usize = 0;
    while p < total
        invariant
            0 <= p <= total,
            g.fits(dims),
            h == g.height,
            w == g.width,
            mean.len() == g.channels,
            std.len() == g.channels,
            planes == g.samples * g.channels,
            flat@ == batch.data(),
            total == flat.len(),
            total == planes * (h * w),
            out.len() == p,
            forall|q: int|
                0 <= q < p ==> is_standardized(
                    flat@[q],
                    mean@[channel_at(q, h as int, w as int, g.channels as int)],
                    std@[channel_at(q, h as int, w as int, g.channels as int)],
                    #[trigger] out@[q],
                ),
        decreases total - p,
    {
        proof {
            lemma_row_plane(p as int, planes, h as int, w as int);
            lemma_sample_of(
                (p as int / w as int) / h as int,
                g.samples as int,
                g.channels as int,
            );
        }
        let k: usize = ((p / w) / h) % g.channels;
        let o = E::one();
        let inv = E::divide(o, std[k]);
        assert(is_reciprocal(std@[k as int], inv));
        let d = E::minus(flat[p], mean[k]);
        let v = E::times(d, inv);
        assert(is_standardized(flat@[p as int], mean@[k as int], std@[k as int], v));
        out.push(v);
        p = p + 1;
    }
    let t = Tensor::from_results(batch.shape(), out);
    assert(normalize_result(*batch, mean@, std@, t));
    Ok(t)
}

// ---- pipelines --------------------------------------------------------------------------

/// Applying a transform to `batch` in state `s` gives `r` and leaves the
/// generator in state `t`.
pub open spec fn transform_outcome<E: Elem>(
    step: NativeTransform<E>,
    batch: Tensor<E>,
    s: MtState,
    r: OxitorchResult<Tensor<E>>,
    t: MtState,
) -> bool {
    match step {
        NativeTransform::RandomCrop(size) => match r {
            Ok(x) => crop_error(batch.dims(), size as int) is None && crop_result(
                batch,
                size,
                crop_draws(s, batch.dims(), size as int).0,
                x,
            ) && t == crop_draws(s, batch.dims(), size as int).1,
            Err(e) => crop_error(batch.dims(), size as int) == Some(e@) && t == s,
        },
        NativeTransform::RandomHorizontalFlip => match r {
            Ok(x) => geometry_error(batch.dims()) is None && (exists|flips: Seq<bool>| #[trigger]
                are_coins::<E>(s, flips) && flips.len() == samples_of(batch.dims())
                    && flip_result(batch, flips, x)) && t == after_draws(
                s,
                samples_of(batch.dims()) as nat,
            ),
            Err(e) => geometry_error(batch.dims()) == Some(e@) && t == s,
        },
        NativeTransform::Normalize(mean, std) => normalize_outcome(batch, mean@, std@, r) && t
            == s,
    }
}

impl<E: Elem> NativeTransform<E> {
    /// Applies this transform to a batch (returns the new tensor), drawing
    /// randomness from `rng`.
    ///
    /// Fails on shape violations (no `(h, w)` trailing dims) or bad Normalize
    /// channel counts / non-positive std.
    pub fn apply(&self, batch: &Tensor<E>, rng: &mut Mt19937) -> (r: OxitorchResult<Tensor<E>>)
        ensures
            transform_outcome(*self, *batch, old(rng)@, r, final(rng)@),
    {
        match self {
            NativeTransform::RandomCrop(size) => random_crop(batch, *size, rng),
            NativeTransform::RandomHorizontalFlip => random_horizontal_flip(batch, rng),
            NativeTransform::Normalize(mean, std) => normalize(
                batch,
                mean.as_slice(),
                std.as_slice(),
            ),
        }
    }
}

/// An ordered composition of [`NativeTransform`]s (the `Compose` case).
#[derive(Debug)]
pub struct TransformPipeline<E> {
    steps: Arc<Vec<NativeTransform<E>>>,
}

/// Applying the first `k` steps leads from `(batch, s)` to `(x, t)`.
pub open spec fn pipeline_runs<E: Elem>(
    steps: Seq<NativeTransform<E>>,
    k: int,
    batch: Tensor<E>,
    s: MtState,
    x: Tensor<E>,
    t: MtState,
) -> bool
    decreases k,
{
    if k <= 0 {
        x == batch && t == s
    } else {
        exists|m: Tensor<E>, u: MtState|
            pipeline_runs(steps, k - 1, batch, s, m, u) && #[trigger] transform_outcome(
                steps[k - 1],
                m,
                u,
                Ok(x),
                t,
            )
    }
}

/// Applying all steps gives `r`: the last batch, or the complaint of the first
/// step that fails.
pub open spec fn pipeline_outcome<E: Elem>(
    steps: Seq<NativeTransform<E>>,
    batch: Tensor<E>,
    s: MtState,
    r: OxitorchResult<Tensor<E>>,
    t: MtState,
) -> bool {
    match r {
        Ok(x) => pipeline_runs(steps, steps.len() as int, batch, s, x, t),
        Err(e) => exists|k: int, m: Tensor<E>, u: MtState|
            0 <= k < steps.len() && #[trigger] pipeline_runs(steps, k, batch, s, m, u)
                && transform_outcome(steps[k], m, u, r, t),
    }
}

impl<E> TransformPipeline<E> {
    /// The steps.
    pub closed spec fn view(&self) -> Seq<NativeTransform<E>> {
        self.steps@
    }

    /// A pipeline from ordered steps.
    #[must_use]
    pub fn new(steps: Vec<NativeTransform<E>>) -> (r: Self)
        ensures
            r@ == steps@,
    {
        TransformPipeline { steps: Arc::new(steps) }
    }

    /// Whether the pipeline is a no-op (fast-path datasets skip it).
    #[must_use]
    pub fn is_empty(&self) -> (r: bool)
        ensures
            r == (self@.len() == 0),
    {
        self.steps.len() == 0
    }
}

impl<E: Elem> TransformPipeline<E> {
    /// Applies every step in order to the batch.
    ///
    /// Stops at the first step that fails.
    pub fn apply(&self, batch: &Tensor<E>, rng: &mut Mt19937) -> (r: OxitorchResult<Tensor<E>>)
        ensures
            pipeline_outcome(self@, *batch, old(rng)@, r, final(rng)@),
    {
        let ghost start = rng@;
        let mut current = batch.clone();
        let mut k: usize = 0;
        while k < self.steps.len()
            invariant
                0 <= k <= self.steps.len(),
                start == old(rng)@,
                pipeline_runs(self.steps@, k as int, *batch, start, current, rng@),
            decreases self.steps.len() - k,
        {
            let ghost m = current;
            let ghost u = rng@;
            match self.steps[k].apply(&current, rng) {
                Ok(x) => {
                    current = x;
                },
                Err(e) => {
                    assert(pipeline_runs(self.steps@, k as int, *batch, start, m, u));
                    return Err(e);
                },
            }
            k = k + 1;
            assert(transform_outcome(self.steps@[k - 1], m, u, Ok(current), rng@));
        }
        Ok(current)
    }
}

impl<E> Clone for TransformPipeline<E> {
    fn clone(&self) -> (r: Self)
        ensures
            r@ == self@,
    {
        TransformPipeline { steps: Arc::clone(&self.steps) }
    }
}

impl<E> Default for TransformPipeline<E> {
    fn default() -> (r: Self)
        ensures
            r@.len() == 0,
    {
        TransformPipeline { steps: Arc::new(Vec::new()) }
    }
}

// ---- seeds ------------------------------------------------------------------------------

/// The SplitMix64 finalizer.
pub open spec fn finalized(a: u64) -> u64 {
    let b = (a ^ (a >> 30)).wrapping_mul(0xBF58_476D_1CE4_E5B9u64);
    let c = (b ^ (b >> 27)).wrapping_mul(0x94D0_49BB_1331_11EBu64);
    c ^ (c >> 31)
}

/// The SplitMix64 finalizer over an epoch seed and a batch number.
pub open spec fn mixed_seed(epoch_seed: u64, seq: u64) -> u64 {
    finalized(epoch_seed ^ seq.wrapping_mul(0x9E37_79B9_7F4A_7C15u64))
}

/// Multiplying by a factor that has an inverse keeps numbers apart.
pub(crate) proof fn lemma_product_injective(x: u64, y: u64, c: u64, d: u64, k: int)
    requires
        c * d == 1 + k * 0x1_0000_0000_0000_0000,
        x.wrapping_mul(c) == y.wrapping_mul(c),
    ensures
        x == y,
{
    lemma_product_undone(x, c, d, k);
    lemma_product_undone(y, c, d, k);
}

/// Multiplying by a factor and then by its inverse changes nothing.
proof fn lemma_product_undone(x: u64, c: u64, d: u64, k: int)
    requires
        c * d == 1 + k * 0x1_0000_0000_0000_0000,
    ensures
        x.wrapping_mul(c).wrapping_mul(d) == x,
{
    let m = 0x1_0000_0000_0000_0000int;
    lemma_mul_mod_noop_left(x * c, d as int, m);
    assert((x * c) * d == m * (x * k) + x) by (nonlinear_arith)
        requires
            c * d == 1 + k * m,
    ;
    lemma_mod_multiples_vanish(x * k, x as int, m);
    lemma_small_mod(x as nat, m as nat);
}

/// The factor between consecutive numbers of a seed sequence has an inverse.
pub proof fn lemma_golden_injective(x: u64, y: u64)
    requires
        x.wrapping_mul(0x9E37_79B9_7F4A_7C15u64) == y.wrapping_mul(0x9E37_79B9_7F4A_7C15u64),
    ensures
        x == y,
{
    lemma_product_injective(
        x,
        y,
        0x9E37_79B9_7F4A_7C15u64,
        0xF1DE_83E1_9937_733Du64,
        10_771_413_168_148_108_919,
    );
}

/// The finalizer keeps numbers apart.
pub proof fn lemma_finalized_injective(x: u64, y: u64)
    requires
        finalized(x) == finalized(y),
    ensures
        x == y,
{
    let b = (x ^ (x >> 30)).wrapping_mul(0xBF58_476D_1CE4_E5B9u64);
    let c = (b ^ (b >> 27)).wrapping_mul(0x94D0_49BB_1331_11EBu64);
    let p = (y ^ (y >> 30)).wrapping_mul(0xBF58_476D_1CE4_E5B9u64);
    let q = (p ^ (p >> 27)).wrapping_mul(0x94D0_49BB_1331_11EBu64);
    assert(c == q) by (bit_vector)
        requires
            c ^ (c >> 31) == q ^ (q >> 31),
    ;
    lemma_product_injective(
        b ^ (b >> 27),
        p ^ (p >> 27),
        0x94D0_49BB_1331_11EBu64,
        0x3196_42B2_D24D_8EC3u64,
        2_077_064_247_507_883_091,
    );
    assert(b == p) by (bit_vector)
        requires
            b ^ (b >> 27) == p ^ (p >> 27),
    ;
    lemma_product_injective(
        x ^ (x >> 30),
        y ^ (y >> 30),
        0xBF58_476D_1CE4_E5B9u64,
        0x96DE_1B17_3F11_9089u64,
        8_125_545_580_553_827_436,
    );
    assert(x == y) by (bit_vector)
        requires
            x ^ (x >> 30) == y ^ (y >> 30),
    ;
}

/// No two batches of an epoch share a seed, and no two epochs give a batch
/// number the same one.
pub proof fn law_batch_seeds_differ(e: u64, s1: u64, s2: u64)
    requires
        s1 != s2,
    ensures
        mixed_seed(e, s1) != mixed_seed(e, s2),
        mixed_seed(s1, e) != mixed_seed(s2, e),
{
    if mixed_seed(e, s1) == mixed_seed(e, s2) {
        let a = s1.wrapping_mul(0x9E37_79B9_7F4A_7C15u64);
        let b = s2.wrapping_mul(0x9E37_79B9_7F4A_7C15u64);
        lemma_finalized_injective(e ^ a, e ^ b);
        assert(a == b) by (bit_vector)
            requires
                e ^ a == e ^ b,
        ;
        lemma_golden_injective(s1, s2);
    }
    if mixed_seed(s1, e) == mixed_seed(s2, e) {
        let a = e.wrapping_mul(0x9E37_79B9_7F4A_7C15u64);
        lemma_finalized_injective(s1 ^ a, s2 ^ a);
        assert(s1 == s2) by (bit_vector)
            requires
                s1 ^ a == s2 ^ a,
        ;
    }
}

/// The generator seed that a batch seed folds to.
pub open spec fn folded_seed(seed: u64) -> u32 {
    ((seed ^ (seed >> 32)) & 0xffff_ffffu64) as u32
}

/// Per-batch RNG seed derivation: a SplitMix64 finalizer over
/// `(epoch_seed, batch_seq)` so every batch of an epoch sees an independent
/// stream while the whole epoch stays reproducible from the epoch seed.
#[must_use]
pub fn batch_seed(epoch_seed: u64, seq: u64) -> (r: u64)
    ensures
        r == mixed_seed(epoch_seed, seq),
{
    let a: u64 = epoch_seed ^ seq.wrapping_mul(0x9E37_79B9_7F4A_7C15u64);
    let b: u64 = (a ^ (a >> 30)).wrapping_mul(0xBF58_476D_1CE4_E5B9u64);
    let c: u64 = (b ^ (b >> 27)).wrapping_mul(0x94D0_49BB_1331_11EBu64);
    c ^ (c >> 31)
}

/// Constructs the per-batch generator (32-bit MT19937 seed from the 64-bit
/// batch seed by folding the halves together).
#[must_use]
pub fn batch_rng(seed: u64) -> (r: Mt19937)
    ensures
        r@ == seeded(folded_seed(seed)),
{
    let low: u64 = (seed ^ (seed >> 32)) & 0xffff_ffffu64;
    assert(low <= 0xffff_ffffu64) by (bit_vector)
        requires
            low == (seed ^ (seed >> 32)) & 0xffff_ffffu64,
    ;
    Mt19937::new(low as u32)
}

/// Crops are reproducible: from one generator state, cropping a batch twice
/// gives equal tensors and leaves equal states.
pub proof fn law_crop_is_reproducible<E: Elem>(
    batch: Tensor<E>,
    size: usize,
    s: MtState,
    a: Tensor<E>,
    ta: MtState,
    b: Tensor<E>,
    tb: MtState,
)
    requires
        transform_outcome(NativeTransform::RandomCrop(size), batch, s, Ok(a), ta),
        transform_outcome(NativeTransform::RandomCrop(size), batch, s, Ok(b), tb),
    ensures
        a.dims() == b.dims(),
        a.data() == b.data(),
        ta == tb,
{
    assert forall|p: int| 0 <= p < a.count() implies a.data()[p] == #[trigger] b.data()[p] by {
        assert(a.data()[p] == a.data()[p]);
    }
    assert(a.data() =~= b.data());
}

/// A transform keeps the number of dimensions, and everything but the spatial
/// size.
pub proof fn law_transforms_keep_layout<E: Elem>(
    step: NativeTransform<E>,
    batch: Tensor<E>,
    s: MtState,
    r: Tensor<E>,
    t: MtState,
)
    requires
        transform_outcome(step, batch, s, Ok(r), t),
    ensures
        r.dims().len() == batch.dims().len(),
        batch.dims().len() >= 2,
        forall|i: int|
            0 <= i < batch.dims().len() - 2 ==> #[trigger] r.dims()[i] == batch.dims()[i],
        !(step is RandomCrop) ==> r.dims() == batch.dims(),
{
}

} // verus!
