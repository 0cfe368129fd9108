//! Fancy indexing: gather, scatter and boolean masks.

use vstd::prelude::*;
use vstd::arithmetic::div_mod::*;
use vstd::arithmetic::mul::*;
use vstd::string::*;
use crate::elem::{Elem, is_zero};
use crate::error::{ErrorText, OxitorchError, OxitorchResult};
use crate::index::{
    cell, in_shape, index_of, inner_pos, lemma_cell, lemma_product_positive, lemma_product_split,
    lemma_product_tail, lemma_rank1, lemma_ravel, lemma_ravel_split, lemma_unravel, outer_pos,
    product, ravel, unravel,
};
use crate::iterate::mapped;
use crate::layout::{
    broadcast_index, broadcast_of, copy_dims, dim_error, element_count, expands_to, has_count,
    law_broadcast_covers_operands, mismatch, mismatch_error, normalize_dim, overflow,
    overflow_error, resolve_dim, same_dims,
};
use crate::tensor::{Tensor, broadcast_error};
use crate::tensor::elementwise::joint_shape;
use crate::tensor::views::{index_error, out_of_range};
use crate::text::{dims_string, i64_string, int_text, ints, join5, nat_text, usize_string};

verus! {

/// The first index that does not address one of `len` elements, if there is
/// one. Negative indices count from the end.
pub open spec fn first_out_of_range(indices: Seq<i64>, len: int) -> Option<i64>
    decreases indices.len(),
{
    if indices.len() == 0 {
        None
    } else if first_out_of_range(indices.drop_last(), len) is Some {
        first_out_of_range(indices.drop_last(), len)
    } else if !(0 <= resolve_dim(indices.last() as int, len) < len) {
        Some(indices.last())
    } else {
        None
    }
}

/// The elements that indices address among `len` elements.
pub open spec fn resolved(indices: Seq<i64>, len: int) -> Seq<int> {
    Seq::new(indices.len(), |k: int| resolve_dim(indices[k] as int, len))
}

/// Why indices cannot be gathered along a dimension, if they cannot.
pub open spec fn pick_error(dims: Seq<usize>, d: int, indices: Seq<i64>) -> Option<ErrorText> {
    let len = dims[d] as int;
    if first_out_of_range(indices, len) is Some {
        Some(index_error(first_out_of_range(indices, len)->0 as int, d, len))
    } else if product(dims.update(d, indices.len() as usize)) > usize::MAX {
        Some(overflow_error(ints(dims.update(d, indices.len() as usize))))
    } else {
        None
    }
}

/// Why [`Tensor::index_select`] fails, if it does.
pub open spec fn index_select_error(dims: Seq<usize>, dim: int, indices: Seq<i64>) -> Option<
    ErrorText,
> {
    let ndim = dims.len() as int;
    if !(0 <= resolve_dim(dim, ndim) < ndim) {
        Some(dim_error(dim, ndim))
    } else {
        pick_error(dims, resolve_dim(dim, ndim), indices)
    }
}

/// Why [`Tensor::gather_flat`] fails, if it does.
pub open spec fn gather_flat_error(count: int, indices: Seq<i64>) -> Option<ErrorText> {
    if first_out_of_range(indices, count) is Some {
        Some(
            ErrorText::OutOfBounds(
                "flat index "@ + int_text(first_out_of_range(indices, count)->0 as int)
                    + " out of range for "@ + nat_text(count as nat) + " elements"@,
            ),
        )
    } else {
        None
    }
}

/// Why [`Tensor::gather_dim0`] fails, if it does.
pub open spec fn gather_dim0_error(dims: Seq<usize>, indices: Seq<i64>) -> Option<ErrorText> {
    if dims.len() == 0 {
        Some(ErrorText::InvalidArgument("gather_dim0 requires at least a 1-D tensor"@))
    } else {
        pick_error(dims, 0, indices)
    }
}

/// Why [`Tensor::scatter_dim0`] fails, if it does.
pub open spec fn scatter_dim0_error(
    dims: Seq<usize>,
    indices: Seq<i64>,
    values: Seq<usize>,
) -> Option<ErrorText> {
    if dims.len() == 0 {
        Some(ErrorText::InvalidArgument("scatter_dim0 requires at least a 1-D tensor"@))
    } else if values != dims.update(0, indices.len() as usize) {
        Some(mismatch_error(values, dims.update(0, indices.len() as usize)))
    } else if first_out_of_range(indices, dims[0] as int) is Some {
        Some(
            index_error(
                first_out_of_range(indices, dims[0] as int)->0 as int,
                0,
                dims[0] as int,
            ),
        )
    } else {
        None
    }
}

/// `t` holds the slices `picks` of `src` along dimension `d`, in that order.
pub open spec fn picks_slices<E>(src: Tensor<E>, d: int, picks: Seq<int>, t: Tensor<E>) -> bool {
    &&& t.dims() == src.dims().update(d, picks.len() as usize)
    &&& forall|idx: Seq<int>|
        #![trigger t.at(idx)]
        #![trigger in_shape(idx, t.dims())]
        in_shape(idx, t.dims()) ==> in_shape(idx.update(d, picks[idx[d]]), src.dims())
            && t.at(idx) == src.at(idx.update(d, picks[idx[d]]))
}

/// The last place of `v` in `picks`, if it occurs.
pub open spec fn last_place(picks: Seq<int>, v: int) -> Option<int>
    decreases picks.len(),
{
    if picks.len() == 0 {
        None
    } else if picks.last() == v {
        Some(picks.len() - 1)
    } else {
        last_place(picks.drop_last(), v)
    }
}

/// The element that writing the rows of `values` to the rows `picks` of
/// `base` leaves at `idx`: the last row written there, else the old element.
pub open spec fn written<E>(
    base: Tensor<E>,
    picks: Seq<int>,
    values: Tensor<E>,
    idx: Seq<int>,
) -> E {
    match last_place(picks, idx[0]) {
        Some(k) => values.at(idx.update(0, k)),
        None => base.at(idx),
    }
}

/// `t` is `base` with the rows of `values` written to the rows `picks`.
pub open spec fn writes_rows<E>(
    base: Tensor<E>,
    picks: Seq<int>,
    values: Tensor<E>,
    t: Tensor<E>,
) -> bool {
    &&& t.dims() == base.dims()
    &&& forall|idx: Seq<int>|
        in_shape(idx, t.dims()) ==> #[trigger] t.at(idx) == written(base, picks, values, idx)
}

/// The values whose flag is set, in order.
pub open spec fn kept<E>(values: Seq<E>, keep: Seq<bool>) -> Seq<E>
    decreases values.len(),
{
    if values.len() == 0 {
        Seq::empty()
    } else if keep.last() {
        kept(values.drop_last(), keep.drop_last()).push(values.last())
    } else {
        kept(values.drop_last(), keep.drop_last())
    }
}

/// The elements of `t` broadcast to `out`, in row-major order.
pub open spec fn spread_data<E>(t: Tensor<E>, out: Seq<usize>) -> Seq<E> {
    Seq::new(product(out), |p: int| t.at(broadcast_index(unravel(p, out), t.dims())))
}

/// `keep` flags the mask values that differ from zero.
pub open spec fn flags_nonzero<E: Elem>(mask: Seq<E>, keep: Seq<bool>) -> bool {
    &&& keep.len() == mask.len()
    &&& exists|z: E| #[trigger]
        is_zero(z) && forall|p: int|
            0 <= p < mask.len() ==> call_ensures(E::equal, (mask[p], z), !#[trigger] keep[p])
}

/// `r` holds the elements of `t` where `mask` is nonzero, over their
/// broadcast shape in row-major order.
pub open spec fn mask_result<E: Elem>(t: Tensor<E>, mask: Tensor<E>, r: Tensor<E>) -> bool {
    let out = broadcast_of(t.dims(), mask.dims());
    exists|keep: Seq<bool>| #[trigger]
        flags_nonzero(spread_data(mask, out), keep) && r.data() == kept(spread_data(t, out), keep)
            && r.dims() == seq![r.data().len() as usize]
}

proof fn lemma_in_range(indices: Seq<i64>, len: int)
    requires
        first_out_of_range(indices, len) is None,
    ensures
        forall|k: int| 0 <= k < indices.len() ==> 0 <= #[trigger] resolved(indices, len)[k] < len,
    decreases indices.len(),
{
    if indices.len() > 0 {
        let init = indices.drop_last();
        lemma_in_range(init, len);
        assert forall|k: int| 0 <= k < indices.len() implies 0 <= #[trigger] resolved(
            indices,
            len,
        )[k] < len by {
            if k < init.len() {
                assert(0 <= resolved(init, len)[k] < len);
            }
        }
    }
}

/// Resolves indices against `len` elements; the first bad one is the error.
pub(crate) fn resolve_all(indices: &[i64], len: usize) -> (r: Result<Vec<usize>, i64>)
    ensures
        match r {
            Ok(v) => first_out_of_range(indices@, len as int) is None && index_of(v@) == resolved(
                indices@,
                len as int,
            ) && forall|k: int| 0 <= k < v.len() ==> #[trigger] v@[k] < len,
            Err(i) => first_out_of_range(indices@, len as int) == Some(i),
        },
{
    let mut out: Vec<usize> = Vec::with_capacity(indices.len());
    let mut bad: Option<i64> = None;
    let mut k: usize = 0;
    while k < indices.len() && bad.is_none()
        invariant
            0 <= k <= indices.len(),
            bad == first_out_of_range(indices@.take(k as int), len as int),
            bad is None ==> index_of(out@) == resolved(indices@.take(k as int), len as int),
            bad is Some ==> bad == first_out_of_range(indices@, len as int),
        decreases indices.len() - k,
    {
        let i: i64 = indices[k];
        let at: i128 = if i < 0 {
            len as i128 + i as i128
        } else {
            i as i128
        };
        k = k + 1;
        let ghost now = indices@.take(k as int);
        assert(now.drop_last() =~= indices@.take(k - 1));
        if at < 0 || at >= len as i128 {
            bad = Some(i);
            proof {
                lemma_first_stays(indices@, k as int, len as int);
            }
        } else {
            let ghost before = out@;
            out.push(at as usize);
            proof {
                let had = resolved(indices@.take(k - 1), len as int);
                assert(index_of(before) == had);
                assert(before.len() == had.len());
                assert forall|j: int| 0 <= j < k implies index_of(out@)[j] == #[trigger] resolved(
                    now,
                    len as int,
                )[j] by {
                    if j < k - 1 {
                        assert(index_of(before)[j] == had[j]);
                    }
                }
                assert(index_of(out@) =~= resolved(now, len as int));
            }
        }
    }
    match bad {
        Some(i) => Err(i),
        None => {
            assert(indices@.take(k as int) =~= indices@);
            proof {
                lemma_in_range(indices@, len as int);
                assert forall|j: int| 0 <= j < out.len() implies #[trigger] out@[j] < len by {
                    assert(index_of(out@)[j] == resolved(indices@, len as int)[j]);
                }
            }
            Ok(out)
        },
    }
}

proof fn lemma_first_stays(indices: Seq<i64>, k: int, len: int)
    requires
        0 <= k <= indices.len(),
        first_out_of_range(indices.take(k), len) is Some,
    ensures
        first_out_of_range(indices, len) == first_out_of_range(indices.take(k), len),
    decreases indices.len() - k,
{
    if k == indices.len() {
        assert(indices.take(k) =~= indices);
    } else {
        assert(indices.take(k + 1).drop_last() =~= indices.take(k));
        lemma_first_stays(indices, k + 1, len);
    }
}

/// The position that element `p` of a selection along the middle of
/// `outer` planes of `len` rows of `inner` columns comes from.
pub open spec fn pick_source(p: int, picks: Seq<int>, len: int, inner: int) -> int {
    cell((p / inner) / picks.len() as int, picks[(p / inner) % picks.len() as int], p % inner, len, inner)
}

/// Value `p` of `out` comes from its place in `src`.
pub open spec fn row_picked<E>(
    out: Seq<E>,
    src: Seq<E>,
    picks: Seq<int>,
    len: int,
    inner: int,
    p: int,
) -> bool {
    &&& 0 <= pick_source(p, picks, len, inner) < src.len()
    &&& out[p] == src[pick_source(p, picks, len, inner)]
}

/// Every value of `out` comes from its place in `src`.
pub open spec fn rows_picked<E>(
    out: Seq<E>,
    src: Seq<E>,
    picks: Seq<int>,
    len: int,
    inner: int,
) -> bool {
    forall|p: int|
        0 <= p < out.len() ==> #[trigger] row_picked(out, src, picks, len, inner, p)
}

proof fn lemma_picked_push<E>(
    out: Seq<E>,
    src: Seq<E>,
    picks: Seq<int>,
    len: int,
    inner: int,
    x: E,
)
    requires
        rows_picked(out, src, picks, len, inner),
        0 <= pick_source(out.len() as int, picks, len, inner) < src.len(),
        x == src[pick_source(out.len() as int, picks, len, inner)],
    ensures
        rows_picked(out.push(x), src, picks, len, inner),
{
    let now = out.push(x);
    assert forall|p: int| 0 <= p < now.len() implies #[trigger] row_picked(
        now,
        src,
        picks,
        len,
        inner,
        p,
    ) by {
        if p < out.len() {
            assert(row_picked(out, src, picks, len, inner, p));
        }
    }
}

/// Copies the rows `picks` of every plane.
pub(crate) fn pick_rows<E: Copy>(
    src: &[E],
    picks: &[usize],
    outer: usize,
    len: usize,
    inner: usize,
) -> (r: Vec<E>)
    requires
        inner > 0,
        src.len() == outer * len * inner,
        outer * picks.len() * inner <= usize::MAX,
        forall|k: int| 0 <= k < picks.len() ==> #[trigger] picks@[k] < len,
    ensures
        r.len() == outer * picks.len() * inner,
        rows_picked(r@, src@, index_of(picks@), len as int, inner as int),
{
    let n: usize = picks.len();
    let ghost ps = index_of(picks@);
    let mut out: Vec<E> = Vec::new();
    let mut o: usize = 0;
    assert(0 * n * inner == 0) by (nonlinear_arith);
    while o < outer
        invariant
            0 <= o <= outer,
            n == picks.len(),
            inner > 0,
            ps == index_of(picks@),
            src.len() == outer * len * inner,
            outer * n * inner <= usize::MAX,
            forall|k: int| 0 <= k < picks.len() ==> #[trigger] picks@[k] < len,
            out.len() == o * n * inner,
            rows_picked(out@, src@, ps, len as int, inner as int),
        decreases outer - o,
    {
        let mut k: usize = 0;
        assert((o * n + 0) * inner == o * n * inner) by (nonlinear_arith);
        while k < n
            invariant
                0 <= o < outer,
                0 <= k <= n,
                n == picks.len(),
                inner > 0,
                ps == index_of(picks@),
                src.len() == outer * len * inner,
                outer * n * inner <= usize::MAX,
                forall|j: int| 0 <= j < picks.len() ==> #[trigger] picks@[j] < len,
                out.len() == (o * n + k) * inner,
                rows_picked(out@, src@, ps, len as int, inner as int),
            decreases n - k,
        {
            let row: usize = picks[k];
            proof {
                lemma_cell(o as int, row as int, 0, outer as int, len as int, inner as int);
                lemma_mul_nonnegative(o as int, len as int);
                lemma_mul_nonnegative(o * len + row, inner as int);
                assert(o * len <= o * len + row <= (o * len + row) * inner) by (nonlinear_arith)
                    requires
                        inner >= 1,
                        o * len + row >= 0,
                        row >= 0,
                ;
            }
            let base: usize = (o * len + row) * inner;
            let mut i: usize = 0;
            while i < inner
                invariant
                    0 <= o < outer,
                    0 <= k < n,
                    0 <= i <= inner,
                    n == picks.len(),
                    inner > 0,
                    row == picks@[k as int],
                    row < len,
                    base == (o * len + row) * inner,
                    ps == index_of(picks@),
                    src.len() == outer * len * inner,
                    out.len() == (o * n + k) * inner + i,
                    rows_picked(out@, src@, ps, len as int, inner as int),
                decreases inner - i,
            {
                proof {
                    lemma_cell(o as int, row as int, i as int, outer as int, len as int, inner as int);
                    lemma_cell(o as int, k as int, i as int, outer as int, n as int, inner as int);
                }
                let ghost before = out@;
                out.push(src[base + i]);
                proof {
                    let at = (o * n + k) * inner + i;
                    assert(ps[k as int] == row);
                    assert(pick_source(at, ps, len as int, inner as int) == base + i);
                    lemma_picked_push(before, src@, ps, len as int, inner as int, src@[base + i]);
                    assert(out@ =~= before.push(src@[base + i]));
                    assert(rows_picked(out@, src@, ps, len as int, inner as int));
                }
                i = i + 1;
            }
            k = k + 1;
            assert((o * n + k) * inner == (o * n + (k - 1)) * inner + inner) by (nonlinear_arith);
        }
        o = o + 1;
        assert(((o - 1) * n + n) * inner == o * n * inner) by (nonlinear_arith);
    }
    out
}

impl<E: Elem> Tensor<E> {
    /// Gathers the slices `indices` along dimension `d`.
    fn pick(&self, d: usize, indices: &[i64]) -> (r: OxitorchResult<Self>)
        requires
            d < self.dims().len(),
        ensures
            match r {
                Ok(t) => pick_error(self.dims(), d as int, indices@) is None && picks_slices(
                    *self,
                    d as int,
                    resolved(indices@, self.dims()[d as int] as int),
                    t,
                ) && t.contiguous_layout(),
                Err(e) => pick_error(self.dims(), d as int, indices@) == Some(e@),
            },
    {
        proof {
            use_type_invariant(self);
            self.lemma_wf();
        }
        let len: usize = self.shape()[d];
        let picks = match resolve_all(indices, len) {
            Ok(v) => v,
            Err(i) => {
                return Err(out_of_range(i, d, len));
            },
        };
        let ghost ps = resolved(indices@, len as int);
        let mut shape = copy_dims(self.shape());
        shape[d] = indices.len();
        if !has_count(shape.as_slice()) {
            return Err(overflow(dims_string(shape.as_slice())));
        }
        let count: usize = element_count(shape.as_slice());
        let ghost dims = self.dims();
        assert(shape@ =~= dims.update(d as int, indices.len() as usize));
        if count == 0 {
            let t = Self::from_results(shape.as_slice(), Vec::new());
            proof {
                assert forall|idx: Seq<int>| #[trigger] in_shape(idx, t.dims()) implies in_shape(
                    idx.update(d as int, ps[idx[d as int]]),
                    self.dims(),
                ) && t.at(idx) == self.at(
                    idx.update(d as int, ps[idx[d as int]]),
                ) by {
                    lemma_ravel(idx, t.dims());
                }
            }
            assert(ps.len() == indices.len());
            assert(t.dims() == dims.update(d as int, ps.len() as usize));
            assert(picks_slices(*self, d as int, ps, t));
            return Ok(t);
        }
        proof {
            let di = d as int;
            assert(picks.len() == indices.len()) by {
                assert(index_of(picks@).len() == ps.len());
            }
            lemma_product_split(dims, di);
            lemma_product_split(shape@, di);
            assert(shape@.take(di) =~= dims.take(di));
            assert(shape@.skip(di + 1) =~= dims.skip(di + 1));
            lemma_product_positive(shape@);
            assert(picks.len() > 0) by {
                assert(shape@[di] > 0);
            }
            assert(picks@[0] < len);
            let a = product(dims.take(di)) as int;
            let b = product(dims.skip(di + 1)) as int;
            assert(a > 0 && b > 0 && a <= usize::MAX && b <= usize::MAX) by (nonlinear_arith)
                requires
                    a * picks.len() * b > 0,
                    a * picks.len() * b <= usize::MAX,
                    a >= 0,
                    b >= 0,
                    picks.len() > 0,
            ;
            assert(dims.subrange(0, di) =~= dims.take(di));
            assert(dims.subrange(di + 1, dims.len() as int) =~= dims.skip(di + 1));
        }
        let outer: usize = element_count(vstd::slice::slice_subrange(self.shape(), 0, d));
        let inner: usize = element_count(
            vstd::slice::slice_subrange(self.shape(), d + 1, self.ndim()),
        );
        let flat = self.contiguous();
        let src = flat.flat();
        let out = pick_rows(src, picks.as_slice(), outer, len, inner);
        let ghost values = out@;
        let t = Self::from_results(shape.as_slice(), out);
        proof {
            let di = d as int;
            assert forall|idx: Seq<int>| #[trigger] in_shape(idx, t.dims()) implies in_shape(
                idx.update(di, ps[idx[di]]),
                self.dims(),
            ) && t.at(idx) == self.at(idx.update(di, ps[idx[di]])) by {
                let from = idx.update(di, ps[idx[di]]);
                assert(0 <= idx[di] < picks.len());
                assert(index_of(picks@)[idx[di]] == ps[idx[di]]);
                assert(picks@[idx[di]] < len);
                assert forall|i: int| 0 <= i < dims.len() implies 0 <= #[trigger] from[i]
                    < dims[i] by {
                    assert(0 <= idx[i] < shape@[i]);
                }
                lemma_ravel_split(idx, shape@, di);
                lemma_ravel_split(from, dims, di);
                assert(from.take(di) =~= idx.take(di));
                assert(from.skip(di + 1) =~= idx.skip(di + 1));
                let o = outer_pos(idx, shape@, di);
                let i = inner_pos(idx, shape@, di);
                lemma_cell(o, idx[di], i, outer as int, picks.len() as int, inner as int);
                t.lemma_at(idx);
                self.lemma_at(from);
                assert(row_picked(
                    values,
                    src@,
                    index_of(picks@),
                    len as int,
                    inner as int,
                    ravel(idx, shape@),
                ));
            }
        }
        Ok(t)
    }

    /// Gathers a list of indices along `dim` (a copy; generalizes `select`).
    ///
    /// Fails with [`OxitorchError::OutOfBounds`] for any out-of-range index.
    pub fn index_select(&self, dim: i64, indices: &[i64]) -> (r: OxitorchResult<Self>)
        ensures
            match r {
                Ok(t) => {
                    let d = resolve_dim(dim as int, self.dims().len() as int);
                    &&& index_select_error(self.dims(), dim as int, indices@) is None
                    &&& picks_slices(*self, d, resolved(indices@, self.dims()[d] as int), t)
                    &&& t.contiguous_layout()
                },
                Err(e) => index_select_error(self.dims(), dim as int, indices@) == Some(e@),
            },
    {
        let d: usize = match normalize_dim(dim, self.ndim()) {
            Ok(d) => d,
            Err(e) => {
                return Err(e);
            },
        };
        self.pick(d, indices)
    }

    /// Gathers elements at `indices` (per-flat-index) into a 1-D tensor of
    /// the same length: the "fancy indexing" building block.
    ///
    /// Fails with [`OxitorchError::OutOfBounds`] for any out-of-range index.
    pub fn gather_flat(&self, indices: &[i64]) -> (r: OxitorchResult<Self>)
        ensures
            match r {
                Ok(t) => {
                    let picks = resolved(indices@, self.count() as int);
                    &&& gather_flat_error(self.count() as int, indices@) is None
                    &&& t.dims() == seq![indices.len() as usize]
                    &&& t.contiguous_layout()
                    &&& t.data() == Seq::new(indices@.len(), |k: int| self.data()[picks[k]])
                },
                Err(e) => gather_flat_error(self.count() as int, indices@) == Some(e@),
            },
    {
        let flat = self.to_vec();
        let picks = match resolve_all(indices, flat.len()) {
            Ok(v) => v,
            Err(i) => {
                return Err(
                    OxitorchError::OutOfBounds(
                        join5(
                            "flat index ",
                            i64_string(i).as_str(),
                            " out of range for ",
                            usize_string(flat.len()).as_str(),
                            " elements",
                        ),
                    ),
                );
            },
        };
        let ghost ps = resolved(indices@, self.count() as int);
        assert(index_of(picks@).len() == ps.len());
        let mut out: Vec<E> = Vec::with_capacity(picks.len());
        let mut k: usize = 0;
        while k < picks.len()
            invariant
                0 <= k <= picks.len(),
                flat@ == self.data(),
                index_of(picks@) == ps,
                forall|j: int| 0 <= j < picks.len() ==> #[trigger] picks@[j] < flat.len(),
                out.len() == k,
                forall|j: int| 0 <= j < k ==> out@[j] == self.data()[ps[j]],
            decreases picks.len() - k,
        {
            assert(index_of(picks@)[k as int] == picks@[k as int]);
            out.push(flat[picks[k]]);
            k = k + 1;
        }
        let dims: Vec<usize> = vec![indices.len()];
        proof {
            lemma_rank1(dims@, 0);
            assert(dims@ =~= seq![indices.len() as usize]);
            assert(out@ =~= Seq::new(indices@.len(), |j: int| self.data()[ps[j]]));
        }
        Ok(Self::from_results(dims.as_slice(), out))
    }

    /// Gathers `self[indices[i], j...]` over dim 0, the `embedding`-style
    /// case.
    ///
    /// Fails with [`OxitorchError::OutOfBounds`] for out-of-range indices.
    pub fn gather_dim0(&self, indices: &[i64]) -> (r: OxitorchResult<Self>)
        ensures
            match r {
                Ok(t) => gather_dim0_error(self.dims(), indices@) is None && picks_slices(
                    *self,
                    0,
                    resolved(indices@, self.dims()[0] as int),
                    t,
                ) && t.contiguous_layout(),
                Err(e) => gather_dim0_error(self.dims(), indices@) == Some(e@),
            },
    {
        if self.ndim() == 0 {
            return Err(
                OxitorchError::InvalidArgument(
                    "gather_dim0 requires at least a 1-D tensor".to_string(),
                ),
            );
        }
        self.pick(0, indices)
    }

    /// Writes `values` into `self[indices[i], ...]` (dim 0), returning a new
    /// contiguous tensor: the "scatter" building block. Where an index
    /// repeats, the last row written stays.
    ///
    /// Fails with [`OxitorchError::OutOfBounds`] for out-of-range indices, or
    /// [`OxitorchError::ShapeMismatch`] if `values` does not match the
    /// selected rows.
    pub fn scatter_dim0(&self, indices: &[i64], values: &Self) -> (r: OxitorchResult<Self>)
        ensures
            match r {
                Ok(t) => scatter_dim0_error(self.dims(), indices@, values.dims()) is None
                    && writes_rows(
                    *self,
                    resolved(indices@, self.dims()[0] as int),
                    *values,
                    t,
                ) && t.contiguous_layout(),
                Err(e) => scatter_dim0_error(self.dims(), indices@, values.dims()) == Some(e@),
            },
    {
        proof {
            use_type_invariant(self);
            self.lemma_wf();
        }
        if self.ndim() == 0 {
            return Err(
                OxitorchError::InvalidArgument(
                    "scatter_dim0 requires at least a 1-D tensor".to_string(),
                ),
            );
        }
        let mut shape = copy_dims(self.shape());
        shape[0] = indices.len();
        let ghost dims = self.dims();
        assert(shape@ =~= dims.update(0, indices.len() as usize));
        if !same_dims(values.shape(), shape.as_slice()) {
            return Err(mismatch(values.shape(), shape.as_slice()));
        }
        let rows: usize = self.shape()[0];
        let picks = match resolve_all(indices, rows) {
            Ok(v) => v,
            Err(i) => {
                return Err(out_of_range(i, 0, rows));
            },
        };
        let ghost ps = resolved(indices@, rows as int);
        assert(index_of(picks@).len() == ps.len());
        let mut data = self.to_vec();
        let count: usize = data.len();
        if count > 0 {
            proof {
                lemma_product_split(dims, 0);
                lemma_product_split(shape@, 0);
                assert(shape@.take(0) =~= Seq::<usize>::empty());
                assert(dims.take(0) =~= Seq::<usize>::empty());
                assert(shape@.skip(1) =~= dims.skip(1));
                lemma_product_tail(dims, 1);
                assert(dims.subrange(1, dims.len() as int) =~= dims.skip(1));
                assert(count == rows * product(dims.skip(1)));
                assert(product(shape@) == picks.len() * product(dims.skip(1)));
            }
            let inner: usize = element_count(
                vstd::slice::slice_subrange(self.shape(), 1, self.ndim()),
            );
            let vflat = values.to_vec();
            write_rows(&mut data, picks.as_slice(), vflat.as_slice(), rows, inner);
            proof {
                assert forall|idx: Seq<int>| in_shape(idx, dims) implies data@[#[trigger] ravel(
                    idx,
                    dims,
                )] == written(*self, ps, *values, idx) by {
                    lemma_ravel(idx, dims);
                    lemma_ravel_split(idx, dims, 0);
                    assert(idx.take(0) =~= Seq::<int>::empty());
                    let i = inner_pos(idx, dims, 0);
                    assert(ravel(idx, dims) == idx[0] * inner + i) by {
                        assert(outer_pos(idx, dims, 0) == 0);
                    }
                    lemma_cell(0, idx[0], i, 1, rows as int, inner as int);
                    assert((0 * rows + idx[0]) * inner + i == idx[0] * inner + i);
                    lemma_last_place(ps, idx[0]);
                    self.lemma_at(idx);
                    match last_place(ps, idx[0]) {
                        Some(k) => {
                            let from = idx.update(0, k);
                            assert forall|j: int| 0 <= j < shape@.len() implies 0
                                <= #[trigger] from[j] < shape@[j] by {
                                assert(0 <= idx[j] < dims[j]);
                            }
                            lemma_ravel_split(from, shape@, 0);
                            assert(from.skip(1) =~= idx.skip(1));
                            assert(from.take(0) =~= Seq::<int>::empty());
                            values.lemma_at(from);
                            assert(outer_pos(from, shape@, 0) == 0);
                        },
                        None => {},
                    }
                }
            }
        } else {
            proof {
                assert forall|idx: Seq<int>| in_shape(idx, dims) implies data@[#[trigger] ravel(
                    idx,
                    dims,
                )] == written(*self, ps, *values, idx) by {
                    lemma_ravel(idx, dims);
                }
            }
        }
        let ghost done = data@;
        let t = Self::from_results(self.shape(), data);
        proof {
            assert forall|idx: Seq<int>| in_shape(idx, t.dims()) implies #[trigger] t.at(idx)
                == written(*self, ps, *values, idx) by {
                t.lemma_at(idx);
                assert(done[ravel(idx, dims)] == t.at(idx));
            }
        }
        Ok(t)
    }

    /// Selects elements where `mask` (broadcast against `self`) is nonzero,
    /// returning a 1-D tensor: boolean-mask indexing.
    ///
    /// Fails when `mask` cannot broadcast against `self`.
    pub fn masked_select(&self, mask: &Self) -> (r: OxitorchResult<Self>)
        ensures
            match r {
                Ok(t) => broadcast_error(self.dims(), mask.dims()) is None && mask_result(
                    *self,
                    *mask,
                    t,
                ) && t.contiguous_layout(),
                Err(e) => broadcast_error(self.dims(), mask.dims()) == Some(e@),
            },
    {
        match self.masked_pick(mask) {
            Ok((t, _)) => Ok(t),
            Err(e) => Err(e),
        }
    }

    /// The selection of [`Tensor::masked_select`], with the row-major position
    /// in `self` that each element came from.
    pub(crate) fn masked_pick(&self, mask: &Self) -> (r: OxitorchResult<(Self, Vec<usize>)>)
        ensures
            match r {
                Ok((t, places)) => broadcast_error(self.dims(), mask.dims()) is None
                    && mask_result_at(*self, *mask, t, index_of(places@))
                    && t.contiguous_layout() && forall|k: int|
                    0 <= k < places@.len() ==> #[trigger] places@[k] < self.count(),
                Err(e) => broadcast_error(self.dims(), mask.dims()) == Some(e@),
            },
    {
        let out_shape = match joint_shape(self.shape(), mask.shape()) {
            Ok(s) => s,
            Err(e) => {
                return Err(e);
            },
        };
        proof {
            law_broadcast_covers_operands(self.dims(), mask.dims());
        }
        let z = E::zero();
        let kernel = |v: &[E]| -> (x: (E, bool))
            requires
                v.len() == 2,
            ensures
                x.0 == v@[0],
                call_ensures(E::equal, (v@[1], z), !x.1),
            { (v[0], !E::equal(v[1], z)) };
        let pairs = self.zip_with(mask, out_shape.as_slice(), kernel);
        let from = self.source_places(out_shape.as_slice());
        let ghost values = spread_data(*self, out_shape@);
        let ghost origins = spread_places(self.dims(), out_shape@);
        let ghost keep = Seq::new(pairs@.len(), |p: int| pairs@[p].1);
        proof {
            let marks = spread_data(*mask, out_shape@);
            assert forall|p: int| 0 <= p < pairs@.len() implies (#[trigger] pairs@[p]).0
                == values[p] && call_ensures(E::equal, (marks[p], z), !pairs@[p].1) by {
                assert(mapped(
                    kernel,
                    seq![
                        self.at(broadcast_index(unravel(p, out_shape@), self.dims())),
                        mask.at(broadcast_index(unravel(p, out_shape@), mask.dims())),
                    ],
                    pairs@[p],
                ));
            }
            assert forall|p: int| 0 <= p < marks.len() implies call_ensures(
                E::equal,
                (marks[p], z),
                !#[trigger] keep[p],
            ) by {
                assert(pairs@[p].1 == keep[p]);
            }
            assert(flags_nonzero(marks, keep)) by {
                assert(is_zero(z));
            }
        }
        let mut picked: Vec<E> = Vec::new();
        let mut places: Vec<usize> = Vec::new();
        let mut p: usize = 0;
        proof {
            assert(index_of(places@) =~= Seq::<int>::empty());
        }
        while p < pairs.len()
            invariant
                0 <= p <= pairs.len(),
                values.len() == pairs.len(),
                from.len() == pairs.len(),
                origins.len() == pairs.len(),
                keep == Seq::new(pairs@.len(), |q: int| pairs@[q].1),
                forall|q: int| 0 <= q < pairs.len() ==> (#[trigger] pairs@[q]).0 == values[q],
                forall|q: int|
                    0 <= q < from.len() ==> #[trigger] from@[q] == origins[q] && from@[q]
                        < self.count(),
                picked@ == kept(values.take(p as int), keep.take(p as int)),
                index_of(places@) == kept(origins.take(p as int), keep.take(p as int)),
                forall|k: int| 0 <= k < places@.len() ==> #[trigger] places@[k] < self.count(),
            decreases pairs.len() - p,
        {
            let (x, selected) = pairs[p];
            let ghost before = places@;
            if selected {
                picked.push(x);
                places.push(from[p]);
            }
            p = p + 1;
            proof {
                assert(values.take(p as int).drop_last() =~= values.take(p - 1));
                assert(origins.take(p as int).drop_last() =~= origins.take(p - 1));
                assert(keep.take(p as int).drop_last() =~= keep.take(p - 1));
                assert(pairs@[p - 1].0 == values[p - 1]);
                assert(from@[p - 1] == origins[p - 1]);
                if selected {
                    assert(index_of(places@) =~= index_of(before).push(from@[p - 1] as int));
                }
            }
        }
        assert(values.take(p as int) =~= values);
        assert(origins.take(p as int) =~= origins);
        assert(keep.take(p as int) =~= keep);
        let dims: Vec<usize> = vec![picked.len()];
        proof {
            lemma_rank1(dims@, 0);
            assert(dims@ =~= seq![picked.len() as usize]);
        }
        let t = Self::from_results(dims.as_slice(), picked);
        proof {
            let out = broadcast_of(self.dims(), mask.dims());
            assert(flags_nonzero(spread_data(*mask, out), keep) && t.data() == kept(
                spread_data(*self, out),
                keep,
            ));
        }
        Ok((t, places))
    }

    /// For every position of a broadcast to `out`, the row-major position in
    /// `self` that it shows.
    fn source_places(&self, out: &[usize]) -> (r: Vec<usize>)
        requires
            expands_to(self.dims(), out@),
            product(out@) <= usize::MAX,
        ensures
            r.len() == product(out@),
            forall|p: int|
                0 <= p < r.len() ==> #[trigger] r@[p] == spread_places(self.dims(), out@)[p]
                    && r@[p] < self.count(),
    {
        let n: usize = self.numel();
        let mut numbers: Vec<usize> = Vec::with_capacity(n);
        let mut i: usize = 0;
        while i < n
            invariant
                0 <= i <= n,
                numbers.len() == i,
                forall|j: int| 0 <= j < i ==> #[trigger] numbers@[j] == j,
            decreases n - i,
        {
            numbers.push(i);
            i = i + 1;
        }
        let grid: Tensor<usize> = Tensor::from_results(self.shape(), numbers);
        match grid.broadcast_to(out) {
            Ok(wide) => {
                let r = wide.to_vec();
                proof {
                    assert forall|p: int| 0 <= p < r.len() implies #[trigger] r@[p]
                        == spread_places(self.dims(), out@)[p] && r@[p] < self.count() by {
                        lemma_unravel(p, out@);
                        let idx = unravel(p, out@);
                        assert(in_shape(idx, out@));
                        let from = broadcast_index(idx, self.dims());
                        assert(wide.at(idx) == grid.at(from));
                        grid.lemma_at(from);
                    }
                }
                r
            },
            Err(_) => Vec::new(),
        }
    }
}

/// For every position of a broadcast of `dims` to `out`, the row-major
/// position that it shows.
pub open spec fn spread_places(dims: Seq<usize>, out: Seq<usize>) -> Seq<int> {
    Seq::new(product(out), |p: int| ravel(broadcast_index(unravel(p, out), dims), dims))
}

/// As [`mask_result`], with `places` the row-major positions that the
/// elements came from.
pub open spec fn mask_result_at<E: Elem>(
    t: Tensor<E>,
    mask: Tensor<E>,
    r: Tensor<E>,
    places: Seq<int>,
) -> bool {
    let out = broadcast_of(t.dims(), mask.dims());
    exists|keep: Seq<bool>| #[trigger]
        flags_nonzero(spread_data(mask, out), keep) && r.data() == kept(spread_data(t, out), keep)
            && r.dims() == seq![r.data().len() as usize] && places == kept(
            spread_places(t.dims(), out),
            keep,
        )
}

/// The last place of a value holds it, and no later place does.
pub proof fn lemma_last_place(picks: Seq<int>, v: int)
    ensures
        match last_place(picks, v) {
            Some(k) => 0 <= k < picks.len() && picks[k] == v && forall|j: int|
                k < j < picks.len() ==> picks[j] != v,
            None => forall|j: int| 0 <= j < picks.len() ==> picks[j] != v,
        },
    decreases picks.len(),
{
    if picks.len() > 0 && picks.last() != v {
        let init = picks.drop_last();
        lemma_last_place(init, v);
        assert(forall|j: int| 0 <= j < init.len() ==> init[j] == picks[j]);
        assert(picks[picks.len() - 1] != v);
        assert forall|j: int| 0 <= j < picks.len() && last_place(init, v) is None implies picks[j]
            != v by {
            if j < init.len() {
                assert(init[j] != v);
            }
        }
        assert forall|j: int|
            last_place(init, v) is Some && last_place(init, v)->0 < j < picks.len() implies picks[j]
            != v by {
            if j < init.len() {
                assert(init[j] != v);
            }
        }
    }
}

/// Where the last row written over flat position `p` comes from, if any was.
pub open spec fn row_source(p: int, picks: Seq<int>, inner: int) -> Option<int> {
    match last_place(picks, p / inner) {
        Some(k) => Some(k * inner + p % inner),
        None => None,
    }
}

/// Writes the rows of `values` over the rows `picks` of `data`, in order.
fn write_rows<E: Copy>(
    data: &mut Vec<E>,
    picks: &[usize],
    values: &[E],
    rows: usize,
    inner: usize,
)
    requires
        inner > 0,
        old(data).len() == rows * inner,
        values.len() == picks.len() * inner,
        forall|k: int| 0 <= k < picks.len() ==> #[trigger] picks@[k] < rows,
    ensures
        final(data).len() == rows * inner,
        forall|p: int|
            0 <= p < final(data).len() ==> #[trigger] final(data)@[p] == match row_source(
                p,
                index_of(picks@),
                inner as int,
            ) {
                Some(q) => values@[q],
                None => old(data)@[p],
            },
{
    let ghost start = data@;
    let ghost ps = index_of(picks@);
    let mut k: usize = 0;
    while k < picks.len()
        invariant
            0 <= k <= picks.len(),
            inner > 0,
            data.len() == rows * inner,
            start.len() == rows * inner,
            values.len() == picks.len() * inner,
            ps == index_of(picks@),
            forall|j: int| 0 <= j < picks.len() ==> #[trigger] picks@[j] < rows,
            forall|p: int|
                0 <= p < data.len() ==> #[trigger] data@[p] == match row_source(
                    p,
                    ps.take(k as int),
                    inner as int,
                ) {
                    Some(q) => values@[q],
                    None => start[p],
                },
        decreases picks.len() - k,
    {
        let row: usize = picks[k];
        assert(row * inner + inner <= rows * inner && k * inner + inner <= picks.len() * inner)
            by (nonlinear_arith)
            requires
                row < rows,
                k < picks.len(),
                inner > 0,
        ;
        let to: usize = row * inner;
        let from: usize = k * inner;
        let ghost before = data@;
        let mut i: usize = 0;
        while i < inner
            invariant
                0 <= i <= inner,
                inner > 0,
                to == row * inner,
                from == k * inner,
                to + inner <= data.len(),
                from + inner <= values.len(),
                data.len() == before.len(),
                forall|p: int|
                    0 <= p < data.len() ==> #[trigger] data@[p] == if to <= p < to + i {
                        values@[from + (p - to)]
                    } else {
                        before[p]
                    },
            decreases inner - i,
        {
            data[to + i] = values[from + i];
            i = i + 1;
        }
        k = k + 1;
        proof {
            let now = ps.take(k as int);
            assert(now.drop_last() =~= ps.take(k - 1));
            assert(now.last() == row);
            assert forall|p: int| 0 <= p < data.len() implies #[trigger] data@[p]
                == match row_source(p, now, inner as int) {
                Some(q) => values@[q],
                None => start[p],
            } by {
                lemma_fundamental_div_mod(p, inner as int);
                lemma_mod_bound(p, inner as int);
                if to <= p < to + inner {
                    lemma_fundamental_div_mod_converse(p, inner as int, row as int, p - to);
                } else {
                    if p / inner as int == row {
                        lemma_mul_is_commutative(inner as int, row as int);
                        assert(false);
                    }
                    assert(data@[p] == before[p]);
                }
            }
        }
    }
    assert(ps.take(k as int) =~= ps);
}

} // verus!
