//! Which elements views and selections show, and which requests they accept.

use vstd::prelude::*;
use vstd::arithmetic::div_mod::*;
use crate::elem::{Elem, is_zero};
use crate::error::ErrorText;
use crate::exact::Exact;
use crate::index::{
    in_shape, index2, is_permutation, lemma_product_remove, lemma_product_update, permuted, product,
};
use crate::layout::{broadcastable, expands_to, law_slice_selects_range, resolve_bound};
use crate::ops::ReduceKind;
use crate::tensor::{Tensor, broadcast_error};
use crate::tensor::indexing::{
    first_out_of_range, flags_nonzero, index_select_error, kept, lemma_last_place, picks_slices,
    scatter_dim0_error, writes_rows, written,
};
use crate::tensor::laws::lemma_same_data;
use crate::tensor::matmul::{bmm_error, matmul_error};
use crate::tensor::reduce::reduce_error;
use crate::tensor::views::{
    expand_error, first_invalid, inferred_count, inferred_place, known_dims, lemma_inferred_none,
    lemma_permute_moves, narrow_error, narrow_len, narrow_result, order_error, permute_error,
    permute_result, reshape_dims, reshape_error, resolved_order, select_error, select_result,
    slice_stop, transpose_result,
};
use crate::text::{ints, list_text};

verus! {

/// A slice `lo..hi` with step `by` shows the entries `lo`, `lo + by`, ... below
/// `hi` and no others, in that order.
pub proof fn law_narrow_shows<E>(
    src: Tensor<E>,
    d: int,
    lo: int,
    hi: int,
    by: int,
    t: Tensor<E>,
    idx: Seq<int>,
)
    requires
        0 <= d < src.dims().len(),
        by > 0,
        narrow_result(
            src,
            d,
            resolve_bound(src.dims()[d] as int, lo),
            by,
            narrow_len(src.dims()[d] as int, lo, hi, by),
            t,
        ),
        idx.len() == src.dims().len(),
        forall|j: int|
            0 <= j < idx.len() && j != d ==> 0 <= #[trigger] idx[j] < src.dims()[j],
        0 <= idx[d],
    ensures
        ({
            let x = resolve_bound(src.dims()[d] as int, lo) + by * idx[d];
            &&& in_shape(idx, t.dims()) <==> x < resolve_bound(src.dims()[d] as int, hi)
            &&& in_shape(idx, t.dims()) ==> t.at(idx) == src.at(idx.update(d, x))
        }),
{
    let len = src.dims()[d] as int;
    let a = resolve_bound(len, lo);
    let b = slice_stop(len, lo, hi);
    law_slice_selects_range(a, b, by, idx[d]);
    assert(by * idx[d] == idx[d] * by) by (nonlinear_arith);
    assert(idx[d] * by >= 0) by (nonlinear_arith)
        requires
            idx[d] >= 0,
            by > 0,
    ;
    if idx[d] < t.dims()[d] {
        assert forall|j: int| 0 <= j < idx.len() implies 0 <= #[trigger] idx[j] < t.dims()[j] by {
            assert(j == d || t.dims()[j] == src.dims()[j]);
        }
        assert(in_shape(idx, t.dims()));
    }
    if in_shape(idx, t.dims()) {
        assert(0 <= idx[d] < t.dims()[d]);
    }
}

/// A request to narrow is accepted exactly for a dimension that exists and a
/// positive step.
pub proof fn law_narrow_accepted(ndim: int, dim: int, by: int)
    requires
        ndim >= 0,
    ensures
        narrow_error(ndim, dim, by) is None <==> -ndim <= dim < ndim && by > 0,
{
}

/// Selecting entry `x` of a dimension shows the elements whose index there is
/// `x`, by the rest of their index.
pub proof fn law_select_shows<E>(src: Tensor<E>, d: int, x: int, t: Tensor<E>, idx: Seq<int>)
    requires
        0 <= d < src.dims().len(),
        select_result(src, d, x, t),
        in_shape(idx, src.dims()),
        idx[d] == x,
    ensures
        in_shape(idx.remove(d), t.dims()),
        t.at(idx.remove(d)) == src.at(idx),
{
    let rest = idx.remove(d);
    assert forall|j: int| 0 <= j < rest.len() implies 0 <= #[trigger] rest[j] < t.dims()[j] by {
        if j < d {
            assert(rest[j] == idx[j]);
        } else {
            assert(rest[j] == idx[j + 1]);
        }
    }
    assert(rest.insert(d, x) =~= idx);
    assert(in_shape(rest, t.dims()));
}

/// A request to select is accepted exactly for a dimension and an entry that
/// exist, counted from either end.
pub proof fn law_select_accepted(dims: Seq<usize>, dim: int, index: int)
    ensures
        select_error(dims, dim, index) is None <==> {
            let n = dims.len() as int;
            let d = if dim < 0 {
                n + dim
            } else {
                dim
            };
            0 <= d < n && -(dims[d] as int) <= index < dims[d]
        },
{
}

/// Reordered dimensions take their sizes and indices along.
pub proof fn law_permute_shows<E>(src: Tensor<E>, perm: Seq<int>, t: Tensor<E>, idx: Seq<int>)
    requires
        permute_result(src, perm, t),
        in_shape(idx, t.dims()),
    ensures
        t.dims().len() == src.dims().len(),
        forall|k: int| 0 <= k < perm.len() ==> #[trigger] t.dims()[k] == src.dims()[perm[k]],
        forall|from: Seq<int>|
            in_shape(from, src.dims()) && (forall|k: int|
                0 <= k < perm.len() ==> #[trigger] idx[k] == from[perm[k]]) ==> t.at(idx)
                == #[trigger] src.at(from),
{
    assert forall|from: Seq<int>|
        in_shape(from, src.dims()) && (forall|k: int|
            0 <= k < perm.len() ==> #[trigger] idx[k] == from[perm[k]]) implies t.at(idx)
        == #[trigger] src.at(from) by {
        lemma_permute_moves(src, perm, t, from);
        assert(permuted(from, perm) =~= idx);
    }
}

proof fn lemma_order(order: Seq<i64>, k: int)
    requires
        0 <= k <= order.len(),
    ensures
        order_error(order, k) is None <==> forall|i: int|
            k <= i < order.len() ==> 0 <= #[trigger] resolved_order(order)[i] < order.len()
                && forall|j: int| 0 <= j < i
                    ==> resolved_order(order)[j] != resolved_order(order)[i],
    decreases order.len() - k,
{
    let r = resolved_order(order);
    if k < order.len() {
        lemma_order(order, k + 1);
        if order_error(order, k) is None {
            assert forall|i: int| k <= i < order.len() implies 0 <= #[trigger] r[i] < order.len()
                && forall|j: int| 0 <= j < i ==> r[j] != r[i] by {
                if i == k {
                    assert forall|j: int| 0 <= j < i implies r[j] != r[i] by {}
                }
            }
        }
        if forall|i: int|
            k <= i < order.len() ==> 0 <= #[trigger] r[i] < order.len() && forall|j: int|
                0 <= j < i ==> r[j] != r[i] {
            assert(0 <= r[k] < order.len());
        }
    }
}

/// An order is accepted exactly when it names every dimension once, counted
/// from either end.
pub proof fn law_permute_accepted(ndim: int, order: Seq<i64>)
    requires
        ndim >= 0,
    ensures
        permute_error(ndim, order) is None <==> order.len() == ndim && is_permutation(
            resolved_order(order),
        ),
{
    lemma_order(order, 0);
    let r = resolved_order(order);
    if order.len() == ndim && order_error(order, 0) is None {
        assert forall|i: int, j: int| 0 <= i < j < r.len() implies #[trigger] r[i]
            != #[trigger] r[j] by {
            assert(0 <= r[j] < order.len());
        }
    }
    if is_permutation(r) {
        assert forall|i: int| 0 <= i < order.len() implies 0 <= #[trigger] r[i] < order.len()
            && forall|j: int| 0 <= j < i ==> r[j] != r[i] by {
            assert forall|j: int| 0 <= j < i implies r[j] != r[i] by {}
        }
    }
}

/// The first index out of range is out of range, and every index before it is
/// in range.
pub proof fn law_first_out_of_range(indices: Seq<i64>, len: int)
    requires
        len >= 0,
    ensures
        match first_out_of_range(indices, len) {
            None => forall|k: int|
                0 <= k < indices.len() ==> -len <= #[trigger] indices[k] < len,
            Some(bad) => exists|k: int|
                0 <= k < indices.len() && #[trigger] indices[k] == bad && !(-len <= bad < len) && (
                forall|j: int| 0 <= j < k ==> -len <= #[trigger] indices[j] < len),
        },
    decreases indices.len(),
{
    if indices.len() > 0 {
        let init = indices.drop_last();
        law_first_out_of_range(init, len);
        match first_out_of_range(init, len) {
            None => {
                assert forall|k: int| 0 <= k < init.len() implies -len <= #[trigger] indices[k]
                    < len by {
                    assert(-len <= init[k] < len);
                }
                let k = indices.len() - 1;
                assert(indices[k] == indices.last());
            },
            Some(bad) => {
                let k = choose|k: int|
                    0 <= k < init.len() && #[trigger] init[k] == bad && !(-len <= bad < len) && (
                    forall|j: int| 0 <= j < k ==> -len <= #[trigger] init[j] < len);
                assert(indices[k] == bad);
                assert forall|j: int| 0 <= j < k implies -len <= #[trigger] indices[j] < len by {
                    assert(-len <= init[j] < len);
                }
            },
        }
    }
}

/// Indices to gather by are accepted exactly when all are in range, counted
/// from either end, and the result can be counted.
pub proof fn law_index_select_accepted(dims: Seq<usize>, dim: int, indices: Seq<i64>)
    requires
        indices.len() <= usize::MAX,
    ensures
        index_select_error(dims, dim, indices) is None <==> {
            let n = dims.len() as int;
            let d = if dim < 0 {
                n + dim
            } else {
                dim
            };
            &&& 0 <= d < n
            &&& forall|k: int|
                0 <= k < indices.len() ==> -(dims[d] as int) <= #[trigger] indices[k] < dims[d]
            &&& product(dims.update(d, indices.len() as usize)) <= usize::MAX
        },
{
    let n = dims.len() as int;
    let d = if dim < 0 {
        n + dim
    } else {
        dim
    };
    if 0 <= d < n {
        law_first_out_of_range(indices, dims[d] as int);
    }
}

/// What slice `k` of a selection along a dimension shows is what selecting the
/// entry that its index names shows.
pub proof fn law_index_select_is_selects<E>(
    src: Tensor<E>,
    d: int,
    picks: Seq<int>,
    t: Tensor<E>,
    k: int,
    from: Tensor<E>,
    to: Tensor<E>,
)
    requires
        0 <= d < src.dims().len(),
        picks.len() <= usize::MAX,
        picks_slices(src, d, picks, t),
        0 <= k < picks.len(),
        select_result(src, d, picks[k], from),
        select_result(t, d, k, to),
    ensures
        to.dims() == from.dims(),
        to.data() == from.data(),
{
    assert(to.dims() =~= from.dims());
    assert forall|idx: Seq<int>| in_shape(idx, to.dims()) implies #[trigger] to.at(idx) == from.at(
        idx,
    ) by {
        let full = idx.insert(d, k);
        assert(in_shape(full, t.dims()));
        assert(full[d] == k);
        assert(full.update(d, picks[k]) =~= idx.insert(d, picks[k]));
        assert(from.at(idx) == src.at(idx.insert(d, picks[k])));
    }
    lemma_same_data(to, from);
}

/// How many of the first `n` flags are set.
pub open spec fn set_before(keep: Seq<bool>, n: int) -> int
    decreases n,
{
    if n <= 0 {
        0
    } else {
        set_before(keep, n - 1) + if keep[n - 1] {
            1int
        } else {
            0int
        }
    }
}

proof fn lemma_set_before(keep: Seq<bool>, n: int)
    requires
        0 <= n <= keep.len(),
    ensures
        set_before(keep.drop_last(), n) == set_before(keep, n) || n == keep.len(),
    decreases n,
{
    if 0 < n < keep.len() {
        lemma_set_before(keep, n - 1);
    }
}

/// A mask keeps exactly the flagged elements, each once and in order: a flagged
/// element comes after as many others as flags are set before its own.
pub proof fn law_mask_keeps_flagged<E>(values: Seq<E>, keep: Seq<bool>)
    requires
        keep.len() == values.len(),
    ensures
        kept(values, keep).len() == set_before(keep, keep.len() as int),
        forall|i: int|
            0 <= i < keep.len() && #[trigger] keep[i] ==> 0 <= set_before(keep, i) < kept(
                values,
                keep,
            ).len() && kept(values, keep)[set_before(keep, i)] == values[i],
    decreases values.len(),
{
    if values.len() > 0 {
        let v = values.drop_last();
        let k = keep.drop_last();
        let n = keep.len() as int;
        law_mask_keeps_flagged(v, k);
        lemma_set_before(keep, n - 1);
        assert forall|i: int| 0 <= i < keep.len() && #[trigger] keep[i] implies 0 <= set_before(
            keep,
            i,
        ) < kept(values, keep).len() && kept(values, keep)[set_before(keep, i)] == values[i] by {
            lemma_set_before(keep, i);
            if i < n - 1 {
                assert(k[i]);
                assert(v[i] == values[i]);
            }
        }
    }
}

/// A mask flags exactly the values other than zero.
pub proof fn law_mask_flags<E: Elem>(m: Exact<E>, mask: Seq<E>, keep: Seq<bool>, p: int)
    requires
        m.arithmetic(),
        m.ordered(),
        flags_nonzero(mask, keep),
        0 <= p < mask.len(),
    ensures
        keep.len() == mask.len(),
        keep[p] <==> (m.val)(mask[p]) != 0real,
{
    let z = choose|z: E| #[trigger]
        is_zero(z) && forall|p: int|
            0 <= p < mask.len() ==> call_ensures(E::equal, (mask[p], z), !#[trigger] keep[p]);
    assert(call_ensures(E::equal, (mask[p], z), !keep[p]));
}

proof fn lemma_product_at(s: Seq<usize>, i: int, v: usize)
    requires
        0 <= i < s.len(),
        s[i] == 1,
    ensures
        product(s.update(i, v)) == v * product(s),
{
    lemma_product_update(s, i, v);
    lemma_product_remove(s, i);
    let rest = product(s.remove(i)) as int;
    assert(rest * v == v * (rest * 1)) by (nonlinear_arith);
}

/// A reshape keeps the number of elements and every dimension that was asked
/// for; only a `-1` is filled in.
pub proof fn law_reshape_dims(numel: nat, new_shape: Seq<i64>)
    requires
        numel <= usize::MAX,
        reshape_error(numel, new_shape) is None,
    ensures
        reshape_dims(numel, new_shape) is Some,
        ({
            let dims = reshape_dims(numel, new_shape)->0;
            &&& dims.len() == new_shape.len()
            &&& product(dims) == numel
            &&& forall|i: int|
                0 <= i < dims.len() && #[trigger] new_shape[i] != -1 ==> dims[i] == new_shape[i]
        }),
{
    let known = known_dims(new_shape);
    let n = product(known) as int;
    let dims = reshape_dims(numel, new_shape)->0;
    lemma_valid(new_shape);
    lemma_inferred_none(new_shape);
    if inferred_count(new_shape) > 0 {
        let at = inferred_place(new_shape);
        assert(0 <= at < new_shape.len() && new_shape[at] == -1);
        let v = numel as int / n;
        lemma_fundamental_div_mod(numel as int, n);
        assert(0 <= v <= numel) by (nonlinear_arith)
            requires
                numel == n * v + 0,
                n > 0,
                numel >= 0,
        ;
        lemma_product_at(known, at, v as usize);
        assert(n * v == v * n) by (nonlinear_arith);
    }
}

proof fn lemma_valid(new_shape: Seq<i64>)
    requires
        first_invalid(new_shape) is None,
    ensures
        forall|i: int| 0 <= i < new_shape.len() ==> #[trigger] new_shape[i] >= -1,
    decreases new_shape.len(),
{
    if new_shape.len() > 0 {
        let init = new_shape.drop_last();
        lemma_valid(init);
        assert forall|i: int| 0 <= i < new_shape.len() implies #[trigger] new_shape[i] >= -1 by {
            if i < init.len() {
                assert(init[i] >= -1);
            }
        }
    }
}

/// A transpose swaps rows and columns.
pub proof fn law_transpose_shows<E>(src: Tensor<E>, t: Tensor<E>, i: int, j: int)
    requires
        transpose_result(src, t),
        0 <= i < src.dims()[0],
        0 <= j < src.dims()[1],
    ensures
        t.dims() == seq![src.dims()[1], src.dims()[0]],
        t.at(index2(j, i)) == src.at(index2(i, j)),
{
}

/// Matrices are multiplied exactly when the first has as many columns as the
/// second has rows and the result can be counted.
pub proof fn law_matmul_accepted(a: Seq<usize>, b: Seq<usize>)
    ensures
        matmul_error(a, b) is None <==> a.len() == 2 && b.len() == 2 && a[1] == b[0] && a[0] * b[1]
            <= usize::MAX,
{
}

/// Stacks of matrices are multiplied exactly when they have as many matrices,
/// these can be multiplied, and the result can be counted.
pub proof fn law_bmm_accepted(a: Seq<usize>, b: Seq<usize>)
    ensures
        bmm_error(a, b) is None <==> a.len() == 3 && b.len() == 3 && a[0] == b[0] && a[2] == b[1]
            && a[0] * (a[1] * b[2]) <= usize::MAX,
{
}

/// A reduction is accepted exactly for a dimension that exists, of a length
/// that the reduction has a value for, with a result that can be counted.
pub proof fn law_reduce_accepted(dims: Seq<usize>, kind: ReduceKind, dim: int, keepdim: bool)
    ensures
        reduce_error(dims, kind, dim, keepdim) is None <==> {
            let n = dims.len() as int;
            let d = if dim < 0 {
                n + dim
            } else {
                dim
            };
            &&& 0 <= d < n
            &&& dims[d] > 0 || kind == ReduceKind::Sum || kind == ReduceKind::Mean || kind
                == ReduceKind::Norm
            &&& product(
                if keepdim {
                    dims.update(d, 1)
                } else {
                    dims.remove(d)
                },
            ) <= usize::MAX
        },
{
}

// ---- complaints ---------------------------------------------------------------------

/// A complaint about an argument.
pub open spec fn blames_argument(e: Option<ErrorText>) -> bool {
    e is Some && e->0 is InvalidArgument
}

/// A complaint about bounds.
pub open spec fn blames_bounds(e: Option<ErrorText>) -> bool {
    e is Some && e->0 is OutOfBounds
}

/// An index out of range is a complaint about bounds; a dimension that does not
/// exist, about the argument.
pub proof fn law_index_complaints(dims: Seq<usize>, dim: int, index: int, indices: Seq<i64>)
    requires
        indices.len() <= usize::MAX,
    ensures
        ({
            let n = dims.len() as int;
            let d = if dim < 0 {
                n + dim
            } else {
                dim
            };
            &&& !(0 <= d < n) ==> blames_argument(select_error(dims, dim, index))
                && blames_argument(index_select_error(dims, dim, indices))
            &&& 0 <= d < n && !(-(dims[d] as int) <= index < dims[d]) ==> blames_bounds(
                select_error(dims, dim, index),
            )
            &&& 0 <= d < n && (exists|k: int|
                0 <= k < indices.len() && !(-(dims[d] as int) <= #[trigger] indices[k] < dims[d]))
                ==> blames_bounds(index_select_error(dims, dim, indices))
        }),
{
    let n = dims.len() as int;
    let d = if dim < 0 {
        n + dim
    } else {
        dim
    };
    if 0 <= d < n {
        law_first_out_of_range(indices, dims[d] as int);
    }
}

/// Shapes that do not fit together are a complaint that shows both.
pub proof fn law_shape_complaints(a: Seq<usize>, b: Seq<usize>)
    ensures
        !broadcastable(a, b) ==> broadcast_error(a, b) == Some(
            ErrorText::ShapeMismatch { lhs: list_text(ints(a)), rhs: list_text(ints(b)) },
        ),
        a.len() == 2 && b.len() == 2 && a[1] != b[0] ==> matmul_error(a, b) == Some(
            ErrorText::ShapeMismatch { lhs: list_text(ints(a)), rhs: list_text(ints(b)) },
        ),
        !expands_to(a, b) ==> expand_error(a, b) == Some(
            ErrorText::ShapeMismatch { lhs: list_text(ints(a)), rhs: list_text(ints(b)) },
        ),
{
}

// ---- writing rows -------------------------------------------------------------------

/// Writing rows leaves, at every row, the last row written there, and the base
/// where none was.
pub proof fn law_scatter_shows<E>(
    base: Tensor<E>,
    picks: Seq<int>,
    values: Tensor<E>,
    t: Tensor<E>,
    idx: Seq<int>,
    k: int,
)
    requires
        base.dims().len() > 0,
        writes_rows(base, picks, values, t),
        in_shape(idx, base.dims()),
    ensures
        t.dims() == base.dims(),
        (forall|j: int| 0 <= j < picks.len() ==> #[trigger] picks[j] != idx[0]) ==> t.at(idx)
            == base.at(idx),
        0 <= k < picks.len() && picks[k] == idx[0] && (forall|j: int|
            k < j < picks.len() ==> #[trigger] picks[j] != idx[0]) ==> t.at(idx) == values.at(
            idx.update(0, k),
        ),
{
    lemma_last_place(picks, idx[0]);
    assert(t.at(idx) == written(base, picks, values, idx));
}

/// Rows are written exactly where there is a first dim, all indices are in
/// range, and there is a row of the base's shape for every index.
pub proof fn law_scatter_accepted(dims: Seq<usize>, indices: Seq<i64>, values: Seq<usize>)
    requires
        indices.len() <= usize::MAX,
    ensures
        scatter_dim0_error(dims, indices, values) is None <==> dims.len() > 0 && values.len()
            == dims.len() && values[0] == indices.len() && (forall|i: int|
            0 < i < dims.len() ==> #[trigger] values[i] == dims[i]) && (forall|k: int|
            0 <= k < indices.len() ==> -(dims[0] as int) <= #[trigger] indices[k] < dims[0]),
{
    if dims.len() > 0 {
        law_first_out_of_range(indices, dims[0] as int);
        let wanted = dims.update(0, indices.len() as usize);
        if values.len() == dims.len() && values[0] == indices.len() && (forall|i: int|
            0 < i < dims.len() ==> #[trigger] values[i] == dims[i]) {
            assert(values =~= wanted);
        }
    }
}

} // verus!
