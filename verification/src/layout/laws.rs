//! What row-major order, broadcasting and indices counted from the end mean.

use vstd::prelude::*;
use crate::index::{
    dot, in_shape, inner_pos, lemma_product_concat, lemma_product_positive, lemma_rank1,
    lemma_ravel_split, lemma_ravel_tail, outer_pos, product, ravel,
};
use crate::layout::{
    aligned_dim, broadcast_index, broadcast_of, broadcastable, dims_agree, expands_to, joint_rank,
    law_broadcast_covers_operands, resolve_bound, resolve_dim, shape_error, sizes_of, strides_of,
};
use crate::tensor::lemma_rows_offset;

verus! {

/// Row-major order is the order of the indices, compared from the first
/// dimension on.
pub proof fn law_row_major_order(a: Seq<int>, b: Seq<int>, shape: Seq<usize>, k: int)
    requires
        in_shape(a, shape),
        in_shape(b, shape),
        0 <= k < shape.len(),
        forall|j: int| 0 <= j < k ==> a[j] == b[j],
        a[k] < b[k],
    ensures
        ravel(a, shape) < ravel(b, shape),
{
    lemma_ravel_split(a, shape, k);
    lemma_ravel_split(b, shape, k);
    assert(a.take(k) =~= b.take(k));
    let inner = product(shape.skip(k + 1)) as int;
    let o = outer_pos(a, shape, k) * shape[k];
    let i = inner_pos(a, shape, k);
    let j = inner_pos(b, shape, k);
    assert((o + a[k]) * inner + i < (o + b[k]) * inner + j) by (nonlinear_arith)
        requires
            a[k] + 1 <= b[k],
            0 <= i < inner,
            0 <= j,
    ;
}

/// Neighbours along the last dimension are neighbours in row-major order.
pub proof fn law_last_dimension_is_contiguous(idx: Seq<int>, shape: Seq<usize>)
    requires
        shape.len() > 0,
        in_shape(idx, shape),
    ensures
        ravel(idx.update(idx.len() - 1, idx[idx.len() - 1] + 1), shape) == ravel(idx, shape) + 1,
{
    let n = shape.len() - 1;
    let next = idx.update(n, idx[n] + 1);
    lemma_ravel_tail(next, idx, shape, n);
    lemma_rank1(shape.skip(n), idx[n]);
    lemma_rank1(shape.skip(n), idx[n] + 1);
    assert(next.skip(n) =~= seq![idx[n] + 1]);
    assert(idx.skip(n) =~= seq![idx[n]]);
}

/// The strides of a shape lead to the row-major position of every element.
pub proof fn law_strides_walk_row_major(shape: Seq<usize>, idx: Seq<int>)
    requires
        in_shape(idx, shape),
        product(shape) <= usize::MAX,
    ensures
        strides_of(shape).len() == shape.len(),
        dot(idx, strides_of(shape)) == ravel(idx, shape),
{
    lemma_rows_offset(shape, idx);
}

/// Two shapes broadcast exactly when some shape takes both, and the broadcast
/// shape expands to every such shape.
pub proof fn law_broadcast_is_smallest(a: Seq<usize>, b: Seq<usize>)
    ensures
        broadcastable(a, b) <==> exists|out: Seq<usize>|
            expands_to(a, out) && #[trigger] expands_to(b, out),
        forall|out: Seq<usize>|
            expands_to(a, out) && #[trigger] expands_to(b, out) ==> expands_to(
                broadcast_of(a, b),
                out,
            ),
{
    let n = joint_rank(a, b);
    if broadcastable(a, b) {
        law_broadcast_covers_operands(a, b);
        assert(expands_to(b, broadcast_of(a, b)));
    }
    assert forall|out: Seq<usize>| expands_to(a, out) && #[trigger] expands_to(b, out)
        implies expands_to(
        broadcast_of(a, b),
        out,
    ) && broadcastable(a, b) by {
        let lead = out.len() - n;
        assert forall|i: int| 0 <= i < n implies dims_agree(
            #[trigger] aligned_dim(a, n, i),
            aligned_dim(b, n, i),
        ) && (broadcast_of(a, b)[i] == 1 || broadcast_of(a, b)[i] == out[i + lead]) by {
            if i >= n - a.len() {
                let j = i - (n - a.len());
                assert(a[j] == 1 || a[j] == out[j + out.len() - a.len()]);
            }
            if i >= n - b.len() {
                let j = i - (n - b.len());
                assert(b[j] == 1 || b[j] == out[j + out.len() - b.len()]);
            }
        }
        assert forall|i: int| 0 <= i < n implies #[trigger] broadcast_of(a, b)[i] == 1
            || broadcast_of(a, b)[i] == out[i + out.len() - n] by {
            assert(dims_agree(aligned_dim(a, n, i), aligned_dim(b, n, i)));
        }
    }
}

/// Every dimension of a broadcast shape is that of one operand, and no
/// operand with another size than 1 is overruled.
pub proof fn law_broadcast_dimensions(a: Seq<usize>, b: Seq<usize>, i: int)
    requires
        broadcastable(a, b),
        0 <= i < broadcast_of(a, b).len(),
    ensures
        broadcast_of(a, b).len() == if a.len() < b.len() {
            b.len()
        } else {
            a.len()
        },
        ({
            let out = broadcast_of(a, b);
            let x = if i < out.len() - a.len() {
                1usize
            } else {
                a[i - (out.len() - a.len())]
            };
            let y = if i < out.len() - b.len() {
                1usize
            } else {
                b[i - (out.len() - b.len())]
            };
            &&& x == y || x == 1 || y == 1
            &&& x != 1 ==> out[i] == x
            &&& y != 1 ==> out[i] == y
            &&& x == 1 && y == 1 ==> out[i] == 1
        }),
{
    let n = joint_rank(a, b);
    assert(dims_agree(aligned_dim(a, n, i), aligned_dim(b, n, i)));
}

/// Broadcasting repeats along dimensions of size 1 and along new dimensions in
/// front, and nowhere else: an element shows at the index it has, counted from
/// the last dimension.
pub proof fn law_broadcast_shows(idx: Seq<int>, shape: Seq<usize>, out: Seq<usize>, at: Seq<int>)
    requires
        expands_to(shape, out),
        in_shape(idx, out),
        in_shape(at, shape),
    ensures
        broadcast_index(idx, shape) == at <==> forall|j: int|
            0 <= j < shape.len() && shape[j] != 1 ==> #[trigger] at[j] == idx[j + (out.len()
                - shape.len())],
{
    let b = broadcast_index(idx, shape);
    let lead = out.len() - shape.len();
    if forall|j: int|
        0 <= j < shape.len() && shape[j] != 1 ==> #[trigger] at[j] == idx[j + lead] {
        assert forall|j: int| 0 <= j < shape.len() implies b[j] == #[trigger] at[j] by {
            assert(0 <= at[j] < shape[j]);
        }
        assert(b =~= at);
    }
    if b == at {
        assert forall|j: int| 0 <= j < shape.len() && shape[j] != 1 implies #[trigger] at[j]
            == idx[j + lead] by {
            assert(b[j] == at[j]);
        }
    }
}

/// Dimensions and indices below zero count from the end: `-1` is the last.
pub proof fn law_negative_counts_from_end(n: int, k: int)
    ensures
        0 <= resolve_dim(k, n) < n <==> -n <= k < n && n > 0,
        0 <= k < n ==> resolve_dim(k, n) == k,
        1 <= k <= n ==> resolve_dim(-k, n) == n - k,
{
}

/// Slice bounds below zero count from the end, and bounds outside the
/// dimension are cut to it.
pub proof fn law_slice_bounds(n: int, v: int)
    requires
        n >= 0,
    ensures
        0 <= resolve_bound(n, v) <= n,
        0 <= v <= n ==> resolve_bound(n, v) == v,
        v > n ==> resolve_bound(n, v) == n,
        -n <= v < 0 ==> resolve_bound(n, v) == resolve_bound(n, n + v),
        v < -n ==> resolve_bound(n, v) == 0,
{
}

/// An accepted shape has no negative dimension and a countable number of
/// elements; a shape of positive dimensions with a countable number of
/// elements is accepted.
pub proof fn law_shape_accepted(dims: Seq<i64>)
    ensures
        shape_error(dims) is None ==> (forall|i: int|
            0 <= i < dims.len() ==> 0 <= #[trigger] dims[i]) && product(sizes_of(dims))
            <= usize::MAX,
        (forall|i: int| 0 <= i < dims.len() ==> 0 < #[trigger] dims[i] <= usize::MAX) && product(
            sizes_of(dims),
        ) <= usize::MAX ==> shape_error(dims) is None,
{
    let sizes = sizes_of(dims);
    assert(sizes.take(sizes.len() as int) =~= sizes);
    if (forall|i: int| 0 <= i < dims.len() ==> 0 < #[trigger] dims[i] <= usize::MAX) && product(
        sizes,
    ) <= usize::MAX {
        assert forall|k: int| 0 <= k <= sizes.len() implies product(#[trigger] sizes.take(k))
            <= usize::MAX by {
            let a = sizes.take(k);
            let b = sizes.skip(k);
            assert(sizes =~= a + b);
            lemma_product_concat(a, b);
            assert forall|i: int| 0 <= i < b.len() implies #[trigger] b[i] > 0 by {
                assert(dims[k + i] > 0);
            }
            lemma_product_positive(b);
            assert(product(a) <= product(a) * product(b)) by (nonlinear_arith)
                requires
                    product(b) >= 1,
                    product(a) >= 0,
            ;
        }
    }
}

} // verus!
