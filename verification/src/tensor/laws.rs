//! What holds across tensor operations.

use vstd::prelude::*;
use crate::elem::Elem;
use crate::index::{
    in_shape, index2, index3, inverse, lemma_inverse, lemma_rank2, lemma_rank3, lemma_ravel,
    lemma_unravel, permuted, product, ravel, unravel,
};
use crate::layout::{resolve_bound, signed_dims, strides_of};
use crate::tensor::Tensor;
use crate::tensor::indexing::{
    kept, last_place, lemma_last_place, picks_slices, writes_rows, written,
};
use crate::tensor::matmul::{
    block_rows, bmm_error, bmm_result, is_blocked_product, is_gemm, matmul_error, matmul_result,
    plane_of,
};
use crate::tensor::views::{
    known_dims, lemma_no_inferred, narrow_len, narrow_result, narrow_source, permute_result,
    reshape_dims, reshape_error, select_result, transpose_result,
};

verus! {

/// Two tensors of one shape with equal elements everywhere have equal data.
pub proof fn lemma_same_data<E>(a: Tensor<E>, b: Tensor<E>)
    requires
        a.dims() == b.dims(),
        forall|idx: Seq<int>| in_shape(idx, a.dims()) ==> #[trigger] a.at(idx) == b.at(idx),
    ensures
        a.data() == b.data(),
{
    assert forall|p: int| 0 <= p < a.count() implies a.data()[p] == #[trigger] b.data()[p] by {
        lemma_unravel(p, a.dims());
        assert(a.at(unravel(p, a.dims())) == b.at(unravel(p, a.dims())));
    }
    assert(a.data() =~= b.data());
}

/// Permuting the dimensions and permuting them back gives the same tensor.
pub proof fn law_permute_inverse<E>(
    src: Tensor<E>,
    perm: Seq<int>,
    there: Tensor<E>,
    back: Tensor<E>,
)
    requires
        permute_result(src, perm, there),
        permute_result(there, inverse(perm), back),
    ensures
        back.dims() == src.dims(),
        back.data() == src.data(),
{
    lemma_inverse(perm);
    let inv = inverse(perm);
    assert forall|v: int| 0 <= v < perm.len() implies back.dims()[v] == #[trigger] src.dims()[v] by {
        assert(perm[inv[v]] == v);
    }
    assert(back.dims() =~= src.dims());
    assert forall|idx: Seq<int>| in_shape(idx, src.dims()) implies #[trigger] back.at(idx)
        == src.at(idx) by {
        let mid = permuted(idx, inverse(inv));
        lemma_inverse(inv);
        assert(back.at(idx) == there.at(mid));
        assert(there.at(mid) == src.at(permuted(mid, inv)));
        assert forall|v: int| 0 <= v < perm.len() implies permuted(mid, inv)[v]
            == #[trigger] idx[v] by {
            assert(inverse(inv)[inv[v]] == v);
        }
        assert(permuted(mid, inv) =~= idx);
    }
    lemma_same_data(back, src);
}

/// Transposing twice gives the same matrix.
pub proof fn law_transpose_involution<E>(src: Tensor<E>, there: Tensor<E>, back: Tensor<E>)
    requires
        transpose_result(src, there),
        transpose_result(there, back),
    ensures
        back.dims() == src.dims(),
        back.data() == src.data(),
{
    assert(back.dims() =~= src.dims());
    assert forall|idx: Seq<int>| in_shape(idx, back.dims()) implies #[trigger] back.at(idx)
        == src.at(idx) by {
        assert(0 <= idx[0] < back.dims()[0] && 0 <= idx[1] < back.dims()[1]);
        assert(idx =~= index2(idx[0], idx[1]));
        assert(back.at(index2(idx[0], idx[1])) == there.at(index2(idx[1], idx[0])));
        assert(there.at(index2(idx[1], idx[0])) == src.at(index2(idx[0], idx[1])));
    }
    lemma_same_data(back, src);
}

/// A slice over a whole dimension with step 1 changes nothing.
pub proof fn law_full_slice_is_identity<E>(src: Tensor<E>, d: int, t: Tensor<E>)
    requires
        0 <= d < src.dims().len(),
        narrow_result(
            src,
            d,
            resolve_bound(src.dims()[d] as int, 0),
            1,
            narrow_len(src.dims()[d] as int, 0, src.dims()[d] as int, 1),
            t,
        ),
    ensures
        t.dims() == src.dims(),
        t.data() == src.data(),
{
    let len = src.dims()[d] as int;
    assert(narrow_len(len, 0, len, 1) == len);
    assert(t.dims() =~= src.dims());
    assert forall|idx: Seq<int>| in_shape(idx, t.dims()) implies #[trigger] t.at(idx) == src.at(
        idx,
    ) by {
        assert(narrow_source(idx, d, 0, 1) =~= idx);
    }
    lemma_same_data(t, src);
}

/// Two slices, one of the other, are one slice: steps multiply and starts
/// add up.
pub proof fn law_slices_compose<E>(
    src: Tensor<E>,
    d: int,
    start1: int,
    by1: int,
    len1: int,
    mid: Tensor<E>,
    start2: int,
    by2: int,
    len2: int,
    t: Tensor<E>,
    start: int,
    by: int,
)
    requires
        0 <= d < src.dims().len(),
        0 <= len2 <= usize::MAX,
        narrow_result(src, d, start1, by1, len1, mid),
        narrow_result(mid, d, start2, by2, len2, t),
        start == start1 + start2 * by1,
        by == by1 * by2,
    ensures
        narrow_result(src, d, start, by, len2, t),
{
    assert(t.dims() =~= src.dims().update(d, len2 as usize));
    assert forall|idx: Seq<int>| #[trigger] in_shape(idx, t.dims()) implies in_shape(
        narrow_source(idx, d, start, by),
        src.dims(),
    ) && t.at(idx) == src.at(narrow_source(idx, d, start, by)) by {
        let a = narrow_source(idx, d, start2, by2);
        let b = narrow_source(a, d, start1, by1);
        assert(t.at(idx) == mid.at(a));
        assert(mid.at(a) == src.at(b));
        let x = idx[d];
        assert(start1 + (start2 + x * by2) * by1 == start1 + start2 * by1 + x * (by1 * by2))
            by (nonlinear_arith);
        assert(b =~= narrow_source(idx, d, start, by));
    }
}

/// Gathering the rows that were just scattered gives back what was written:
/// for every index the row last written under it.
pub proof fn law_gather_after_scatter<E>(
    base: Tensor<E>,
    picks: Seq<int>,
    values: Tensor<E>,
    scattered: Tensor<E>,
    gathered_rows: Tensor<E>,
    idx: Seq<int>,
)
    requires
        base.dims().len() > 0,
        values.dims() == base.dims().update(0, picks.len() as usize),
        writes_rows(base, picks, values, scattered),
        picks_slices(scattered, 0, picks, gathered_rows),
        in_shape(idx, gathered_rows.dims()),
    ensures
        last_place(picks, picks[idx[0]]) is Some,
        gathered_rows.at(idx) == values.at(
            idx.update(0, last_place(picks, picks[idx[0]])->0),
        ),
{
    let from = idx.update(0, picks[idx[0]]);
    assert(gathered_rows.at(idx) == scattered.at(from));
    assert(0 <= idx[0] < gathered_rows.dims()[0]);
    assert(scattered.at(from) == written(base, picks, values, from));
    assert(idx[0] < picks.len() as usize);
    lemma_last_place(picks, picks[idx[0]]);
    let k = last_place(picks, from[0]);
    assert(k is Some);
    assert(from.update(0, k->0) =~= idx.update(0, k->0));
}

/// With distinct indices, gathering what was scattered gives back exactly the
/// rows written.
pub proof fn law_gather_after_scatter_distinct<E>(
    base: Tensor<E>,
    picks: Seq<int>,
    values: Tensor<E>,
    scattered: Tensor<E>,
    gathered_rows: Tensor<E>,
)
    requires
        base.dims().len() > 0,
        picks.len() <= usize::MAX,
        values.dims() == base.dims().update(0, picks.len() as usize),
        writes_rows(base, picks, values, scattered),
        picks_slices(scattered, 0, picks, gathered_rows),
        forall|i: int, j: int| 0 <= i < j < picks.len() ==> picks[i] != picks[j],
    ensures
        gathered_rows.dims() == values.dims(),
        gathered_rows.data() == values.data(),
{
    assert forall|idx: Seq<int>| in_shape(idx, gathered_rows.dims()) implies #[trigger] gathered_rows
        .at(idx) == values.at(idx) by {
        law_gather_after_scatter(base, picks, values, scattered, gathered_rows, idx);
        assert(0 <= idx[0] < gathered_rows.dims()[0]);
        let k = last_place(picks, picks[idx[0]])->0;
        lemma_last_place(picks, picks[idx[0]]);
        assert(k == idx[0]) by {
            if k < idx[0] {
                assert(picks[k] != picks[idx[0]]);
            }
            if idx[0] < k {
                assert(picks[idx[0]] != picks[k]);
            }
        }
        assert(idx.update(0, k) =~= idx);
    }
    lemma_same_data(gathered_rows, values);
}

/// Scattering leaves every row alone that no index names.
pub proof fn law_scatter_keeps_other_rows<E>(
    base: Tensor<E>,
    picks: Seq<int>,
    values: Tensor<E>,
    scattered: Tensor<E>,
    idx: Seq<int>,
)
    requires
        writes_rows(base, picks, values, scattered),
        in_shape(idx, base.dims()),
        forall|k: int| 0 <= k < picks.len() ==> picks[k] != idx[0],
    ensures
        scattered.at(idx) == base.at(idx),
{
    lemma_last_place(picks, idx[0]);
}

/// Reshaping to a tensor's own shape is always possible and keeps the shape,
/// so a reshape can always be undone.
pub proof fn law_reshape_to_own_shape(dims: Seq<usize>)
    requires
        forall|i: int| 0 <= i < dims.len() ==> #[trigger] dims[i] <= i64::MAX,
    ensures
        reshape_error(product(dims), signed_dims(dims)) is None,
        reshape_dims(product(dims), signed_dims(dims)) == Some(dims),
{
    let s = signed_dims(dims);
    assert forall|i: int| 0 <= i < s.len() implies 0 <= #[trigger] s[i] && s[i] == dims[i] by {
        assert(dims[i] <= i64::MAX);
    }
    lemma_no_inferred(s);
    assert(known_dims(s) =~= dims);
}

/// The row-major positions of a shape and its indices correspond one to one.
pub proof fn law_row_major_bijection(shape: Seq<usize>, pos: int, idx: Seq<int>)
    ensures
        0 <= pos < product(shape) ==> in_shape(unravel(pos, shape), shape) && ravel(
            unravel(pos, shape),
            shape,
        ) == pos,
        in_shape(idx, shape) ==> 0 <= ravel(idx, shape) < product(shape) && unravel(
            ravel(idx, shape),
            shape,
        ) == idx,
{
    if 0 <= pos < product(shape) {
        lemma_unravel(pos, shape);
    }
    if in_shape(idx, shape) {
        lemma_ravel(idx, shape);
    }
}

/// A mask keeps at most as many elements as there are, and keeps them all
/// when every flag is set.
pub proof fn law_mask_keeps<E>(values: Seq<E>, keep: Seq<bool>)
    requires
        keep.len() == values.len(),
    ensures
        kept(values, keep).len() <= values.len(),
        (forall|i: int| 0 <= i < keep.len() ==> #[trigger] keep[i]) ==> kept(values, keep)
            == values,
        (forall|i: int| 0 <= i < keep.len() ==> !#[trigger] keep[i]) ==> kept(values, keep)
            == Seq::<E>::empty(),
    decreases values.len(),
{
    if values.len() > 0 {
        let v = values.drop_last();
        let k = keep.drop_last();
        law_mask_keeps(v, k);
        assert(forall|i: int| 0 <= i < k.len() ==> k[i] == keep[i]);
        if forall|i: int| 0 <= i < keep.len() ==> #[trigger] keep[i] {
            assert(forall|i: int| 0 <= i < k.len() ==> #[trigger] k[i]);
            assert(keep[keep.len() - 1]);
            assert(v.push(values.last()) =~= values);
        }
        if forall|i: int| 0 <= i < keep.len() ==> !#[trigger] keep[i] {
            assert(forall|i: int| 0 <= i < k.len() ==> !#[trigger] k[i]);
            assert(!keep[keep.len() - 1]);
        }
    } else {
        assert(values =~= Seq::<E>::empty());
    }
}

/// `p` holds matrix `q` of the stack `t`.
spec fn is_matrix_of<E>(t: Tensor<E>, q: int, p: Tensor<E>) -> bool {
    &&& p.dims() == seq![t.dims()[1], t.dims()[2]]
    &&& forall|i: int, j: int|
        0 <= i < t.dims()[1] && 0 <= j < t.dims()[2] ==> #[trigger] p.at(index2(i, j)) == t.at(
            index3(q, i, j),
        )
}

/// A matrix of a stack holds one plane of its elements.
proof fn lemma_matrix_data<E>(t: Tensor<E>, q: int, p: Tensor<E>)
    requires
        t.dims().len() == 3,
        0 <= q < t.dims()[0],
        is_matrix_of(t, q, p),
    ensures
        p.data() == plane_of(t.data(), q, t.dims()[1] * t.dims()[2]),
{
    let rows = t.dims()[1] as int;
    let cols = t.dims()[2] as int;
    let plane = rows * cols;
    lemma_rank2(p.dims(), 0, 0);
    lemma_rank3(t.dims(), q, 0, 0);
    assert(0 <= q * plane && (q + 1) * plane <= t.dims()[0] * plane) by (nonlinear_arith)
        requires
            0 <= q,
            q + 1 <= t.dims()[0],
            plane == rows * cols,
            0 <= rows,
            0 <= cols,
    ;
    assert((q + 1) * plane == q * plane + plane) by (nonlinear_arith);
    let whole = plane_of(t.data(), q, plane);
    assert forall|pos: int| 0 <= pos < plane implies p.data()[pos] == #[trigger] whole[pos] by {
        let i = pos / cols;
        let j = pos % cols;
        assert(cols > 0) by (nonlinear_arith)
            requires
                0 <= pos < plane,
                plane == rows * cols,
                0 <= cols,
        ;
        assert(0 <= i < rows && 0 <= j < cols && i * cols + j == pos) by (nonlinear_arith)
            requires
                0 <= pos < rows * cols,
                cols > 0,
                i == pos / cols,
                j == pos % cols,
        ;
        lemma_rank2(p.dims(), i, j);
        lemma_rank3(t.dims(), q, i, j);
        p.lemma_at(index2(i, j));
        t.lemma_at(index3(q, i, j));
        assert(p.at(index2(i, j)) == t.at(index3(q, i, j)));
    }
    assert(p.data() =~= whole);
}

/// Selecting from a stack gives a matrix of it, contiguous if the stack is.
proof fn lemma_selected_matrix<E>(t: Tensor<E>, q: int, p: Tensor<E>)
    requires
        t.dims().len() == 3,
        0 <= q < t.dims()[0],
        select_result(t, 0, q, p),
    ensures
        is_matrix_of(t, q, p),
        t.contiguous_layout() ==> p.contiguous_layout(),
{
    assert(p.dims() =~= seq![t.dims()[1], t.dims()[2]]);
    assert forall|i: int, j: int| 0 <= i < t.dims()[1] && 0 <= j < t.dims()[2] implies
        #[trigger] p.at(index2(i, j)) == t.at(index3(q, i, j)) by {
        lemma_rank2(p.dims(), i, j);
        assert(index2(i, j).insert(0, q) =~= index3(q, i, j));
    }
    if t.contiguous_layout() {
        assert(p.steps() =~= strides_of(p.dims())) by {
            assert forall|i: int| 0 <= i < 2 implies #[trigger] p.steps()[i] == strides_of(
                p.dims(),
            )[i] by {
                assert(t.dims().skip(i + 2) =~= p.dims().skip(i + 1));
            }
        }
    }
}

/// A batched product holds, for every batch, a product of the batch's two
/// matrices: what is selected from the result is a product of what is
/// selected from the operands.
pub proof fn law_bmm_is_matmul_per_batch<E: Elem>(
    a: Tensor<E>,
    b: Tensor<E>,
    out: Tensor<E>,
    q: int,
    ma: Tensor<E>,
    mb: Tensor<E>,
    mout: Tensor<E>,
)
    requires
        bmm_error(a.dims(), b.dims()) is None,
        bmm_result(a, b, out),
        0 <= q < a.dims()[0],
        select_result(a, 0, q, ma),
        select_result(b, 0, q, mb),
        select_result(out, 0, q, mout),
    ensures
        matmul_error(ma.dims(), mb.dims()) is None,
        matmul_result(ma, mb, mout),
{
    let m = a.dims()[1] as int;
    let k = a.dims()[2] as int;
    let n = b.dims()[2] as int;
    lemma_selected_matrix(a, q, ma);
    lemma_selected_matrix(b, q, mb);
    lemma_selected_matrix(out, q, mout);
    lemma_matrix_data(a, q, ma);
    lemma_matrix_data(b, q, mb);
    lemma_matrix_data(out, q, mout);
    assert(m * n <= a.dims()[0] * (m * n)) by (nonlinear_arith)
        requires
            a.dims()[0] >= 1,
            0 <= m,
            0 <= n,
    ;
    let c = mout.data();
    lemma_rank2(ma.dims(), 0, 0);
    lemma_rank2(mout.dims(), 0, 0);
    let block = if m == 0 {
        1
    } else {
        m
    };
    assert(plane_of(out.data(), q, m * n) == c);
    assert(is_gemm(m, k, n, ma.data(), mb.data(), c));
    assert forall|i: int| 0 <= i && i * block < m implies is_gemm(
        block_rows(m, i, block),
        k,
        n,
        ma.data().subrange(i * block * k, (i * block + block_rows(m, i, block)) * k),
        mb.data(),
        #[trigger] c.subrange(i * block * n, (i * block + block_rows(m, i, block)) * n),
    ) by {
        if i >= 1 {
            assert(i * block >= block) by (nonlinear_arith)
                requires
                    i >= 1,
                    block >= 1,
            ;
        }
        assert(ma.data().subrange(0, m * k) =~= ma.data());
        assert(c.subrange(0, m * n) =~= c);
    }
    assert(is_blocked_product(m, k, n, ma.data(), mb.data(), c, block));
}

} // verus!
