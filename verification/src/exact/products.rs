//! What matrix products and their rules compute.

use vstd::prelude::*;
use vstd::arithmetic::div_mod::*;
use crate::autograd::rules::OpGrad;
use crate::autograd::unbroadcast::unbroadcast_result;
use crate::elem::Elem;
use crate::exact::{Exact, lemma_total_equal, total};
use crate::exact::gradients::law_unbroadcast_keeps_shape;
use crate::index::{index2, index3, lemma_rank2, lemma_rank3, permuted};
use crate::ops::PARALLEL_GEMM_THRESHOLD_ELEMENTS;
use crate::tensor::Tensor;
use crate::tensor::matmul::{
    block_rows, bmm_result, is_blocked_product, is_gemm, kernel_returned, matmul_result, plane_of,
};
use crate::tensor::views::{lemma_permute_moves, permute_result, transpose_result};

verus! {

/// One term of entry `(i, j)` of a product of an `inner` columns wide matrix
/// with a `cols` columns wide one, both row by row.
pub open spec fn term<E>(
    m: Exact<E>,
    x: Seq<E>,
    y: Seq<E>,
    inner: int,
    cols: int,
    i: int,
    j: int,
    c: int,
) -> real {
    (m.val)(x[i * inner + c]) * (m.val)(y[c * cols + j])
}

impl<E: Elem> Exact<E> {
    /// The GEMM kernel computes matrix products.
    pub open spec fn products(self) -> bool {
        forall|rows: usize, inner: usize, cols: usize, x: &[E], y: &[E], z: Vec<E>| #[trigger]
            kernel_returned(rows, inner, cols, x, y, z) && x@.len() == rows * inner && y@.len()
                == inner * cols ==> z@.len() == rows * cols && forall|i: int, j: int|
                #![trigger term(self, x@, y@, inner as int, cols as int, i, j, 0)]
                0 <= i < rows && 0 <= j < cols ==> (self.val)(z@[i * cols + j]) == total(
                    |c: int| term(self, x@, y@, inner as int, cols as int, i, j, c),
                    inner as nat,
                )
    }
}

proof fn lemma_gemm<E: Elem>(
    m: Exact<E>,
    rows: int,
    inner: int,
    cols: int,
    a: Seq<E>,
    b: Seq<E>,
    c: Seq<E>,
    i: int,
    j: int,
    f: spec_fn(int) -> real,
)
    requires
        m.products(),
        is_gemm(rows, inner, cols, a, b, c),
        a.len() == rows * inner,
        b.len() == inner * cols,
        0 <= i < rows,
        0 <= j < cols,
        forall|k: int| 0 <= k < inner ==> #[trigger] f(k) == term(m, a, b, inner, cols, i, j, k),
    ensures
        (m.val)(c[i * cols + j]) == total(f, inner as nat),
{
    let (r, n, w, x, y, z) = choose|
        r: usize,
        n: usize,
        w: usize,
        x: &[E],
        y: &[E],
        z: Vec<E>,
    |
        r == rows && n == inner && w == cols && x@ == a && y@ == b && z@ == c
            && #[trigger] kernel_returned(r, n, w, x, y, z);
    let t = term(m, x@, y@, n as int, w as int, i, j, 0);
    let h = |k: int| term(m, x@, y@, n as int, w as int, i, j, k);
    assert((m.val)(z@[i * w + j]) == total(h, n as nat));
    assert forall|k: int| 0 <= k < inner implies #[trigger] h(k) == f(k) by {
        assert(f(k) == term(m, a, b, inner, cols, i, j, k));
    }
    lemma_total_equal(h, f, n as nat);
}

/// Entry `(i, j)` of a matrix product is the sum over `c` of the products of
/// entry `(i, c)` of the first matrix with entry `(c, j)` of the second.
pub proof fn law_matmul<E: Elem>(
    m: Exact<E>,
    a: Tensor<E>,
    b: Tensor<E>,
    t: Tensor<E>,
    i: int,
    j: int,
)
    requires
        m.products(),
        a.dims().len() == 2,
        b.dims().len() == 2,
        a.dims()[1] == b.dims()[0],
        matmul_result(a, b, t),
        0 <= i < a.dims()[0],
        0 <= j < b.dims()[1],
    ensures
        (m.val)(t.at(index2(i, j))) == total(
            |c: int| (m.val)(a.at(index2(i, c))) * (m.val)(b.at(index2(c, j))),
            a.dims()[1] as nat,
        ),
{
    let rows = a.dims()[0] as int;
    let k = a.dims()[1] as int;
    let n = b.dims()[1] as int;
    let block = choose|block: int| #[trigger]
        is_blocked_product(rows, k, n, a.data(), b.data(), t.data(), block) && (rows * k * n
            < PARALLEL_GEMM_THRESHOLD_ELEMENTS ==> block >= rows);
    let q = i / block;
    let i0 = i % block;
    lemma_fundamental_div_mod(i, block);
    lemma_mod_bound(i, block);
    assert(q * block == block * q) by (nonlinear_arith);
    assert(q >= 0) by (nonlinear_arith)
        requires
            i >= 0,
            block > 0,
            i == block * q + i0,
            0 <= i0 < block,
    ;
    let height = block_rows(rows, q, block);
    assert((q + 1) * block == q * block + block) by (nonlinear_arith);
    assert(0 <= i0 < height <= block);
    let from = q * block;
    assert(from * k == q * block * k && from * n == q * block * n) by (nonlinear_arith)
        requires
            from == q * block,
    ;
    let xs = a.data().subrange(q * block * k, (q * block + height) * k);
    let zs = t.data().subrange(q * block * n, (q * block + height) * n);
    assert(is_gemm(height, k, n, xs, b.data(), zs));
    lemma_rank2(a.dims(), i, 0);
    lemma_rank2(b.dims(), 0, j);
    lemma_rank2(t.dims(), i, j);
    assert((from + height) * k == from * k + height * k && (from + height) * n == from * n + height
        * n && (from + height) * k <= rows * k && (from + height) * n <= rows * n && 0 <= from * k
        && 0 <= from * n) by (nonlinear_arith)
        requires
            0 <= from,
            from + height <= rows,
            0 <= k,
            0 <= n,
    ;
    assert(xs.len() == height * k);
    let f = |c: int| (m.val)(a.at(index2(i, c))) * (m.val)(b.at(index2(c, j)));
    assert forall|c: int| 0 <= c < k implies #[trigger] f(c) == term(
        m,
        xs,
        b.data(),
        k,
        n,
        i0,
        j,
        c,
    ) by {
        lemma_rank2(a.dims(), i, c);
        lemma_rank2(b.dims(), c, j);
        a.lemma_at(index2(i, c));
        b.lemma_at(index2(c, j));
        assert(0 <= i0 * k + c < height * k && from * k + (i0 * k + c) == i * k + c)
            by (nonlinear_arith)
            requires
                0 <= i0 < height,
                0 <= c < k,
                i == from + i0,
        ;
    }
    lemma_gemm(m, height, k, n, xs, b.data(), zs, i0, j, f);
    t.lemma_at(index2(i, j));
    assert(0 <= i0 * n + j < height * n && from * n + (i0 * n + j) == i * n + j)
        by (nonlinear_arith)
        requires
            0 <= i0 < height,
            0 <= j < n,
            i == from + i0,
    ;
}

/// As [`law_matmul`], for every batch.
pub proof fn law_bmm<E: Elem>(
    m: Exact<E>,
    a: Tensor<E>,
    b: Tensor<E>,
    t: Tensor<E>,
    q: int,
    i: int,
    j: int,
)
    requires
        m.products(),
        a.dims().len() == 3,
        b.dims().len() == 3,
        a.dims()[0] == b.dims()[0],
        a.dims()[2] == b.dims()[1],
        bmm_result(a, b, t),
        0 <= q < a.dims()[0],
        0 <= i < a.dims()[1],
        0 <= j < b.dims()[2],
    ensures
        (m.val)(t.at(index3(q, i, j))) == total(
            |c: int| (m.val)(a.at(index3(q, i, c))) * (m.val)(b.at(index3(q, c, j))),
            a.dims()[2] as nat,
        ),
{
    let w = a.dims()[1] as int;
    let k = a.dims()[2] as int;
    let n = b.dims()[2] as int;
    let xs = plane_of(a.data(), q, w * k);
    let ys = plane_of(b.data(), q, k * n);
    let zs = plane_of(t.data(), q, w * n);
    assert(is_gemm(w, k, n, xs, ys, zs));
    lemma_rank3(a.dims(), q, i, 0);
    lemma_rank3(b.dims(), q, 0, j);
    lemma_rank3(t.dims(), q, i, j);
    lemma_plane(a.dims()[0] as int, w, k, q);
    lemma_plane(a.dims()[0] as int, k, n, q);
    lemma_plane(a.dims()[0] as int, w, n, q);
    let f = |c: int| (m.val)(a.at(index3(q, i, c))) * (m.val)(b.at(index3(q, c, j)));
    assert forall|c: int| 0 <= c < k implies #[trigger] f(c) == term(m, xs, ys, k, n, i, j, c) by {
        lemma_rank3(a.dims(), q, i, c);
        lemma_rank3(b.dims(), q, c, j);
        a.lemma_at(index3(q, i, c));
        b.lemma_at(index3(q, c, j));
        lemma_entry(w, k, q, i, c);
        lemma_entry(k, n, q, c, j);
    }
    lemma_gemm(m, w, k, n, xs, ys, zs, i, j, f);
    t.lemma_at(index3(q, i, j));
    lemma_entry(w, n, q, i, j);
}

proof fn lemma_plane(count: int, h: int, w: int, q: int)
    requires
        0 <= q < count,
        0 <= h,
        0 <= w,
    ensures
        0 <= q * (h * w),
        (q + 1) * (h * w) == q * (h * w) + h * w,
        (q + 1) * (h * w) <= count * h * w,
        (q + 1) * (h * w) <= count * (h * w),
{
    assert(0 <= q * (h * w) && (q + 1) * (h * w) == q * (h * w) + h * w && (q + 1) * (h * w)
        <= count * (h * w) && count * (h * w) == count * h * w) by (nonlinear_arith)
        requires
            0 <= q < count,
            0 <= h,
            0 <= w,
    ;
}

proof fn lemma_entry(h: int, w: int, q: int, i: int, j: int)
    requires
        0 <= i < h,
        0 <= j < w,
        0 <= q,
    ensures
        0 <= i * w + j < h * w,
        q * (h * w) + (i * w + j) == (q * h + i) * w + j,
{
    assert(0 <= i * w + j < h * w && q * (h * w) + (i * w + j) == (q * h + i) * w + j)
        by (nonlinear_arith)
        requires
            0 <= i < h,
            0 <= j < w,
            0 <= q,
    ;
}

/// The rule of a matrix product hands back `g b^T` and `a^T g`: every entry
/// gets the sum of the gradients of the entries it takes part in, times its
/// partners.
pub proof fn law_matmul_gradient<E: Elem>(
    m: Exact<E>,
    a: Tensor<E>,
    b: Tensor<E>,
    g: Tensor<E>,
    r: Seq<Tensor<E>>,
    i: int,
    c: int,
    j: int,
)
    requires
        m.products(),
        a.dims().len() == 2,
        b.dims().len() == 2,
        a.dims()[1] == b.dims()[0],
        g.dims() == seq![a.dims()[0], b.dims()[1]],
        (OpGrad::Matmul { a, b }).gives(g, r),
        0 <= i < a.dims()[0],
        0 <= c < a.dims()[1],
        0 <= j < b.dims()[1],
    ensures
        r[0].dims() == a.dims(),
        r[1].dims() == b.dims(),
        (m.val)(r[0].at(index2(i, c))) == total(
            |k: int| (m.val)(g.at(index2(i, k))) * (m.val)(b.at(index2(c, k))),
            b.dims()[1] as nat,
        ),
        (m.val)(r[1].at(index2(c, j))) == total(
            |k: int| (m.val)(a.at(index2(k, c))) * (m.val)(g.at(index2(k, j))),
            a.dims()[0] as nat,
        ),
{
    let (bt, ga) = choose|bt: Tensor<E>, ga: Tensor<E>| #[trigger]
        transpose_result(b, bt) && #[trigger] matmul_result(g, bt, ga) && unbroadcast_result(
            ga,
            a.dims(),
            r[0],
        );
    let (at, gb) = choose|at: Tensor<E>, gb: Tensor<E>| #[trigger]
        transpose_result(a, at) && #[trigger] matmul_result(at, g, gb) && unbroadcast_result(
            gb,
            b.dims(),
            r[1],
        );
    assert(ga.dims() =~= a.dims());
    assert(gb.dims() =~= b.dims());
    law_unbroadcast_keeps_shape(ga, r[0]);
    law_unbroadcast_keeps_shape(gb, r[1]);
    lemma_rank2(a.dims(), i, c);
    lemma_rank2(b.dims(), c, j);
    r[0].lemma_at(index2(i, c));
    ga.lemma_at(index2(i, c));
    r[1].lemma_at(index2(c, j));
    gb.lemma_at(index2(c, j));
    law_matmul(m, g, bt, ga, i, c);
    law_matmul(m, at, g, gb, c, j);
    let fa = |k: int| (m.val)(g.at(index2(i, k))) * (m.val)(bt.at(index2(k, c)));
    let ha = |k: int| (m.val)(g.at(index2(i, k))) * (m.val)(b.at(index2(c, k)));
    assert forall|k: int| 0 <= k < b.dims()[1] implies #[trigger] fa(k) == ha(k) by {
        assert(bt.at(index2(k, c)) == b.at(index2(c, k)));
    }
    lemma_total_equal(fa, ha, b.dims()[1] as nat);
    let fb = |k: int| (m.val)(at.at(index2(c, k))) * (m.val)(g.at(index2(k, j)));
    let hb = |k: int| (m.val)(a.at(index2(k, c))) * (m.val)(g.at(index2(k, j)));
    assert forall|k: int| 0 <= k < a.dims()[0] implies #[trigger] fb(k) == hb(k) by {
        assert(at.at(index2(c, k)) == a.at(index2(k, c)));
    }
    lemma_total_equal(fb, hb, a.dims()[0] as nat);
}

/// A stack of matrices, each transposed.
proof fn lemma_transposed<E>(t: Tensor<E>, tt: Tensor<E>, q: int, i: int, j: int)
    requires
        t.dims().len() == 3,
        permute_result(t, index3(0, 2, 1), tt),
        0 <= q < t.dims()[0],
        0 <= i < t.dims()[1],
        0 <= j < t.dims()[2],
    ensures
        tt.dims() == seq![t.dims()[0], t.dims()[2], t.dims()[1]],
        tt.at(index3(q, j, i)) == t.at(index3(q, i, j)),
{
    lemma_rank3(t.dims(), q, i, j);
    lemma_permute_moves(t, index3(0, 2, 1), tt, index3(q, i, j));
    assert(permuted(index3(q, i, j), index3(0, 2, 1)) =~= index3(q, j, i));
    assert(tt.dims() =~= seq![t.dims()[0], t.dims()[2], t.dims()[1]]);
}

/// As [`law_matmul_gradient`], for every batch.
pub proof fn law_bmm_gradient<E: Elem>(
    m: Exact<E>,
    a: Tensor<E>,
    b: Tensor<E>,
    g: Tensor<E>,
    r: Seq<Tensor<E>>,
    q: int,
    i: int,
    c: int,
    j: int,
)
    requires
        m.products(),
        a.dims().len() == 3,
        b.dims().len() == 3,
        a.dims()[0] == b.dims()[0],
        a.dims()[2] == b.dims()[1],
        g.dims() == seq![a.dims()[0], a.dims()[1], b.dims()[2]],
        (OpGrad::Bmm { a, b }).gives(g, r),
        0 <= q < a.dims()[0],
        0 <= i < a.dims()[1],
        0 <= c < a.dims()[2],
        0 <= j < b.dims()[2],
    ensures
        r[0].dims() == a.dims(),
        r[1].dims() == b.dims(),
        (m.val)(r[0].at(index3(q, i, c))) == total(
            |k: int| (m.val)(g.at(index3(q, i, k))) * (m.val)(b.at(index3(q, c, k))),
            b.dims()[2] as nat,
        ),
        (m.val)(r[1].at(index3(q, c, j))) == total(
            |k: int| (m.val)(a.at(index3(q, k, c))) * (m.val)(g.at(index3(q, k, j))),
            a.dims()[1] as nat,
        ),
{
    let (bt, ga) = choose|bt: Tensor<E>, ga: Tensor<E>| #[trigger]
        permute_result(b, index3(0, 2, 1), bt) && #[trigger] bmm_result(g, bt, ga)
            && unbroadcast_result(ga, a.dims(), r[0]);
    let (at, gb) = choose|at: Tensor<E>, gb: Tensor<E>| #[trigger]
        permute_result(a, index3(0, 2, 1), at) && #[trigger] bmm_result(at, g, gb)
            && unbroadcast_result(gb, b.dims(), r[1]);
    lemma_transposed(a, at, q, i, c);
    lemma_transposed(b, bt, q, c, j);
    assert(ga.dims() =~= a.dims());
    assert(gb.dims() =~= b.dims());
    law_unbroadcast_keeps_shape(ga, r[0]);
    law_unbroadcast_keeps_shape(gb, r[1]);
    lemma_rank3(a.dims(), q, i, c);
    lemma_rank3(b.dims(), q, c, j);
    r[0].lemma_at(index3(q, i, c));
    ga.lemma_at(index3(q, i, c));
    r[1].lemma_at(index3(q, c, j));
    gb.lemma_at(index3(q, c, j));
    law_bmm(m, g, bt, ga, q, i, c);
    law_bmm(m, at, g, gb, q, c, j);
    let fa = |k: int| (m.val)(g.at(index3(q, i, k))) * (m.val)(bt.at(index3(q, k, c)));
    let ha = |k: int| (m.val)(g.at(index3(q, i, k))) * (m.val)(b.at(index3(q, c, k)));
    assert forall|k: int| 0 <= k < b.dims()[2] implies #[trigger] fa(k) == ha(k) by {
        lemma_transposed(b, bt, q, c, k);
    }
    lemma_total_equal(fa, ha, b.dims()[2] as nat);
    let fb = |k: int| (m.val)(at.at(index3(q, c, k))) * (m.val)(g.at(index3(q, k, j)));
    let hb = |k: int| (m.val)(a.at(index3(q, k, c))) * (m.val)(g.at(index3(q, k, j)));
    assert forall|k: int| 0 <= k < a.dims()[1] implies #[trigger] fb(k) == hb(k) by {
        lemma_transposed(a, at, q, k, c);
    }
    lemma_total_equal(fb, hb, a.dims()[1] as nat);
}

} // verus!
