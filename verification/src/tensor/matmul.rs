//! Matrix products, built on the element type's GEMM kernel.

use vstd::prelude::*;
use vstd::arithmetic::div_mod::*;
use vstd::arithmetic::mul::*;
use vstd::string::*;
use crate::elem::{Elem, copy_elems};
use crate::error::{ErrorText, OxitorchError, OxitorchResult};
use crate::index::{lemma_rank2, lemma_rank3};
use crate::layout::{
    has_count, law_slice_selects_range, mismatch, mismatch_error, overflow, overflow_error,
    slice_len, span_len,
};
use crate::ops::PARALLEL_GEMM_THRESHOLD_ELEMENTS;
use crate::parallel::{par_collect, pool_threads, seq_collect};
use crate::tensor::Tensor;
use crate::text::{dims_string, ints, join2, join4, nat_text, usize_string};

verus! {

/// `c` is what the GEMM kernel returned for the `m` by `k` matrix `a` and the
/// `k` by `n` matrix `b`.
pub open spec fn is_gemm<E: Elem>(
    m: int,
    k: int,
    n: int,
    a: Seq<E>,
    b: Seq<E>,
    c: Seq<E>,
) -> bool {
    exists|rows: usize, inner: usize, cols: usize, x: &[E], y: &[E], z: Vec<E>|
        rows == m && inner == k && cols == n && x@ == a && y@ == b && z@ == c
            && #[trigger] kernel_returned(rows, inner, cols, x, y, z)
}

/// `z` is what the GEMM kernel returned for these arguments.
pub open spec fn kernel_returned<E: Elem>(
    rows: usize,
    inner: usize,
    cols: usize,
    x: &[E],
    y: &[E],
    z: Vec<E>,
) -> bool {
    call_ensures(E::gemm, (rows, inner, cols, x, y), z)
}

/// The rows in block `q` when `m` rows are cut into blocks of `block` rows.
pub open spec fn block_rows(m: int, q: int, block: int) -> int {
    if (q + 1) * block <= m {
        block
    } else {
        m - q * block
    }
}

/// `c` is the product of `a` and `b`, computed by the GEMM kernel in blocks of
/// `block` rows.
pub open spec fn is_blocked_product<E: Elem>(
    m: int,
    k: int,
    n: int,
    a: Seq<E>,
    b: Seq<E>,
    c: Seq<E>,
    block: int,
) -> bool {
    &&& block > 0
    &&& c.len() == m * n
    &&& forall|q: int|
        0 <= q && q * block < m ==> is_gemm(
            block_rows(m, q, block),
            k,
            n,
            a.subrange(q * block * k, (q * block + block_rows(m, q, block)) * k),
            b,
            #[trigger] c.subrange(q * block * n, (q * block + block_rows(m, q, block)) * n),
        )
}

/// `t` is the matrix product of `a` and `b`. Below the threshold the kernel
/// runs once on all rows; above it, once for every block of rows.
pub open spec fn matmul_result<E: Elem>(a: Tensor<E>, b: Tensor<E>, t: Tensor<E>) -> bool {
    let m = a.dims()[0] as int;
    let k = a.dims()[1] as int;
    let n = b.dims()[1] as int;
    &&& t.dims() == seq![m as usize, n as usize]
    &&& t.contiguous_layout()
    &&& exists|block: int| #[trigger]
        is_blocked_product(m, k, n, a.data(), b.data(), t.data(), block) && (m * k * n
            < PARALLEL_GEMM_THRESHOLD_ELEMENTS ==> block >= m)
}

/// Why two matrices cannot be multiplied, if they cannot.
pub open spec fn matmul_error(a: Seq<usize>, b: Seq<usize>) -> Option<ErrorText> {
    if a.len() != 2 || b.len() != 2 {
        Some(
            ErrorText::InvalidArgument(
                "matmul expects 2-D tensors, got ndim "@ + nat_text(a.len()) + " and "@ + nat_text(
                    b.len(),
                ),
            ),
        )
    } else if a[1] != b[0] {
        Some(mismatch_error(a, b))
    } else if a[0] * b[1] > usize::MAX {
        Some(overflow_error(seq![a[0] as int, b[1] as int]))
    } else {
        None
    }
}

/// Plane `q` of a stack of planes of `plane` elements.
pub open spec fn plane_of<E>(s: Seq<E>, q: int, plane: int) -> Seq<E> {
    s.subrange(q * plane, (q + 1) * plane)
}

/// `t` holds, for every batch, the product of the batch's two matrices as the
/// GEMM kernel returned it.
pub open spec fn bmm_result<E: Elem>(a: Tensor<E>, b: Tensor<E>, t: Tensor<E>) -> bool {
    let m = a.dims()[1] as int;
    let k = a.dims()[2] as int;
    let n = b.dims()[2] as int;
    &&& t.dims() == seq![a.dims()[0], m as usize, n as usize]
    &&& t.contiguous_layout()
    &&& forall|q: int|
        0 <= q < a.dims()[0] ==> is_gemm(
            m,
            k,
            n,
            plane_of(a.data(), q, m * k),
            plane_of(b.data(), q, k * n),
            #[trigger] plane_of(t.data(), q, m * n),
        )
}

/// Why two stacks of matrices cannot be multiplied, if they cannot.
pub open spec fn bmm_error(a: Seq<usize>, b: Seq<usize>) -> Option<ErrorText> {
    if a.len() != 3 || b.len() != 3 {
        Some(
            ErrorText::InvalidArgument(
                "bmm expects 3-D tensors, got ndim "@ + nat_text(a.len()) + " and "@ + nat_text(
                    b.len(),
                ),
            ),
        )
    } else if a[0] != b[0] {
        Some(
            ErrorText::ShapeMismatch {
                lhs: nat_text(a[0] as nat) + " batches"@,
                rhs: nat_text(b[0] as nat) + " batches"@,
            },
        )
    } else if a[2] != b[1] {
        Some(mismatch_error(a, b))
    } else if a[0] * (a[1] * b[2]) > usize::MAX {
        Some(overflow_error(seq![a[0] as int, a[1] as int, b[2] as int]))
    } else {
        None
    }
}

/// The complaint about a kernel that returned too few or too many values.
pub open spec fn kernel_error() -> ErrorText {
    ErrorText::Other("internal: gemm kernel returned a buffer of the wrong length"@)
}

/// The kernel, called on matrices of these sizes, can return a buffer of the
/// wrong length.
pub open spec fn kernel_misfits<E: Elem>(k: int, n: int) -> bool {
    exists|rows: usize, inner: usize, cols: usize, x: &[E], y: &[E], z: Vec<E>|
        inner == k && cols == n && z@.len() != rows * n && #[trigger] kernel_returned(
            rows,
            inner,
            cols,
            x,
            y,
            z,
        )
}

fn kernel_fault() -> (r: OxitorchError)
    ensures
        r@ == kernel_error(),
{
    OxitorchError::Other("internal: gemm kernel returned a buffer of the wrong length".to_string())
}

/// One call of the GEMM kernel.
fn run_kernel<E: Elem>(m: usize, k: usize, n: usize, a: &[E], b: &[E]) -> (z: Vec<E>)
    ensures
        is_gemm(m as int, k as int, n as int, a@, b@, z@),
        z@.len() != m * n ==> kernel_misfits::<E>(k as int, n as int),
{
    let z = E::gemm(m, k, n, a, b);
    assert(kernel_returned(m, k, n, a, b, z));
    z
}

/// Whether `a * b * c * d` reaches the parallel threshold.
fn is_large(a: usize, b: usize, c: usize, d: usize) -> (r: bool)
    ensures
        r == (a * b * c * d >= PARALLEL_GEMM_THRESHOLD_ELEMENTS),
{
    if a == 0 || b == 0 || c == 0 || d == 0 {
        assert(a * b * c * d == 0) by (nonlinear_arith)
            requires
                a == 0 || b == 0 || c == 0 || d == 0,
        ;
        return false;
    }
    proof {
        assert(a * b >= 1 && a * b * c >= a * b && a * b * c * d >= a * b * c) by (nonlinear_arith)
            requires
                a >= 1,
                b >= 1,
                c >= 1,
                d >= 1,
        ;
    }
    match a.checked_mul(b) {
        Some(ab) => match ab.checked_mul(c) {
            Some(abc) => match abc.checked_mul(d) {
                Some(all) => all >= PARALLEL_GEMM_THRESHOLD_ELEMENTS,
                None => true,
            },
            None => true,
        },
        None => true,
    }
}

/// How many rows one block holds: all of them for small workloads, else an
/// even split over twice the pool's threads.
fn rows_per_block(m: usize, large: bool) -> (r: usize)
    ensures
        r > 0,
        !large ==> r >= m,
{
    if !large || m == 0 {
        return if m == 0 {
            1
        } else {
            m
        };
    }
    let threads: usize = pool_threads();
    let parts: usize = if threads < 1 {
        2
    } else if threads > usize::MAX / 2 {
        usize::MAX
    } else {
        threads * 2
    };
    let size: usize = slice_len(0, m, parts);
    proof {
        law_slice_selects_range(0, m as int, parts as int, 0);
    }
    size
}

/// Joins `blocks`, whose lengths are given by `sizes`; `None` when a length
/// differs.
fn join_blocks<E: Copy>(blocks: &Vec<Vec<E>>, total: usize) -> (r: Option<Vec<E>>)
    ensures
        match r {
            Some(v) => v@ == joined(blocks@) && v.len() == total,
            None => joined(blocks@).len() != total,
        },
{
    let mut out: Vec<E> = Vec::new();
    let mut q: usize = 0;
    while q < blocks.len()
        invariant
            0 <= q <= blocks.len(),
            out@ == joined(blocks@.take(q as int)),
        decreases blocks.len() - q,
    {
        let mut part = copy_elems(blocks[q].as_slice());
        out.append(&mut part);
        q = q + 1;
        assert(blocks@.take(q as int).drop_last() =~= blocks@.take(q - 1));
    }
    assert(blocks@.take(q as int) =~= blocks@);
    if out.len() == total {
        Some(out)
    } else {
        None
    }
}

/// The blocks one after the other.
spec fn joined<E>(blocks: Seq<Vec<E>>) -> Seq<E>
    decreases blocks.len(),
{
    if blocks.len() == 0 {
        Seq::empty()
    } else {
        joined(blocks.drop_last()) + blocks.last()@
    }
}

/// In a run of blocks of equal size (the last possibly shorter), each block
/// is found at its place.
proof fn lemma_joined<E>(blocks: Seq<Vec<E>>, size: int, q: int)
    requires
        size >= 0,
        0 <= q < blocks.len(),
        forall|i: int| 0 <= i < blocks.len() - 1 ==> (#[trigger] blocks[i])@.len() == size,
    ensures
        joined(blocks).len() == (blocks.len() - 1) * size + blocks.last()@.len(),
        q * size + blocks[q]@.len() <= joined(blocks).len(),
        joined(blocks).subrange(q * size, q * size + blocks[q]@.len()) == blocks[q]@,
    decreases blocks.len(),
{
    let init = blocks.drop_last();
    if init.len() > 0 {
        assert forall|i: int| 0 <= i < init.len() - 1 implies (#[trigger] init[i])@.len()
            == size by {
            assert(init[i] == blocks[i]);
        }
        assert(blocks[init.len() - 1]@.len() == size);
        assert(init.last() == blocks[init.len() - 1]);
        lemma_joined(
            init,
            size,
            if q < init.len() {
                q
            } else {
                0
            },
        );
        assert((init.len() - 1) * size + size == init.len() * size) by (nonlinear_arith);
        if q < init.len() {
            assert(joined(blocks).subrange(q * size, q * size + blocks[q]@.len()) =~= joined(
                init,
            ).subrange(q * size, q * size + init[q]@.len()));
        } else {
            assert(joined(blocks).subrange(q * size, q * size + blocks[q]@.len()) =~= blocks[q]@);
        }
    } else {
        assert(joined(init) =~= Seq::<E>::empty());
        assert(0 * size == 0);
        assert(joined(blocks) =~= blocks[0]@);
        assert(joined(blocks).subrange(0, blocks[0]@.len() as int) =~= blocks[0]@);
    }
}

/// Whether every block has the length it should have.
fn blocks_fit<E>(blocks: &Vec<Vec<E>>, m: usize, n: usize, block: usize) -> (r: bool)
    requires
        block > 0,
        m * n <= usize::MAX,
        forall|q: int| 0 <= q < blocks.len() ==> #[trigger] (q * block) < m,
    ensures
        r == (forall|q: int|
            0 <= q < blocks.len() ==> (#[trigger] blocks@[q])@.len() == block_rows(
                m as int,
                q,
                block as int,
            ) * n),
{
    let mut q: usize = 0;
    while q < blocks.len()
        invariant
            0 <= q <= blocks.len(),
            block > 0,
            m * n <= usize::MAX,
            forall|i: int| 0 <= i < blocks.len() ==> #[trigger] (i * block) < m,
            forall|i: int|
                0 <= i < q ==> (#[trigger] blocks@[i])@.len() == block_rows(
                    m as int,
                    i,
                    block as int,
                ) * n,
        decreases blocks.len() - q,
    {
        let rows: usize = rows_in(m, q, block);
        assert(rows * n <= m * n) by (nonlinear_arith)
            requires
                rows <= m,
                n >= 0,
        ;
        if blocks[q].len() != rows * n {
            assert(blocks@[q as int]@.len() != block_rows(m as int, q as int, block as int) * n);
            return false;
        }
        q = q + 1;
    }
    true
}

/// The rows in block `q`.
fn rows_in(m: usize, q: usize, block: usize) -> (r: usize)
    requires
        q * block < m,
    ensures
        r == block_rows(m as int, q as int, block as int),
        r <= m,
        q * block + r <= m,
{
    let start: usize = q * block;
    assert((q + 1) * block == q * block + block) by (nonlinear_arith);
    if block <= m - start {
        block
    } else {
        m - start
    }
}

/// The product of two row-major matrices, by blocks of rows.
fn multiply<E: Elem>(a: &[E], b: &[E], m: usize, k: usize, n: usize) -> (r: Option<Vec<E>>)
    requires
        a.len() == m * k,
        b.len() == k * n,
        m * n <= usize::MAX,
    ensures
        match r {
            Some(c) => exists|block: int| #[trigger]
                is_blocked_product(m as int, k as int, n as int, a@, b@, c@, block) && (m * k * n
                    < PARALLEL_GEMM_THRESHOLD_ELEMENTS ==> block >= m),
            None => kernel_misfits::<E>(k as int, n as int),
        },
{
    let large = is_large(m, k, n, 1);
    assert(m * k * n * 1 == m * k * n);
    let block: usize = rows_per_block(m, large);
    let parts: usize = slice_len(0, m, block);
    proof {
        assert forall|q: int| 0 <= q < parts implies #[trigger] (q * block) < m by {
            law_slice_selects_range(0, m as int, block as int, q);
        }
    }
    let one = |q: usize| -> (z: Vec<E>)
        requires
            q < parts,
        ensures
            is_gemm(
                block_rows(m as int, q as int, block as int),
                k as int,
                n as int,
                a@.subrange(
                    q * block * k,
                    (q * block + block_rows(m as int, q as int, block as int)) * k,
                ),
                b@,
                z@,
            ),
            z@.len() != block_rows(m as int, q as int, block as int) * n ==> kernel_misfits::<E>(
                k as int,
                n as int,
            ),
        {
            assert(q as int * block < m);
            let rows: usize = rows_in(m, q, block);
            let start: usize = q * block;
            assert(start * k <= (start + rows) * k <= m * k) by (nonlinear_arith)
                requires
                    start + rows <= m,
                    rows >= 0,
                    start >= 0,
                    k >= 0,
            ;
            let part = vstd::slice::slice_subrange(a, start * k, (start + rows) * k);
            run_kernel(rows, k, n, part, b)
        };
    let blocks = if large {
        par_collect(parts, one)
    } else {
        seq_collect(parts, one)
    };
    proof {
        assert forall|q: int| 0 <= q < parts implies call_ensures(
            one,
            (q as usize,),
            #[trigger] blocks@[q],
        ) by {
            assert(call_ensures(one, (q as usize,), blocks@[q as usize as int]));
        }
    }
    if !blocks_fit(&blocks, m, n, block) {
        assert(kernel_misfits::<E>(k as int, n as int)) by {
            let q = choose|q: int|
                0 <= q < blocks.len() && (#[trigger] blocks@[q])@.len() != block_rows(
                    m as int,
                    q,
                    block as int,
                ) * n;
            assert(call_ensures(one, (q as usize,), blocks@[q]));
        }
        return None;
    }
    proof {
        lemma_blocks(blocks@, m as int, n as int, block as int);
    }
    match join_blocks(&blocks, m * n) {
        Some(c) => {
            proof {
                assert forall|q: int| 0 <= q && q * block < m implies is_gemm(
                    block_rows(m as int, q, block as int),
                    k as int,
                    n as int,
                    a@.subrange(
                        q * block * k,
                        (q * block + block_rows(m as int, q, block as int)) * k,
                    ),
                    b@,
                    #[trigger] c@.subrange(
                        q * block * n,
                        (q * block + block_rows(m as int, q, block as int)) * n,
                    ),
                ) by {
                    law_slice_selects_range(0, m as int, block as int, q);
                    assert(call_ensures(one, (q as usize,), blocks@[q]));
                    assert(c@.subrange(
                        q * block * n,
                        (q * block + block_rows(m as int, q, block as int)) * n,
                    ) == blocks@[q]@);
                }
                assert(is_blocked_product(
                    m as int,
                    k as int,
                    n as int,
                    a@,
                    b@,
                    c@,
                    block as int,
                ));
            }
            Some(c)
        },
        None => None,
    }
}

/// Blocks of the right lengths make up the whole matrix.
proof fn lemma_blocks<E>(blocks: Seq<Vec<E>>, m: int, n: int, block: int)
    requires
        block > 0,
        m >= 0,
        n >= 0,
        blocks.len() == span_len(0, m, block),
        forall|q: int|
            0 <= q < blocks.len() ==> (#[trigger] blocks[q])@.len() == block_rows(m, q, block) * n,
    ensures
        joined(blocks).len() == m * n,
        forall|q: int|
            #![trigger blocks[q]]
            0 <= q < blocks.len() ==> joined(blocks).subrange(
                q * block * n,
                (q * block + block_rows(m, q, block)) * n,
            ) == blocks[q]@,
{
    let p = blocks.len() as int;
    if p == 0 {
        law_slice_selects_range(0, m, block, 0);
        assert(m == 0);
        assert(m * n == 0) by (nonlinear_arith)
            requires
                m == 0,
        ;
    } else {
        law_slice_selects_range(0, m, block, p - 1);
        law_slice_selects_range(0, m, block, p);
        let size = block * n;
        assert(size >= 0) by (nonlinear_arith)
            requires
                block > 0,
                n >= 0,
                size == block * n,
        ;
        assert forall|i: int| 0 <= i < p - 1 implies (#[trigger] blocks[i])@.len() == size by {
            assert((i + 1) * block <= (p - 1) * block) by (nonlinear_arith)
                requires
                    i + 1 <= p - 1,
                    block > 0,
            ;
        }
        assert forall|q: int| 0 <= q < p implies joined(blocks).subrange(
            q * block * n,
            (q * block + block_rows(m, q, block)) * n,
        ) == (#[trigger] blocks[q])@ by {
            lemma_joined(blocks, size, q);
            let rows = block_rows(m, q, block);
            assert(q * size == q * block * n) by (nonlinear_arith)
                requires
                    size == block * n,
            ;
            assert((q * block + rows) * n == q * block * n + rows * n) by (nonlinear_arith);
        }
        lemma_joined(blocks, size, p - 1);
        let last = block_rows(m, p - 1, block);
        assert((p - 1) * block + block == p * block) by (nonlinear_arith);
        assert(last == m - (p - 1) * block);
        assert((p - 1) * size + last * n == m * n) by (nonlinear_arith)
            requires
                size == block * n,
                last == m - (p - 1) * block,
        ;
    }
}

impl<E: Elem> Tensor<E> {
    /// Matrix multiplication for 2-D tensors: `(m, k) @ (k, n) -> (m, n)`.
    ///
    /// Rows are processed in parallel blocks for large matrices. Non
    /// contiguous inputs are materialized first.
    ///
    /// Fails with [`OxitorchError::InvalidArgument`] if either input is not
    /// 2-D, and with [`OxitorchError::ShapeMismatch`] if the inner dimensions
    /// disagree.
    pub fn matmul(&self, rhs: &Self) -> (r: OxitorchResult<Self>)
        ensures
            match r {
                Ok(t) => matmul_error(self.dims(), rhs.dims()) is None && matmul_result(
                    *self,
                    *rhs,
                    t,
                ),
                Err(e) => matmul_error(self.dims(), rhs.dims()) == Some(e@) || (matmul_error(
                    self.dims(),
                    rhs.dims(),
                ) is None && e@ == kernel_error() && kernel_misfits::<E>(
                    self.dims()[1] as int,
                    rhs.dims()[1] as int,
                )),
            },
    {
        if self.ndim() != 2 || rhs.ndim() != 2 {
            return Err(
                OxitorchError::InvalidArgument(
                    join4(
                        "matmul expects 2-D tensors, got ndim ",
                        usize_string(self.ndim()).as_str(),
                        " and ",
                        usize_string(rhs.ndim()).as_str(),
                    ),
                ),
            );
        }
        let m: usize = self.shape()[0];
        let k: usize = self.shape()[1];
        let n: usize = rhs.shape()[1];
        if k != rhs.shape()[0] {
            return Err(mismatch(self.shape(), rhs.shape()));
        }
        let dims: Vec<usize> = vec![m, n];
        proof {
            assert(dims@ =~= seq![m, n]);
            lemma_rank2(dims@, 0, 0);
            lemma_rank2(self.dims(), 0, 0);
            lemma_rank2(rhs.dims(), 0, 0);
        }
        if !has_count(dims.as_slice()) {
            assert(ints(dims@) =~= seq![m as int, n as int]);
            return Err(overflow(dims_string(dims.as_slice())));
        }
        let a = self.contiguous();
        let b = rhs.contiguous();
        match multiply(a.flat(), b.flat(), m, k, n) {
            Some(c) => Ok(Self::from_results(dims.as_slice(), c)),
            None => Err(kernel_fault()),
        }
    }

    /// Batched matrix multiply: `(b, m, k) @ (b, k, n) -> (b, m, n)`, batch
    /// element `i` being `a[i] @ b[i]`. Inputs are materialized contiguous;
    /// each batch runs the same kernel as [`Tensor::matmul`], large batches
    /// fanning out across threads.
    ///
    /// Fails with [`OxitorchError::InvalidArgument`] unless both inputs are
    /// 3-D, and with [`OxitorchError::ShapeMismatch`] when the inner dims
    /// disagree or the batch sizes differ.
    pub fn bmm(&self, rhs: &Self) -> (r: OxitorchResult<Self>)
        ensures
            match r {
                Ok(t) => bmm_error(self.dims(), rhs.dims()) is None && bmm_result(*self, *rhs, t),
                Err(e) => bmm_error(self.dims(), rhs.dims()) == Some(e@) || (bmm_error(
                    self.dims(),
                    rhs.dims(),
                ) is None && e@ == kernel_error() && kernel_misfits::<E>(
                    self.dims()[2] as int,
                    rhs.dims()[2] as int,
                )),
            },
    {
        if self.ndim() != 3 || rhs.ndim() != 3 {
            return Err(
                OxitorchError::InvalidArgument(
                    join4(
                        "bmm expects 3-D tensors, got ndim ",
                        usize_string(self.ndim()).as_str(),
                        " and ",
                        usize_string(rhs.ndim()).as_str(),
                    ),
                ),
            );
        }
        let batches: usize = self.shape()[0];
        let m: usize = self.shape()[1];
        let k: usize = self.shape()[2];
        let n: usize = rhs.shape()[2];
        if batches != rhs.shape()[0] {
            return Err(
                OxitorchError::ShapeMismatch {
                    lhs: join2(usize_string(batches).as_str(), " batches"),
                    rhs: join2(usize_string(rhs.shape()[0]).as_str(), " batches"),
                },
            );
        }
        if k != rhs.shape()[1] {
            return Err(mismatch(self.shape(), rhs.shape()));
        }
        let dims: Vec<usize> = vec![batches, m, n];
        proof {
            assert(dims@ =~= seq![batches, m, n]);
            lemma_rank3(dims@, 0, 0, 0);
            lemma_rank3(self.dims(), 0, 0, 0);
            lemma_rank3(rhs.dims(), 0, 0, 0);
        }
        if !has_count(dims.as_slice()) {
            assert(ints(dims@) =~= seq![batches as int, m as int, n as int]);
            return Err(overflow(dims_string(dims.as_slice())));
        }
        let a = self.contiguous();
        let b = rhs.contiguous();
        match multiply_batches(a.flat(), b.flat(), batches, m, k, n) {
            Some(c) => Ok(Self::from_results(dims.as_slice(), c)),
            None => Err(kernel_fault()),
        }
    }
}

/// The products of stacked row-major matrices, plane by plane.
fn multiply_batches<E: Elem>(
    a: &[E],
    b: &[E],
    batches: usize,
    m: usize,
    k: usize,
    n: usize,
) -> (r: Option<Vec<E>>)
    requires
        a.len() == batches * (m * k),
        b.len() == batches * (k * n),
        batches * (m * n) <= usize::MAX,
    ensures
        match r {
            Some(c) => c.len() == batches * (m * n) && forall|q: int|
                0 <= q < batches ==> is_gemm(
                    m as int,
                    k as int,
                    n as int,
                    plane_of(a@, q, m * k),
                    plane_of(b@, q, k * n),
                    #[trigger] plane_of(c@, q, m * n),
                ),
            None => kernel_misfits::<E>(k as int, n as int),
        },
{
    let large = is_large(batches, m, k, n);
    let ghost ap = m * k;
    let ghost bp = k * n;
    let ghost cp = m * n;
    let one = |q: usize| -> (z: Vec<E>)
        requires
            q < batches,
        ensures
            is_gemm(
                m as int,
                k as int,
                n as int,
                plane_of(a@, q as int, m * k),
                plane_of(b@, q as int, k * n),
                z@,
            ),
            z@.len() != m * n ==> kernel_misfits::<E>(k as int, n as int),
        {
            let x = plane(a, q, m, k, batches);
            let y = plane(b, q, k, n, batches);
            run_kernel(m, k, n, x, y)
        };
    let blocks = if large {
        par_collect(batches, one)
    } else {
        seq_collect(batches, one)
    };
    proof {
        assert forall|q: int| 0 <= q < batches implies call_ensures(
            one,
            (q as usize,),
            #[trigger] blocks@[q],
        ) by {
            assert(call_ensures(one, (q as usize,), blocks@[q as usize as int]));
        }
    }
    let mut q: usize = 0;
    while q < blocks.len()
        invariant
            0 <= q <= blocks.len(),
            blocks.len() == batches,
            batches * (m * n) <= usize::MAX,
            forall|i: int| 0 <= i < q ==> (#[trigger] blocks@[i])@.len() == m * n,
            forall|i: int|
                0 <= i < batches ==> call_ensures(one, (i as usize,), #[trigger] blocks@[i]),
            forall|i: usize, z: Vec<E>| #[trigger]
                call_ensures(one, (i,), z) && z@.len() != m * n ==> kernel_misfits::<E>(
                    k as int,
                    n as int,
                ),
        decreases blocks.len() - q,
    {
        assert(m * n <= usize::MAX) by (nonlinear_arith)
            requires
                batches * (m * n) <= usize::MAX,
                batches >= 1,
                m * n >= 0,
        ;
        if blocks[q].len() != m * n {
            assert(call_ensures(one, (q as usize,), blocks@[q as int]));
            return None;
        }
        q = q + 1;
    }
    proof {
        if batches > 0 {
            lemma_mul_nonnegative(m as int, n as int);
            lemma_joined(blocks@, m * n, batches - 1);
            assert((batches - 1) * (m * n) + m * n == batches * (m * n)) by (nonlinear_arith);
        } else {
            assert(batches * (m * n) == 0) by (nonlinear_arith)
                requires
                    batches == 0,
            ;
        }
    }
    let total: usize = exact_product(batches, m, n);
    match join_blocks(&blocks, total) {
        Some(c) => {
            proof {
                assert forall|i: int| 0 <= i < batches implies is_gemm(
                    m as int,
                    k as int,
                    n as int,
                    plane_of(a@, i, m * k),
                    plane_of(b@, i, k * n),
                    #[trigger] plane_of(c@, i, m * n),
                ) by {
                    lemma_joined(blocks@, m * n, i);
                    assert((i + 1) * (m * n) == i * (m * n) + m * n) by (nonlinear_arith);
                    assert(call_ensures(one, (i as usize,), blocks@[i]));
                    assert(plane_of(c@, i, m * n) == blocks@[i]@);
                }
            }
            Some(c)
        },
        None => None,
    }
}

/// `a * (b * c)`, known to fit.
fn exact_product(a: usize, b: usize, c: usize) -> (r: usize)
    requires
        a * (b * c) <= usize::MAX,
    ensures
        r == a * (b * c),
{
    if a == 0 {
        assert(a * (b * c) == 0) by (nonlinear_arith)
            requires
                a == 0,
        ;
        0
    } else {
        assert(b * c <= a * (b * c)) by (nonlinear_arith)
            requires
                a >= 1,
                b * c >= 0,
        ;
        a * (b * c)
    }
}

/// Plane `q` of a stack of `rows` by `cols` planes.
fn plane<E>(s: &[E], q: usize, rows: usize, cols: usize, batches: usize) -> (r: &[E])
    requires
        q < batches,
        s.len() == batches * (rows * cols),
    ensures
        r@ == plane_of(s@, q as int, rows * cols),
{
    proof {
        lemma_mul_nonnegative(rows as int, cols as int);
        assert(q * (rows * cols) <= (q + 1) * (rows * cols) <= batches * (rows * cols))
            by (nonlinear_arith)
            requires
                q + 1 <= batches,
                rows * cols >= 0,
        ;
        assert((q + 1) * (rows * cols) == q * (rows * cols) + rows * cols) by (nonlinear_arith);
        lemma_mul_nonnegative(q as int, rows * cols);
    }
    let size: usize = rows * cols;
    vstd::slice::slice_subrange(s, q * size, q * size + size)
}

} // verus!
