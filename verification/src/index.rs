//! Row-major index arithmetic: the mathematics behind shapes and strides.
//!
//! A multi-index into a shape is a sequence of integers, one per dimension.
//! [`ravel`] numbers the multi-indices of a shape in row-major order and
//! [`unravel`] is its inverse; [`dot`] is the distance, in elements, that a
//! multi-index covers under given strides.

use vstd::prelude::*;
use vstd::arithmetic::div_mod::*;
use vstd::arithmetic::mul::*;

verus! {

/// The product of all dimensions (1 for a 0-d shape).
pub open spec fn product(shape: Seq<usize>) -> nat
    decreases shape.len(),
{
    if shape.len() == 0 {
        1
    } else {
        shape[0] as nat * product(shape.skip(1))
    }
}

/// `idx` addresses an element of a tensor of shape `shape`.
pub open spec fn in_shape(idx: Seq<int>, shape: Seq<usize>) -> bool {
    &&& idx.len() == shape.len()
    &&& forall|i: int| 0 <= i < shape.len() ==> 0 <= #[trigger] idx[i] < shape[i]
}

/// The row-major position of a multi-index.
pub open spec fn ravel(idx: Seq<int>, shape: Seq<usize>) -> int
    decreases shape.len(),
{
    if shape.len() == 0 {
        0
    } else {
        idx[0] * product(shape.skip(1)) + ravel(idx.skip(1), shape.skip(1))
    }
}

/// The multi-index at a row-major position.
pub open spec fn unravel(pos: int, shape: Seq<usize>) -> Seq<int>
    decreases shape.len(),
{
    if shape.len() == 0 {
        Seq::empty()
    } else {
        let inner = product(shape.skip(1)) as int;
        seq![pos / inner] + unravel(pos % inner, shape.skip(1))
    }
}

/// The storage distance of a multi-index under `strides`.
pub open spec fn dot(idx: Seq<int>, strides: Seq<usize>) -> int
    decreases idx.len(),
{
    if idx.len() == 0 {
        0
    } else {
        idx[0] * strides[0] + dot(idx.skip(1), strides.skip(1))
    }
}

/// `strides` walk `shape` in row-major order: each stride is the product of
/// the later dimensions, except where a single-element dimension makes it
/// irrelevant.
pub open spec fn walks_rows(shape: Seq<usize>, strides: Seq<usize>) -> bool {
    &&& shape.len() == strides.len()
    &&& forall|i: int|
        0 <= i < shape.len() ==> shape[i] == 1 || #[trigger] strides[i] == product(
            shape.skip(i + 1),
        )
}

/// A multi-index into a matrix.
pub open spec fn index2(i: int, j: int) -> Seq<int> {
    seq![i, j]
}

/// A multi-index into a batch of matrices.
pub open spec fn index3(b: int, i: int, j: int) -> Seq<int> {
    seq![b, i, j]
}

/// A multi-index as the executable code holds it.
pub open spec fn index_of(idx: Seq<usize>) -> Seq<int> {
    Seq::new(idx.len(), |i: int| idx[i] as int)
}

pub proof fn lemma_product_positive(shape: Seq<usize>)
    ensures
        product(shape) > 0 <==> (forall|i: int| 0 <= i < shape.len() ==> #[trigger] shape[i] > 0),
    decreases shape.len(),
{
    if shape.len() > 0 {
        let rest = shape.skip(1);
        lemma_product_positive(rest);
        assert(forall|i: int| 0 <= i < rest.len() ==> rest[i] == shape[i + 1]);
        assert forall|i: int| 0 <= i < shape.len() && product(shape) > 0 implies #[trigger] shape[i]
            > 0 by {
            assert(shape[0] > 0 && product(rest) > 0) by (nonlinear_arith)
                requires
                    shape[0] as nat * product(rest) > 0,
            ;
            if i > 0 {
                assert(rest[i - 1] == shape[i]);
            }
        }
        if forall|i: int| 0 <= i < shape.len() ==> #[trigger] shape[i] > 0 {
            assert forall|i: int| 0 <= i < rest.len() implies #[trigger] rest[i] > 0 by {
                assert(shape[i + 1] > 0);
            }
            assert(shape[0] > 0);
            assert(product(shape) > 0) by (nonlinear_arith)
                requires
                    shape[0] > 0,
                    product(rest) > 0,
                    product(shape) == shape[0] as nat * product(rest),
            ;
        }
    }
}

/// In a shape without zero dimensions every tail has at most as many
/// elements as the whole.
pub proof fn lemma_product_tail(shape: Seq<usize>, k: int)
    requires
        0 <= k <= shape.len(),
        product(shape) > 0,
    ensures
        0 < product(shape.skip(k)) <= product(shape),
    decreases k,
{
    lemma_product_positive(shape);
    if k == 0 {
        assert(shape.skip(0) =~= shape);
    } else {
        let rest = shape.skip(1);
        assert(shape[0] > 0);
        assert(product(rest) > 0 && product(rest) <= product(shape)) by (nonlinear_arith)
            requires
                shape[0] > 0,
                product(shape) > 0,
                product(shape) == shape[0] as nat * product(rest),
        ;
        lemma_product_tail(rest, k - 1);
        assert(rest.skip(k - 1) =~= shape.skip(k));
    }
}

pub proof fn lemma_product_concat(a: Seq<usize>, b: Seq<usize>)
    ensures
        product(a + b) == product(a) * product(b),
    decreases a.len(),
{
    if a.len() == 0 {
        assert(a + b =~= b);
        assert(product(a) * product(b) == product(b)) by (nonlinear_arith)
            requires
                product(a) == 1,
        ;
    } else {
        assert((a + b)[0] == a[0]);
        assert((a + b).skip(1) =~= a.skip(1) + b);
        lemma_product_concat(a.skip(1), b);
        lemma_mul_is_associative(a[0] as int, product(a.skip(1)) as int, product(b) as int);
    }
}

pub proof fn lemma_rank0(shape: Seq<usize>)
    requires
        shape.len() == 0,
    ensures
        product(shape) == 1,
{
}

pub proof fn lemma_rank1(shape: Seq<usize>, i: int)
    requires
        shape.len() == 1,
    ensures
        product(shape) == shape[0],
        ravel(seq![i], shape) == i,
        0 <= i < shape[0] ==> in_shape(seq![i], shape),
        0 <= i < shape[0] ==> unravel(i, shape) == seq![i],
{
    let none = shape.skip(1);
    assert(none.len() == 0);
    assert(product(none) == 1);
    assert(product(shape) == shape[0] * 1);
    assert(ravel(seq![i].skip(1), none) == 0);
    assert(unravel(i % 1, none) =~= Seq::<int>::empty());
    assert(unravel(i, shape) =~= seq![i / 1]);
}

pub proof fn lemma_rank2(shape: Seq<usize>, i: int, j: int)
    requires
        shape.len() == 2,
    ensures
        product(shape) == shape[0] * shape[1],
        ravel(index2(i, j), shape) == i * shape[1] + j,
        0 <= i < shape[0] && 0 <= j < shape[1] ==> in_shape(index2(i, j), shape),
{
    let rest = shape.skip(1);
    lemma_rank1(rest, j);
    assert(index2(i, j).skip(1) =~= seq![j]);
    assert(rest[0] == shape[1]);
}

pub proof fn lemma_rank3(shape: Seq<usize>, b: int, i: int, j: int)
    requires
        shape.len() == 3,
    ensures
        product(shape) == shape[0] * (shape[1] * shape[2]),
        ravel(index3(b, i, j), shape) == b * (shape[1] * shape[2]) + (i * shape[2] + j),
        0 <= b < shape[0] && 0 <= i < shape[1] && 0 <= j < shape[2] ==> in_shape(
            index3(b, i, j),
            shape,
        ),
{
    let rest = shape.skip(1);
    lemma_rank2(rest, i, j);
    assert(index3(b, i, j).skip(1) =~= index2(i, j));
    assert(rest[0] == shape[1] && rest[1] == shape[2]);
}

/// A shape without its dimension `d`.
pub proof fn lemma_product_split(shape: Seq<usize>, d: int)
    requires
        0 <= d < shape.len(),
    ensures
        product(shape) == product(shape.take(d)) * shape[d] * product(shape.skip(d + 1)),
        product(shape) == product(shape.take(d)) * (shape[d] * product(shape.skip(d + 1))),
        product(shape.skip(d)) == shape[d] * product(shape.skip(d + 1)),
{
    assert(shape =~= shape.take(d) + shape.skip(d));
    lemma_product_concat(shape.take(d), shape.skip(d));
    assert(shape.skip(d).skip(1) =~= shape.skip(d + 1));
    lemma_mul_is_associative(
        product(shape.take(d)) as int,
        shape[d] as int,
        product(shape.skip(d + 1)) as int,
    );
}

pub proof fn lemma_unravel(pos: int, shape: Seq<usize>)
    requires
        0 <= pos < product(shape),
    ensures
        in_shape(unravel(pos, shape), shape),
        ravel(unravel(pos, shape), shape) == pos,
    decreases shape.len(),
{
    if shape.len() > 0 {
        let rest = shape.skip(1);
        let inner = product(rest) as int;
        assert(inner > 0) by (nonlinear_arith)
            requires
                pos >= 0,
                pos < shape[0] as nat * inner,
                inner >= 0,
        ;
        lemma_fundamental_div_mod(pos, inner);
        lemma_mod_bound(pos, inner);
        assert(0 <= pos / inner < shape[0]) by (nonlinear_arith)
            requires
                inner > 0,
                0 <= pos < shape[0] as int * inner,
                pos == inner * (pos / inner) + pos % inner,
                0 <= pos % inner < inner,
        ;
        lemma_unravel(pos % inner, rest);
        let u = unravel(pos, shape);
        assert(u.skip(1) =~= unravel(pos % inner, rest));
        assert forall|i: int| 0 <= i < shape.len() implies 0 <= #[trigger] u[i] < shape[i] by {
            if i > 0 {
                assert(u.skip(1)[i - 1] == u[i]);
                assert(rest[i - 1] == shape[i]);
            }
        }
        lemma_mul_is_commutative(inner, pos / inner);
    }
}

pub proof fn lemma_ravel(idx: Seq<int>, shape: Seq<usize>)
    requires
        in_shape(idx, shape),
    ensures
        0 <= ravel(idx, shape) < product(shape),
        unravel(ravel(idx, shape), shape) =~= idx,
    decreases shape.len(),
{
    if shape.len() > 0 {
        let rest = shape.skip(1);
        let inner = product(rest) as int;
        let tail = idx.skip(1);
        assert(in_shape(tail, rest)) by {
            assert forall|i: int| 0 <= i < rest.len() implies 0 <= #[trigger] tail[i] < rest[i] by {
                assert(0 <= idx[i + 1] < shape[i + 1]);
            }
        }
        lemma_ravel(tail, rest);
        let r = ravel(tail, rest);
        let pos = ravel(idx, shape);
        assert(0 <= idx[0] < shape[0]);
        assert(pos == idx[0] * inner + r);
        assert(0 <= pos < shape[0] as int * inner) by (nonlinear_arith)
            requires
                0 <= idx[0] < shape[0],
                0 <= r < inner,
                pos == idx[0] * inner + r,
        ;
        lemma_fundamental_div_mod_converse(pos, inner, idx[0], r);
        assert(unravel(pos, shape) =~= seq![idx[0]] + tail);
        assert(idx =~= seq![idx[0]] + tail);
    }
}

pub proof fn lemma_dot_nonnegative(idx: Seq<int>, strides: Seq<usize>)
    requires
        idx.len() <= strides.len(),
        forall|i: int| 0 <= i < idx.len() ==> 0 <= #[trigger] idx[i],
    ensures
        0 <= dot(idx, strides),
    decreases idx.len(),
{
    if idx.len() > 0 {
        assert forall|i: int| 0 <= i < idx.skip(1).len() implies 0 <= #[trigger] idx.skip(1)[i] by {
            assert(0 <= idx[i + 1]);
        }
        lemma_dot_nonnegative(idx.skip(1), strides.skip(1));
        assert(0 <= idx[0]);
        lemma_mul_nonnegative(idx[0], strides[0] as int);
    }
}

/// Row-major strides turn a multi-index into its row-major position.
pub proof fn lemma_dot_rows(idx: Seq<int>, shape: Seq<usize>, strides: Seq<usize>)
    requires
        in_shape(idx, shape),
        walks_rows(shape, strides),
    ensures
        dot(idx, strides) == ravel(idx, shape),
    decreases shape.len(),
{
    if shape.len() > 0 {
        let rest = shape.skip(1);
        let tail = idx.skip(1);
        let more = strides.skip(1);
        assert(in_shape(tail, rest)) by {
            assert forall|i: int| 0 <= i < rest.len() implies 0 <= #[trigger] tail[i] < rest[i] by {
                assert(0 <= idx[i + 1] < shape[i + 1]);
            }
        }
        assert(walks_rows(rest, more)) by {
            assert forall|i: int| 0 <= i < rest.len() implies rest[i] == 1 || #[trigger] more[i]
                == product(rest.skip(i + 1)) by {
                assert(strides[i + 1] == more[i]);
                assert(shape.skip(i + 2) =~= rest.skip(i + 1));
            }
        }
        lemma_dot_rows(tail, rest, more);
        assert(0 <= idx[0] < shape[0]);
        assert(shape[0] == 1 || strides[0] == product(shape.skip(1)));
        if shape[0] == 1 {
            assert(idx[0] == 0);
        }
    }
}

/// `dot` reads only as many strides as the index has entries.
pub proof fn lemma_dot_prefix(idx: Seq<int>, strides: Seq<usize>)
    requires
        idx.len() <= strides.len(),
    ensures
        dot(idx, strides) == dot(idx, strides.take(idx.len() as int)),
    decreases idx.len(),
{
    if idx.len() > 0 {
        let cut = strides.take(idx.len() as int);
        lemma_dot_prefix(idx.skip(1), strides.skip(1));
        assert(strides.skip(1).take(idx.len() - 1) =~= cut.skip(1));
    }
}

/// Two indices that agree before dimension `k` differ in position exactly as
/// their tails do.
pub proof fn lemma_ravel_tail(a: Seq<int>, b: Seq<int>, shape: Seq<usize>, k: int)
    requires
        a.len() == shape.len(),
        b.len() == shape.len(),
        0 <= k <= shape.len(),
        forall|i: int| 0 <= i < k ==> a[i] == b[i],
    ensures
        ravel(a, shape) - ravel(b, shape) == ravel(a.skip(k), shape.skip(k)) - ravel(
            b.skip(k),
            shape.skip(k),
        ),
    decreases k,
{
    if k == 0 {
        assert(a.skip(0) =~= a);
        assert(b.skip(0) =~= b);
        assert(shape.skip(0) =~= shape);
    } else {
        lemma_ravel_tail(a.skip(1), b.skip(1), shape.skip(1), k - 1);
        assert(a.skip(1).skip(k - 1) =~= a.skip(k));
        assert(b.skip(1).skip(k - 1) =~= b.skip(k));
        assert(shape.skip(1).skip(k - 1) =~= shape.skip(k));
    }
}

/// Positions in a shape made of two parts.
pub proof fn lemma_ravel_concat(a: Seq<int>, b: Seq<int>, sa: Seq<usize>, sb: Seq<usize>)
    requires
        a.len() == sa.len(),
        b.len() == sb.len(),
    ensures
        ravel(a + b, sa + sb) == ravel(a, sa) * product(sb) + ravel(b, sb),
    decreases sa.len(),
{
    if sa.len() == 0 {
        assert(a + b =~= b);
        assert(sa + sb =~= sb);
    } else {
        assert((a + b).skip(1) =~= a.skip(1) + b);
        assert((sa + sb).skip(1) =~= sa.skip(1) + sb);
        assert((a + b)[0] == a[0]);
        lemma_ravel_concat(a.skip(1), b, sa.skip(1), sb);
        lemma_product_concat(sa.skip(1), sb);
        let pa = product(sa.skip(1)) as int;
        let pb = product(sb) as int;
        let ra = ravel(a.skip(1), sa.skip(1));
        assert(a[0] * (pa * pb) + ra * pb == (a[0] * pa + ra) * pb) by (nonlinear_arith);
    }
}

/// The position of plane `o`, row `k` and column `i` in a stack of planes of
/// `n` rows of `inner` columns.
pub open spec fn cell(o: int, k: int, i: int, n: int, inner: int) -> int {
    (o * n + k) * inner + i
}

/// The part of a shape or index before dimension `d`, as one number.
pub open spec fn outer_pos(idx: Seq<int>, shape: Seq<usize>, d: int) -> int {
    ravel(idx.take(d), shape.take(d))
}

/// The part of a shape or index after dimension `d`, as one number.
pub open spec fn inner_pos(idx: Seq<int>, shape: Seq<usize>, d: int) -> int {
    ravel(idx.skip(d + 1), shape.skip(d + 1))
}

/// A position, split around dimension `d`.
pub proof fn lemma_ravel_split(idx: Seq<int>, shape: Seq<usize>, d: int)
    requires
        in_shape(idx, shape),
        0 <= d < shape.len(),
    ensures
        0 <= outer_pos(idx, shape, d) < product(shape.take(d)),
        0 <= inner_pos(idx, shape, d) < product(shape.skip(d + 1)),
        ravel(idx, shape) == cell(
            outer_pos(idx, shape, d),
            idx[d],
            inner_pos(idx, shape, d),
            shape[d] as int,
            product(shape.skip(d + 1)) as int,
        ),
{
    let before = idx.take(d);
    let after = idx.skip(d + 1);
    assert(in_shape(before, shape.take(d))) by {
        assert forall|i: int| 0 <= i < d implies 0 <= #[trigger] before[i] < shape.take(d)[i] by {
            assert(0 <= idx[i] < shape[i]);
        }
    }
    assert(in_shape(after, shape.skip(d + 1))) by {
        assert forall|i: int| 0 <= i < after.len() implies 0 <= #[trigger] after[i] < shape.skip(
            d + 1,
        )[i] by {
            assert(0 <= idx[d + 1 + i] < shape[d + 1 + i]);
        }
    }
    lemma_ravel(before, shape.take(d));
    lemma_ravel(after, shape.skip(d + 1));
    assert(idx =~= before + idx.skip(d));
    assert(shape =~= shape.take(d) + shape.skip(d));
    lemma_ravel_concat(before, idx.skip(d), shape.take(d), shape.skip(d));
    assert(idx.skip(d).skip(1) =~= after);
    assert(shape.skip(d).skip(1) =~= shape.skip(d + 1));
    let o = ravel(before, shape.take(d));
    let n = shape[d] as int;
    let inner = product(shape.skip(d + 1)) as int;
    assert(o * (n * inner) + idx[d] * inner == (o * n + idx[d]) * inner) by (nonlinear_arith);
}

/// A cell's plane, row and column can be read back from its position.
pub proof fn lemma_cell(o: int, k: int, i: int, outer: int, n: int, inner: int)
    requires
        0 <= o < outer,
        0 <= k < n,
        0 <= i < inner,
    ensures
        0 <= cell(o, k, i, n, inner) < outer * n * inner,
        cell(o, k, i, n, inner) % inner == i,
        cell(o, k, i, n, inner) / inner == o * n + k,
        (o * n + k) % n == k,
        (o * n + k) / n == o,
{
    lemma_fundamental_div_mod_converse(cell(o, k, i, n, inner), inner, o * n + k, i);
    lemma_fundamental_div_mod_converse(o * n + k, n, o, k);
    assert(0 <= o * n + k < outer * n) by (nonlinear_arith)
        requires
            0 <= o < outer,
            0 <= k < n,
    ;
    assert(0 <= (o * n + k) * inner + i < (outer * n) * inner) by (nonlinear_arith)
        requires
            0 <= o * n + k < outer * n,
            0 <= i < inner,
    ;
}

/// The all-zero index has position zero.
pub proof fn lemma_ravel_zero(idx: Seq<int>, shape: Seq<usize>)
    requires
        idx.len() == shape.len(),
        forall|i: int| 0 <= i < idx.len() ==> #[trigger] idx[i] == 0,
    ensures
        ravel(idx, shape) == 0,
    decreases shape.len(),
{
    if shape.len() > 0 {
        lemma_ravel_zero(idx.skip(1), shape.skip(1));
        assert(idx[0] == 0);
    }
}

/// The all-maximal index has the last position.
pub proof fn lemma_ravel_last(idx: Seq<int>, shape: Seq<usize>)
    requires
        idx.len() == shape.len(),
        forall|i: int| 0 <= i < idx.len() ==> #[trigger] idx[i] == shape[i] - 1,
    ensures
        ravel(idx, shape) == product(shape) - 1,
    decreases shape.len(),
{
    if shape.len() > 0 {
        assert forall|i: int| 0 <= i < idx.skip(1).len() implies #[trigger] idx.skip(1)[i]
            == shape.skip(1)[i] - 1 by {
            assert(idx[i + 1] == shape[i + 1] - 1);
        }
        lemma_ravel_last(idx.skip(1), shape.skip(1));
        assert(idx[0] == shape[0] - 1);
        let inner = product(shape.skip(1)) as int;
        assert((shape[0] - 1) * inner + inner - 1 == shape[0] * inner - 1) by (nonlinear_arith);
    }
}

/// The dimension `d` taken out of an index and its strides.
pub proof fn lemma_dot_remove(idx: Seq<int>, strides: Seq<usize>, d: int)
    requires
        idx.len() == strides.len(),
        0 <= d < idx.len(),
    ensures
        dot(idx, strides) == dot(idx.remove(d), strides.remove(d)) + idx[d] * strides[d],
    decreases idx.len(),
{
    let i1 = idx.skip(1);
    let s1 = strides.skip(1);
    if d == 0 {
        assert(idx.remove(0) =~= i1);
        assert(strides.remove(0) =~= s1);
    } else {
        lemma_dot_remove(i1, s1, d - 1);
        assert(idx.remove(d).skip(1) =~= i1.remove(d - 1));
        assert(strides.remove(d).skip(1) =~= s1.remove(d - 1));
        assert(idx.remove(d)[0] == idx[0] && strides.remove(d)[0] == strides[0]);
        assert(i1[d - 1] == idx[d] && s1[d - 1] == strides[d]);
    }
}

/// The dimension `d` taken out of a shape.
pub proof fn lemma_product_remove(shape: Seq<usize>, d: int)
    requires
        0 <= d < shape.len(),
    ensures
        product(shape) == product(shape.remove(d)) * shape[d],
    decreases shape.len(),
{
    let rest = shape.skip(1);
    if d == 0 {
        assert(shape.remove(0) =~= rest);
        lemma_mul_is_commutative(shape[0] as int, product(rest) as int);
    } else {
        lemma_product_remove(rest, d - 1);
        let cut = shape.remove(d);
        assert(cut.skip(1) =~= rest.remove(d - 1));
        assert(cut[0] == shape[0]);
        assert(rest[d - 1] == shape[d]);
        lemma_mul_is_associative(
            shape[0] as int,
            product(rest.remove(d - 1)) as int,
            shape[d] as int,
        );
    }
}

/// A shape with dimension `d` replaced.
pub proof fn lemma_product_update(shape: Seq<usize>, d: int, v: usize)
    requires
        0 <= d < shape.len(),
    ensures
        product(shape.update(d, v)) == product(shape.remove(d)) * v,
        v <= shape[d] ==> product(shape.update(d, v)) <= product(shape),
{
    let now = shape.update(d, v);
    lemma_product_remove(now, d);
    lemma_product_remove(shape, d);
    assert(now.remove(d) =~= shape.remove(d));
    if v <= shape[d] {
        lemma_mul_inequality(v as int, shape[d] as int, product(shape.remove(d)) as int);
        lemma_mul_is_commutative(v as int, product(shape.remove(d)) as int);
        lemma_mul_is_commutative(shape[d] as int, product(shape.remove(d)) as int);
    }
}

/// An index with one entry put in addresses the shape with that dimension.
pub proof fn lemma_in_shape_insert(idx: Seq<int>, shape: Seq<usize>, d: int, x: int)
    requires
        0 <= d < shape.len(),
        in_shape(idx, shape.remove(d)),
        0 <= x < shape[d],
    ensures
        in_shape(idx.insert(d, x), shape),
        idx.insert(d, x).remove(d) == idx,
{
    let full = idx.insert(d, x);
    assert forall|i: int| 0 <= i < shape.len() implies 0 <= #[trigger] full[i] < shape[i] by {
        if i < d {
            assert(0 <= idx[i] < shape.remove(d)[i]);
        } else if i > d {
            assert(0 <= idx[i - 1] < shape.remove(d)[i - 1]);
        }
    }
    assert(full.remove(d) =~= idx);
}

/// `perm` lists every number below its length once.
pub open spec fn is_permutation(perm: Seq<int>) -> bool {
    &&& forall|i: int| 0 <= i < perm.len() ==> 0 <= #[trigger] perm[i] < perm.len()
    &&& forall|i: int, j: int|
        0 <= i < j < perm.len() ==> #[trigger] perm[i] != #[trigger] perm[j]
}

/// The entries of `s` in the order that `perm` gives.
pub open spec fn permuted<T>(s: Seq<T>, perm: Seq<int>) -> Seq<T> {
    Seq::new(perm.len(), |i: int| s[perm[i]])
}

/// Every number below the length of a permutation occurs in it.
pub proof fn lemma_permutation_covers(perm: Seq<int>, v: int)
    requires
        is_permutation(perm),
        0 <= v < perm.len(),
    ensures
        exists|i: int| 0 <= i < perm.len() && perm[i] == v,
{
    let n = perm.len();
    if forall|i: int| 0 <= i < n ==> perm[i] != v {
        // All n entries would fall among the n - 1 other numbers.
        let other = perm.to_set();
        perm.unique_seq_to_set();
        let below = vstd::set_lib::set_int_range(0, n as int);
        vstd::set_lib::lemma_int_range(0, n as int);
        assert(other.subset_of(below.remove(v)));
        vstd::set_lib::lemma_len_subset(other, below.remove(v));
    }
}

proof fn lemma_permutation_cut(perm: Seq<int>, k: int)
    requires
        is_permutation(perm),
        0 <= k < perm.len(),
        perm[k] == perm.len() - 1,
    ensures
        is_permutation(perm.remove(k)),
{
    let cut = perm.remove(k);
    assert forall|i: int| 0 <= i < cut.len() implies 0 <= #[trigger] cut[i] < cut.len() by {
        let j = if i < k {
            i
        } else {
            i + 1
        };
        assert(cut[i] == perm[j]);
        if j < k {
            assert(perm[j] != perm[k]);
        } else {
            assert(perm[k] != perm[j]);
        }
    }
    assert forall|i: int, j: int| 0 <= i < j < cut.len() implies #[trigger] cut[i]
        != #[trigger] cut[j] by {
        let a = if i < k {
            i
        } else {
            i + 1
        };
        let b = if j < k {
            j
        } else {
            j + 1
        };
        assert(cut[i] == perm[a] && cut[j] == perm[b]);
    }
}

/// Reordering index and strides together keeps the storage distance, and
/// reordering a shape keeps its element count.
pub proof fn lemma_permuted(idx: Seq<int>, strides: Seq<usize>, perm: Seq<int>)
    requires
        is_permutation(perm),
        idx.len() == perm.len(),
        strides.len() == perm.len(),
    ensures
        dot(permuted(idx, perm), permuted(strides, perm)) == dot(idx, strides),
        product(permuted(strides, perm)) == product(strides),
    decreases perm.len(),
{
    let n = perm.len() as int;
    let pi = permuted(idx, perm);
    let ps = permuted(strides, perm);
    if n > 0 {
        lemma_permutation_covers(perm, n - 1);
        let k = choose|k: int| 0 <= k < n && perm[k] == n - 1;
        let cut = perm.remove(k);
        lemma_permutation_cut(perm, k);
        lemma_permuted(idx.remove(n - 1), strides.remove(n - 1), cut);
        lemma_dot_remove(pi, ps, k);
        lemma_dot_remove(idx, strides, n - 1);
        lemma_product_remove(ps, k);
        lemma_product_remove(strides, n - 1);
        assert forall|i: int| 0 <= i < n - 1 implies pi.remove(k)[i] == #[trigger] permuted(
            idx.remove(n - 1),
            cut,
        )[i] && ps.remove(k)[i] == permuted(strides.remove(n - 1), cut)[i] by {
            assert(0 <= cut[i] < n - 1);
        }
        assert(pi.remove(k) =~= permuted(idx.remove(n - 1), cut));
        assert(ps.remove(k) =~= permuted(strides.remove(n - 1), cut));
    } else {
        assert(pi =~= idx);
        assert(ps =~= strides);
    }
}

/// The inverse of a permutation.
pub open spec fn inverse(perm: Seq<int>) -> Seq<int> {
    Seq::new(perm.len(), |v: int| choose|i: int| 0 <= i < perm.len() && perm[i] == v)
}

pub proof fn lemma_inverse(perm: Seq<int>)
    requires
        is_permutation(perm),
    ensures
        is_permutation(inverse(perm)),
        forall|v: int| 0 <= v < perm.len() ==> perm[#[trigger] inverse(perm)[v]] == v,
        forall|i: int| 0 <= i < perm.len() ==> inverse(perm)[#[trigger] perm[i]] == i,
{
    let inv = inverse(perm);
    assert forall|v: int| 0 <= v < perm.len() implies 0 <= #[trigger] inv[v] < perm.len()
        && perm[inv[v]] == v by {
        lemma_permutation_covers(perm, v);
    }
    assert forall|i: int, j: int| 0 <= i < j < inv.len() implies #[trigger] inv[i]
        != #[trigger] inv[j] by {
        assert(perm[inv[i]] == i && perm[inv[j]] == j);
    }
    assert forall|i: int| 0 <= i < perm.len() implies inv[#[trigger] perm[i]] == i by {
        let j = inv[perm[i]];
        assert(0 <= j < perm.len() && perm[j] == perm[i]);
        if j < i {
            assert(perm[j] != perm[i]);
        }
        if i < j {
            assert(perm[i] != perm[j]);
        }
    }
}

/// The storage distance of `idx` under `strides`.
pub fn offset_of(idx: &[usize], strides: &[usize]) -> (r: usize)
    requires
        idx.len() <= strides.len(),
        dot(index_of(idx@), strides@) <= usize::MAX,
    ensures
        r == dot(index_of(idx@), strides@),
{
    let ghost full = index_of(idx@);
    let mut acc: usize = 0;
    let mut k: usize = 0;
    assert(full.skip(0) =~= full);
    assert(strides@.skip(0) =~= strides@);
    while k < idx.len()
        invariant
            0 <= k <= idx.len() <= strides.len(),
            full == index_of(idx@),
            dot(full, strides@) <= usize::MAX,
            acc + dot(full.skip(k as int), strides@.skip(k as int)) == dot(full, strides@),
        decreases idx.len() - k,
    {
        proof {
            let rest = full.skip(k as int);
            let more = strides@.skip(k as int);
            assert(rest.skip(1) =~= full.skip(k + 1));
            assert(more.skip(1) =~= strides@.skip(k + 1));
            assert(rest[0] == idx@[k as int]);
            assert(more[0] == strides@[k as int]);
            lemma_dot_nonnegative(full.skip(k + 1), strides@.skip(k + 1));
            lemma_mul_nonnegative(idx@[k as int] as int, strides@[k as int] as int);
        }
        acc = acc + idx[k] * strides[k];
        k = k + 1;
    }
    assert(full.skip(k as int) =~= Seq::<int>::empty());
    acc
}

/// `a * b`, exact where it fits and wrapped where it does not.
pub(crate) fn wrapping_product(a: usize, b: usize) -> (r: usize)
    ensures
        a * b <= usize::MAX ==> r == a * b,
{
    proof {
        lemma_mul_nonnegative(a as int, b as int);
        if a * b <= usize::MAX {
            lemma_small_mod((a * b) as nat, (usize::MAX + 1) as nat);
        }
    }
    a.wrapping_mul(b)
}

/// Steps `idx` to the next position in row-major order (an odometer whose
/// last dimension turns fastest); the last position wraps to the first.
pub fn advance(idx: &mut Vec<usize>, shape: &[usize])
    requires
        in_shape(index_of(old(idx)@), shape@),
    ensures
        in_shape(index_of(final(idx)@), shape@),
        ravel(index_of(final(idx)@), shape@) == if ravel(index_of(old(idx)@), shape@) + 1
            < product(shape@) {
            ravel(index_of(old(idx)@), shape@) + 1
        } else {
            0
        },
{
    let ghost start = index_of(idx@);
    let mut d: usize = shape.len();
    while d > 0
        invariant
            0 <= d <= shape.len(),
            idx.len() == shape.len(),
            start == index_of(old(idx)@),
            in_shape(start, shape@),
            in_shape(index_of(idx@), shape@),
            forall|i: int| 0 <= i < d ==> idx@[i] == start[i],
            forall|i: int| d <= i < shape.len() ==> idx@[i] == 0,
            forall|i: int| d <= i < shape.len() ==> #[trigger] start[i] == shape@[i] - 1,
        decreases d,
    {
        d = d - 1;
        assert(start[d as int] < shape@[d as int]);
        let ghost before = idx@;
        let next: usize = idx[d] + 1;
        if next < shape[d] {
            idx[d] = next;
            proof {
                let now = index_of(idx@);
                assert forall|i: int| 0 <= i < shape@.len() implies 0 <= #[trigger] now[i]
                    < shape@[i] by {
                    assert(0 <= index_of(before)[i] < shape@[i]);
                }
                lemma_ravel_tail(now, start, shape@, d as int);
                let tail = shape@.skip(d as int);
                let a = now.skip(d as int);
                let b = start.skip(d as int);
                lemma_ravel_zero(a.skip(1), tail.skip(1));
                assert forall|i: int| 0 <= i < b.skip(1).len() implies #[trigger] b.skip(1)[i]
                    == tail.skip(1)[i] - 1 by {
                    assert(start[d + 1 + i] == shape@[d + 1 + i] - 1);
                }
                lemma_ravel_last(b.skip(1), tail.skip(1));
                assert(a[0] == b[0] + 1);
                assert((b[0] + 1) * product(tail.skip(1)) == b[0] * product(tail.skip(1))
                    + product(tail.skip(1))) by (nonlinear_arith);
                lemma_ravel(now, shape@);
            }
            return;
        }
        idx[d] = 0;
        proof {
            let now = index_of(idx@);
            assert forall|i: int| 0 <= i < shape@.len() implies 0 <= #[trigger] now[i]
                < shape@[i] by {
                assert(0 <= index_of(before)[i] < shape@[i]);
            }
        }
    }
    proof {
        lemma_ravel_last(start, shape@);
        lemma_ravel_zero(index_of(idx@), shape@);
    }
}

} // verus!
