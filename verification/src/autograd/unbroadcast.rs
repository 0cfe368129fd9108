//! Summing a gradient back down to the shape it was broadcast from.

use vstd::prelude::*;
use crate::elem::Elem;
use crate::error::{ErrorText, OxitorchResult};
use crate::index::{lemma_product_concat, lemma_product_positive, product};
use crate::layout::{expands_to, mismatch, mismatch_error, overflow_error, same_dims};
use crate::ops::ReduceKind;
use crate::tensor::Tensor;
use crate::tensor::reduce::reduce_result;
use crate::text::ints;

verus! {

/// Axis `j` of a gradient of dims `from` is summed to reach `to`: it was
/// added in front, or it was broadcast from size 1.
pub open spec fn axis_summed(from: Seq<usize>, to: Seq<usize>, j: int) -> bool {
    let extra = from.len() - to.len();
    j < extra || (to[j - extra] == 1 && from[j] != 1)
}

/// The axes below `k` that are summed, in order.
pub open spec fn summed_axes(from: Seq<usize>, to: Seq<usize>, k: int) -> Seq<int>
    decreases k,
{
    if k <= 0 {
        Seq::empty()
    } else if axis_summed(from, to, k - 1) {
        summed_axes(from, to, k - 1).push(k - 1)
    } else {
        summed_axes(from, to, k - 1)
    }
}

/// `t` is `g` summed along each of `axes` in turn, keeping the dimensions.
pub open spec fn sums_axes<E: Elem>(g: Tensor<E>, axes: Seq<int>, t: Tensor<E>) -> bool
    decreases axes.len(),
{
    if axes.len() == 0 {
        t == g
    } else {
        exists|m: Tensor<E>|
            sums_axes(g, axes.drop_last(), m) && #[trigger] reduce_result(
                m,
                ReduceKind::Sum,
                axes.last(),
                true,
                t,
            )
    }
}

/// `r` is `g` summed down to `shape`.
pub open spec fn unbroadcast_result<E: Elem>(
    g: Tensor<E>,
    shape: Seq<usize>,
    r: Tensor<E>,
) -> bool {
    &&& r.dims() == shape
    &&& exists|m: Tensor<E>| #[trigger]
        sums_axes(g, summed_axes(g.dims(), shape, g.dims().len() as int), m) && r.data()
            == m.data()
}

/// The dimensions once the axes below `k` are summed.
pub open spec fn dims_after(from: Seq<usize>, to: Seq<usize>, k: int) -> Seq<usize> {
    Seq::new(
        from.len(),
        |j: int|
            if j < k && axis_summed(from, to, j) {
                1
            } else {
                from[j]
            },
    )
}

proof fn lemma_product_ones(s: Seq<usize>)
    requires
        forall|i: int| 0 <= i < s.len() ==> #[trigger] s[i] == 1,
    ensures
        product(s) == 1,
    decreases s.len(),
{
    if s.len() > 0 {
        assert forall|i: int| 0 <= i < s.skip(1).len() implies #[trigger] s.skip(1)[i] == 1 by {
            assert(s[i + 1] == 1);
        }
        lemma_product_ones(s.skip(1));
        assert(s[0] == 1);
    }
}

/// Summing every broadcast axis leaves as many elements as the target has.
proof fn lemma_dims_after(from: Seq<usize>, to: Seq<usize>)
    requires
        expands_to(to, from),
    ensures
        product(dims_after(from, to, from.len() as int)) == product(to),
{
    let extra = from.len() - to.len();
    let d = dims_after(from, to, from.len() as int);
    assert forall|j: int| 0 <= j < to.len() implies d.skip(extra)[j] == #[trigger] to[j] by {
        assert(to[j] == 1 || to[j] == from[j + from.len() - to.len()]);
    }
    assert(d.skip(extra) =~= to);
    assert(d =~= d.take(extra) + d.skip(extra));
    lemma_product_concat(d.take(extra), d.skip(extra));
    lemma_product_ones(d.take(extra));
}

/// Why summing the axes from `k` on fails, if it does: summing an empty
/// gradient can pass through a shape with more elements than can be counted.
pub open spec fn sum_error(from: Seq<usize>, to: Seq<usize>, k: int) -> Option<ErrorText>
    decreases from.len() - k,
{
    if k < 0 || k >= from.len() {
        None
    } else if axis_summed(from, to, k) && product(dims_after(from, to, k + 1)) > usize::MAX {
        Some(overflow_error(ints(dims_after(from, to, k + 1))))
    } else {
        sum_error(from, to, k + 1)
    }
}

/// Why a gradient of dims `from` cannot be summed down to `to`, if it cannot.
pub open spec fn unbroadcast_error(from: Seq<usize>, to: Seq<usize>) -> Option<ErrorText> {
    if !expands_to(to, from) {
        Some(mismatch_error(from, to))
    } else {
        sum_error(from, to, 0)
    }
}

/// Whatever a shape was broadcast to, a gradient of that shape that is not
/// empty can be summed back down to it.
pub proof fn law_broadcast_gradients_sum_back(from: Seq<usize>, to: Seq<usize>)
    requires
        expands_to(to, from),
        0 < product(from) <= usize::MAX,
    ensures
        unbroadcast_error(from, to) is None,
{
    lemma_sums(from, to, 0);
}

/// A gradient of the right shape already needs no summing.
pub proof fn lemma_unbroadcasts_own(dims: Seq<usize>, k: int)
    requires
        0 <= k <= dims.len(),
    ensures
        expands_to(dims, dims),
        sum_error(dims, dims, k) is None,
    decreases dims.len() - k,
{
    if k < dims.len() {
        lemma_unbroadcasts_own(dims, k + 1);
    }
}

proof fn lemma_sums(from: Seq<usize>, to: Seq<usize>, k: int)
    requires
        expands_to(to, from),
        0 < product(from) <= usize::MAX,
        0 <= k <= from.len(),
    ensures
        sum_error(from, to, k) is None,
    decreases from.len() - k,
{
    if k < from.len() {
        lemma_product_positive(from);
        lemma_product_shrinks(dims_after(from, to, k + 1), from);
        lemma_sums(from, to, k + 1);
    }
}

/// Smaller dims have a smaller product.
proof fn lemma_product_shrinks(small: Seq<usize>, large: Seq<usize>)
    requires
        small.len() == large.len(),
        forall|i: int| 0 <= i < small.len() ==> #[trigger] small[i] <= large[i],
    ensures
        product(small) <= product(large),
    decreases small.len(),
{
    if small.len() > 0 {
        assert forall|i: int| 0 <= i < small.skip(1).len() implies #[trigger] small.skip(1)[i]
            <= large.skip(1)[i] by {
            assert(small[i + 1] <= large[i + 1]);
        }
        lemma_product_shrinks(small.skip(1), large.skip(1));
        assert(small[0] * product(small.skip(1)) <= large[0] * product(large.skip(1)))
            by (nonlinear_arith)
            requires
                small[0] <= large[0],
                product(small.skip(1)) <= product(large.skip(1)),
        ;
    }
}

/// Sums `g` down to `shape`, the inverse of broadcasting.
///
/// Aligns `g`'s trailing dims with `shape` (prepending size-1 dims as
/// needed), then sums every axis where the target is 1.
///
/// Fails with [`OxitorchError::ShapeMismatch`] if `shape` cannot broadcast to
/// `g`'s shape.
pub fn unbroadcast<E: Elem>(g: &Tensor<E>, shape: &[usize]) -> (r: OxitorchResult<Tensor<E>>)
    ensures
        match r {
            Ok(t) => unbroadcast_error(g.dims(), shape@) is None && unbroadcast_result(
                *g,
                shape@,
                t,
            ),
            Err(e) => unbroadcast_error(g.dims(), shape@) == Some(e@),
        },
{
    if !can_expand(shape, g.shape()) {
        return Err(mismatch(g.shape(), shape));
    }
    proof {
        use_type_invariant(g);
        g.lemma_wf();
    }
    let extra: usize = g.ndim() - shape.len();
    let ghost from = g.dims();
    let ghost to = shape@;
    let mut t = g.clone();
    let mut k: usize = 0;
    assert(dims_after(from, to, 0) =~= from);
    while k < g.ndim()
        invariant
            0 <= k <= from.len(),
            from == g.dims(),
            to == shape@,
            expands_to(to, from),
            extra == from.len() - to.len(),
            product(from) <= usize::MAX,
            t.dims() == dims_after(from, to, k as int),
            sums_axes(*g, summed_axes(from, to, k as int), t),
            unbroadcast_error(from, to) == sum_error(from, to, k as int),
        decreases from.len() - k,
    {
        let summed = k < extra || (shape[k - extra] == 1 && t.shape()[k] != 1);
        assert(t.dims()[k as int] == from[k as int]);
        assert(summed == axis_summed(from, to, k as int));
        if summed {
            assert(t.dims().update(k as int, 1) =~= dims_after(from, to, k + 1));
            let next = match t.reduce_axis(ReduceKind::Sum, k, true) {
                Ok(x) => x,
                Err(e) => {
                    return Err(e);
                },
            };
            proof {
                let axes = summed_axes(from, to, k + 1);
                assert(axes.drop_last() =~= summed_axes(from, to, k as int));
                assert(axes.last() == k as int);
                assert(reduce_result(t, ReduceKind::Sum, axes.last(), true, next));
                assert(next.dims() =~= dims_after(from, to, k + 1));
            }
            t = next;
        } else {
            assert(dims_after(from, to, k + 1) =~= dims_after(from, to, k as int));
        }
        k = k + 1;
    }
    if same_dims(t.shape(), shape) {
        return Ok(t);
    }
    proof {
        lemma_dims_after(from, to);
    }
    Ok(t.redimensioned(shape))
}

/// Whether `shape` broadcasts to exactly `out`.
fn can_expand(shape: &[usize], out: &[usize]) -> (r: bool)
    ensures
        r == expands_to(shape@, out@),
{
    if shape.len() > out.len() {
        return false;
    }
    let extra: usize = out.len() - shape.len();
    let mut j: usize = 0;
    while j < shape.len()
        invariant
            0 <= j <= shape.len(),
            extra == out.len() - shape.len(),
            forall|i: int|
                0 <= i < j ==> #[trigger] shape@[i] == 1 || shape@[i] == out@[i + extra],
        decreases shape.len() - j,
    {
        if shape[j] != 1 && shape[j] != out[j + extra] {
            assert(!(shape@[j as int] == 1 || shape@[j as int] == out@[j + extra]));
            return false;
        }
        j = j + 1;
    }
    true
}

} // verus!
