//! That the rule recorded with a reduction is the derivative of what the
//! reduction computes.

use vstd::prelude::*;
use crate::autograd::ops::is_reduce_rule;
use crate::autograd::rules::{
    OpGrad, column_of, combines, expands_over, in_keepdim_form, is_share, lifted, scales,
    spreads_back, to_winners,
};
use crate::autograd::unbroadcast::unbroadcast_result;
use crate::elem::Elem;
use crate::exact::{Exact, total};
use crate::exact::derivatives::lemma_onto;
use crate::exact::gradients::{law_elementwise, law_unbroadcast_keeps_shape};
use crate::exact::reductions::{law_argmax, law_argmin, law_reduce_norm, place_after};
use crate::exact::values::lemma_reciprocal;
use crate::index::{
    in_shape, index_of, inner_pos, lemma_cell, lemma_ravel, lemma_ravel_concat, lemma_ravel_split,
    outer_pos, product, ravel,
};
use crate::layout::{broadcast_index, expands_to, law_broadcast_identity};
use crate::ops::{BinaryOp, ReduceKind, is_reciprocal};
use crate::tensor::Tensor;
use crate::tensor::reduce::{
    is_winner, lemma_rest_of, lemma_strip_column, reduce_result, reduced_dims, rest_of, strip,
};

verus! {

pub(crate) proof fn lemma_place<E>(t: Tensor<E>, d: int, keepdim: bool, g: Tensor<E>, idx: Seq<int>)
    requires
        0 <= d < t.dims().len(),
        g.dims() == reduced_dims(t.dims(), d, keepdim),
        in_shape(idx, t.dims()),
    ensures
        in_shape(place_after(idx, d, keepdim), g.dims()),
        in_shape(idx.remove(d), t.dims().remove(d)),
        ravel(place_after(idx, d, keepdim), g.dims()) == ravel(idx.remove(d), t.dims().remove(d)),
{
    let at = place_after(idx, d, keepdim);
    assert forall|j: int| 0 <= j < g.dims().len() implies 0 <= #[trigger] at[j] < g.dims()[j] by {
        if keepdim {
            assert(j == d || at[j] == idx[j]);
        } else if j < d {
            assert(at[j] == idx[j]);
        } else {
            assert(at[j] == idx[j + 1]);
        }
    }
    lemma_rest_of(at, t.dims(), d, keepdim);
    assert(rest_of(at, d, keepdim) =~= idx.remove(d));
}

/// A gradient spread back over a reduced dimension is the same all along it.
proof fn lemma_spreads<E: Elem>(
    t: Tensor<E>,
    d: int,
    keepdim: bool,
    g: Tensor<E>,
    up: Tensor<E>,
    idx: Seq<int>,
)
    requires
        0 <= d < t.dims().len(),
        g.dims() == reduced_dims(t.dims(), d, keepdim),
        spreads_back(g, t.dims(), d, up),
        in_shape(idx, t.dims()),
    ensures
        up.at(idx) == g.at(place_after(idx, d, keepdim)),
{
    let dims = t.dims();
    let k = choose|k: Tensor<E>| #[trigger]
        in_keepdim_form(g, dims, d, k) && expands_over(k, dims, up);
    if !keepdim {
        assert(dims.remove(d).insert(d, 1) =~= dims.update(d, 1));
    }
    assert(k.dims() == dims.update(d, 1));
    let y = idx.update(d, 0);
    let b = broadcast_index(idx, k.dims());
    assert forall|j: int| 0 <= j < y.len() implies #[trigger] y[j] == b[j] by {
        assert(0 <= idx[j] < dims[j]);
    }
    assert(b =~= y);
    assert(up.at(idx) == k.at(y));
    lemma_place(t, d, true, k, idx);
    lemma_place(t, d, keepdim, g, idx);
    k.lemma_at(y);
    g.lemma_at(place_after(idx, d, keepdim));
}

/// Every number that a sum adds up gets the gradient of the sum.
pub proof fn law_sum_gradient<E: Elem>(
    rule: OpGrad<E>,
    t: Tensor<E>,
    d: int,
    keepdim: bool,
    g: Tensor<E>,
    r: Seq<Tensor<E>>,
    idx: Seq<int>,
)
    requires
        0 <= d < t.dims().len(),
        is_reduce_rule(rule, ReduceKind::Sum, t, d),
        g.dims() == reduced_dims(t.dims(), d, keepdim),
        rule.gives(g, r),
        in_shape(idx, t.dims()),
    ensures
        r[0].dims() == t.dims(),
        r[0].at(idx) == g.at(place_after(idx, d, keepdim)),
{
    let up = choose|up: Tensor<E>| #[trigger]
        spreads_back(g, t.dims(), d, up) && unbroadcast_result(up, t.dims(), r[0]);
    law_unbroadcast_keeps_shape(up, r[0]);
    r[0].lemma_at(idx);
    up.lemma_at(idx);
    lemma_spreads(t, d, keepdim, g, up, idx);
}

/// Every number that a mean is taken of gets an equal share of its gradient.
pub proof fn law_mean_gradient<E: Elem>(
    m: Exact<E>,
    rule: OpGrad<E>,
    t: Tensor<E>,
    d: int,
    keepdim: bool,
    g: Tensor<E>,
    r: Seq<Tensor<E>>,
    idx: Seq<int>,
)
    requires
        m.arithmetic(),
        0 <= d < t.dims().len(),
        is_reduce_rule(rule, ReduceKind::Mean, t, d),
        g.dims() == reduced_dims(t.dims(), d, keepdim),
        rule.gives(g, r),
        in_shape(idx, t.dims()),
    ensures
        r[0].dims() == t.dims(),
        (m.val)(r[0].at(idx)) * (t.dims()[d] as int as real) == (m.val)(
            g.at(place_after(idx, d, keepdim)),
        ),
{
    let (up, share, gx) = choose|up: Tensor<E>, share: E, gx: Tensor<E>| #[trigger]
        spreads_back(g, t.dims(), d, up) && is_share(t.dims()[d], share) && #[trigger] scales(
            up,
            share,
            gx,
        ) && unbroadcast_result(gx, t.dims(), r[0]);
    law_unbroadcast_keeps_shape(gx, r[0]);
    lemma_spreads(t, d, keepdim, g, up, idx);
    let p = ravel(idx, t.dims());
    lemma_ravel(idx, t.dims());
    r[0].lemma_at(idx);
    up.lemma_at(idx);
    assert(call_ensures(E::times, (up.data()[p], share), gx.data()[p]));
    let c = choose|c: E|
        #![trigger call_ensures(E::from_count, (t.dims()[d],), c)]
        call_ensures(E::from_count, (t.dims()[d],), c) && is_reciprocal(c, share);
    assert(0 <= idx[d] < t.dims()[d]);
    let n = t.dims()[d] as int as real;
    assert(n > 0real);
    lemma_reciprocal(m, c, share);
    let x = (m.val)(up.at(idx));
    let s = (m.val)(share);
    assert((x * s) * n == x) by (nonlinear_arith)
        requires
            s * n == 1real,
    ;
}

/// That the element at `idx` is the first of the largest along dimension `d`,
/// or of the smallest.
pub open spec fn wins<E>(m: Exact<E>, t: Tensor<E>, d: int, largest: bool, idx: Seq<int>) -> bool {
    &&& forall|k: int|
        0 <= k < t.dims()[d] ==> if largest {
            (m.val)(#[trigger] t.at(idx.update(d, k))) <= (m.val)(t.at(idx))
        } else {
            (m.val)(t.at(idx)) <= (m.val)(t.at(idx.update(d, k)))
        }
    &&& forall|k: int|
        0 <= k < idx[d] ==> (m.val)(#[trigger] t.at(idx.update(d, k))) != (m.val)(t.at(idx))
}

/// Of every strip that a maximum or minimum is taken of, the first winner gets
/// the gradient, and nothing else does.
pub proof fn law_winner_gradient<E: Elem>(
    m: Exact<E>,
    rule: OpGrad<E>,
    kind: ReduceKind,
    t: Tensor<E>,
    d: int,
    keepdim: bool,
    g: Tensor<E>,
    r: Seq<Tensor<E>>,
    idx: Seq<int>,
)
    requires
        m.arithmetic(),
        m.ordered(),
        0 <= d < t.dims().len(),
        kind == ReduceKind::Max || kind == ReduceKind::Min,
        is_reduce_rule(rule, kind, t, d),
        g.dims() == reduced_dims(t.dims(), d, keepdim),
        rule.gives(g, r),
        in_shape(idx, t.dims()),
    ensures
        r[0].dims() == t.dims(),
        (m.val)(r[0].at(idx)) == if wins(m, t, d, kind == ReduceKind::Max, idx) {
            (m.val)(g.at(place_after(idx, d, keepdim)))
        } else {
            0real
        },
{
    let dims = t.dims();
    let largest = kind == ReduceKind::Max;
    let places = rule->Winner_places;
    let won = index_of(places@);
    let gx = choose|gx: Tensor<E>| #[trigger]
        to_winners(g.data(), won, dims, d, gx) && unbroadcast_result(gx, dims, r[0]);
    law_unbroadcast_keeps_shape(gx, r[0]);
    let inner = product(dims.skip(d + 1)) as int;
    let len = dims[d] as int;
    let p = ravel(idx, dims);
    lemma_ravel(idx, dims);
    lemma_ravel_split(idx, dims, d);
    let o = outer_pos(idx, dims, d);
    let i = inner_pos(idx, dims, d);
    assert(0 <= idx[d] < len);
    lemma_cell(o, idx[d], i, product(dims.take(d)) as int, len, inner);
    let q = o * inner + i;
    let rest = idx.remove(d);
    lemma_place(t, d, keepdim, g, idx);
    assert(ravel(rest, dims.remove(d)) == q) by {
        assert(rest =~= idx.take(d) + idx.skip(d + 1));
        assert(dims.remove(d) =~= dims.take(d) + dims.skip(d + 1));
        lemma_ravel_concat(idx.take(d), idx.skip(d + 1), dims.take(d), dims.skip(d + 1));
    }
    assert(column_of(p, len, inner) == q);
    r[0].lemma_at(idx);
    g.lemma_at(place_after(idx, d, keepdim));
    lemma_strip_column(t, d, rest, q);
    lemma_ravel(rest, dims.remove(d));
    let s = strip(t, d, rest);
    assert forall|k: int| 0 <= k < len implies #[trigger] s[k] == t.at(idx.update(d, k)) by {
        assert(rest.insert(d, k) =~= idx.update(d, k));
    }
    assert(idx.update(d, idx[d]) =~= idx);
    let best = won[q];
    assert(is_winner(s, largest, best));
    if largest {
        law_argmax(m, s, best);
    } else {
        law_argmin(m, s, best);
    }
    assert(s[best] == t.at(idx.update(d, best)));
    if best == idx[d] {
        assert forall|k: int| 0 <= k < idx[d] implies (m.val)(#[trigger] t.at(idx.update(d, k)))
            != (m.val)(t.at(idx)) by {
            assert(s[k] == t.at(idx.update(d, k)));
        }
        assert forall|k: int| 0 <= k < len implies if largest {
            (m.val)(#[trigger] t.at(idx.update(d, k))) <= (m.val)(t.at(idx))
        } else {
            (m.val)(t.at(idx)) <= (m.val)(t.at(idx.update(d, k)))
        } by {
            assert(s[k] == t.at(idx.update(d, k)));
        }
        assert(wins(m, t, d, largest, idx));
    } else {
        assert(s[idx[d]] == t.at(idx));
        assert(!wins(m, t, d, largest, idx));
    }
}

/// The derivative of a norm is each number's share in it; the small number
/// stands in for a norm of zero.
pub proof fn law_norm_gradient<E: Elem>(
    m: Exact<E>,
    rule: OpGrad<E>,
    t: Tensor<E>,
    d: int,
    keepdim: bool,
    g: Tensor<E>,
    r: Seq<Tensor<E>>,
    idx: Seq<int>,
) -> (norm: real)
    requires
        m.arithmetic(),
        m.functions(),
        0 <= d < t.dims().len(),
        is_reduce_rule(rule, ReduceKind::Norm, t, d),
        g.dims() == reduced_dims(t.dims(), d, keepdim),
        rule.gives(g, r),
        in_shape(idx, t.dims()),
    ensures
        r[0].dims() == t.dims(),
        norm >= 0real,
        norm * norm == total(
            |k: int| (m.val)(t.at(idx.update(d, k))) * (m.val)(t.at(idx.update(d, k))),
            t.dims()[d] as nat,
        ),
        (m.val)(r[0].at(idx)) * (norm + m.tiny) == (m.val)(g.at(place_after(idx, d, keepdim)))
            * (m.val)(t.at(idx)),
{
    let dims = t.dims();
    let (up, n, safe, ratio, gx) = choose|
        up: Tensor<E>,
        n: Tensor<E>,
        safe: Tensor<E>,
        ratio: Tensor<E>,
        gx: Tensor<E>,
    | #[trigger]
        spreads_back(g, dims, d, up) && #[trigger] reduce_result(t, ReduceKind::Norm, d, true, n)
            && #[trigger] lifted(n, safe) && #[trigger] combines(BinaryOp::Div, t, safe, ratio)
            && #[trigger] combines(BinaryOp::Mul, up, ratio, gx) && unbroadcast_result(
            gx,
            dims,
            r[0],
        );
    lemma_spreads(t, d, keepdim, g, up, idx);
    law_reduce_norm(m, t, d, true, n, idx);
    let at = place_after(idx, d, true);
    let norm = (m.val)(n.at(at));
    let p = ravel(idx, dims);
    lemma_ravel(idx, dims);
    assert(expands_to(safe.dims(), dims));
    lemma_onto(BinaryOp::Div, t, safe, ratio, p);
    assert(broadcast_index(idx, safe.dims()) =~= at) by {
        assert forall|j: int| 0 <= j < at.len() implies #[trigger] at[j] == broadcast_index(
            idx,
            safe.dims(),
        )[j] by {
            assert(0 <= idx[j] < dims[j]);
        }
    }
    let q = ravel(at, n.dims());
    lemma_ravel(at, n.dims());
    n.lemma_at(at);
    let c = choose|c: E| #[trigger]
        call_ensures(E::tiny, (), c) && forall|p: int|
            0 <= p < n.count() ==> call_ensures(E::plus, (n.data()[p], c), #[trigger] safe.data()[p]);
    assert(call_ensures(E::plus, (n.data()[q], c), safe.data()[q]));
    law_broadcast_identity(dims);
    law_elementwise(BinaryOp::Mul, up, ratio, gx, p);
    law_unbroadcast_keeps_shape(gx, r[0]);
    r[0].lemma_at(idx);
    up.lemma_at(idx);
    t.lemma_at(idx);
    let x = (m.val)(t.at(idx));
    let w = norm + m.tiny;
    let y = (m.val)(g.at(place_after(idx, d, keepdim)));
    assert((y * (x / w)) * w == y * x) by (nonlinear_arith)
        requires
            w > 0real,
    ;
    norm
}

} // verus!
