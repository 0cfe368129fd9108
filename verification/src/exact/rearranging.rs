//! That the rules of ops that move elements around hand every gradient back
//! to where its element came from.

use vstd::prelude::*;
use vstd::arithmetic::div_mod::*;
use crate::autograd::ops::{
    rule_keeps_dims, rule_pads, rule_returns, rule_scatters, rule_selects, rule_undoes,
};
use crate::autograd::rules::{
    OpGrad, added_at, adds_back, combines, expands_over, masks_rows, selected_places,
};
use crate::autograd::unbroadcast::unbroadcast_result;
use crate::elem::{Elem, is_one, is_zero};
use crate::exact::{Exact, lemma_total_equal, total};
use crate::exact::broadcasting::{law_unbroadcast, shown_at};
use crate::exact::derivatives::{collected, lemma_shown};
use crate::exact::gradients::{law_elementwise, law_unbroadcast_keeps_shape};
use crate::index::{
    in_shape, index2, inner_pos, inverse, lemma_cell, lemma_inverse, lemma_ravel, lemma_ravel_split,
    lemma_unravel, outer_pos, permuted, product, ravel, unravel,
};
use crate::layout::{
    broadcast_index, broadcast_of, broadcastable, law_broadcast_covers_operands,
    lemma_broadcast_index,
};
use crate::ops::BinaryOp;
use crate::tensor::Tensor;
use crate::tensor::indexing::{
    flags_nonzero, kept, last_place, lemma_last_place, mask_result_at, picks_slices, spread_data,
    spread_places,
};
use crate::tensor::views::{
    lemma_permute_moves, narrow_result, permute_result, reshape_result, transpose_result,
};

verus! {

/// What position `p` of `g` hands to position `q`, if `q` is its place.
pub open spec fn arrival<E>(m: Exact<E>, g: Tensor<E>, places: Seq<int>, q: int, p: int) -> real {
    if places[p] == q {
        m.num(g, p)
    } else {
        0real
    }
}

/// The sum of the numbers of `g` whose place is `q`.
pub open spec fn arriving<E>(m: Exact<E>, g: Tensor<E>, places: Seq<int>, q: int) -> real {
    total(|p: int| arrival(m, g, places, q, p), g.count())
}

proof fn lemma_added<E: Elem>(
    m: Exact<E>,
    places: Seq<int>,
    g: Seq<E>,
    q: int,
    n: int,
    z: E,
    r: E,
    f: spec_fn(int) -> real,
)
    requires
        m.arithmetic(),
        0 <= n <= g.len(),
        added_at(places, g, q, n, z, r),
        forall|p: int|
            0 <= p < g.len() ==> #[trigger] f(p) == if places[p] == q {
                (m.val)(g[p])
            } else {
                0real
            },
    ensures
        (m.val)(r) == (m.val)(z) + total(f, n as nat),
    decreases n,
{
    if n > 0 {
        if places[n - 1] == q {
            let x = choose|x: E|
                added_at(places, g, q, n - 1, z, x) && #[trigger] call_ensures(
                    E::plus,
                    (x, g[n - 1]),
                    r,
                );
            lemma_added(m, places, g, q, n - 1, z, x, f);
        } else {
            lemma_added(m, places, g, q, n - 1, z, r, f);
        }
        assert(f(n - 1) == if places[n - 1] == q {
            (m.val)(g[n - 1])
        } else {
            0real
        });
    }
}

proof fn lemma_arrives<E: Elem>(
    m: Exact<E>,
    places: Seq<int>,
    g: Tensor<E>,
    dims: Seq<usize>,
    r: Tensor<E>,
    q: int,
)
    requires
        m.arithmetic(),
        adds_back(places, g.data(), dims, r),
        0 <= q < r.count(),
    ensures
        m.num(r, q) == arriving(m, g, places, q),
{
    let n = g.data().len() as int;
    let z = choose|z: E| #[trigger]
        is_zero(z) && forall|q: int|
            0 <= q < r.count() ==> added_at(places, g.data(), q, n, z, #[trigger] r.data()[q]);
    assert(added_at(places, g.data(), q, n, z, r.data()[q]));
    let f = |p: int| arrival(m, g, places, q, p);
    lemma_added(m, places, g.data(), q, n, z, r.data()[q], f);
}

/// Where the element at position `p` of a selection of slices along dimension
/// `d` comes from.
pub open spec fn selected_from(
    p: int,
    out: Seq<usize>,
    dims: Seq<usize>,
    d: int,
    picks: Seq<int>,
) -> int {
    ravel(unravel(p, out).update(d, picks[unravel(p, out)[d]]), dims)
}

/// Selecting slices reads elements off their places, and hands every gradient
/// back to the place its element was read off.
pub proof fn law_index_select_gradient<E: Elem>(
    m: Exact<E>,
    rule: OpGrad<E>,
    x: Tensor<E>,
    d: int,
    picks: Seq<int>,
    out: Tensor<E>,
    g: Tensor<E>,
    r: Seq<Tensor<E>>,
) -> (places: Seq<int>)
    requires
        m.arithmetic(),
        0 <= d < x.dims().len(),
        picks.len() <= usize::MAX,
        picks_slices(x, d, picks, out),
        rule_selects(rule, x.dims(), d, picks),
        g.dims() == out.dims(),
        rule.gives(g, r),
    ensures
        r[0].dims() == x.dims(),
        places.len() == out.count(),
        forall|p: int|
            0 <= p < out.count() ==> #[trigger] places[p] == selected_from(
                p,
                out.dims(),
                x.dims(),
                d,
                picks,
            ) && 0 <= places[p] < x.count() && out.data()[p] == x.data()[places[p]],
        forall|q: int|
            0 <= q < x.count() ==> #[trigger] m.num(r[0], q) == arriving(m, g, places, q),
{
    let dims = x.dims();
    let places = selected_places(dims, d, picks, g.data().len());
    assert forall|p: int| 0 <= p < out.count() implies #[trigger] places[p] == selected_from(
        p,
        out.dims(),
        dims,
        d,
        picks,
    ) && 0 <= places[p] < x.count() && out.data()[p] == x.data()[places[p]] by {
        let od = out.dims();
        lemma_unravel(p, od);
        let idx = unravel(p, od);
        let k = picks[idx[d]];
        let from = idx.update(d, k);
        assert(in_shape(idx, out.dims()));
        assert(in_shape(from, dims) && out.at(idx) == x.at(from));
        assert(0 <= idx[d] < od[d]);
        lemma_ravel_split(idx, od, d);
        lemma_ravel_split(from, dims, d);
        let inner = product(dims.skip(d + 1)) as int;
        assert(od.skip(d + 1) =~= dims.skip(d + 1));
        assert(od.take(d) =~= dims.take(d));
        assert(from.take(d) =~= idx.take(d));
        assert(from.skip(d + 1) =~= idx.skip(d + 1));
        let o = outer_pos(idx, od, d);
        let i = inner_pos(idx, od, d);
        lemma_cell(o, idx[d], i, product(od.take(d)) as int, picks.len() as int, inner);
        assert(from[d] == k);
        x.lemma_at(from);
    }
    assert forall|q: int| 0 <= q < x.count() implies #[trigger] m.num(r[0], q) == arriving(
        m,
        g,
        places,
        q,
    ) by {
        lemma_arrives(m, places, g, dims, r[0], q);
    }
    places
}

/// Keeping the same flags of two runs keeps matching elements.
proof fn lemma_kept_match<A, B>(a: Seq<A>, b: Seq<B>, keep: Seq<bool>, f: spec_fn(A, B) -> bool)
    requires
        a.len() == b.len(),
        keep.len() == a.len(),
        forall|i: int| 0 <= i < a.len() ==> f(#[trigger] a[i], b[i]),
    ensures
        kept(a, keep).len() == kept(b, keep).len(),
        forall|i: int| 0 <= i < kept(a, keep).len()
            ==> f(#[trigger] kept(a, keep)[i], kept(b, keep)[i]),
    decreases a.len(),
{
    if a.len() > 0 {
        let a0 = a.drop_last();
        let b0 = b.drop_last();
        let k0 = keep.drop_last();
        assert forall|i: int| 0 <= i < a0.len() implies f(#[trigger] a0[i], b0[i]) by {
            assert(f(a[i], b[i]));
        }
        lemma_kept_match(a0, b0, k0, f);
        assert(f(a[a.len() - 1], b[a.len() - 1]));
        let n = kept(a0, k0).len() as int;
        assert forall|i: int| 0 <= i < kept(a, keep).len() implies f(
            #[trigger] kept(a, keep)[i],
            kept(b, keep)[i],
        ) by {
            if i < n {
                assert(f(kept(a0, k0)[i], kept(b0, k0)[i]));
            }
        }
    }
}

/// Selecting by a mask reads elements off their places, and hands every
/// gradient back to the place its element was read off.
pub proof fn law_masked_select_gradient<E: Elem>(
    m: Exact<E>,
    rule: OpGrad<E>,
    x: Tensor<E>,
    mask: Tensor<E>,
    places: Seq<int>,
    out: Tensor<E>,
    g: Tensor<E>,
    r: Seq<Tensor<E>>,
)
    requires
        m.arithmetic(),
        broadcastable(x.dims(), mask.dims()),
        mask_result_at(x, mask, out, places),
        rule_returns(rule, x.dims(), places),
        g.dims() == out.dims(),
        rule.gives(g, r),
    ensures
        r[0].dims() == x.dims(),
        places.len() == out.data().len(),
        forall|p: int|
            0 <= p < places.len() ==> 0 <= #[trigger] places[p] < x.count() && out.data()[p]
                == x.data()[places[p]],
        forall|q: int|
            0 <= q < x.count() ==> #[trigger] m.num(r[0], q) == arriving(m, g, places, q),
{
    let wide = broadcast_of(x.dims(), mask.dims());
    let keep = choose|keep: Seq<bool>| #[trigger]
        flags_nonzero(spread_data(mask, wide), keep) && out.data() == kept(
            spread_data(x, wide),
            keep,
        ) && out.dims() == seq![out.data().len() as usize] && places == kept(
            spread_places(x.dims(), wide),
            keep,
        );
    let f = |at: int, e: E| 0 <= at < x.count() && e == x.data()[at];
    let a = spread_places(x.dims(), wide);
    let b = spread_data(x, wide);
    law_broadcast_covers_operands(x.dims(), mask.dims());
    assert forall|i: int| 0 <= i < a.len() implies f(#[trigger] a[i], b[i]) by {
        lemma_unravel(i, wide);
        let idx = unravel(i, wide);
        lemma_broadcast_index(idx, x.dims(), x.dims(), wide);
        x.lemma_at(broadcast_index(idx, x.dims()));
    }
    lemma_kept_match(a, b, keep, f);
    assert forall|p: int| 0 <= p < places.len() implies 0 <= #[trigger] places[p] < x.count()
        && out.data()[p] == x.data()[places[p]] by {
        assert(f(kept(a, keep)[p], kept(b, keep)[p]));
    }
    assert forall|q: int| 0 <= q < x.count() implies #[trigger] m.num(r[0], q) == arriving(
        m,
        g,
        places,
        q,
    ) by {
        lemma_arrives(m, places, g, x.dims(), r[0], q);
    }
}

/// A slice of rows hands its gradient back to those rows, and nothing to the
/// others.
pub proof fn law_narrow_gradient<E: Elem>(
    m: Exact<E>,
    rule: OpGrad<E>,
    x: Tensor<E>,
    start: int,
    len: int,
    out: Tensor<E>,
    g: Tensor<E>,
    r: Seq<Tensor<E>>,
    idx: Seq<int>,
)
    requires
        m.arithmetic(),
        x.dims().len() > 0,
        narrow_result(x, 0, start, 1, len, out),
        rule_pads(rule, x.dims(), start),
        g.dims() == out.dims(),
        rule.gives(g, r),
        in_shape(idx, x.dims()),
    ensures
        r[0].dims() == x.dims(),
        start <= idx[0] < start + len ==> r[0].at(idx) == g.at(idx.update(0, idx[0] - start)),
        !(start <= idx[0] < start + len) ==> (m.val)(r[0].at(idx)) == 0real,
{
    let dims = x.dims();
    let inner = product(dims.skip(1)) as int;
    let rest = ravel(idx.skip(1), dims.skip(1));
    assert(in_shape(idx.skip(1), dims.skip(1))) by {
        assert forall|j: int| 0 <= j < dims.skip(1).len() implies 0 <= #[trigger] idx.skip(1)[j]
            < dims.skip(1)[j] by {
            assert(0 <= idx[j + 1] < dims[j + 1]);
        }
    }
    lemma_ravel(idx.skip(1), dims.skip(1));
    let p = ravel(idx, dims);
    r[0].lemma_at(idx);
    assert(p == idx[0] * inner + rest);
    assert(out.dims().skip(1) =~= dims.skip(1));
    let n = g.data().len() as int;
    assert(n == len * inner);
    let from = start * inner;
    if start <= idx[0] < start + len {
        let y = idx.update(0, idx[0] - start);
        assert(y.skip(1) =~= idx.skip(1));
        assert(in_shape(y, g.dims())) by {
            assert forall|j: int| 0 <= j < y.len() implies 0 <= #[trigger] y[j] < g.dims()[j] by {
                assert(0 <= idx[j] < dims[j]);
            }
        }
        g.lemma_at(y);
        assert((idx[0] - start) * inner + rest == p - from) by (nonlinear_arith)
            requires
                p == idx[0] * inner + rest,
                from == start * inner,
        ;
        assert(from <= p < from + n);
    } else {
        assert(!(from <= p < from + n)) by (nonlinear_arith)
            requires
                p == idx[0] * inner + rest,
                0 <= rest < inner,
                from == start * inner,
                n == len * inner,
                idx[0] < start || idx[0] >= start + len,
        ;
    }
}

/// A reordering of dimensions hands the gradient back in the old order.
pub proof fn law_permute_gradient<E: Elem>(
    rule: OpGrad<E>,
    x: Tensor<E>,
    perm: Seq<int>,
    out: Tensor<E>,
    g: Tensor<E>,
    r: Seq<Tensor<E>>,
    idx: Seq<int>,
)
    requires
        permute_result(x, perm, out),
        rule_undoes(rule, x.dims(), perm),
        g.dims() == out.dims(),
        rule.gives(g, r),
        in_shape(idx, x.dims()),
    ensures
        r[0].dims() == x.dims(),
        out.at(permuted(idx, perm)) == x.at(idx),
        r[0].at(idx) == g.at(permuted(idx, perm)),
{
    lemma_permute_moves(x, perm, out, idx);
    lemma_inverse(perm);
    let inv = inverse(perm);
    lemma_inverse(inv);
    let gx = choose|gx: Tensor<E>| #[trigger]
        permute_result(g, inv, gx) && unbroadcast_result(gx, x.dims(), r[0]);
    let y = permuted(idx, perm);
    lemma_permute_moves(g, inv, gx, y);
    assert(permuted(y, inv) =~= idx) by {
        assert forall|v: int| 0 <= v < perm.len() implies permuted(y, inv)[v]
            == #[trigger] idx[v] by {
            assert(perm[inv[v]] == v);
        }
    }
    assert(gx.dims() =~= x.dims()) by {
        assert forall|v: int| 0 <= v < perm.len() implies gx.dims()[v]
            == #[trigger] x.dims()[v] by {
            assert(perm[inv[v]] == v);
        }
    }
    law_unbroadcast_keeps_shape(gx, r[0]);
    r[0].lemma_at(idx);
    gx.lemma_at(idx);
}

/// A transpose hands the gradient back transposed.
pub proof fn law_transpose_gradient<E: Elem>(
    rule: OpGrad<E>,
    x: Tensor<E>,
    out: Tensor<E>,
    g: Tensor<E>,
    r: Seq<Tensor<E>>,
    i: int,
    j: int,
)
    requires
        transpose_result(x, out),
        rule_keeps_dims(rule, x.dims()) && rule is Transpose,
        g.dims() == out.dims(),
        rule.gives(g, r),
        0 <= i < x.dims()[0],
        0 <= j < x.dims()[1],
    ensures
        r[0].dims() == x.dims(),
        out.at(index2(j, i)) == x.at(index2(i, j)),
        r[0].at(index2(i, j)) == g.at(index2(j, i)),
{
    let gx = choose|gx: Tensor<E>| #[trigger]
        transpose_result(g, gx) && unbroadcast_result(gx, x.dims(), r[0]);
    assert(gx.dims() =~= x.dims());
    law_unbroadcast_keeps_shape(gx, r[0]);
    r[0].lemma_at(index2(i, j));
    gx.lemma_at(index2(i, j));
    assert(gx.at(index2(i, j)) == g.at(index2(j, i)));
}

/// A change of shape hands the gradient back in the same order.
pub proof fn law_reshape_gradient<E: Elem>(
    rule: OpGrad<E>,
    x: Tensor<E>,
    new_shape: Seq<i64>,
    out: Tensor<E>,
    g: Tensor<E>,
    r: Seq<Tensor<E>>,
)
    requires
        reshape_result(x, new_shape, out),
        rule_keeps_dims(rule, x.dims()) && rule is Reshape,
        g.dims() == out.dims(),
        rule.gives(g, r),
    ensures
        out.data() == x.data(),
        r[0].dims() == x.dims(),
        r[0].data() == g.data(),
{
}

/// A broadcast hands back to every element the sum of the gradients of its
/// copies.
pub proof fn law_broadcast_to_gradient<E: Elem>(
    m: Exact<E>,
    rule: OpGrad<E>,
    x: Tensor<E>,
    shape: Seq<usize>,
    out: Tensor<E>,
    g: Tensor<E>,
    r: Seq<Tensor<E>>,
    q: int,
)
    requires
        m.arithmetic(),
        expands_over(x, shape, out),
        rule_keeps_dims(rule, x.dims()) && rule is BroadcastTo,
        g.dims() == out.dims(),
        rule.gives(g, r),
        0 <= q < x.count(),
    ensures
        r[0].dims() == x.dims(),
        forall|p: int|
            0 <= p < out.count() ==> out.data()[p] == x.data()[#[trigger] shown_at(
                p,
                shape,
                x.dims(),
            )],
        m.num(r[0], q) == collected(|p: int| m.num(g, p), shape, x.dims(), q),
{
    law_unbroadcast(m, g, x.dims(), r[0], q);
    let f = |p: int| m.num(g, p);
    lemma_total_equal(
        |p: int|
            if shown_at(p, shape, x.dims()) == q {
                m.num(g, p)
            } else {
                0real
            },
        |p: int|
            if shown_at(p, shape, x.dims()) == q {
                f(p)
            } else {
                0real
            },
        product(shape),
    );
    assert forall|p: int| 0 <= p < out.count() implies out.data()[p]
        == x.data()[#[trigger] shown_at(
        p,
        shape,
        x.dims(),
    )] by {
        lemma_shown(x, shape, p);
        lemma_unravel(p, shape);
        assert(out.at(unravel(p, shape)) == x.at(broadcast_index(unravel(p, shape), x.dims())));
    }
}

/// Rows written over hand nothing back to the base, and their gradients go to
/// the row that was written there last.
pub proof fn law_scatter_gradient<E: Elem>(
    m: Exact<E>,
    rule: OpGrad<E>,
    base: Tensor<E>,
    values: Tensor<E>,
    picks: Seq<int>,
    g: Tensor<E>,
    r: Seq<Tensor<E>>,
    idx: Seq<int>,
    at: Seq<int>,
)
    requires
        m.arithmetic(),
        base.dims().len() > 0,
        values.dims() == base.dims().update(0, picks.len() as usize),
        picks.len() <= usize::MAX,
        forall|k: int| 0 <= k < picks.len() ==> 0 <= #[trigger] picks[k] < base.dims()[0],
        rule_scatters(rule, base.dims(), values.dims(), picks),
        g.dims() == base.dims(),
        rule.gives(g, r),
        in_shape(idx, base.dims()),
        in_shape(at, values.dims()),
    ensures
        r[0].dims() == base.dims(),
        r[1].dims() == values.dims(),
        (m.val)(r[0].at(idx)) == if picks.contains(idx[0]) {
            0real
        } else {
            (m.val)(g.at(idx))
        },
        (m.val)(r[1].at(at)) == if exists|k: int|
            at[0] < k < picks.len() && #[trigger] picks[k] == picks[at[0]] {
            0real
        } else {
            (m.val)(g.at(at.update(0, picks[at[0]])))
        },
{
    let dims = base.dims();
    let inner = product(dims.skip(1)) as int;
    let (mask, gb) = choose|mask: Tensor<E>, gb: Tensor<E>| #[trigger]
        masks_rows(dims, picks, mask) && #[trigger] combines(BinaryOp::Mul, g, mask, gb)
            && unbroadcast_result(gb, dims, r[0]);
    let p = lemma_row_position(dims, idx);
    law_elementwise(BinaryOp::Mul, g, mask, gb, p);
    law_unbroadcast_keeps_shape(gb, r[0]);
    r[0].lemma_at(idx);
    g.lemma_at(idx);
    lemma_last_place(picks, idx[0]);
    let y = m.num(g, p);
    assert(y * 0real == 0real && y * 1real == y) by (nonlinear_arith);
    assert(is_zero(mask.data()[p]) || is_one(mask.data()[p]));
    // ---- the rows written
    let vd = values.dims();
    assert(vd.skip(1) =~= dims.skip(1));
    let q = lemma_row_position(vd, at);
    r[1].lemma_at(at);
    let k = picks[at[0]];
    assert(0 <= at[0] < vd[0]);
    let to = at.update(0, k);
    assert(in_shape(to, dims)) by {
        assert forall|j: int| 0 <= j < to.len() implies 0 <= #[trigger] to[j] < dims[j] by {
            assert(0 <= at[j] < vd[j]);
        }
    }
    let w = lemma_row_position(dims, to);
    assert(to.skip(1) =~= at.skip(1));
    g.lemma_at(to);
    lemma_last_place(picks, k);
    if exists|k: int| at[0] < k < picks.len() && #[trigger] picks[k] == picks[at[0]] {
        assert(last_place(picks, k) != Some(at[0]));
    } else {
        assert(last_place(picks, k) == Some(at[0]));
    }
}

/// A position, split after the first dimension.
proof fn lemma_row_position(dims: Seq<usize>, idx: Seq<int>) -> (p: int)
    requires
        dims.len() > 0,
        in_shape(idx, dims),
    ensures
        p == ravel(idx, dims),
        0 <= p < product(dims),
        p == idx[0] * product(dims.skip(1)) + ravel(idx.skip(1), dims.skip(1)),
        p / product(dims.skip(1)) as int == idx[0],
        p % product(dims.skip(1)) as int == ravel(idx.skip(1), dims.skip(1)),
{
    assert(in_shape(idx.skip(1), dims.skip(1))) by {
        assert forall|j: int| 0 <= j < dims.skip(1).len() implies 0 <= #[trigger] idx.skip(1)[j]
            < dims.skip(1)[j] by {
            assert(0 <= idx[j + 1] < dims[j + 1]);
        }
    }
    lemma_ravel(idx.skip(1), dims.skip(1));
    lemma_ravel(idx, dims);
    let p = ravel(idx, dims);
    lemma_fundamental_div_mod_converse(
        p,
        product(dims.skip(1)) as int,
        idx[0],
        ravel(idx.skip(1), dims.skip(1)),
    );
    p
}

} // verus!
