//! The built-in rules at work.

use vstd::prelude::*;
use vstd::arithmetic::div_mod::*;
use vstd::arithmetic::mul::*;
use vstd::string::*;
use crate::autograd::graph::VjpRule;
use crate::autograd::rules::{
    OpGrad, Sloped, add_fails, added_at, adds_back, all_below, all_ones, all_twos, bmm_fails,
    column_of, combines, div_fails, expands_over, in_keepdim_form, is_share, joins, keepdim_dims,
    lifted, masks_rows, matmul_fails, minus_one, misfit_error, mul_fails, padded, pow_fails,
    reduced_from, scaled_fails, scales, selected_places, spread_error, spreads_back, sums_to,
    swap_last_order, to_last_writers, to_winners,
};
use crate::autograd::unbroadcast::{
    law_broadcast_gradients_sum_back, lemma_unbroadcasts_own, unbroadcast, unbroadcast_error,
    unbroadcast_result,
};
use crate::elem::{Elem, is_one, is_zero};
use crate::error::{OxitorchError, OxitorchResult};
use crate::index::{
    index3, index_of, lemma_cell, lemma_product_concat, lemma_product_positive,
    lemma_product_remove, lemma_product_split, lemma_product_tail, lemma_product_update,
    lemma_rank2, lemma_rank3, permuted, product,
};
use crate::layout::{
    broadcast_of, copy_dims, element_count, expands_to, has_count, law_broadcast_covers_operands,
    law_broadcast_identity, law_broadcast_symmetric, law_expands_iff_broadcast_keeps, same_dims,
    to_signed,
};
use crate::ops::{BinaryOp, ReduceKind, UnaryOp, is_reciprocal};
use crate::tensor::{Tensor, broadcast_error, repeat};
use crate::tensor::elementwise::unary_result;
use crate::tensor::indexing::last_place;
use crate::tensor::reduce::{reduce_result, reduced_dims};
use crate::tensor::views::{
    order_error, permute_error, permute_result, resolved_order, transpose_result,
};

verus! {

/// Broadcasting an operand's gradient with the operand gives the output's
/// shape again.
proof fn lemma_rejoin(a: Seq<usize>, b: Seq<usize>, out: Seq<usize>)
    requires
        joins(a, b, out),
        product(out) <= usize::MAX,
    ensures
        expands_to(a, out),
        expands_to(b, out),
        broadcast_error(a, b) is None,
        broadcast_error(out, a) is None,
        broadcast_error(out, b) is None,
        broadcast_of(out, a) == out,
        broadcast_of(out, b) == out,
{
    law_broadcast_covers_operands(a, b);
    law_expands_iff_broadcast_keeps(a, out);
    law_expands_iff_broadcast_keeps(b, out);
    law_broadcast_symmetric(a, out);
    law_broadcast_symmetric(b, out);
}

proof fn lemma_same_joins(a: Seq<usize>)
    requires
        product(a) <= usize::MAX,
    ensures
        joins(a, a, a),
        broadcast_error(a, a) is None,
{
    law_broadcast_identity(a);
}

fn misfit() -> (r: OxitorchError)
    ensures
        r@ == misfit_error(),
{
    OxitorchError::InvalidArgument("internal: gradient does not fit the recorded op".to_string())
}

fn pair<E>(a: Tensor<E>, b: Tensor<E>) -> (r: Vec<Tensor<E>>)
    ensures
        r@.len() == 2,
        r@[0] == a,
        r@[1] == b,
{
    let mut v: Vec<Tensor<E>> = Vec::with_capacity(2);
    v.push(a);
    v.push(b);
    v
}

fn single<E>(a: Tensor<E>) -> (r: Vec<Tensor<E>>)
    ensures
        r@.len() == 1,
        r@[0] == a,
{
    let mut v: Vec<Tensor<E>> = Vec::with_capacity(1);
    v.push(a);
    v
}

/// `op` on `a` and `b`.
fn combine<E: Elem>(op: BinaryOp, a: &Tensor<E>, b: &Tensor<E>) -> (r: OxitorchResult<Tensor<E>>)
    ensures
        match r {
            Ok(t) => combines(op, *a, *b, t),
            Err(e) => broadcast_error(a.dims(), b.dims()) == Some(e@),
        },
{
    a.binary(op, b)
}

/// Sums `g` down to `shape`. This cannot fail for a gradient that is not
/// empty, nor for one that has the shape already.
fn sum_down<E: Elem>(g: &Tensor<E>, shape: &[usize]) -> (r: OxitorchResult<Tensor<E>>)
    ensures
        match r {
            Ok(t) => sums_to(g.dims(), shape@) && unbroadcast_result(*g, shape@, t),
            Err(e) => unbroadcast_error(g.dims(), shape@) == Some(e@) && g.dims() != shape@ && !(
            expands_to(shape@, g.dims()) && g.count() > 0),
        },
{
    proof {
        use_type_invariant(g);
        g.lemma_wf();
        lemma_unbroadcasts_own(shape@, 0);
        if expands_to(shape@, g.dims()) && g.count() > 0 {
            law_broadcast_gradients_sum_back(g.dims(), shape@);
        }
    }
    unbroadcast(g, shape)
}

// ---- elementwise ------------------------------------------------------------------

fn vjp_add<E: Elem>(g: &Tensor<E>, a: &Vec<usize>, b: &Vec<usize>) -> (r: OxitorchResult<
    Vec<Tensor<E>>,
>)
    ensures
        match r {
            Ok(v) => v@.len() == 2 && unbroadcast_result(*g, a@, v@[0]) && unbroadcast_result(
                *g,
                b@,
                v@[1],
            ),
            Err(e) => add_fails(g.dims(), a@, b@, e@) && !(joins(a@, b@, g.dims()) && sums_to(
                g.dims(),
                a@,
            ) && sums_to(g.dims(), b@)),
        },
{
    proof {
        use_type_invariant(g);
        g.lemma_wf();
        if joins(a@, b@, g.dims()) {
            lemma_rejoin(a@, b@, g.dims());
        }
    }
    let ga = match sum_down(g, a.as_slice()) {
        Ok(t) => t,
        Err(e) => {
            return Err(e);
        },
    };
    let gb = match sum_down(g, b.as_slice()) {
        Ok(t) => t,
        Err(e) => {
            return Err(e);
        },
    };
    Ok(pair(ga, gb))
}

fn vjp_sub<E: Elem>(g: &Tensor<E>, a: &Vec<usize>, b: &Vec<usize>) -> (r: OxitorchResult<
    Vec<Tensor<E>>,
>)
    ensures
        match r {
            Ok(v) => v@.len() == 2 && unbroadcast_result(*g, a@, v@[0]) && exists|n: Tensor<E>|
                #[trigger]
                unary_result(UnaryOp::Neg, *g, n) && unbroadcast_result(n, b@, v@[1]),
            Err(e) => add_fails(g.dims(), a@, b@, e@) && !(joins(a@, b@, g.dims()) && sums_to(
                g.dims(),
                a@,
            ) && sums_to(g.dims(), b@)),
        },
{
    proof {
        use_type_invariant(g);
        g.lemma_wf();
        if joins(a@, b@, g.dims()) {
            lemma_rejoin(a@, b@, g.dims());
        }
    }
    let neg = g.unary(UnaryOp::Neg);
    let ga = match sum_down(g, a.as_slice()) {
        Ok(t) => t,
        Err(e) => {
            return Err(e);
        },
    };
    let gb = match sum_down(&neg, b.as_slice()) {
        Ok(t) => t,
        Err(e) => {
            return Err(e);
        },
    };
    Ok(pair(ga, gb))
}

fn vjp_mul<E: Elem>(g: &Tensor<E>, a: &Tensor<E>, b: &Tensor<E>) -> (r: OxitorchResult<
    Vec<Tensor<E>>,
>)
    ensures
        match r {
            Ok(v) => v@.len() == 2 && (exists|ga: Tensor<E>| #[trigger]
                combines(BinaryOp::Mul, *g, *b, ga) && unbroadcast_result(ga, a.dims(), v@[0]))
                && (exists|gb: Tensor<E>| #[trigger]
                combines(BinaryOp::Mul, *g, *a, gb) && unbroadcast_result(gb, b.dims(), v@[1])),
            Err(e) => mul_fails(g.dims(), a.dims(), b.dims(), e@) && !(joins(
                a.dims(),
                b.dims(),
                g.dims(),
            ) && sums_to(g.dims(), a.dims()) && sums_to(g.dims(), b.dims())),
        },
{
    proof {
        use_type_invariant(g);
        g.lemma_wf();
        if joins(a.dims(), b.dims(), g.dims()) {
            lemma_rejoin(a.dims(), b.dims(), g.dims());
        }
    }
    let ga = match combine(BinaryOp::Mul, g, b) {
        Ok(t) => t,
        Err(e) => {
            return Err(e);
        },
    };
    let gb = match combine(BinaryOp::Mul, g, a) {
        Ok(t) => t,
        Err(e) => {
            return Err(e);
        },
    };
    let ra = match sum_down(&ga, a.shape()) {
        Ok(t) => t,
        Err(e) => {
            return Err(e);
        },
    };
    let rb = match sum_down(&gb, b.shape()) {
        Ok(t) => t,
        Err(e) => {
            return Err(e);
        },
    };
    Ok(pair(ra, rb))
}

/// `d/da = g / b`; `d/db = -g * a / b^2`.
fn vjp_div<E: Elem>(g: &Tensor<E>, a: &Tensor<E>, b: &Tensor<E>) -> (r: OxitorchResult<
    Vec<Tensor<E>>,
>)
    ensures
        match r {
            Ok(v) => v@.len() == 2 && (exists|ga: Tensor<E>| #[trigger]
                combines(BinaryOp::Div, *g, *b, ga) && unbroadcast_result(ga, a.dims(), v@[0]))
                && (exists|b2: Tensor<E>, up: Tensor<E>, q: Tensor<E>, gb: Tensor<E>| #[trigger]
                combines(BinaryOp::Mul, *b, *b, b2) && #[trigger] combines(
                    BinaryOp::Mul,
                    *g,
                    *a,
                    up,
                ) && #[trigger] combines(BinaryOp::Div, up, b2, q) && #[trigger] unary_result(
                    UnaryOp::Neg,
                    q,
                    gb,
                ) && unbroadcast_result(gb, b.dims(), v@[1])),
            Err(e) => div_fails(g.dims(), a.dims(), b.dims(), e@) && !(joins(
                a.dims(),
                b.dims(),
                g.dims(),
            ) && sums_to(g.dims(), a.dims()) && sums_to(g.dims(), b.dims())),
        },
{
    proof {
        use_type_invariant(g);
        g.lemma_wf();
        use_type_invariant(b);
        b.lemma_wf();
        lemma_same_joins(b.dims());
        if joins(a.dims(), b.dims(), g.dims()) {
            lemma_rejoin(a.dims(), b.dims(), g.dims());
        }
    }
    let ga = match combine(BinaryOp::Div, g, b) {
        Ok(t) => t,
        Err(e) => {
            return Err(e);
        },
    };
    let b2 = match combine(BinaryOp::Mul, b, b) {
        Ok(t) => t,
        Err(e) => {
            return Err(e);
        },
    };
    let up = match combine(BinaryOp::Mul, g, a) {
        Ok(t) => t,
        Err(e) => {
            return Err(e);
        },
    };
    let q = match combine(BinaryOp::Div, &up, &b2) {
        Ok(t) => t,
        Err(e) => {
            return Err(e);
        },
    };
    let gb = q.unary(UnaryOp::Neg);
    let ra = match sum_down(&ga, a.shape()) {
        Ok(t) => t,
        Err(e) => {
            return Err(e);
        },
    };
    let rb = match sum_down(&gb, b.shape()) {
        Ok(t) => t,
        Err(e) => {
            return Err(e);
        },
    };
    Ok(pair(ra, rb))
}

/// `d/da = g * b * a^(b-1)`; `d/db = g * out * ln(a)`.
fn vjp_pow<E: Elem>(g: &Tensor<E>, a: &Tensor<E>, b: &Tensor<E>) -> (r: OxitorchResult<
    Vec<Tensor<E>>,
>)
    ensures
        match r {
            Ok(v) => v@.len() == 2 && (exists|
                less: Tensor<E>,
                power: Tensor<E>,
                up: Tensor<E>,
                ga: Tensor<E>,
            | #[trigger]
                minus_one(*b, less) && #[trigger] combines(BinaryOp::Pow, *a, less, power)
                    && #[trigger] combines(BinaryOp::Mul, *g, *b, up) && #[trigger] combines(
                    BinaryOp::Mul,
                    up,
                    power,
                    ga,
                ) && unbroadcast_result(ga, a.dims(), v@[0])) && (exists|
                out: Tensor<E>,
                ln: Tensor<E>,
                up: Tensor<E>,
                gb: Tensor<E>,
            | #[trigger]
                combines(BinaryOp::Pow, *a, *b, out) && #[trigger] unary_result(
                    UnaryOp::Log,
                    *a,
                    ln,
                ) && #[trigger] combines(BinaryOp::Mul, *g, out, up) && #[trigger] combines(
                    BinaryOp::Mul,
                    up,
                    ln,
                    gb,
                ) && unbroadcast_result(gb, b.dims(), v@[1])),
            Err(e) => pow_fails(g.dims(), a.dims(), b.dims(), e@) && !(joins(
                a.dims(),
                b.dims(),
                g.dims(),
            ) && sums_to(g.dims(), a.dims()) && sums_to(g.dims(), b.dims())),
        },
{
    proof {
        use_type_invariant(g);
        g.lemma_wf();
        lemma_same_joins(g.dims());
        if joins(a.dims(), b.dims(), g.dims()) {
            lemma_rejoin(a.dims(), b.dims(), g.dims());
        }
    }
    let o = E::one();
    let m = E::negate(o);
    let less = match b.add_scalar(m) {
        Ok(t) => t,
        Err(e) => {
            return Err(e);
        },
    };
    assert(minus_one(*b, less)) by {
        assert(is_one(o) && call_ensures(E::negate, (o,), m));
    }
    let power = match combine(BinaryOp::Pow, a, &less) {
        Ok(t) => t,
        Err(e) => {
            return Err(e);
        },
    };
    let up = match combine(BinaryOp::Mul, g, b) {
        Ok(t) => t,
        Err(e) => {
            return Err(e);
        },
    };
    let ga = match combine(BinaryOp::Mul, &up, &power) {
        Ok(t) => t,
        Err(e) => {
            return Err(e);
        },
    };
    let out = match combine(BinaryOp::Pow, a, b) {
        Ok(t) => t,
        Err(e) => {
            return Err(e);
        },
    };
    let ln = a.unary(UnaryOp::Log);
    let up2 = match combine(BinaryOp::Mul, g, &out) {
        Ok(t) => t,
        Err(e) => {
            return Err(e);
        },
    };
    let gb = match combine(BinaryOp::Mul, &up2, &ln) {
        Ok(t) => t,
        Err(e) => {
            return Err(e);
        },
    };
    let ra = match sum_down(&ga, a.shape()) {
        Ok(t) => t,
        Err(e) => {
            return Err(e);
        },
    };
    let rb = match sum_down(&gb, b.shape()) {
        Ok(t) => t,
        Err(e) => {
            return Err(e);
        },
    };
    Ok(pair(ra, rb))
}

fn vjp_neg<E: Elem>(g: &Tensor<E>, dims: &Vec<usize>) -> (r: OxitorchResult<Vec<Tensor<E>>>)
    ensures
        match r {
            Ok(v) => v@.len() == 1 && exists|n: Tensor<E>| #[trigger]
                unary_result(UnaryOp::Neg, *g, n) && unbroadcast_result(n, dims@, v@[0]),
            Err(e) => unbroadcast_error(g.dims(), dims@) == Some(e@) && g.dims() != dims@,
        },
{
    proof {
        law_broadcast_identity(dims@);
        law_expands_iff_broadcast_keeps(dims@, dims@);
    }
    let n = g.unary(UnaryOp::Neg);
    let r = match sum_down(&n, dims.as_slice()) {
        Ok(t) => t,
        Err(e) => {
            return Err(e);
        },
    };
    Ok(single(r))
}

/// The slope of a unary op at `x`.
fn slope_at<E: Elem>(kind: Sloped, x: &Tensor<E>) -> (r: OxitorchResult<Tensor<E>>)
    ensures
        match r {
            Ok(d) => kind.slope(*x, d) && d.dims() == x.dims(),
            Err(_) => false,
        },
{
    proof {
        use_type_invariant(x);
        x.lemma_wf();
        lemma_same_joins(x.dims());
    }
    match kind {
        Sloped::Abs => Ok(x.unary(UnaryOp::Sign)),
        Sloped::Exp => Ok(x.unary(UnaryOp::Exp)),
        Sloped::Log => {
            let one = Tensor::filled(x.shape(), E::one());
            assert(all_ones(one, x.dims()));
            combine(BinaryOp::Div, &one, x)
        },
        Sloped::Sqrt => {
            let two = Tensor::filled(x.shape(), E::two());
            assert(all_twos(two, x.dims()));
            let root = x.unary(UnaryOp::Sqrt);
            let low = match combine(BinaryOp::Mul, &root, &two) {
                Ok(t) => t,
                Err(e) => {
                    return Err(e);
                },
            };
            let one = Tensor::filled(x.shape(), E::one());
            assert(all_ones(one, x.dims()));
            combine(BinaryOp::Div, &one, &low)
        },
        Sloped::Tanh => {
            let th = x.unary(UnaryOp::Tanh);
            let sq = match combine(BinaryOp::Mul, &th, &th) {
                Ok(t) => t,
                Err(e) => {
                    return Err(e);
                },
            };
            let one = Tensor::filled(x.shape(), E::one());
            assert(all_ones(one, x.dims()));
            combine(BinaryOp::Sub, &one, &sq)
        },
        Sloped::Sigmoid => {
            let s = x.unary(UnaryOp::Sigmoid);
            let one = Tensor::filled(x.shape(), E::one());
            assert(all_ones(one, x.dims()));
            let rest = match combine(BinaryOp::Sub, &one, &s) {
                Ok(t) => t,
                Err(e) => {
                    return Err(e);
                },
            };
            combine(BinaryOp::Mul, &s, &rest)
        },
    }
}

fn vjp_slope<E: Elem>(g: &Tensor<E>, kind: Sloped, x: &Tensor<E>) -> (r: OxitorchResult<
    Vec<Tensor<E>>,
>)
    ensures
        match r {
            Ok(v) => v@.len() == 1 && exists|d: Tensor<E>, gx: Tensor<E>| #[trigger]
                kind.slope(*x, d) && #[trigger] combines(BinaryOp::Mul, *g, d, gx)
                    && unbroadcast_result(gx, x.dims(), v@[0]),
            Err(e) => scaled_fails(g.dims(), x.dims(), x.dims(), e@) && g.dims() != x.dims(),
        },
{
    proof {
        use_type_invariant(x);
        x.lemma_wf();
        lemma_same_joins(x.dims());
        law_expands_iff_broadcast_keeps(x.dims(), x.dims());
    }
    let d = match slope_at(kind, x) {
        Ok(t) => t,
        Err(e) => {
            return Err(e);
        },
    };
    let gx = match combine(BinaryOp::Mul, g, &d) {
        Ok(t) => t,
        Err(e) => {
            return Err(e);
        },
    };
    let r = match sum_down(&gx, x.shape()) {
        Ok(t) => t,
        Err(e) => {
            return Err(e);
        },
    };
    Ok(single(r))
}

fn vjp_relu<E: Elem>(g: &Tensor<E>, mask: &Tensor<E>, dims: &Vec<usize>) -> (r: OxitorchResult<
    Vec<Tensor<E>>,
>)
    ensures
        match r {
            Ok(v) => v@.len() == 1 && exists|gx: Tensor<E>| #[trigger]
                combines(BinaryOp::Mul, *g, *mask, gx) && unbroadcast_result(gx, dims@, v@[0]),
            Err(e) => scaled_fails(g.dims(), mask.dims(), dims@, e@) && !(g.dims() == dims@
                && mask.dims() == dims@),
        },
{
    proof {
        use_type_invariant(mask);
        mask.lemma_wf();
        lemma_same_joins(mask.dims());
        law_expands_iff_broadcast_keeps(dims@, dims@);
        law_broadcast_identity(dims@);
    }
    let gx = match combine(BinaryOp::Mul, g, mask) {
        Ok(t) => t,
        Err(e) => {
            return Err(e);
        },
    };
    let r = match sum_down(&gx, dims.as_slice()) {
        Ok(t) => t,
        Err(e) => {
            return Err(e);
        },
    };
    Ok(single(r))
}

// ---- matrix products ----------------------------------------------------------------

fn vjp_matmul<E: Elem>(g: &Tensor<E>, a: &Tensor<E>, b: &Tensor<E>) -> (r: OxitorchResult<
    Vec<Tensor<E>>,
>)
    ensures
        match r {
            Ok(v) => (OpGrad::Matmul { a: *a, b: *b }).gives(*g, v@),
            Err(e) => matmul_fails::<E>(g.dims(), a.dims(), b.dims(), e@) && !(OpGrad::Matmul {
                a: *a,
                b: *b,
            }).accepts(*g),
        },
{
    proof {
        use_type_invariant(a);
        a.lemma_wf();
        use_type_invariant(b);
        b.lemma_wf();
        law_broadcast_identity(a.dims());
        law_expands_iff_broadcast_keeps(a.dims(), a.dims());
        law_broadcast_identity(b.dims());
        law_expands_iff_broadcast_keeps(b.dims(), b.dims());
        if a.dims().len() == 2 {
            lemma_rank2(a.dims(), 0, 0);
        }
        if b.dims().len() == 2 {
            lemma_rank2(b.dims(), 0, 0);
        }
    }
    let bt = match b.transpose() {
        Ok(t) => t,
        Err(e) => {
            return Err(e);
        },
    };
    let at = match a.transpose() {
        Ok(t) => t,
        Err(e) => {
            return Err(e);
        },
    };
    let ga = match g.matmul(&bt) {
        Ok(t) => t,
        Err(e) => {
            proof {
                if (OpGrad::Matmul { a: *a, b: *b }).accepts(*g) {
                    lemma_mul_is_commutative(b.dims()[0] as int, b.dims()[1] as int);
                    assert(g.dims()[0] == a.dims()[0]);
                    assert(bt.dims()[1] == b.dims()[0]);
                }
            }
            return Err(e);
        },
    };
    let gb = match at.matmul(g) {
        Ok(t) => t,
        Err(e) => {
            proof {
                if (OpGrad::Matmul { a: *a, b: *b }).accepts(*g) {
                    assert(at.dims()[0] == a.dims()[1]);
                    assert(g.dims()[1] == b.dims()[1]);
                }
            }
            return Err(e);
        },
    };
    proof {
        if (OpGrad::Matmul { a: *a, b: *b }).accepts(*g) {
            assert(ga.dims() =~= a.dims());
            assert(gb.dims() =~= b.dims());
        }
    }
    let ra = match sum_down(&ga, a.shape()) {
        Ok(t) => t,
        Err(e) => {
            return Err(e);
        },
    };
    let rb = match sum_down(&gb, b.shape()) {
        Ok(t) => t,
        Err(e) => {
            return Err(e);
        },
    };
    Ok(pair(ra, rb))
}

fn swap_last<E: Elem>(t: &Tensor<E>) -> (r: OxitorchResult<Tensor<E>>)
    ensures
        match r {
            Ok(s) => t.dims().len() == 3 && permute_result(*t, index3(0, 2, 1), s) && s.dims()
                == seq![t.dims()[0], t.dims()[2], t.dims()[1]],
            Err(e) => t.dims().len() != 3 && permute_error(
                t.dims().len() as int,
                swap_last_order(),
            ) == Some(e@),
        },
{
    let order: Vec<i64> = vec![0, 2, 1];
    proof {
        assert(resolved_order(order@) =~= index3(0, 2, 1));
        assert(order_error(order@, 0) is None) by {
            reveal_with_fuel(order_error, 4);
        }
    }
    let r = t.permute(order.as_slice());
    proof {
        if r is Ok {
            assert((r->Ok_0).dims() =~= seq![t.dims()[0], t.dims()[2], t.dims()[1]]);
        }
    }
    r
}

fn vjp_bmm<E: Elem>(g: &Tensor<E>, a: &Tensor<E>, b: &Tensor<E>) -> (r: OxitorchResult<
    Vec<Tensor<E>>,
>)
    ensures
        match r {
            Ok(v) => (OpGrad::Bmm { a: *a, b: *b }).gives(*g, v@),
            Err(e) => bmm_fails::<E>(g.dims(), a.dims(), b.dims(), e@) && !(OpGrad::Bmm {
                a: *a,
                b: *b,
            }).accepts(*g),
        },
{
    proof {
        use_type_invariant(a);
        a.lemma_wf();
        use_type_invariant(b);
        b.lemma_wf();
        law_broadcast_identity(a.dims());
        law_expands_iff_broadcast_keeps(a.dims(), a.dims());
        law_broadcast_identity(b.dims());
        law_expands_iff_broadcast_keeps(b.dims(), b.dims());
        if a.dims().len() == 3 {
            lemma_rank3(a.dims(), 0, 0, 0);
        }
        if b.dims().len() == 3 {
            lemma_rank3(b.dims(), 0, 0, 0);
        }
    }
    let bt = match swap_last(b) {
        Ok(t) => t,
        Err(e) => {
            return Err(e);
        },
    };
    let at = match swap_last(a) {
        Ok(t) => t,
        Err(e) => {
            return Err(e);
        },
    };
    let ga = match g.bmm(&bt) {
        Ok(t) => t,
        Err(e) => {
            return Err(e);
        },
    };
    let gb = match at.bmm(g) {
        Ok(t) => t,
        Err(e) => {
            return Err(e);
        },
    };
    proof {
        if (OpGrad::Bmm { a: *a, b: *b }).accepts(*g) {
            assert(ga.dims() =~= a.dims());
            assert(gb.dims() =~= b.dims());
        }
    }
    let ra = match sum_down(&ga, a.shape()) {
        Ok(t) => t,
        Err(e) => {
            return Err(e);
        },
    };
    let rb = match sum_down(&gb, b.shape()) {
        Ok(t) => t,
        Err(e) => {
            return Err(e);
        },
    };
    Ok(pair(ra, rb))
}

// ---- reductions ---------------------------------------------------------------------

/// A reduction's output gradient in keepdim form.
fn keepdim_form<E: Elem>(g: &Tensor<E>, dims: &Vec<usize>, dim: usize) -> (r: Tensor<E>)
    ensures
        in_keepdim_form(*g, dims@, dim as int, r),
{
    if same_dims(g.shape(), dims.as_slice()) || g.ndim() >= dims.len() || g.ndim() + 1
        != dims.len() || dim > g.ndim() {
        return g.clone();
    }
    let mut shape = copy_dims(g.shape());
    shape.insert(dim, 1);
    proof {
        assert(shape@ =~= g.dims().insert(dim as int, 1));
        lemma_product_remove(shape@, dim as int);
        assert(shape@.remove(dim as int) =~= g.dims());
    }
    g.redimensioned(shape.as_slice())
}

/// The dims of an accepted output gradient, in keepdim form.
proof fn lemma_keepdim_dims(g: Seq<usize>, dims: Seq<usize>, dim: int)
    requires
        reduced_from(g, dims, dim),
    ensures
        keepdim_dims(g, dims, dim) == dims.update(dim, 1),
        expands_to(dims.update(dim, 1), dims),
{
    if g == reduced_dims(dims, dim, true) {
        assert(keepdim_dims(g, dims, dim) =~= dims.update(dim, 1));
    } else {
        assert(g.insert(dim, 1) =~= dims.update(dim, 1));
        assert(g.len() != dims.len());
    }
}

/// A reduction's output gradient, spread back over the input's shape.
fn spread_back<E: Elem>(g: &Tensor<E>, dims: &Vec<usize>, dim: usize) -> (r: OxitorchResult<
    Tensor<E>,
>)
    ensures
        match r {
            Ok(up) => spread_error(g.dims(), dims@, dim as int) is None && spreads_back(
                *g,
                dims@,
                dim as int,
                up,
            ) && up.dims() == dims@,
            Err(e) => spread_error(g.dims(), dims@, dim as int) == Some(e@) && !reduced_from(
                g.dims(),
                dims@,
                dim as int,
            ),
        },
{
    proof {
        if reduced_from(g.dims(), dims@, dim as int) {
            lemma_keepdim_dims(g.dims(), dims@, dim as int);
        }
    }
    let k = keepdim_form(g, dims, dim);
    let up = match k.broadcast_to(dims.as_slice()) {
        Ok(t) => t,
        Err(e) => {
            return Err(e);
        },
    };
    assert(expands_over(k, dims@, up));
    Ok(up)
}

fn vjp_sum<E: Elem>(g: &Tensor<E>, dims: &Vec<usize>, dim: usize) -> (r: OxitorchResult<
    Vec<Tensor<E>>,
>)
    ensures
        match r {
            Ok(v) => v@.len() == 1 && exists|up: Tensor<E>| #[trigger]
                spreads_back(*g, dims@, dim as int, up) && unbroadcast_result(up, dims@, v@[0]),
            Err(e) => spread_error(g.dims(), dims@, dim as int) == Some(e@) && !reduced_from(
                g.dims(),
                dims@,
                dim as int,
            ),
        },
{
    proof {
        law_broadcast_identity(dims@);
        law_expands_iff_broadcast_keeps(dims@, dims@);
    }
    let up = match spread_back(g, dims, dim) {
        Ok(t) => t,
        Err(e) => {
            return Err(e);
        },
    };
    let r = match sum_down(&up, dims.as_slice()) {
        Ok(t) => t,
        Err(e) => {
            return Err(e);
        },
    };
    Ok(single(r))
}

/// `1 / n` for a count `n`.
fn share_of<E: Elem>(n: usize) -> (r: E)
    ensures
        is_share(n, r),
{
    let c = E::from_count(n);
    let o = E::one();
    let r = E::divide(o, c);
    assert(is_reciprocal(c, r));
    r
}

fn vjp_mean<E: Elem>(g: &Tensor<E>, dims: &Vec<usize>, dim: usize) -> (r: OxitorchResult<
    Vec<Tensor<E>>,
>)
    ensures
        match r {
            Ok(v) => v@.len() == 1 && exists|up: Tensor<E>, share: E, gx: Tensor<E>| #[trigger]
                spreads_back(*g, dims@, dim as int, up) && is_share(dims@[dim as int], share)
                    && #[trigger] scales(up, share, gx) && unbroadcast_result(gx, dims@, v@[0]),
            Err(e) => (OpGrad::<E>::Mean { dims: *dims, dim }).fails(*g, e@) && !reduced_from(
                g.dims(),
                dims@,
                dim as int,
            ),
        },
{
    proof {
        law_broadcast_identity(dims@);
        law_expands_iff_broadcast_keeps(dims@, dims@);
    }
    if dim >= dims.len() {
        return Err(misfit());
    }
    let up = match spread_back(g, dims, dim) {
        Ok(t) => t,
        Err(e) => {
            return Err(e);
        },
    };
    let share = share_of::<E>(dims[dim]);
    let gx = match up.mul_scalar(share) {
        Ok(t) => t,
        Err(e) => {
            return Err(e);
        },
    };
    assert(scales(up, share, gx));
    let r = match sum_down(&gx, dims.as_slice()) {
        Ok(t) => t,
        Err(e) => {
            return Err(e);
        },
    };
    Ok(single(r))
}

/// Whether every entry is below `n`.
fn are_below(s: &[usize], n: usize) -> (r: bool)
    ensures
        r == all_below(s@, n as int),
{
    let mut k: usize = 0;
    while k < s.len()
        invariant
            0 <= k <= s.len(),
            forall|j: int| 0 <= j < k ==> #[trigger] s@[j] < n,
        decreases s.len() - k,
    {
        if s[k] >= n {
            assert(!(s@[k as int] < n));
            return false;
        }
        k = k + 1;
    }
    true
}

fn vjp_winner<E: Elem>(g: &Tensor<E>, dims: &Vec<usize>, dim: usize, places: &Vec<usize>) -> (r:
    OxitorchResult<Vec<Tensor<E>>>)
    ensures
        match r {
            Ok(v) => v@.len() == 1 && exists|gx: Tensor<E>| #[trigger]
                to_winners(g.data(), index_of(places@), dims@, dim as int, gx)
                    && unbroadcast_result(gx, dims@, v@[0]),
            Err(e) => e@ == misfit_error() && !(reduced_from(g.dims(), dims@, dim as int)
                && g.count() == places@.len()
                && all_below(places@, dims@[dim as int] as int)),
        },
{
    if dim >= dims.len() || !has_count(dims.as_slice()) || g.numel() != places.len()
        || !are_below(places.as_slice(), dims[dim]) {
        return Err(misfit());
    }
    let total: usize = element_count(dims.as_slice());
    let len: usize = dims[dim];
    let z = E::zero();
    let mut data: Vec<E> = Vec::with_capacity(total);
    let ghost inner_g = product(dims@.skip(dim + 1)) as int;
    if total > 0 {
        proof {
            lemma_product_split(dims@, dim as int);
            lemma_product_tail(dims@, dim + 1);
            lemma_product_positive(dims@);
            assert(dims@.subrange(dim + 1, dims@.len() as int) =~= dims@.skip(dim + 1));
        }
        let inner: usize = element_count(
            vstd::slice::slice_subrange(dims.as_slice(), dim + 1, dims.len()),
        );
        let up = g.to_vec();
        let ghost outer = product(dims@.take(dim as int)) as int;
        let mut p: usize = 0;
        assert(total == outer * len * inner);
        // The number of columns must match the number of winners.
        let cols: usize = total / len;
        proof {
            assert(outer * len * inner == (outer * inner) * len) by (nonlinear_arith);
            lemma_fundamental_div_mod_converse(total as int, len as int, outer * inner, 0);
        }
        if cols != places.len() {
            proof {
                if reduced_from(g.dims(), dims@, dim as int) {
                    lemma_reduced_count(g.dims(), dims@, dim as int);
                }
            }
            return Err(misfit());
        }
        while p < total
            invariant
                0 <= p <= total,
                len > 0,
                inner > 0,
                outer >= 0,
                inner == inner_g,
                total == outer * len * inner,
                places.len() == outer * inner,
                up.len() == places.len(),
                up@ == g.data(),
                data.len() == p,
                forall|q: int|
                    0 <= q < p ==> #[trigger] data@[q] == if index_of(places@)[column_of(
                        q,
                        len as int,
                        inner as int,
                    )] == (q / inner as int) % len as int {
                        g.data()[column_of(q, len as int, inner as int)]
                    } else {
                        z
                    },
            decreases total - p,
        {
            let plane: usize = (p / inner) / len;
            proof {
                lemma_column_in(p as int, outer, len as int, inner as int);
            }
            let q: usize = plane * inner + p % inner;
            let s: usize = (p / inner) % len;
            assert(q == column_of(p as int, len as int, inner as int));
            assert(index_of(places@)[q as int] == places@[q as int]);
            if places[q] == s {
                data.push(up[q]);
            } else {
                data.push(z);
            }
            p = p + 1;
        }
    }
    let gx = Tensor::from_results(dims.as_slice(), data);
    proof {
        assert(is_zero(z));
        assert(to_winners(g.data(), index_of(places@), dims@, dim as int, gx));
        law_broadcast_identity(dims@);
        law_expands_iff_broadcast_keeps(dims@, dims@);
    }
    let r = match sum_down(&gx, dims.as_slice()) {
        Ok(t) => t,
        Err(e) => {
            return Err(e);
        },
    };
    Ok(single(r))
}

/// A reduction leaves one element per column.
proof fn lemma_reduced_count(g: Seq<usize>, dims: Seq<usize>, dim: int)
    requires
        reduced_from(g, dims, dim),
    ensures
        product(g) == product(dims.take(dim)) * product(dims.skip(dim + 1)),
{
    assert(dims.remove(dim) =~= dims.take(dim) + dims.skip(dim + 1));
    lemma_product_concat(dims.take(dim), dims.skip(dim + 1));
    lemma_product_update(dims, dim, 1);
    assert(product(dims.remove(dim)) * 1 == product(dims.remove(dim)));
}

proof fn lemma_column_in(p: int, outer: int, len: int, inner: int)
    requires
        0 <= p < outer * len * inner,
        len > 0,
        inner > 0,
        outer >= 0,
    ensures
        0 <= column_of(p, len, inner) < outer * inner,
        0 <= (p / inner) / len * inner <= column_of(p, len, inner),
{
    let row = p / inner;
    lemma_fundamental_div_mod(p, inner);
    lemma_mod_bound(p, inner);
    lemma_div_pos_is_pos(p, inner);
    assert(row < outer * len) by (nonlinear_arith)
        requires
            p < (outer * len) * inner,
            p == inner * row + p % inner,
            0 <= p % inner,
            inner > 0,
    ;
    lemma_fundamental_div_mod(row, len);
    lemma_mod_bound(row, len);
    lemma_div_pos_is_pos(row, len);
    let o = row / len;
    assert(o < outer) by (nonlinear_arith)
        requires
            row < outer * len,
            row == len * o + row % len,
            0 <= row % len,
            len > 0,
    ;
    let i = p % inner;
    assert(0 <= o * inner && o * inner + i < outer * inner) by (nonlinear_arith)
        requires
            0 <= o < outer,
            0 <= i < inner,
    ;
}

/// `d/dx = g * x / (||x|| + tiny)`, broadcast along the reduced dim.
fn vjp_norm<E: Elem>(g: &Tensor<E>, x: &Tensor<E>, dim: usize) -> (r: OxitorchResult<
    Vec<Tensor<E>>,
>)
    ensures
        match r {
            Ok(v) => v@.len() == 1 && exists|
                up: Tensor<E>,
                n: Tensor<E>,
                safe: Tensor<E>,
                ratio: Tensor<E>,
                gx: Tensor<E>,
            | #[trigger]
                spreads_back(*g, x.dims(), dim as int, up) && #[trigger] reduce_result(
                    *x,
                    ReduceKind::Norm,
                    dim as int,
                    true,
                    n,
                ) && #[trigger] lifted(n, safe) && #[trigger] combines(
                    BinaryOp::Div,
                    *x,
                    safe,
                    ratio,
                ) && #[trigger] combines(BinaryOp::Mul, up, ratio, gx) && unbroadcast_result(
                    gx,
                    x.dims(),
                    v@[0],
                ),
            Err(e) => (OpGrad::Norm { x: *x, dim }).fails(*g, e@) && !(OpGrad::Norm {
                x: *x,
                dim,
            }).accepts(*g),
        },
{
    proof {
        use_type_invariant(x);
        x.lemma_wf();
        lemma_same_joins(x.dims());
        law_expands_iff_broadcast_keeps(x.dims(), x.dims());
    }
    if dim >= x.ndim() {
        return Err(misfit());
    }
    let dims = copy_dims(x.shape());
    let up = match spread_back(g, &dims, dim) {
        Ok(t) => t,
        Err(e) => {
            return Err(e);
        },
    };
    proof {
        use_type_invariant(g);
        g.lemma_wf();
        if reduced_from(g.dims(), x.dims(), dim as int) {
            lemma_keepdim_dims(g.dims(), x.dims(), dim as int);
            lemma_product_update(x.dims(), dim as int, 1);
            lemma_reduced_count(g.dims(), x.dims(), dim as int);
            let rest = x.dims().remove(dim as int);
            assert(rest =~= x.dims().take(dim as int) + x.dims().skip(dim + 1));
            lemma_product_concat(x.dims().take(dim as int), x.dims().skip(dim + 1));
            assert(product(rest) * 1 == product(rest));
        }
    }
    let n = match x.reduce_axis(ReduceKind::Norm, dim, true) {
        Ok(t) => t,
        Err(e) => {
            return Err(e);
        },
    };
    let c = E::tiny();
    let safe = match n.add_scalar(c) {
        Ok(t) => t,
        Err(e) => {
            return Err(e);
        },
    };
    assert(lifted(n, safe)) by {
        assert(call_ensures(E::tiny, (), c));
    }
    proof {
        let low = x.dims().update(dim as int, 1);
        assert(expands_to(low, x.dims()));
        law_expands_iff_broadcast_keeps(low, x.dims());
        law_broadcast_symmetric(low, x.dims());
    }
    let ratio = match combine(BinaryOp::Div, x, &safe) {
        Ok(t) => t,
        Err(e) => {
            return Err(e);
        },
    };
    let gx = match combine(BinaryOp::Mul, &up, &ratio) {
        Ok(t) => t,
        Err(e) => {
            return Err(e);
        },
    };
    let r = match sum_down(&gx, x.shape()) {
        Ok(t) => t,
        Err(e) => {
            return Err(e);
        },
    };
    Ok(single(r))
}

// ---- views ---------------------------------------------------------------------------

fn vjp_transpose<E: Elem>(g: &Tensor<E>, dims: &Vec<usize>) -> (r: OxitorchResult<Vec<Tensor<E>>>)
    ensures
        match r {
            Ok(v) => v@.len() == 1 && exists|gx: Tensor<E>| #[trigger]
                transpose_result(*g, gx) && unbroadcast_result(gx, dims@, v@[0]),
            Err(e) => (OpGrad::<E>::Transpose { dims: *dims }).fails(*g, e@) && !(dims@.len() == 2
                && g.dims() == seq![dims@[1], dims@[0]]),
        },
{
    let gx = match g.transpose() {
        Ok(t) => t,
        Err(e) => {
            return Err(e);
        },
    };
    proof {
        law_broadcast_identity(dims@);
        law_expands_iff_broadcast_keeps(dims@, dims@);
        if dims@.len() == 2 && g.dims() == seq![dims@[1], dims@[0]] {
            assert(gx.dims() =~= dims@);
        }
    }
    let r = match sum_down(&gx, dims.as_slice()) {
        Ok(t) => t,
        Err(e) => {
            return Err(e);
        },
    };
    Ok(single(r))
}

fn vjp_reshape<E: Elem>(g: &Tensor<E>, dims: &Vec<usize>) -> (r: OxitorchResult<Vec<Tensor<E>>>)
    ensures
        match r {
            Ok(v) => v@.len() == 1 && v@[0].dims() == dims@ && v@[0].data() == g.data(),
            Err(e) => (OpGrad::<E>::Reshape { dims: *dims }).fails(*g, e@),
        },
{
    proof {
        use_type_invariant(g);
        g.lemma_wf();
    }
    if has_count(dims.as_slice()) && element_count(dims.as_slice()) == g.numel() {
        return Ok(single(g.redimensioned(dims.as_slice())));
    }
    let shape = to_signed(dims.as_slice());
    match g.reshape(shape.as_slice()) {
        Ok(_) => Err(misfit()),
        Err(e) => Err(e),
    }
}

/// Zero-pads the gradient back into the full shape.
fn vjp_narrow<E: Elem>(g: &Tensor<E>, dims: &Vec<usize>, start: usize) -> (r: OxitorchResult<
    Vec<Tensor<E>>,
>)
    ensures
        match r {
            Ok(v) => v@.len() == 1 && padded(
                g.data(),
                start * product(dims@.skip(1)),
                dims@,
                v@[0],
            ),
            Err(e) => e@ == misfit_error() && !(OpGrad::<E>::Narrow {
                dims: *dims,
                start,
            }).accepts(*g),
        },
{
    if dims.len() == 0 || !has_count(dims.as_slice()) {
        return Err(misfit());
    }
    let total: usize = element_count(dims.as_slice());
    let z = E::zero();
    let values = g.to_vec();
    let ghost width = product(dims@.skip(1)) as int;
    let mut data: Vec<E> = Vec::with_capacity(total);
    if total == 0 {
        if values.len() > 0 {
            proof {
                lemma_mul_nonnegative(start as int, width);
            }
            return Err(misfit());
        }
    } else {
        proof {
            lemma_product_tail(dims@, 1);
            assert(dims@.subrange(1, dims@.len() as int) =~= dims@.skip(1));
        }
        let inner: usize = element_count(
            vstd::slice::slice_subrange(dims.as_slice(), 1, dims.len()),
        );
        let from: usize = match start.checked_mul(inner) {
            Some(f) => f,
            None => {
                return Err(misfit());
            },
        };
        if from > total || values.len() > total - from {
            return Err(misfit());
        }
        let mut p: usize = 0;
        while p < total
            invariant
                0 <= p <= total,
                from + values.len() <= total,
                data.len() == p,
                forall|q: int|
                    0 <= q < p ==> #[trigger] data@[q] == if from <= q < from + values.len() {
                        values@[q - from]
                    } else {
                        z
                    },
            decreases total - p,
        {
            if p >= from && p - from < values.len() {
                data.push(values[p - from]);
            } else {
                data.push(z);
            }
            p = p + 1;
        }
    }
    let r = Tensor::from_results(dims.as_slice(), data);
    proof {
        assert(is_zero(z));
        assert(padded(g.data(), start * product(dims@.skip(1)), dims@, r));
    }
    Ok(single(r))
}

fn vjp_permute<E: Elem>(g: &Tensor<E>, dims: &Vec<usize>, undo: &Vec<i64>) -> (r: OxitorchResult<
    Vec<Tensor<E>>,
>)
    ensures
        match r {
            Ok(v) => v@.len() == 1 && exists|gx: Tensor<E>| #[trigger]
                permute_result(*g, resolved_order(undo@), gx) && unbroadcast_result(
                    gx,
                    dims@,
                    v@[0],
                ),
            Err(e) => (OpGrad::<E>::Permute { dims: *dims, undo: *undo }).fails(*g, e@) && !(
            permute_error(g.dims().len() as int, undo@) is None && dims@ == permuted(
                g.dims(),
                resolved_order(undo@),
            )),
        },
{
    proof {
        law_broadcast_identity(dims@);
        law_expands_iff_broadcast_keeps(dims@, dims@);
    }
    let gx = match g.permute(undo.as_slice()) {
        Ok(t) => t,
        Err(e) => {
            return Err(e);
        },
    };
    let r = match sum_down(&gx, dims.as_slice()) {
        Ok(t) => t,
        Err(e) => {
            return Err(e);
        },
    };
    Ok(single(r))
}

// ---- indexing --------------------------------------------------------------------------

/// Adds every value of `g` onto zeros at its place, in order.
fn add_back<E: Elem>(places: &[usize], g: &[E], dims: &[usize]) -> (r: Tensor<E>)
    requires
        product(dims@) <= usize::MAX,
        places.len() == g.len(),
        all_below(places@, product(dims@) as int),
    ensures
        adds_back(index_of(places@), g@, dims@, r),
{
    let z = E::zero();
    let total: usize = element_count(dims);
    let mut data: Vec<E> = repeat(z, total);
    let ghost ps = index_of(places@);
    let mut n: usize = 0;
    while n < places.len()
        invariant
            0 <= n <= places.len(),
            places.len() == g.len(),
            ps == index_of(places@),
            total == product(dims@),
            data.len() == total,
            all_below(places@, total as int),
            forall|q: int|
                0 <= q < total ==> added_at(ps, g@, q, n as int, z, #[trigger] data@[q]),
        decreases places.len() - n,
    {
        let at: usize = places[n];
        assert(places@[n as int] < total);
        let ghost before = data@;
        let had = data[at];
        let sum = E::plus(had, g[n]);
        data[at] = sum;
        n = n + 1;
        proof {
            assert forall|q: int| 0 <= q < total implies added_at(
                ps,
                g@,
                q,
                n as int,
                z,
                #[trigger] data@[q],
            ) by {
                assert(added_at(ps, g@, q, n - 1, z, before[q]));
                assert(ps[n - 1] == at);
                if q == at {
                    assert(call_ensures(E::plus, (before[q], g@[n - 1]), data@[q]));
                }
            }
        }
    }
    let r = Tensor::from_results(dims, data);
    proof {
        assert(is_zero(z));
        assert forall|q: int| 0 <= q < r.count() implies added_at(
            ps,
            g@,
            q,
            g@.len() as int,
            z,
            #[trigger] r.data()[q],
        ) by {
            assert(r.data()[q] == data@[q]);
        }
    }
    r
}

fn vjp_elements<E: Elem>(g: &Tensor<E>, dims: &Vec<usize>, places: &Vec<usize>) -> (r:
    OxitorchResult<Vec<Tensor<E>>>)
    ensures
        match r {
            Ok(v) => v@.len() == 1 && adds_back(index_of(places@), g.data(), dims@, v@[0]),
            Err(e) => e@ == misfit_error() && !(OpGrad::<E>::Elements {
                dims: *dims,
                places: *places,
            }).accepts(*g),
        },
{
    if !has_count(dims.as_slice()) {
        return Err(misfit());
    }
    let total: usize = element_count(dims.as_slice());
    let values = g.to_vec();
    if values.len() != places.len() || !are_below(places.as_slice(), total) {
        return Err(misfit());
    }
    Ok(single(add_back(places.as_slice(), values.as_slice(), dims.as_slice())))
}

fn vjp_index_select<E: Elem>(
    g: &Tensor<E>,
    dims: &Vec<usize>,
    dim: usize,
    picks: &Vec<usize>,
) -> (r: OxitorchResult<Vec<Tensor<E>>>)
    ensures
        match r {
            Ok(v) => v@.len() == 1 && adds_back(
                selected_places(dims@, dim as int, index_of(picks@), g.data().len()),
                g.data(),
                dims@,
                v@[0],
            ),
            Err(e) => e@ == misfit_error() && !(OpGrad::<E>::IndexSelect {
                dims: *dims,
                dim,
                picks: *picks,
            }).accepts(*g),
        },
{
    proof {
        use_type_invariant(g);
        g.lemma_wf();
    }
    if dim >= dims.len() || !has_count(dims.as_slice()) || !are_below(
        picks.as_slice(),
        dims[dim],
    ) {
        return Err(misfit());
    }
    let total: usize = element_count(dims.as_slice());
    let values = g.to_vec();
    let mut want = copy_dims(dims.as_slice());
    want[dim] = picks.len();
    assert(want@ =~= dims@.update(dim as int, picks@.len() as usize));
    if !same_dims(g.shape(), want.as_slice()) {
        return Err(misfit());
    }
    let mut places: Vec<usize> = Vec::with_capacity(values.len());
    let ghost full = selected_places(dims@, dim as int, index_of(picks@), g.data().len());
    let ghost di = dim as int;
    if values.len() > 0 {
        proof {
            lemma_product_split(dims@, di);
            lemma_product_split(want@, di);
            assert(want@.take(di) =~= dims@.take(di));
            assert(want@.skip(di + 1) =~= dims@.skip(di + 1));
            lemma_product_positive(want@);
            assert(want@[di] > 0);
            assert(picks@[0] < dims@[di]);
            let a = product(dims@.take(di)) as int;
            let b = product(dims@.skip(di + 1)) as int;
            assert(a > 0 && b > 0 && b <= usize::MAX) by (nonlinear_arith)
                requires
                    a * picks.len() * b > 0,
                    a * picks.len() * b <= usize::MAX,
                    a >= 0,
                    b >= 0,
                    picks.len() > 0,
            ;
            assert(dims@.subrange(di + 1, dims@.len() as int) =~= dims@.skip(di + 1));
        }
        let inner: usize = element_count(
            vstd::slice::slice_subrange(dims.as_slice(), dim + 1, dims.len()),
        );
        let len: usize = dims[dim];
        let n: usize = picks.len();
        let ghost outer = product(dims@.take(di)) as int;
        let mut p: usize = 0;
        while p < values.len()
            invariant
                0 <= p <= values.len(),
                values.len() == outer * n * inner,
                total == outer * len * inner,
                n == picks.len(),
                n > 0,
                inner > 0,
                outer > 0,
                dim < dims.len(),
                di == dim,
                len == dims@[di],
                inner == product(dims@.skip(di + 1)),
                values@ == g.data(),
                full == selected_places(dims@, di, index_of(picks@), g.data().len()),
                all_below(picks@, len as int),
                places.len() == p,
                forall|q: int| 0 <= q < p ==> #[trigger] places@[q] == full[q] && places@[q] < total,
            decreases values.len() - p,
        {
            let row: usize = p / inner;
            let i: usize = p % inner;
            let o: usize = row / n;
            let k: usize = row % n;
            proof {
                lemma_pick_place(p as int, outer, n as int, inner as int);
                assert(picks@[k as int] < len);
                assert(index_of(picks@)[k as int] == picks@[k as int]);
                lemma_cell(o as int, picks@[k as int] as int, i as int, outer, len as int, inner as int);
                lemma_mul_nonnegative(o as int, len as int);
                assert(o * len + picks@[k as int] <= (o * len + picks@[k as int]) * inner)
                    by (nonlinear_arith)
                    requires
                        inner >= 1,
                        o * len + picks@[k as int] >= 0,
                ;
            }
            places.push((o * len + picks[k]) * inner + i);
            p = p + 1;
        }
    }
    proof {
        assert(index_of(places@) =~= full);
        assert forall|q: int| 0 <= q < places@.len() implies #[trigger] places@[q] < total by {
        }
    }
    Ok(single(add_back(places.as_slice(), values.as_slice(), dims.as_slice())))
}

proof fn lemma_pick_place(p: int, outer: int, n: int, inner: int)
    requires
        0 <= p < outer * n * inner,
        n > 0,
        inner > 0,
        outer > 0,
    ensures
        0 <= (p / inner) / n < outer,
        0 <= (p / inner) % n < n,
        0 <= p % inner < inner,
{
    let row = p / inner;
    lemma_fundamental_div_mod(p, inner);
    lemma_mod_bound(p, inner);
    lemma_div_pos_is_pos(p, inner);
    assert(row < outer * n) by (nonlinear_arith)
        requires
            p < (outer * n) * inner,
            p == inner * row + p % inner,
            0 <= p % inner,
            inner > 0,
    ;
    lemma_fundamental_div_mod(row, n);
    lemma_mod_bound(row, n);
    lemma_div_pos_is_pos(row, n);
    assert(row / n < outer) by (nonlinear_arith)
        requires
            row < outer * n,
            row == n * (row / n) + row % n,
            0 <= row % n,
            n > 0,
    ;
}

/// Zeros in the rows that were written, ones elsewhere.
fn row_mask<E: Elem>(dims: &Vec<usize>, picks: &Vec<usize>) -> (r: Tensor<E>)
    requires
        dims.len() > 0,
        0 < product(dims@) <= usize::MAX,
    ensures
        masks_rows(dims@, index_of(picks@), r),
{
    let total: usize = element_count(dims.as_slice());
    let rows: usize = dims[0];
    proof {
        lemma_product_tail(dims@, 1);
        assert(dims@.subrange(1, dims@.len() as int) =~= dims@.skip(1));
    }
    let inner: usize = element_count(vstd::slice::slice_subrange(dims.as_slice(), 1, dims.len()));
    let last = last_writers(picks.as_slice(), rows);
    let mut data: Vec<E> = Vec::with_capacity(total);
    let mut p: usize = 0;
    while p < total
        invariant
            0 <= p <= total,
            inner > 0,
            total == rows * inner,
            inner == product(dims@.skip(1)),
            last.len() == rows,
            forall|v: int|
                0 <= v < rows ==> (#[trigger] last@[v] is Some <==> last_place(
                    index_of(picks@),
                    v,
                ) is Some),
            data.len() == p,
            forall|q: int|
                0 <= q < p ==> if last_place(index_of(picks@), q / inner as int) is Some {
                    is_zero(#[trigger] data@[q])
                } else {
                    is_one(data@[q])
                },
        decreases total - p,
    {
        let row: usize = p / inner;
        proof {
            lemma_row_in(p as int, rows as int, inner as int);
        }
        if last[row].is_some() {
            data.push(E::zero());
        } else {
            data.push(E::one());
        }
        p = p + 1;
    }
    Tensor::from_results(dims.as_slice(), data)
}

proof fn lemma_row_in(p: int, rows: int, inner: int)
    requires
        0 <= p < rows * inner,
        inner > 0,
    ensures
        0 <= p / inner < rows,
        0 <= p % inner < inner,
{
    lemma_fundamental_div_mod(p, inner);
    lemma_mod_bound(p, inner);
    lemma_div_pos_is_pos(p, inner);
    assert(p / inner < rows) by (nonlinear_arith)
        requires
            p < rows * inner,
            p == inner * (p / inner) + p % inner,
            0 <= p % inner,
            inner > 0,
    ;
}

/// For every row, the last slot that wrote to it.
fn last_writers(picks: &[usize], rows: usize) -> (r: Vec<Option<usize>>)
    ensures
        r.len() == rows,
        forall|v: int|
            0 <= v < rows ==> match #[trigger] r@[v] {
                Some(k) => last_place(index_of(picks@), v) == Some(k as int),
                None => last_place(index_of(picks@), v) is None,
            },
{
    let mut last: Vec<Option<usize>> = Vec::with_capacity(rows);
    let mut i: usize = 0;
    while i < rows
        invariant
            0 <= i <= rows,
            last.len() == i,
            forall|v: int| 0 <= v < i ==> #[trigger] last@[v] is None,
        decreases rows - i,
    {
        last.push(None);
        i = i + 1;
    }
    let ghost ps = index_of(picks@);
    let mut k: usize = 0;
    while k < picks.len()
        invariant
            0 <= k <= picks.len(),
            ps == index_of(picks@),
            last.len() == rows,
            forall|v: int|
                0 <= v < rows ==> match #[trigger] last@[v] {
                    Some(j) => last_place(ps.take(k as int), v) == Some(j as int),
                    None => last_place(ps.take(k as int), v) is None,
                },
        decreases picks.len() - k,
    {
        let row: usize = picks[k];
        let ghost before = last@;
        if row < rows {
            last[row] = Some(k);
        }
        k = k + 1;
        proof {
            let now = ps.take(k as int);
            assert(now.drop_last() =~= ps.take(k - 1));
            assert(now.last() == row);
            assert forall|v: int| 0 <= v < rows implies match #[trigger] last@[v] {
                Some(j) => last_place(now, v) == Some(j as int),
                None => last_place(now, v) is None,
            } by {
                if v != row {
                    assert(last@[v] == before[v]);
                }
            }
        }
    }
    assert(ps.take(k as int) =~= ps);
    last
}

/// Every winning slot receives the gradient of the row it wrote; overwritten
/// slots receive zero.
fn last_writer_grads<E: Elem>(
    g: &[E],
    picks: &Vec<usize>,
    rows: usize,
    inner: usize,
    values: &Vec<usize>,
) -> (r: Tensor<E>)
    requires
        inner > 0,
        g.len() == rows * inner,
        all_below(picks@, rows as int),
        product(values@) == picks.len() * inner,
        product(values@) <= usize::MAX,
    ensures
        to_last_writers(g@, index_of(picks@), inner as int, values@, r),
{
    let total: usize = element_count(values.as_slice());
    let last = last_writers(picks.as_slice(), rows);
    let ghost ps = index_of(picks@);
    let z = E::zero();
    let mut data: Vec<E> = Vec::with_capacity(total);
    let mut p: usize = 0;
    while p < total
        invariant
            0 <= p <= total,
            inner > 0,
            ps == index_of(picks@),
            total == picks.len() * inner,
            g.len() == rows * inner,
            all_below(picks@, rows as int),
            last.len() == rows,
            forall|v: int|
                0 <= v < rows ==> match #[trigger] last@[v] {
                    Some(k) => last_place(ps, v) == Some(k as int),
                    None => last_place(ps, v) is None,
                },
            data.len() == p,
            forall|q: int|
                0 <= q < p ==> #[trigger] data@[q] == if last_place(ps, ps[q / inner as int])
                    == Some(q / inner as int) {
                    g@[ps[q / inner as int] * inner + q % inner as int]
                } else {
                    z
                },
        decreases total - p,
    {
        let k: usize = p / inner;
        let i: usize = p % inner;
        proof {
            lemma_row_in(p as int, picks.len() as int, inner as int);
            assert(picks@[k as int] < rows);
            assert(ps[k as int] == picks@[k as int]);
        }
        let row: usize = picks[k];
        assert(row * inner + i < rows * inner) by (nonlinear_arith)
            requires
                row < rows,
                i < inner,
        ;
        let winner = match last[row] {
            Some(w) => w == k,
            None => false,
        };
        assert(winner == (last_place(ps, ps[k as int]) == Some(k as int)));
        if winner {
            data.push(g[row * inner + i]);
        } else {
            data.push(z);
        }
        p = p + 1;
    }
    let r = Tensor::from_results(values.as_slice(), data);
    assert(is_zero(z));
    r
}

fn vjp_scatter<E: Elem>(
    g: &Tensor<E>,
    base: &Vec<usize>,
    values: &Vec<usize>,
    picks: &Vec<usize>,
) -> (r: OxitorchResult<Vec<Tensor<E>>>)
    ensures
        match r {
            Ok(v) => v@.len() == 2 && (exists|mask: Tensor<E>, gb: Tensor<E>| #[trigger]
                masks_rows(base@, index_of(picks@), mask) && #[trigger] combines(
                    BinaryOp::Mul,
                    *g,
                    mask,
                    gb,
                ) && unbroadcast_result(gb, base@, v@[0])) && to_last_writers(
                g.data(),
                index_of(picks@),
                product(base@.skip(1)) as int,
                values@,
                v@[1],
            ),
            Err(e) => e@ == misfit_error() && !(OpGrad::<E>::ScatterDim0 {
                base: *base,
                values: *values,
                picks: *picks,
            }).accepts(*g),
        },
{
    proof {
        use_type_invariant(g);
        g.lemma_wf();
        law_broadcast_identity(base@);
        law_expands_iff_broadcast_keeps(base@, base@);
    }
    if base.len() == 0 || !same_dims(g.shape(), base.as_slice()) || !has_count(values.as_slice())
        || !are_below(picks.as_slice(), base[0]) {
        return Err(misfit());
    }
    let mut want = copy_dims(base.as_slice());
    want[0] = picks.len();
    assert(want@ =~= base@.update(0, picks@.len() as usize));
    if !same_dims(values.as_slice(), want.as_slice()) {
        return Err(misfit());
    }
    proof {
        lemma_same_joins(base@);
    }
    if g.numel() == 0 {
        return empty_scatter(g, base, values, picks);
    }
    let mask: Tensor<E> = row_mask(base, picks);
    let gb = match combine(BinaryOp::Mul, g, &mask) {
        Ok(t) => t,
        Err(e) => {
            return Err(e);
        },
    };
    let rb = match sum_down(&gb, base.as_slice()) {
        Ok(t) => t,
        Err(e) => {
            return Err(e);
        },
    };
    proof {
        lemma_product_tail(base@, 1);
        assert(base@.subrange(1, base@.len() as int) =~= base@.skip(1));
        assert(values@.skip(1) =~= base@.skip(1));
        assert(product(values@) == values@[0] * product(base@.skip(1)));
    }
    let inner: usize = element_count(vstd::slice::slice_subrange(base.as_slice(), 1, base.len()));
    let flat = g.to_vec();
    let rv = last_writer_grads(flat.as_slice(), picks, base[0], inner, values);
    Ok(pair(rb, rv))
}

/// The case of an empty base: nothing flows anywhere.
fn empty_scatter<E: Elem>(
    g: &Tensor<E>,
    base: &Vec<usize>,
    values: &Vec<usize>,
    picks: &Vec<usize>,
) -> (r: OxitorchResult<Vec<Tensor<E>>>)
    requires
        g.count() == 0,
        g.dims() == base@,
        base@.len() > 0,
        values@ == base@.update(0, picks@.len() as usize),
        product(values@) <= usize::MAX,
        all_below(picks@, base@[0] as int),
    ensures
        match r {
            Ok(v) => v@.len() == 2 && (exists|mask: Tensor<E>, gb: Tensor<E>| #[trigger]
                masks_rows(base@, index_of(picks@), mask) && #[trigger] combines(
                    BinaryOp::Mul,
                    *g,
                    mask,
                    gb,
                ) && unbroadcast_result(gb, base@, v@[0])) && to_last_writers(
                g.data(),
                index_of(picks@),
                product(base@.skip(1)) as int,
                values@,
                v@[1],
            ),
            Err(_) => false,
        },
{
    let mask: Tensor<E> = Tensor::from_results(base.as_slice(), Vec::new());
    let slots: usize = picks.len();
    proof {
        assert(slots as usize == picks@.len());
        use_type_invariant(g);
        g.lemma_wf();
        law_broadcast_identity(base@);
        law_expands_iff_broadcast_keeps(base@, base@);
        lemma_same_joins(base@);
        assert(masks_rows(base@, index_of(picks@), mask));
        // Without rows nothing can be picked, and without columns every row
        // is empty.
        lemma_product_update(base@, 0, picks@.len() as usize);
        lemma_product_remove(base@, 0);
        assert(product(values@) == 0) by (nonlinear_arith)
            requires
                product(base@) == product(base@.remove(0)) * base@[0],
                product(values@) == product(base@.remove(0)) * picks@.len(),
                product(base@) == 0,
                base@[0] == 0 ==> picks@.len() == 0,
        ;
    }
    let gb = match combine(BinaryOp::Mul, g, &mask) {
        Ok(t) => t,
        Err(e) => {
            return Err(e);
        },
    };
    let rb = match sum_down(&gb, base.as_slice()) {
        Ok(t) => t,
        Err(e) => {
            return Err(e);
        },
    };
    let z = E::zero();
    let rv: Tensor<E> = Tensor::from_results(values.as_slice(), Vec::new());
    proof {
        assert(is_zero(z));
        assert(to_last_writers(
            g.data(),
            index_of(picks@),
            product(base@.skip(1)) as int,
            values@,
            rv,
        ));
    }
    Ok(pair(rb, rv))
}

impl<E: Elem> VjpRule<E> for OpGrad<E> {
    fn vjp(&self, upstream: &Tensor<E>) -> (r: OxitorchResult<Vec<Tensor<E>>>)
        ensures
            match r {
                Ok(v) => self.gives(*upstream, v@),
                Err(e) => self.fails(*upstream, e@) && !self.accepts(*upstream),
            },
    {
        let g = upstream;
        match self {
            OpGrad::Add { a_dims, b_dims } => vjp_add(g, a_dims, b_dims),
            OpGrad::Sub { a_dims, b_dims } => vjp_sub(g, a_dims, b_dims),
            OpGrad::Mul { a, b } => vjp_mul(g, a, b),
            OpGrad::Div { a, b } => vjp_div(g, a, b),
            OpGrad::Pow { a, b } => vjp_pow(g, a, b),
            OpGrad::MulScalar { c } => {
                let r = match g.mul_scalar(*c) {
                    Ok(t) => t,
                    Err(e) => {
                        return Err(e);
                    },
                };
                Ok(single(r))
            },
            OpGrad::Neg { dims } => vjp_neg(g, dims),
            OpGrad::Slope { kind, x } => vjp_slope(g, *kind, x),
            OpGrad::Relu { mask, dims } => vjp_relu(g, mask, dims),
            OpGrad::Matmul { a, b } => vjp_matmul(g, a, b),
            OpGrad::Bmm { a, b } => vjp_bmm(g, a, b),
            OpGrad::Sum { dims, dim } => vjp_sum(g, dims, *dim),
            OpGrad::Mean { dims, dim } => vjp_mean(g, dims, *dim),
            OpGrad::Winner { dims, dim, places } => vjp_winner(g, dims, *dim, places),
            OpGrad::Norm { x, dim } => vjp_norm(g, x, *dim),
            OpGrad::Transpose { dims } => vjp_transpose(g, dims),
            OpGrad::Reshape { dims } => vjp_reshape(g, dims),
            OpGrad::Narrow { dims, start } => vjp_narrow(g, dims, *start),
            OpGrad::Permute { dims, undo } => vjp_permute(g, dims, undo),
            OpGrad::BroadcastTo { dims } => {
                let r = match sum_down(g, dims.as_slice()) {
                    Ok(t) => t,
                    Err(e) => {
                        return Err(e);
                    },
                };
                Ok(single(r))
            },
            OpGrad::IndexSelect { dims, dim, picks } => vjp_index_select(g, dims, *dim, picks),
            OpGrad::ScatterDim0 { base, values, picks } => vjp_scatter(g, base, values, picks),
            OpGrad::Elements { dims, places } => vjp_elements(g, dims, places),
        }
    }

    fn from_builtin(rule: OpGrad<E>) -> (r: Self)
        ensures
            r == rule,
    {
        rule
    }
}

} // verus!
