//! What the rules of the built-in ops compute: the derivatives of what the
//! ops compute.

use vstd::prelude::*;
use crate::autograd::graph::{Graph, Var, VjpRule};
use crate::autograd::ops::{
    abs_outcome, all_zeros, exp_outcome, log_outcome, mul_scalar_outcome, neg_outcome, only,
    op_recorded, relu_outcome, rule_keeps_dims, rule_masks, sigmoid_outcome, sqrt_outcome,
    tanh_outcome,
};
use crate::autograd::rules::{OpGrad, Sloped, all_ones, all_twos, combines, scales};
use crate::autograd::unbroadcast::{summed_axes, unbroadcast_result};
use crate::elem::{Elem, is_one, is_zero};
use crate::exact::{Exact, absolute};
use crate::exact::values::law_unary_ops;
use crate::index::{lemma_unravel, product, unravel};
use crate::layout::law_broadcast_identity;
use crate::ops::{BinaryOp, ComparisonOp, UnaryOp};
use crate::tensor::Tensor;
use crate::tensor::elementwise::{
    binary_result, comparison_gives, comparison_result, lemma_broadcast_own, unary_result,
};

verus! {

proof fn lemma_no_axes(dims: Seq<usize>, k: int)
    requires
        0 <= k <= dims.len(),
    ensures
        summed_axes(dims, dims, k).len() == 0,
    decreases k,
{
    if k > 0 {
        lemma_no_axes(dims, k - 1);
    }
}

/// A gradient of the right shape is handed on as it is.
pub proof fn law_unbroadcast_keeps_shape<E: Elem>(g: Tensor<E>, r: Tensor<E>)
    requires
        unbroadcast_result(g, g.dims(), r),
    ensures
        r.dims() == g.dims(),
        r.data() == g.data(),
{
    lemma_no_axes(g.dims(), g.dims().len() as int);
}

/// On equal shapes an element-wise op works place by place.
pub proof fn law_elementwise<E: Elem>(
    op: BinaryOp,
    a: Tensor<E>,
    b: Tensor<E>,
    r: Tensor<E>,
    p: int,
)
    requires
        binary_result(op, a, b, r),
        a.dims() == b.dims(),
        0 <= p < a.count(),
    ensures
        r.dims() == a.dims(),
        op.gives(a.data()[p], b.data()[p], r.data()[p]),
{
    law_broadcast_identity(a.dims());
    lemma_unravel(p, a.dims());
    let idx = unravel(p, a.dims());
    lemma_broadcast_own(a, idx);
    lemma_broadcast_own(b, idx);
    assert(op.gives(a.at(idx), b.at(idx), r.at(idx)));
}

impl<E> Exact<E> {
    /// The number at row-major position `p` of a tensor.
    pub open spec fn num(self, t: Tensor<E>, p: int) -> real {
        (self.val)(t.data()[p])
    }
}

proof fn lemma_combined<E: Elem>(
    op: BinaryOp,
    a: Tensor<E>,
    b: Tensor<E>,
    r: Tensor<E>,
    to: Seq<usize>,
    s: Tensor<E>,
    p: int,
)
    requires
        combines(op, a, b, r),
        a.dims() == to,
        b.dims() == to,
        unbroadcast_result(r, to, s),
        0 <= p < product(to),
    ensures
        s.dims() == to,
        op.gives(a.data()[p], b.data()[p], s.data()[p]),
{
    law_elementwise(op, a, b, r, p);
    law_unbroadcast_keeps_shape(r, s);
}

/// That `s` is `1 / (1 + e^-x)`.
pub open spec fn is_logistic<E>(m: Exact<E>, x: real, s: real) -> bool {
    s * (1real + (m.exp)(-x)) == 1real
}

/// The derivative of a unary op, by its kind, at a number.
pub open spec fn has_slope<E>(m: Exact<E>, kind: Sloped, x: real, d: real) -> bool {
    match kind {
        Sloped::Abs => (x > 0real ==> d == 1real) && (x < 0real ==> d == -1real),
        Sloped::Exp => d == (m.exp)(x),
        Sloped::Log => x != 0real ==> d * x == 1real,
        Sloped::Sqrt => x > 0real ==> d > 0real && 4real * d * d * x == 1real,
        Sloped::Tanh => d == 1real - (m.tanh)(x) * (m.tanh)(x),
        Sloped::Sigmoid => exists|s: real| #[trigger]
            is_logistic(m, x, s) && d == s * (1real - s),
    }
}

/// A unary op scales the gradient by its derivative.
pub proof fn law_slope_gradients<E: Elem>(
    m: Exact<E>,
    kind: Sloped,
    x: Tensor<E>,
    g: Tensor<E>,
    r: Seq<Tensor<E>>,
    p: int,
) -> (d: real)
    requires
        m.arithmetic(),
        m.ordered(),
        m.functions(),
        (OpGrad::Slope { kind, x }).gives(g, r),
        x.dims() == g.dims(),
        0 <= p < g.count(),
    ensures
        has_slope(m, kind, m.num(x, p), d),
        m.num(r[0], p) == m.num(g, p) * d,
{
    let (d, gx) = choose|d: Tensor<E>, gx: Tensor<E>| #[trigger]
        kind.slope(x, d) && #[trigger] combines(BinaryOp::Mul, g, d, gx) && unbroadcast_result(
            gx,
            x.dims(),
            r[0],
        );
    lemma_slope(m, kind, x, d, p);
    lemma_combined(BinaryOp::Mul, g, d, gx, g.dims(), r[0], p);
    m.num(d, p)
}

proof fn lemma_slope<E: Elem>(m: Exact<E>, kind: Sloped, x: Tensor<E>, d: Tensor<E>, p: int)
    requires
        m.arithmetic(),
        m.ordered(),
        m.functions(),
        kind.slope(x, d),
        0 <= p < x.count(),
    ensures
        d.dims() == x.dims(),
        has_slope(m, kind, m.num(x, p), m.num(d, p)),
{
    let v = m.num(x, p);
    law_broadcast_identity(x.dims());
    match kind {
        Sloped::Abs => {
            law_unary_ops(m, UnaryOp::Sign, x.data()[p], d.data()[p]);
        },
        Sloped::Exp => {
            law_unary_ops(m, UnaryOp::Exp, x.data()[p], d.data()[p]);
        },
        Sloped::Log => {
            let one = choose|one: Tensor<E>| #[trigger]
                all_ones(one, x.dims()) && combines(BinaryOp::Div, one, x, d);
            law_elementwise(BinaryOp::Div, one, x, d, p);
            assert(is_one(one.data()[p]));
            if v != 0real {
                assert(1real / v * v == 1real) by (nonlinear_arith)
                    requires
                        v != 0real,
                ;
            }
        },
        Sloped::Sqrt => {
            let (root, two, low, one) = choose|
                root: Tensor<E>,
                two: Tensor<E>,
                low: Tensor<E>,
                one: Tensor<E>,
            | #[trigger]
                unary_result(UnaryOp::Sqrt, x, root) && #[trigger] all_twos(two, x.dims())
                    && #[trigger] combines(BinaryOp::Mul, root, two, low) && #[trigger] all_ones(
                    one,
                    x.dims(),
                ) && combines(BinaryOp::Div, one, low, d);
            law_elementwise(BinaryOp::Mul, root, two, low, p);
            law_elementwise(BinaryOp::Div, one, low, d, p);
            assert(is_one(one.data()[p]));
            assert(call_ensures(E::two, (), two.data()[p]));
            law_unary_ops(m, UnaryOp::Sqrt, x.data()[p], root.data()[p]);
            if v > 0real {
                let s = m.num(root, p);
                let l = m.num(low, p);
                assert(s > 0real) by (nonlinear_arith)
                    requires
                        s * s == v,
                        s >= 0real,
                        v > 0real,
                ;
                assert(l == s * 2real);
                let q = 1real / l;
                assert(q > 0real && 4real * q * q * v == 1real) by (nonlinear_arith)
                    requires
                        q == 1real / l,
                        l == s * 2real,
                        s > 0real,
                        s * s == v,
                ;
            }
        },
        Sloped::Tanh => {
            let (th, sq, one) = choose|th: Tensor<E>, sq: Tensor<E>, one: Tensor<E>| #[trigger]
                unary_result(UnaryOp::Tanh, x, th) && #[trigger] combines(
                    BinaryOp::Mul,
                    th,
                    th,
                    sq,
                ) && #[trigger] all_ones(one, x.dims()) && combines(BinaryOp::Sub, one, sq, d);
            law_unary_ops(m, UnaryOp::Tanh, x.data()[p], th.data()[p]);
            law_elementwise(BinaryOp::Mul, th, th, sq, p);
            law_elementwise(BinaryOp::Sub, one, sq, d, p);
            assert(is_one(one.data()[p]));
        },
        Sloped::Sigmoid => {
            let (s, one, rest) = choose|s: Tensor<E>, one: Tensor<E>, rest: Tensor<E>| #[trigger]
                unary_result(UnaryOp::Sigmoid, x, s) && #[trigger] all_ones(one, x.dims())
                    && #[trigger] combines(BinaryOp::Sub, one, s, rest) && combines(
                    BinaryOp::Mul,
                    s,
                    rest,
                    d,
                );
            law_unary_ops(m, UnaryOp::Sigmoid, x.data()[p], s.data()[p]);
            law_elementwise(BinaryOp::Sub, one, s, rest, p);
            law_elementwise(BinaryOp::Mul, s, rest, d, p);
            assert(is_one(one.data()[p]));
            assert(is_logistic(m, v, m.num(s, p)));
        },
    }
}

/// That an op on `x`, recorded at `v`, computes such a `value` at position
/// `p` and hands back the output gradient times such a `slope` there.
pub open spec fn derives<E: Elem, V: VjpRule<E>>(
    m: Exact<E>,
    before: Graph<E, V>,
    after: Graph<E, V>,
    v: Var,
    name: Seq<char>,
    x: Var,
    g: Tensor<E>,
    p: int,
    value: spec_fn(real) -> bool,
    slope: spec_fn(real) -> bool,
) -> bool {
    exists|out: Tensor<E>, rule: OpGrad<E>| #[trigger]
        op_recorded(before, after, v, out, name, only(x), rule) && out.dims() == g.dims() && value(
            m.num(out, p),
        ) && forall|r: Seq<Tensor<E>>| #[trigger]
            rule.gives(g, r) ==> r.len() == 1 && r[0].dims() == g.dims() && exists|d: real|
                #[trigger]
                slope(d) && m.num(r[0], p) == m.num(g, p) * d
}

/// The derivative of `-x` is -1.
pub proof fn law_neg_derivative<E: Elem, V: VjpRule<E>>(
    m: Exact<E>,
    before: Graph<E, V>,
    x: Var,
    v: Var,
    after: Graph<E, V>,
    g: Tensor<E>,
    p: int,
)
    requires
        m.arithmetic(),
        m.ordered(),
        m.functions(),
        neg_outcome(before, x, Ok(v), after),
        g.dims() == before.node(x).value.dims(),
        0 <= p < g.count(),
    ensures
        ({
            let at = m.num(before.node(x).value, p);
            derives(
                m,
                before,
                after,
                v,
                "neg"@,
                x,
                g,
                p,
                |w: real| w == -at,
                |d: real| d == -1real,
            )
        }),
{
    let t = before.node(x).value;
    let at = m.num(t, p);
    let value = |w: real| w == -at;
    let slope = |d: real| d == -1real;
    let (out, rule) = choose|out: Tensor<E>, rule: OpGrad<E>| #[trigger]
        unary_result(UnaryOp::Neg, t, out) && op_recorded(
            before,
            after,
            v,
            out,
            "neg"@,
            only(x),
            rule,
        ) && #[trigger] rule_keeps_dims(rule, t.dims()) && rule is Neg;
    law_unary_ops(m, UnaryOp::Neg, t.data()[p], out.data()[p]);
    assert(value(m.num(out, p)));
    assert forall|r: Seq<Tensor<E>>| #[trigger] rule.gives(g, r) implies r.len() == 1
        && r[0].dims() == g.dims() && exists|d: real| #[trigger]
        slope(d) && m.num(r[0], p) == m.num(g, p) * d by {
        let n = choose|n: Tensor<E>| #[trigger]
            unary_result(UnaryOp::Neg, g, n) && unbroadcast_result(n, t.dims(), r[0]);
        law_unbroadcast_keeps_shape(n, r[0]);
        law_unary_ops(m, UnaryOp::Neg, g.data()[p], n.data()[p]);
        let k = m.num(g, p);
        assert(k * (-1real) == -k) by (nonlinear_arith);
        assert(slope(-1real));
    }
    assert(derives(m, before, after, v, "neg"@, x, g, p, value, slope)) by {
        assert(op_recorded(before, after, v, out, "neg"@, only(x), rule));
    }
}

/// The derivative of `x c` is `c`.
pub proof fn law_mul_scalar_derivative<E: Elem, V: VjpRule<E>>(
    m: Exact<E>,
    before: Graph<E, V>,
    x: Var,
    c: E,
    v: Var,
    after: Graph<E, V>,
    g: Tensor<E>,
    p: int,
)
    requires
        m.arithmetic(),
        m.ordered(),
        m.functions(),
        mul_scalar_outcome(before, x, c, Ok(v), after),
        g.dims() == before.node(x).value.dims(),
        0 <= p < g.count(),
    ensures
        ({
            let at = m.num(before.node(x).value, p);
            derives(
                m,
                before,
                after,
                v,
                "mul_scalar"@,
                x,
                g,
                p,
                |w: real| w == at * (m.val)(c),
                |d: real| d == (m.val)(c),
            )
        }),
{
    let t = before.node(x).value;
    let at = m.num(t, p);
    let value = |w: real| w == at * (m.val)(c);
    let slope = |d: real| d == (m.val)(c);
    let rule = OpGrad::MulScalar { c };
    let out = choose|out: Tensor<E>| #[trigger]
        scales(t, c, out) && op_recorded(before, after, v, out, "mul_scalar"@, only(x), rule);
    assert(call_ensures(E::times, (t.data()[p], c), out.data()[p]));
    assert(value(m.num(out, p)));
    assert forall|r: Seq<Tensor<E>>| #[trigger] rule.gives(g, r) implies r.len() == 1
        && r[0].dims() == g.dims() && exists|d: real| #[trigger]
        slope(d) && m.num(r[0], p) == m.num(g, p) * d by {
        assert(call_ensures(E::times, (g.data()[p], c), r[0].data()[p]));
        assert(slope((m.val)(c)));
    }
    assert(derives(m, before, after, v, "mul_scalar"@, x, g, p, value, slope)) by {
        assert(op_recorded(before, after, v, out, "mul_scalar"@, only(x), rule));
    }
}

proof fn lemma_slope_dims<E: Elem>(kind: Sloped, x: Tensor<E>, g: Tensor<E>, r: Seq<Tensor<E>>)
    requires
        (OpGrad::Slope { kind, x }).gives(g, r),
    ensures
        r.len() == 1,
        r[0].dims() == x.dims(),
{
}

/// The derivative of `|x|` is the sign of `x`, away from zero.
pub proof fn law_abs_derivative<E: Elem, V: VjpRule<E>>(
    m: Exact<E>,
    before: Graph<E, V>,
    x: Var,
    v: Var,
    after: Graph<E, V>,
    g: Tensor<E>,
    p: int,
)
    requires
        m.arithmetic(),
        m.ordered(),
        m.functions(),
        abs_outcome(before, x, Ok(v), after),
        g.dims() == before.node(x).value.dims(),
        0 <= p < g.count(),
    ensures
        ({
            let at = m.num(before.node(x).value, p);
            derives(
                m,
                before,
                after,
                v,
                "abs"@,
                x,
                g,
                p,
                |w: real| w == absolute(at),
                |d: real| (at > 0real ==> d == 1real) && (at < 0real ==> d == -1real),
            )
        }),
{
    let t = before.node(x).value;
    let at = m.num(t, p);
    let value = |w: real| w == absolute(at);
    let slope = |d: real| (at > 0real ==> d == 1real) && (at < 0real ==> d == -1real);
    let rule = OpGrad::Slope { kind: Sloped::Abs, x: t };
    let out = choose|out: Tensor<E>| #[trigger]
        unary_result(UnaryOp::Abs, t, out) && op_recorded(
            before,
            after,
            v,
            out,
            "abs"@,
            only(x),
            rule,
        );
    law_unary_ops(m, UnaryOp::Abs, t.data()[p], out.data()[p]);
    assert(value(m.num(out, p)));
    assert forall|r: Seq<Tensor<E>>| #[trigger] rule.gives(g, r) implies r.len() == 1
        && r[0].dims() == g.dims() && exists|d: real| #[trigger]
        slope(d) && m.num(r[0], p) == m.num(g, p) * d by {
        let d = law_slope_gradients(m, Sloped::Abs, t, g, r, p);
        lemma_slope_dims(Sloped::Abs, t, g, r);
        assert(slope(d));
    }
    assert(derives(m, before, after, v, "abs"@, x, g, p, value, slope)) by {
        assert(op_recorded(before, after, v, out, "abs"@, only(x), rule));
    }
}

/// The exponential function is its own derivative.
pub proof fn law_exp_derivative<E: Elem, V: VjpRule<E>>(
    m: Exact<E>,
    before: Graph<E, V>,
    x: Var,
    v: Var,
    after: Graph<E, V>,
    g: Tensor<E>,
    p: int,
)
    requires
        m.arithmetic(),
        m.ordered(),
        m.functions(),
        exp_outcome(before, x, Ok(v), after),
        g.dims() == before.node(x).value.dims(),
        0 <= p < g.count(),
    ensures
        ({
            let at = m.num(before.node(x).value, p);
            derives(
                m,
                before,
                after,
                v,
                "exp"@,
                x,
                g,
                p,
                |w: real| w == (m.exp)(at),
                |d: real| d == (m.exp)(at),
            )
        }),
{
    let t = before.node(x).value;
    let at = m.num(t, p);
    let value = |w: real| w == (m.exp)(at);
    let slope = |d: real| d == (m.exp)(at);
    let rule = OpGrad::Slope { kind: Sloped::Exp, x: t };
    let out = choose|out: Tensor<E>| #[trigger]
        unary_result(UnaryOp::Exp, t, out) && op_recorded(
            before,
            after,
            v,
            out,
            "exp"@,
            only(x),
            rule,
        );
    law_unary_ops(m, UnaryOp::Exp, t.data()[p], out.data()[p]);
    assert(value(m.num(out, p)));
    assert forall|r: Seq<Tensor<E>>| #[trigger] rule.gives(g, r) implies r.len() == 1
        && r[0].dims() == g.dims() && exists|d: real| #[trigger]
        slope(d) && m.num(r[0], p) == m.num(g, p) * d by {
        let d = law_slope_gradients(m, Sloped::Exp, t, g, r, p);
        lemma_slope_dims(Sloped::Exp, t, g, r);
        assert(slope(d));
    }
    assert(derives(m, before, after, v, "exp"@, x, g, p, value, slope)) by {
        assert(op_recorded(before, after, v, out, "exp"@, only(x), rule));
    }
}

/// The derivative of `log x` is `1 / x`.
pub proof fn law_log_derivative<E: Elem, V: VjpRule<E>>(
    m: Exact<E>,
    before: Graph<E, V>,
    x: Var,
    v: Var,
    after: Graph<E, V>,
    g: Tensor<E>,
    p: int,
)
    requires
        m.arithmetic(),
        m.ordered(),
        m.functions(),
        log_outcome(before, x, Ok(v), after),
        g.dims() == before.node(x).value.dims(),
        0 <= p < g.count(),
    ensures
        ({
            let at = m.num(before.node(x).value, p);
            derives(
                m,
                before,
                after,
                v,
                "log"@,
                x,
                g,
                p,
                |w: real| w == (m.ln)(at),
                |d: real| at != 0real ==> d * at == 1real,
            )
        }),
{
    let t = before.node(x).value;
    let at = m.num(t, p);
    let value = |w: real| w == (m.ln)(at);
    let slope = |d: real| at != 0real ==> d * at == 1real;
    let rule = OpGrad::Slope { kind: Sloped::Log, x: t };
    let out = choose|out: Tensor<E>| #[trigger]
        unary_result(UnaryOp::Log, t, out) && op_recorded(
            before,
            after,
            v,
            out,
            "log"@,
            only(x),
            rule,
        );
    law_unary_ops(m, UnaryOp::Log, t.data()[p], out.data()[p]);
    assert(value(m.num(out, p)));
    assert forall|r: Seq<Tensor<E>>| #[trigger] rule.gives(g, r) implies r.len() == 1
        && r[0].dims() == g.dims() && exists|d: real| #[trigger]
        slope(d) && m.num(r[0], p) == m.num(g, p) * d by {
        let d = law_slope_gradients(m, Sloped::Log, t, g, r, p);
        lemma_slope_dims(Sloped::Log, t, g, r);
        assert(slope(d));
    }
    assert(derives(m, before, after, v, "log"@, x, g, p, value, slope)) by {
        assert(op_recorded(before, after, v, out, "log"@, only(x), rule));
    }
}

/// The derivative of `sqrt x` is `1 / (2 sqrt x)`.
pub proof fn law_sqrt_derivative<E: Elem, V: VjpRule<E>>(
    m: Exact<E>,
    before: Graph<E, V>,
    x: Var,
    v: Var,
    after: Graph<E, V>,
    g: Tensor<E>,
    p: int,
)
    requires
        m.arithmetic(),
        m.ordered(),
        m.functions(),
        sqrt_outcome(before, x, Ok(v), after),
        g.dims() == before.node(x).value.dims(),
        0 <= p < g.count(),
    ensures
        ({
            let at = m.num(before.node(x).value, p);
            derives(
                m,
                before,
                after,
                v,
                "sqrt"@,
                x,
                g,
                p,
                |w: real| at >= 0real ==> w >= 0real && w * w == at,
                |d: real| at > 0real ==> d > 0real && 4real * d * d * at == 1real,
            )
        }),
{
    let t = before.node(x).value;
    let at = m.num(t, p);
    let value = |w: real| at >= 0real ==> w >= 0real && w * w == at;
    let slope = |d: real| at > 0real ==> d > 0real && 4real * d * d * at == 1real;
    let rule = OpGrad::Slope { kind: Sloped::Sqrt, x: t };
    let out = choose|out: Tensor<E>| #[trigger]
        unary_result(UnaryOp::Sqrt, t, out) && op_recorded(
            before,
            after,
            v,
            out,
            "sqrt"@,
            only(x),
            rule,
        );
    law_unary_ops(m, UnaryOp::Sqrt, t.data()[p], out.data()[p]);
    assert(value(m.num(out, p)));
    assert forall|r: Seq<Tensor<E>>| #[trigger] rule.gives(g, r) implies r.len() == 1
        && r[0].dims() == g.dims() && exists|d: real| #[trigger]
        slope(d) && m.num(r[0], p) == m.num(g, p) * d by {
        let d = law_slope_gradients(m, Sloped::Sqrt, t, g, r, p);
        lemma_slope_dims(Sloped::Sqrt, t, g, r);
        assert(slope(d));
    }
    assert(derives(m, before, after, v, "sqrt"@, x, g, p, value, slope)) by {
        assert(op_recorded(before, after, v, out, "sqrt"@, only(x), rule));
    }
}

/// The derivative of `tanh x` is `1 - tanh^2 x`.
pub proof fn law_tanh_derivative<E: Elem, V: VjpRule<E>>(
    m: Exact<E>,
    before: Graph<E, V>,
    x: Var,
    v: Var,
    after: Graph<E, V>,
    g: Tensor<E>,
    p: int,
)
    requires
        m.arithmetic(),
        m.ordered(),
        m.functions(),
        tanh_outcome(before, x, Ok(v), after),
        g.dims() == before.node(x).value.dims(),
        0 <= p < g.count(),
    ensures
        ({
            let at = m.num(before.node(x).value, p);
            derives(
                m,
                before,
                after,
                v,
                "tanh"@,
                x,
                g,
                p,
                |w: real| w == (m.tanh)(at),
                |d: real| d == 1real - (m.tanh)(at) * (m.tanh)(at),
            )
        }),
{
    let t = before.node(x).value;
    let at = m.num(t, p);
    let value = |w: real| w == (m.tanh)(at);
    let slope = |d: real| d == 1real - (m.tanh)(at) * (m.tanh)(at);
    let rule = OpGrad::Slope { kind: Sloped::Tanh, x: t };
    let out = choose|out: Tensor<E>| #[trigger]
        unary_result(UnaryOp::Tanh, t, out) && op_recorded(
            before,
            after,
            v,
            out,
            "tanh"@,
            only(x),
            rule,
        );
    law_unary_ops(m, UnaryOp::Tanh, t.data()[p], out.data()[p]);
    assert(value(m.num(out, p)));
    assert forall|r: Seq<Tensor<E>>| #[trigger] rule.gives(g, r) implies r.len() == 1
        && r[0].dims() == g.dims() && exists|d: real| #[trigger]
        slope(d) && m.num(r[0], p) == m.num(g, p) * d by {
        let d = law_slope_gradients(m, Sloped::Tanh, t, g, r, p);
        lemma_slope_dims(Sloped::Tanh, t, g, r);
        assert(slope(d));
    }
    assert(derives(m, before, after, v, "tanh"@, x, g, p, value, slope)) by {
        assert(op_recorded(before, after, v, out, "tanh"@, only(x), rule));
    }
}

/// The derivative of the sigmoid `s` is `s (1 - s)`.
pub proof fn law_sigmoid_derivative<E: Elem, V: VjpRule<E>>(
    m: Exact<E>,
    before: Graph<E, V>,
    x: Var,
    v: Var,
    after: Graph<E, V>,
    g: Tensor<E>,
    p: int,
)
    requires
        m.arithmetic(),
        m.ordered(),
        m.functions(),
        sigmoid_outcome(before, x, Ok(v), after),
        g.dims() == before.node(x).value.dims(),
        0 <= p < g.count(),
    ensures
        ({
            let at = m.num(before.node(x).value, p);
            derives(
                m,
                before,
                after,
                v,
                "sigmoid"@,
                x,
                g,
                p,
                |w: real| is_logistic(m, at, w),
                |d: real| exists|s: real| #[trigger] is_logistic(m, at, s) && d == s * (1real - s),
            )
        }),
{
    let t = before.node(x).value;
    let at = m.num(t, p);
    let value = |w: real| is_logistic(m, at, w);
    let slope = |d: real| exists|s: real| #[trigger] is_logistic(m, at, s) && d == s * (1real - s);
    let rule = OpGrad::Slope { kind: Sloped::Sigmoid, x: t };
    let out = choose|out: Tensor<E>| #[trigger]
        unary_result(UnaryOp::Sigmoid, t, out) && op_recorded(
            before,
            after,
            v,
            out,
            "sigmoid"@,
            only(x),
            rule,
        );
    law_unary_ops(m, UnaryOp::Sigmoid, t.data()[p], out.data()[p]);
    assert(value(m.num(out, p)));
    assert forall|r: Seq<Tensor<E>>| #[trigger] rule.gives(g, r) implies r.len() == 1
        && r[0].dims() == g.dims() && exists|d: real| #[trigger]
        slope(d) && m.num(r[0], p) == m.num(g, p) * d by {
        let d = law_slope_gradients(m, Sloped::Sigmoid, t, g, r, p);
        lemma_slope_dims(Sloped::Sigmoid, t, g, r);
        assert(slope(d));
    }
    assert(derives(m, before, after, v, "sigmoid"@, x, g, p, value, slope)) by {
        assert(op_recorded(before, after, v, out, "sigmoid"@, only(x), rule));
    }
}

/// Relu hands the gradient on where its input is above zero, and nowhere else.
pub proof fn law_relu_gradients<E: Elem, V: VjpRule<E>>(
    m: Exact<E>,
    before: Graph<E, V>,
    x: Var,
    v: Var,
    after: Graph<E, V>,
    g: Tensor<E>,
    p: int,
) -> (rule: OpGrad<E>)
    requires
        m.arithmetic(),
        m.ordered(),
        m.functions(),
        relu_outcome(before, x, Ok(v), after),
        g.dims() == before.node(x).value.dims(),
        0 <= p < g.count(),
    ensures
        exists|value: Tensor<E>| #[trigger]
            op_recorded(before, after, v, value, "relu"@, only(x), rule) && m.num(value, p)
                == if m.num(before.node(x).value, p) > 0real {
                m.num(before.node(x).value, p)
            } else {
                0real
            },
        forall|r: Seq<Tensor<E>>| #[trigger]
            rule.gives(g, r) ==> m.num(r[0], p) == if m.num(before.node(x).value, p) > 0real {
                m.num(g, p)
            } else {
                0real
            },
{
    let t = before.node(x).value;
    let (out, zeros, mask, rule) = choose|
        out: Tensor<E>,
        zeros: Tensor<E>,
        mask: Tensor<E>,
        rule: OpGrad<E>,
    | #[trigger]
        unary_result(UnaryOp::Relu, t, out) && #[trigger] all_zeros(zeros, out.dims())
            && #[trigger] comparison_result(ComparisonOp::Gt, t, zeros, mask) && op_recorded(
            before,
            after,
            v,
            out,
            "relu"@,
            only(x),
            rule,
        ) && #[trigger] rule_masks(rule, mask, out.dims());
    law_unary_ops(m, UnaryOp::Relu, t.data()[p], out.data()[p]);
    law_broadcast_identity(t.dims());
    lemma_unravel(p, t.dims());
    let idx = unravel(p, t.dims());
    lemma_broadcast_own(t, idx);
    lemma_broadcast_own(zeros, idx);
    assert(comparison_gives(ComparisonOp::Gt, t.at(idx), zeros.at(idx), mask.at(idx)));
    assert(is_zero(zeros.data()[p]));
    assert(m.num(mask, p) == if m.num(t, p) > 0real {
        1real
    } else {
        0real
    });
    assert forall|r: Seq<Tensor<E>>| #[trigger] rule.gives(g, r) implies m.num(r[0], p)
        == if m.num(t, p) > 0real {
        m.num(g, p)
    } else {
        0real
    } by {
        let gx = choose|gx: Tensor<E>| #[trigger]
            combines(BinaryOp::Mul, g, mask, gx) && unbroadcast_result(gx, out.dims(), r[0]);
        lemma_combined(BinaryOp::Mul, g, mask, gx, g.dims(), r[0], p);
        let y = m.num(g, p);
        assert(y * 1real == y && y * 0real == 0real) by (nonlinear_arith);
    }
    assert(op_recorded(before, after, v, out, "relu"@, only(x), rule));
    rule
}

} // verus!
