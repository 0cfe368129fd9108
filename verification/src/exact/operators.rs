//! What operators with tensors and numbers compute, and when a gradient check
//! passes.

use vstd::prelude::*;
use crate::autograd::gradcheck::{
    Comparison, agrees, element_checked, elements_checked, is_allowance, is_slope, leaf_added,
};
use crate::autograd::graph::{Graph, Var, VjpRule, recorded};
use crate::autograd::ops::{
    add_outcome, all_zeros, both, mul_outcome, neg_outcome, only, op_recorded, pow_outcome,
    rule_joins, rule_keeps_dims, rule_masks, unchanged,
};
use crate::autograd::rules::{OpGrad, Sloped};
use crate::elem::{Elem, is_one};
use crate::error::{OxitorchError, OxitorchResult};
use crate::exact::{Exact, absolute};
use crate::exact::derivatives::{law_elementwise_broadcast, lemma_shown};
use crate::exact::gradients::law_elementwise;
use crate::exact::values::law_unary_ops;
use crate::frontend::{
    Arithmetic, TensorOrScalar, arithmetic_outcome, detached_outcome, is_full, operand_outcome,
    power_outcome, promoted, rdiv_outcome, rsub_outcome,
};
use crate::frontend::methods::{
    apply_outcome, comparison_outcome_of, momentum_settings, named_outcome,
};
use crate::layout::{
    broadcast_of, broadcastable, law_broadcast_identity, law_expands_iff_broadcast_keeps,
};
use crate::ops::{BinaryOp, ComparisonOp, UnaryOp};
use crate::tensor::Tensor;
use crate::tensor::elementwise::{binary_result, comparison_result, unary_result};

verus! {

/// The number that an operator stands for, as far as it is defined.
pub open spec fn operated<E>(m: Exact<E>, op: Arithmetic, a: real, b: real, r: real) -> bool {
    match op {
        Arithmetic::Add => r == a + b,
        Arithmetic::Sub => r == a - b,
        Arithmetic::Mul => r == a * b,
        Arithmetic::Div => b != 0real ==> r * b == a,
        Arithmetic::Pow => r == (m.pow)(a, b),
    }
}

/// A recorded op shows its value, whether or not the graph records.
pub(crate) proof fn lemma_recorded<E: Elem, V: VjpRule<E>>(
    before: Graph<E, V>,
    after: Graph<E, V>,
    v: Var,
    out: Tensor<E>,
    name: Seq<char>,
    inputs: Seq<Var>,
    rule: OpGrad<E>,
)
    requires
        op_recorded(before, after, v, out, name, inputs, rule),
    ensures
        after.node(v).value == out,
        after.nodes().len() == before.nodes().len() + 1,
        forall|x: Var| before.has(x) ==> #[trigger] after.node(x) == before.node(x),
{
    let held = choose|held: V| #[trigger]
        call_ensures(V::from_builtin, (rule,), held) && recorded(
            before,
            after,
            v,
            out,
            name,
            inputs,
            held,
        );
    assert(after.node(v) == after.nodes().last());
    assert forall|x: Var| before.has(x) implies #[trigger] after.node(x) == before.node(x) by {
        assert(after.nodes().drop_last()[x.id()] == after.nodes()[x.id()]);
    }
}

pub(crate) proof fn lemma_binary_value<E: Elem>(
    m: Exact<E>,
    op: BinaryOp,
    arithmetic: Arithmetic,
    x: Tensor<E>,
    y: Tensor<E>,
    out: Tensor<E>,
    p: int,
)
    requires
        m.arithmetic(),
        m.functions(),
        broadcastable(x.dims(), y.dims()),
        binary_result(op, x, y, out),
        op == (match arithmetic {
            Arithmetic::Add => BinaryOp::Add,
            Arithmetic::Sub => BinaryOp::Sub,
            Arithmetic::Mul => BinaryOp::Mul,
            Arithmetic::Div => BinaryOp::Div,
            Arithmetic::Pow => BinaryOp::Pow,
        }),
        0 <= p < out.count(),
    ensures
        operated(
            m,
            arithmetic,
            m.shown(x, out.dims(), p),
            m.shown(y, out.dims(), p),
            m.num(out, p),
        ),
{
    law_elementwise_broadcast(op, x, y, out, p);
    let a = m.shown(x, out.dims(), p);
    let b = m.shown(y, out.dims(), p);
    if b != 0real {
        assert((a / b) * b == a) by (nonlinear_arith)
            requires
                b != 0real,
        ;
    }
}

/// An operator on two tensors combines the numbers that broadcasting shows, and
/// leaves both as they are.
pub proof fn law_operator_on_tensors<E: Elem, V: VjpRule<E>>(
    m: Exact<E>,
    op: Arithmetic,
    before: Graph<E, V>,
    a: Var,
    b: Var,
    v: Var,
    after: Graph<E, V>,
    p: int,
)
    requires
        m.arithmetic(),
        m.functions(),
        before.has(a),
        before.has(b),
        arithmetic_outcome(op, before, a, b, Ok(v), after),
        0 <= p < after.node(v).value.count(),
    ensures
        after.node(v).value.dims() == broadcast_of(
            before.node(a).value.dims(),
            before.node(b).value.dims(),
        ),
        after.node(a) == before.node(a),
        after.node(b) == before.node(b),
        ({
            let out = after.node(v).value;
            operated(
                m,
                op,
                m.shown(before.node(a).value, out.dims(), p),
                m.shown(before.node(b).value, out.dims(), p),
                m.num(out, p),
            )
        }),
{
    let x = before.node(a).value;
    let y = before.node(b).value;
    match op {
        Arithmetic::Add => {
            let (out, rule) = choose|out: Tensor<E>, rule: OpGrad<E>| #[trigger]
                binary_result(BinaryOp::Add, x, y, out) && op_recorded(
                    before,
                    after,
                    v,
                    out,
                    "add"@,
                    both(a, b),
                    rule,
                ) && #[trigger] rule_joins(rule, x.dims(), y.dims()) && rule is Add;
            lemma_recorded(before, after, v, out, "add"@, both(a, b), rule);
            lemma_binary_value(m, BinaryOp::Add, op, x, y, out, p);
        },
        Arithmetic::Sub => {
            let (out, rule) = choose|out: Tensor<E>, rule: OpGrad<E>| #[trigger]
                binary_result(BinaryOp::Sub, x, y, out) && op_recorded(
                    before,
                    after,
                    v,
                    out,
                    "sub"@,
                    both(a, b),
                    rule,
                ) && #[trigger] rule_joins(rule, x.dims(), y.dims()) && rule is Sub;
            lemma_recorded(before, after, v, out, "sub"@, both(a, b), rule);
            lemma_binary_value(m, BinaryOp::Sub, op, x, y, out, p);
        },
        Arithmetic::Mul => {
            let rule = OpGrad::Mul { a: x, b: y };
            let out = choose|out: Tensor<E>| #[trigger]
                binary_result(BinaryOp::Mul, x, y, out) && op_recorded(
                    before,
                    after,
                    v,
                    out,
                    "mul"@,
                    both(a, b),
                    rule,
                );
            lemma_recorded(before, after, v, out, "mul"@, both(a, b), rule);
            lemma_binary_value(m, BinaryOp::Mul, op, x, y, out, p);
        },
        Arithmetic::Div => {
            let rule = OpGrad::Div { a: x, b: y };
            let out = choose|out: Tensor<E>| #[trigger]
                binary_result(BinaryOp::Div, x, y, out) && op_recorded(
                    before,
                    after,
                    v,
                    out,
                    "div"@,
                    both(a, b),
                    rule,
                );
            lemma_recorded(before, after, v, out, "div"@, both(a, b), rule);
            lemma_binary_value(m, BinaryOp::Div, op, x, y, out, p);
        },
        Arithmetic::Pow => {
            let rule = OpGrad::Pow { a: x, b: y };
            let out = choose|out: Tensor<E>| #[trigger]
                binary_result(BinaryOp::Pow, x, y, out) && op_recorded(
                    before,
                    after,
                    v,
                    out,
                    "pow"@,
                    both(a, b),
                    rule,
                );
            lemma_recorded(before, after, v, out, "pow"@, both(a, b), rule);
            lemma_binary_value(m, BinaryOp::Pow, op, x, y, out, p);
        },
    }
}

proof fn lemma_own_shown<E>(m: Exact<E>, t: Tensor<E>, p: int)
    requires
        0 <= p < t.count(),
    ensures
        m.shown(t, t.dims(), p) == m.num(t, p),
{
    law_broadcast_identity(t.dims());
    law_expands_iff_broadcast_keeps(t.dims(), t.dims());
    lemma_shown(t, t.dims(), p);
}

/// A promoted number stands at every position of its tensor.
proof fn lemma_promoted<E: Elem, V>(
    m: Exact<E>,
    before: Graph<E, V>,
    x: Var,
    c: E,
    v: Var,
    after: Graph<E, V>,
)
    requires
        before.has(x),
        promoted(before, x, c, v, after),
    ensures
        after.has(v),
        after.node(v).value.dims() == before.node(x).value.dims(),
        forall|p: int|
            0 <= p < after.node(v).value.count() ==> #[trigger] m.num(after.node(v).value, p) == (
            m.val)(c),
        after.nodes().len() == before.nodes().len() + 1,
        forall|w: Var| before.has(w) ==> #[trigger] after.node(w) == before.node(w),
{
    let t = choose|t: Tensor<E>| #[trigger]
        is_full(t, before.node(x).value.dims(), c) && leaf_added(before, t, false, v, after);
    assert(after.node(v) == after.nodes().last());
    assert forall|w: Var| before.has(w) implies #[trigger] after.node(w) == before.node(w) by {
        assert(after.nodes().drop_last()[w.id()] == after.nodes()[w.id()]);
    }
    assert forall|p: int| 0 <= p < after.node(v).value.count() implies #[trigger] m.num(
        after.node(v).value,
        p,
    ) == (m.val)(c) by {
        assert(t.data()[p] == c);
    }
}

/// An operator with a number combines it with every number of the tensor.
pub proof fn law_operator_with_a_number<E: Elem, V: VjpRule<E>>(
    m: Exact<E>,
    op: Arithmetic,
    before: Graph<E, V>,
    x: Var,
    c: E,
    v: Var,
    after: Graph<E, V>,
    p: int,
)
    requires
        m.arithmetic(),
        m.functions(),
        before.has(x),
        operand_outcome(op, before, x, TensorOrScalar::Scalar(c), Ok(v), after),
        0 <= p < before.node(x).value.count(),
    ensures
        after.node(v).value.dims() == before.node(x).value.dims(),
        operated(
            m,
            op,
            m.num(before.node(x).value, p),
            (m.val)(c),
            m.num(after.node(v).value, p),
        ),
{
    let (k, mid) = choose|k: Var, mid: Graph<E, V>| #[trigger]
        promoted(before, x, c, k, mid) && arithmetic_outcome(op, mid, x, k, Ok(v), after);
    lemma_promoted(m, before, x, c, k, mid);
    let t = before.node(x).value;
    law_broadcast_identity(t.dims());
    lemma_outcome_dims(op, mid, x, k, v, after);
    law_operator_on_tensors(m, op, mid, x, k, v, after, p);
    lemma_own_shown(m, t, p);
    lemma_own_shown(m, mid.node(k).value, p);
}

proof fn lemma_outcome_dims<E: Elem, V: VjpRule<E>>(
    op: Arithmetic,
    before: Graph<E, V>,
    a: Var,
    b: Var,
    v: Var,
    after: Graph<E, V>,
)
    requires
        arithmetic_outcome(op, before, a, b, Ok(v), after),
    ensures
        after.node(v).value.dims() == broadcast_of(
            before.node(a).value.dims(),
            before.node(b).value.dims(),
        ),
        after.has(v),
        forall|x: Var| before.has(x) ==> #[trigger] after.node(x) == before.node(x),
        after.nodes().len() == before.nodes().len() + 1,
{
    let x = before.node(a).value;
    let y = before.node(b).value;
    let (out, name, rule) = choose|out: Tensor<E>, name: Seq<char>, rule: OpGrad<E>|
        out.dims() == broadcast_of(x.dims(), y.dims()) && #[trigger] op_recorded(
            before,
            after,
            v,
            out,
            name,
            both(a, b),
            rule,
        );
    lemma_recorded(before, after, v, out, name, both(a, b), rule);
    let held = choose|held: V| #[trigger]
        call_ensures(V::from_builtin, (rule,), held) && recorded(
            before,
            after,
            v,
            out,
            name,
            both(a, b),
            held,
        );
}

/// A number minus a tensor is that number less every number of the tensor.
pub proof fn law_number_minus_tensor<E: Elem, V: VjpRule<E>>(
    m: Exact<E>,
    before: Graph<E, V>,
    x: Var,
    c: E,
    v: Var,
    after: Graph<E, V>,
    p: int,
)
    requires
        m.arithmetic(),
        m.ordered(),
        m.functions(),
        before.has(x),
        rsub_outcome(before, x, TensorOrScalar::Scalar(c), Ok(v), after),
        0 <= p < before.node(x).value.count(),
    ensures
        after.node(v).value.dims() == before.node(x).value.dims(),
        m.num(after.node(v).value, p) == (m.val)(c) - m.num(before.node(x).value, p),
{
    let t = before.node(x).value;
    let (n, negated, k, mid) = choose|n: Var, negated: Graph<E, V>, k: Var, mid: Graph<E, V>|
        #[trigger]
        neg_outcome(before, x, Ok(n), negated) && #[trigger] promoted(negated, x, c, k, mid)
            && add_outcome(mid, n, k, Ok(v), after);
    let (out, rule) = choose|out: Tensor<E>, rule: OpGrad<E>| #[trigger]
        unary_result(UnaryOp::Neg, t, out) && op_recorded(
            before,
            negated,
            n,
            out,
            "neg"@,
            only(x),
            rule,
        ) && #[trigger] rule_keeps_dims(rule, out.dims()) && rule is Neg;
    lemma_recorded(before, negated, n, out, "neg"@, only(x), rule);
    law_unary_ops(m, UnaryOp::Neg, t.data()[p], out.data()[p]);
    assert(negated.node(x) == before.node(x));
    lemma_promoted(m, negated, x, c, k, mid);
    lemma_new_handle(before, negated, n, out, "neg"@, only(x), rule);
    assert(mid.node(n) == negated.node(n));
    law_broadcast_identity(t.dims());
    lemma_outcome_dims(Arithmetic::Add, mid, n, k, v, after);
    law_operator_on_tensors(m, Arithmetic::Add, mid, n, k, v, after, p);
    lemma_own_shown(m, out, p);
    lemma_own_shown(m, mid.node(k).value, p);
}

proof fn lemma_new_handle<E: Elem, V: VjpRule<E>>(
    before: Graph<E, V>,
    after: Graph<E, V>,
    v: Var,
    out: Tensor<E>,
    name: Seq<char>,
    inputs: Seq<Var>,
    rule: OpGrad<E>,
)
    requires
        op_recorded(before, after, v, out, name, inputs, rule),
    ensures
        after.has(v),
{
    let held = choose|held: V| #[trigger]
        call_ensures(V::from_builtin, (rule,), held) && recorded(
            before,
            after,
            v,
            out,
            name,
            inputs,
            held,
        );
}

/// A number divided by a tensor, times the tensor, is that number.
pub proof fn law_number_over_tensor<E: Elem, V: VjpRule<E>>(
    m: Exact<E>,
    before: Graph<E, V>,
    x: Var,
    c: E,
    v: Var,
    after: Graph<E, V>,
    p: int,
)
    requires
        m.arithmetic(),
        m.ordered(),
        m.functions(),
        forall|y: real| y != 0real ==> #[trigger] (m.pow)(y, -1real) * y == 1real,
        before.has(x),
        rdiv_outcome(before, x, TensorOrScalar::Scalar(c), Ok(v), after),
        0 <= p < before.node(x).value.count(),
        m.num(before.node(x).value, p) != 0real,
    ensures
        after.node(v).value.dims() == before.node(x).value.dims(),
        m.num(after.node(v).value, p) * m.num(before.node(x).value, p) == (m.val)(c),
{
    let t = before.node(x).value;
    let (one, e, exponent, held, q, inverted) = choose|
        one: E,
        e: E,
        exponent: Var,
        held: Graph<E, V>,
        q: OxitorchResult<Var>,
        inverted: Graph<E, V>,
    |
        is_one(one) && #[trigger] call_ensures(E::negate, (one,), e) && #[trigger] promoted(
            before,
            x,
            e,
            exponent,
            held,
        ) && #[trigger] pow_outcome(held, x, exponent, q, inverted) && match q {
            Err(_) => Ok::<Var, OxitorchError>(v) == q && unchanged(inverted, after),
            Ok(i) => exists|k: Var, mid: Graph<E, V>| #[trigger]
                promoted(inverted, x, c, k, mid) && mul_outcome(mid, i, k, Ok(v), after),
        };
    let i = q->Ok_0;
    let (k, mid) = choose|k: Var, mid: Graph<E, V>| #[trigger]
        promoted(inverted, x, c, k, mid) && mul_outcome(mid, i, k, Ok(v), after);
    lemma_promoted(m, before, x, e, exponent, held);
    law_broadcast_identity(t.dims());
    lemma_outcome_dims(Arithmetic::Pow, held, x, exponent, i, inverted);
    assert(inverted.node(x) == held.node(x) && held.node(x) == before.node(x));
    law_operator_on_tensors(m, Arithmetic::Pow, held, x, exponent, i, inverted, p);
    lemma_promoted(m, inverted, x, c, k, mid);
    assert(mid.node(i) == inverted.node(i));
    lemma_outcome_dims(Arithmetic::Mul, mid, i, k, v, after);
    law_operator_on_tensors(m, Arithmetic::Mul, mid, i, k, v, after, p);
    lemma_own_shown(m, t, p);
    lemma_own_shown(m, held.node(exponent).value, p);
    lemma_own_shown(m, mid.node(i).value, p);
    lemma_own_shown(m, mid.node(k).value, p);
    let y = m.num(t, p);
    let w = (m.pow)(y, -1real);
    let d = (m.val)(c);
    assert((w * d) * y == d) by (nonlinear_arith)
        requires
            w * y == 1real,
    ;
}

// ---- gradient checks ----------------------------------------------------------------

/// A gradient agrees with two readings exactly when it is no further from the
/// slope between them than the tolerance, counted in the size of the gradient
/// where that is above 1.
pub proof fn law_gradient_agrees<E: Elem>(
    m: Exact<E>,
    a: E,
    up: E,
    down: E,
    h: E,
    tol: E,
    yes: bool,
) -> (slope: real)
    requires
        m.arithmetic(),
        m.ordered(),
        (m.val)(h) != 0real,
        agrees(a, up, down, h, tol, yes),
    ensures
        slope * (2real * (m.val)(h)) == (m.val)(up) - (m.val)(down),
        yes <==> absolute((m.val)(a) - slope) <= (m.val)(tol) * if absolute((m.val)(a)) < 1real {
            1real
        } else {
            absolute((m.val)(a))
        },
{
    let (s, scale, gap, size, off) = choose|s: E, scale: E, gap: E, size: E, off: bool| #[trigger]
        is_slope(up, down, h, s) && #[trigger] is_allowance(a, tol, scale)
            && #[trigger] call_ensures(E::minus, (a, s), gap) && #[trigger] call_ensures(
            E::magnitude,
            (gap,),
            size,
        ) && #[trigger] call_ensures(E::less, (scale, size), off) && yes == !off;
    let (rise, two, run) = choose|rise: E, two: E, run: E| #[trigger]
        call_ensures(E::minus, (up, down), rise) && #[trigger] call_ensures(E::two, (), two)
            && #[trigger] call_ensures(E::times, (two, h), run) && call_ensures(
            E::divide,
            (rise, run),
            s,
        );
    let (mag, one, larger) = choose|mag: E, one: E, larger: E| #[trigger]
        call_ensures(E::magnitude, (a,), mag) && #[trigger] is_one(one) && #[trigger] call_ensures(
            E::larger,
            (mag, one),
            larger,
        ) && call_ensures(E::times, (tol, larger), scale);
    let d = 2real * (m.val)(h);
    let n = (m.val)(rise);
    assert((m.val)(run) == d);
    assert(d != 0real);
    assert((n / d) * d == n) by (nonlinear_arith)
        requires
            d != 0real,
    ;
    (m.val)(s)
}

/// A check passes exactly when every element does; each is read to either side
/// of its input, one after the other.
pub proof fn law_check_takes_every_element<
    E: Elem,
    V: VjpRule<E>,
    F: Fn(Graph<E, V>, Var) -> (Graph<E, V>, OxitorchResult<Var>),
>(before: Graph<E, V>, c: Comparison<E, F>, k: int, yes: bool, after: Graph<E, V>) -> (r: (
    Seq<Graph<E, V>>,
    Seq<bool>,
))
    requires
        k >= 0,
        elements_checked(before, c, k, yes, after),
    ensures
        r.0.len() == k + 1,
        r.1.len() == k,
        unchanged(before, r.0[0]),
        r.0[k] == after,
        forall|i: int|
            0 <= i < k ==> element_checked(r.0[i], c, i, #[trigger] r.1[i], r.0[i + 1]),
        yes <==> forall|i: int| 0 <= i < k ==> #[trigger] r.1[i],
    decreases k,
{
    if k == 0 {
        (seq![after], Seq::empty())
    } else {
        let (mid, last) = choose|mid: Graph<E, V>, last: bool| #[trigger]
            element_checked(mid, c, k - 1, last, after) && {
                ||| elements_checked(before, c, k - 1, true, mid) && yes == last
                ||| elements_checked(before, c, k - 1, false, mid) && !yes
            };
        let so_far = elements_checked(before, c, k - 1, true, mid) && yes == last;
        let (states, flags) = law_check_takes_every_element(before, c, k - 1, so_far, mid);
        let r = (states.push(after), flags.push(last));
        assert forall|i: int| 0 <= i < k implies element_checked(
            r.0[i],
            c,
            i,
            #[trigger] r.1[i],
            r.0[i + 1],
        ) by {
            if i < k - 1 {
                assert(r.1[i] == flags[i]);
            }
        }
        if forall|i: int| 0 <= i < k ==> #[trigger] r.1[i] {
            assert forall|i: int| 0 <= i < k - 1 implies #[trigger] flags[i] by {
                assert(r.1[i]);
            }
            assert(r.1[k - 1]);
        }
        if yes {
            assert forall|i: int| 0 <= i < k implies #[trigger] r.1[i] by {
                if i < k - 1 {
                    assert(flags[i]);
                }
            }
        }
        r
    }
}

/// Momentum settings are refused exactly for Nesterov momentum that is not
/// above zero.
pub proof fn law_momentum_settings<E: Elem>(
    m: Exact<E>,
    momentum: E,
    nesterov: bool,
    r: Result<(), String>,
)
    requires
        m.arithmetic(),
        m.ordered(),
        call_ensures(momentum_settings::<E>, (momentum, nesterov), r),
    ensures
        r is Err <==> nesterov && (m.val)(momentum) <= 0real,
{
}

/// With a tensor on the left, the reversed operators take it first.
pub proof fn law_reversed_operators<E: Elem, V: VjpRule<E>>(
    m: Exact<E>,
    before: Graph<E, V>,
    x: Var,
    t: Var,
    v: Var,
    after: Graph<E, V>,
    p: int,
)
    requires
        m.arithmetic(),
        m.functions(),
        before.has(x),
        before.has(t),
        0 <= p < after.node(v).value.count(),
    ensures
        ({
            let out = after.node(v).value;
            let a = m.shown(before.node(t).value, out.dims(), p);
            let b = m.shown(before.node(x).value, out.dims(), p);
            &&& rsub_outcome(before, x, TensorOrScalar::Tensor(t), Ok(v), after) ==> m.num(out, p)
                == a
                - b
            &&& rdiv_outcome(before, x, TensorOrScalar::Tensor(t), Ok(v), after) && b != 0real
                ==> m.num(out, p) * b == a
        }),
{
    if rsub_outcome(before, x, TensorOrScalar::Tensor(t), Ok(v), after) {
        law_operator_on_tensors(m, Arithmetic::Sub, before, t, x, v, after, p);
    }
    if rdiv_outcome(before, x, TensorOrScalar::Tensor(t), Ok(v), after) {
        law_operator_on_tensors(m, Arithmetic::Div, before, t, x, v, after, p);
    }
}

/// A tensor to the power of a number is every number to that power, whether or
/// not a gradient is required.
pub proof fn law_power_with_a_number<E: Elem, V: VjpRule<E>>(
    m: Exact<E>,
    before: Graph<E, V>,
    x: Var,
    c: E,
    v: Var,
    after: Graph<E, V>,
    p: int,
)
    requires
        m.arithmetic(),
        m.functions(),
        before.has(x),
        power_outcome(before, x, TensorOrScalar::Scalar(c), Ok(v), after),
        0 <= p < before.node(x).value.count(),
    ensures
        after.node(v).value.dims() == before.node(x).value.dims(),
        m.num(after.node(v).value, p) == (m.pow)(m.num(before.node(x).value, p), (m.val)(c)),
{
    let t = before.node(x).value;
    if !before.node(x).requires_grad {
        let (full, q) = choose|full: Tensor<E>, q: OxitorchResult<Tensor<E>>| #[trigger]
            is_full(full, t.dims(), c) && #[trigger] call_ensures(
                Tensor::<E>::pow,
                (&before.node(x).value, &full),
                q,
            ) && detached_outcome(before, q, Ok(v), after);
        let out = q->Ok_0;
        assert(after.node(v) == after.nodes().last());
        law_broadcast_identity(t.dims());
        law_elementwise(BinaryOp::Pow, t, full, out, p);
        assert(full.data()[p] == c);
    } else {
        law_operator_with_a_number(m, Arithmetic::Pow, before, x, c, v, after, p);
    }
}

/// Applying an op by its name computes the op of that name, whether or not a
/// gradient is required.
pub proof fn law_apply_by_name<E: Elem, V: VjpRule<E>>(
    before: Graph<E, V>,
    x: Var,
    name: &str,
    v: Var,
    after: Graph<E, V>,
)
    requires
        apply_outcome(before, x, name, Ok(v), after),
    ensures
        exists|op: UnaryOp|
            #![trigger op.label()]
            op.label() == name@ && unary_result(op, before.node(x).value, after.node(v).value),
{
    let t = before.node(x).value;
    if !before.node(x).requires_grad {
        lemma_named(before, x, name, v, after);
    } else if name@ == "relu"@ {
        let (out, zeros, mask, rule) = choose|
            out: Tensor<E>,
            zeros: Tensor<E>,
            mask: Tensor<E>,
            rule: OpGrad<E>,
        | #[trigger]
            unary_result(UnaryOp::Relu, t, out) && #[trigger] all_zeros(zeros, out.dims())
                && #[trigger] comparison_result(ComparisonOp::Gt, t, zeros, mask) && op_recorded(
                before,
                after,
                v,
                out,
                "relu"@,
                only(x),
                rule,
            ) && #[trigger] rule_masks(rule, mask, out.dims());
        lemma_recorded(before, after, v, out, "relu"@, only(x), rule);
        assert(UnaryOp::Relu.label() == name@);
    } else if name@ == "sigmoid"@ {
        let rule = OpGrad::Slope { kind: Sloped::Sigmoid, x: t };
        let out = choose|out: Tensor<E>| #[trigger]
            unary_result(UnaryOp::Sigmoid, t, out) && op_recorded(
                before,
                after,
                v,
                out,
                "sigmoid"@,
                only(x),
                rule,
            );
        lemma_recorded(before, after, v, out, "sigmoid"@, only(x), rule);
        assert(UnaryOp::Sigmoid.label() == name@);
    } else if name@ == "tanh"@ {
        let rule = OpGrad::Slope { kind: Sloped::Tanh, x: t };
        let out = choose|out: Tensor<E>| #[trigger]
            unary_result(UnaryOp::Tanh, t, out) && op_recorded(
                before,
                after,
                v,
                out,
                "tanh"@,
                only(x),
                rule,
            );
        lemma_recorded(before, after, v, out, "tanh"@, only(x), rule);
        assert(UnaryOp::Tanh.label() == name@);
    } else if name@ == "exp"@ {
        let rule = OpGrad::Slope { kind: Sloped::Exp, x: t };
        let out = choose|out: Tensor<E>| #[trigger]
            unary_result(UnaryOp::Exp, t, out) && op_recorded(
                before,
                after,
                v,
                out,
                "exp"@,
                only(x),
                rule,
            );
        lemma_recorded(before, after, v, out, "exp"@, only(x), rule);
        assert(UnaryOp::Exp.label() == name@);
    } else if name@ == "log"@ {
        let rule = OpGrad::Slope { kind: Sloped::Log, x: t };
        let out = choose|out: Tensor<E>| #[trigger]
            unary_result(UnaryOp::Log, t, out) && op_recorded(
                before,
                after,
                v,
                out,
                "log"@,
                only(x),
                rule,
            );
        lemma_recorded(before, after, v, out, "log"@, only(x), rule);
        assert(UnaryOp::Log.label() == name@);
    } else if name@ == "sqrt"@ {
        let rule = OpGrad::Slope { kind: Sloped::Sqrt, x: t };
        let out = choose|out: Tensor<E>| #[trigger]
            unary_result(UnaryOp::Sqrt, t, out) && op_recorded(
                before,
                after,
                v,
                out,
                "sqrt"@,
                only(x),
                rule,
            );
        lemma_recorded(before, after, v, out, "sqrt"@, only(x), rule);
        assert(UnaryOp::Sqrt.label() == name@);
    } else if name@ == "neg"@ {
        let (out, rule) = choose|out: Tensor<E>, rule: OpGrad<E>| #[trigger]
            unary_result(UnaryOp::Neg, t, out) && op_recorded(
                before,
                after,
                v,
                out,
                "neg"@,
                only(x),
                rule,
            ) && #[trigger] rule_keeps_dims(rule, out.dims()) && rule is Neg;
        lemma_recorded(before, after, v, out, "neg"@, only(x), rule);
        assert(UnaryOp::Neg.label() == name@);
    } else if name@ == "abs"@ {
        let rule = OpGrad::Slope { kind: Sloped::Abs, x: t };
        let out = choose|out: Tensor<E>| #[trigger]
            unary_result(UnaryOp::Abs, t, out) && op_recorded(
                before,
                after,
                v,
                out,
                "abs"@,
                only(x),
                rule,
            );
        lemma_recorded(before, after, v, out, "abs"@, only(x), rule);
        assert(UnaryOp::Abs.label() == name@);
    } else {
        lemma_named(before, x, name, v, after);
    }
}

proof fn lemma_named<E: Elem, V>(
    before: Graph<E, V>,
    x: Var,
    name: &str,
    v: Var,
    after: Graph<E, V>,
)
    requires
        named_outcome(before, x, name, Ok(v), after),
    ensures
        exists|op: UnaryOp|
            #![trigger op.label()]
            op.label() == name@ && unary_result(op, before.node(x).value, after.node(v).value),
{
    let q = choose|q: OxitorchResult<Tensor<E>>| #[trigger]
        call_ensures(Tensor::<E>::unary_op, (&before.node(x).value, name), q) && detached_outcome(
            before,
            q,
            Ok(v),
            after,
        );
    assert(after.node(v) == after.nodes().last());
    assert(after.node(v).value == q->Ok_0);
}

/// Comparing by name compares as the comparison of that name says, and the
/// result requires no gradient.
pub proof fn law_compare_by_name<E: Elem, V>(
    before: Graph<E, V>,
    x: Var,
    name: &str,
    other: Var,
    v: Var,
    after: Graph<E, V>,
)
    requires
        comparison_outcome_of(before, x, name, other, Ok(v), after),
    ensures
        !after.node(v).requires_grad,
        exists|op: ComparisonOp|
            #![trigger op.label()]
            op.label() == name@ && comparison_result(
                op,
                before.node(x).value,
                before.node(other).value,
                after.node(v).value,
            ),
{
    let q = choose|q: OxitorchResult<Tensor<E>>| #[trigger]
        call_ensures(
            Tensor::<E>::cmp_op,
            (&before.node(x).value, name, &before.node(other).value),
            q,
        ) && detached_outcome(before, q, Ok(v), after);
    assert(after.node(v) == after.nodes().last());
    assert(after.node(v).value == q->Ok_0);
}

} // verus!
