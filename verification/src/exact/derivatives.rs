//! That the rule recorded with an element-wise op is the derivative of what
//! the op computes.

use vstd::prelude::*;
use crate::autograd::graph::{Graph, Var, VjpRule};
use crate::autograd::ops::{
    add_outcome, both, div_outcome, mul_outcome, op_recorded, pow_outcome, rule_joins, sub_outcome,
};
use crate::autograd::rules::{OpGrad, combines, minus_one};
use crate::autograd::unbroadcast::unbroadcast_result;
use crate::elem::{Elem, is_one};
use crate::exact::{Exact, lemma_total_equal, total};
use crate::exact::broadcasting::{law_unbroadcast, shown_at};
use crate::exact::gradients::law_elementwise;
use crate::exact::values::law_unary_ops;
use crate::index::{lemma_ravel, lemma_unravel, product, unravel};
use crate::layout::{
    broadcast_index, broadcast_of, broadcastable, expands_to, law_broadcast_covers_operands,
    law_broadcast_identity, law_broadcast_symmetric, law_expands_iff_broadcast_keeps,
    lemma_broadcast_index,
};
use crate::ops::{BinaryOp, UnaryOp};
use crate::tensor::Tensor;
use crate::tensor::elementwise::{binary_result, lemma_broadcast_own, unary_result};

verus! {

/// The sum of `f` over the positions of `out` at which broadcasting `shape`
/// shows the element at position `q`.
pub open spec fn collected(
    f: spec_fn(int) -> real,
    out: Seq<usize>,
    shape: Seq<usize>,
    q: int,
) -> real {
    total(
        |p: int|
            if shown_at(p, out, shape) == q {
                f(p)
            } else {
                0real
            },
        product(out),
    )
}

impl<E> Exact<E> {
    /// The number that broadcasting `t` to `out` shows at position `p`.
    pub open spec fn shown(self, t: Tensor<E>, out: Seq<usize>, p: int) -> real {
        self.num(t, shown_at(p, out, t.dims()))
    }
}

pub(crate) proof fn lemma_shown<E>(t: Tensor<E>, out: Seq<usize>, p: int)
    requires
        expands_to(t.dims(), out),
        0 <= p < product(out),
    ensures
        0 <= shown_at(p, out, t.dims()) < t.count(),
        t.data()[shown_at(p, out, t.dims())] == t.at(
            broadcast_index(unravel(p, out), t.dims()),
        ),
        t.dims() == out ==> shown_at(p, out, t.dims()) == p,
{
    lemma_unravel(p, out);
    lemma_broadcast_index(unravel(p, out), t.dims(), t.dims(), out);
    lemma_ravel(broadcast_index(unravel(p, out), t.dims()), t.dims());
    if t.dims() == out {
        lemma_broadcast_own(t, unravel(p, out));
    }
}

/// An element-wise op combines the two elements that broadcasting shows.
pub proof fn law_elementwise_broadcast<E: Elem>(
    op: BinaryOp,
    a: Tensor<E>,
    b: Tensor<E>,
    r: Tensor<E>,
    p: int,
)
    requires
        broadcastable(a.dims(), b.dims()),
        binary_result(op, a, b, r),
        0 <= p < r.count(),
    ensures
        0 <= shown_at(p, r.dims(), a.dims()) < a.count(),
        0 <= shown_at(p, r.dims(), b.dims()) < b.count(),
        op.gives(
            a.data()[shown_at(p, r.dims(), a.dims())],
            b.data()[shown_at(p, r.dims(), b.dims())],
            r.data()[p],
        ),
{
    law_broadcast_covers_operands(a.dims(), b.dims());
    lemma_shown(a, r.dims(), p);
    lemma_shown(b, r.dims(), p);
    lemma_unravel(p, r.dims());
    assert(r.data()[p] == r.at(unravel(p, r.dims())));
}

/// As [`law_elementwise_broadcast`], where the first operand has the
/// broadcast shape.
pub(crate) proof fn lemma_onto<E: Elem>(
    op: BinaryOp,
    g: Tensor<E>,
    b: Tensor<E>,
    r: Tensor<E>,
    p: int,
)
    requires
        combines(op, g, b, r),
        expands_to(b.dims(), g.dims()),
        0 <= p < g.count(),
    ensures
        r.dims() == g.dims(),
        0 <= shown_at(p, g.dims(), b.dims()) < b.count(),
        op.gives(g.data()[p], b.data()[shown_at(p, g.dims(), b.dims())], r.data()[p]),
{
    law_expands_iff_broadcast_keeps(b.dims(), g.dims());
    law_broadcast_symmetric(b.dims(), g.dims());
    law_elementwise_broadcast(op, g, b, r, p);
    law_expands_iff_broadcast_keeps(g.dims(), g.dims());
    law_broadcast_identity(g.dims());
    lemma_shown(g, g.dims(), p);
}

proof fn lemma_collects<E: Elem>(
    m: Exact<E>,
    g: Tensor<E>,
    shape: Seq<usize>,
    r: Tensor<E>,
    f: spec_fn(int) -> real,
    q: int,
)
    requires
        m.arithmetic(),
        expands_to(shape, g.dims()),
        unbroadcast_result(g, shape, r),
        0 <= q < product(shape),
        forall|p: int| 0 <= p < g.count() ==> m.num(g, p) == #[trigger] f(p),
    ensures
        m.num(r, q) == collected(f, g.dims(), shape, q),
{
    law_unbroadcast(m, g, shape, r, q);
    let a = |p: int|
        if shown_at(p, g.dims(), shape) == q {
            m.num(g, p)
        } else {
            0real
        };
    let b = |p: int|
        if shown_at(p, g.dims(), shape) == q {
            f(p)
        } else {
            0real
        };
    assert forall|p: int| 0 <= p < g.count() implies #[trigger] a(p) == b(p) by {
        assert(m.num(g, p) == f(p));
    }
    lemma_total_equal(a, b, g.count());
}

/// That an op on `a` and `b`, recorded at `v`, computes `value` at every
/// position of its output and hands back the output gradient times `da` to
/// `a`, and times `db` to `b`.
pub open spec fn derives2<E: Elem, V: VjpRule<E>>(
    m: Exact<E>,
    before: Graph<E, V>,
    after: Graph<E, V>,
    v: Var,
    name: Seq<char>,
    a: Var,
    b: Var,
    g: Tensor<E>,
    value: spec_fn(int) -> real,
    da: spec_fn(int) -> real,
    db: spec_fn(int) -> real,
) -> bool {
    let x = before.node(a).value;
    let y = before.node(b).value;
    exists|out: Tensor<E>, rule: OpGrad<E>|
        {
            &&& #[trigger] op_recorded(before, after, v, out, name, both(a, b), rule)
            &&& out.dims() == g.dims()
            &&& forall|p: int| 0 <= p < out.count() ==> #[trigger] m.num(out, p) == value(p)
            &&& forall|r: Seq<Tensor<E>>| #[trigger]
                rule.gives(g, r) ==> {
                    &&& r.len() == 2
                    &&& r[0].dims() == x.dims()
                    &&& r[1].dims() == y.dims()
                    &&& forall|q: int|
                        0 <= q < x.count() ==> #[trigger] m.num(r[0], q) == collected(
                            |p: int| m.num(g, p) * da(p),
                            g.dims(),
                            x.dims(),
                            q,
                        )
                    &&& forall|q: int|
                        0 <= q < y.count() ==> #[trigger] m.num(r[1], q) == collected(
                            |p: int| m.num(g, p) * db(p),
                            g.dims(),
                            y.dims(),
                            q,
                        )
                }
        }
}

proof fn lemma_dims<E: Elem>(op: BinaryOp, g: Tensor<E>, b: Tensor<E>, r: Tensor<E>)
    requires
        combines(op, g, b, r),
        expands_to(b.dims(), g.dims()),
    ensures
        r.dims() == g.dims(),
{
    law_expands_iff_broadcast_keeps(b.dims(), g.dims());
    law_broadcast_symmetric(b.dims(), g.dims());
}

proof fn lemma_less<E: Elem>(m: Exact<E>, y: Tensor<E>, less: Tensor<E>, p: int)
    requires
        m.arithmetic(),
        minus_one(y, less),
        0 <= p < y.count(),
    ensures
        m.num(less, p) == m.num(y, p) - 1real,
{
    let (o, n) = choose|o: E, n: E|
        #![trigger is_one(o), call_ensures(E::negate, (o,), n)]
        is_one(o) && call_ensures(E::negate, (o,), n) && forall|p: int|
            0 <= p < y.count() ==> call_ensures(E::plus, (y.data()[p], n), #[trigger] less.data()[p]);
    assert(call_ensures(E::plus, (y.data()[p], n), less.data()[p]));
}

/// That `r` is `up` summed down to `shape`, and `up` the gradient `g` times
/// the slope `d`.
spec fn handed<E: Elem>(
    m: Exact<E>,
    g: Tensor<E>,
    up: Tensor<E>,
    shape: Seq<usize>,
    r: Tensor<E>,
    d: spec_fn(int) -> real,
) -> bool {
    &&& up.dims() == g.dims()
    &&& unbroadcast_result(up, shape, r)
    &&& forall|p: int| 0 <= p < g.count() ==> #[trigger] m.num(up, p) == m.num(g, p) * d(p)
}

proof fn lemma_derives2<E: Elem, V: VjpRule<E>>(
    m: Exact<E>,
    before: Graph<E, V>,
    after: Graph<E, V>,
    v: Var,
    name: Seq<char>,
    a: Var,
    b: Var,
    g: Tensor<E>,
    out: Tensor<E>,
    rule: OpGrad<E>,
    value: spec_fn(int) -> real,
    da: spec_fn(int) -> real,
    db: spec_fn(int) -> real,
)
    requires
        m.arithmetic(),
        op_recorded(before, after, v, out, name, both(a, b), rule),
        out.dims() == g.dims(),
        expands_to(before.node(a).value.dims(), g.dims()),
        expands_to(before.node(b).value.dims(), g.dims()),
        forall|p: int| 0 <= p < out.count() ==> #[trigger] m.num(out, p) == value(p),
        forall|r: Seq<Tensor<E>>| #[trigger]
            rule.gives(g, r) ==> r.len() == 2 && (exists|up: Tensor<E>| #[trigger]
                handed(m, g, up, before.node(a).value.dims(), r[0], da)) && (exists|up: Tensor<E>|
                #[trigger]
                handed(m, g, up, before.node(b).value.dims(), r[1], db)),
    ensures
        derives2(m, before, after, v, name, a, b, g, value, da, db),
{
    let x = before.node(a).value;
    let y = before.node(b).value;
    let fa = |p: int| m.num(g, p) * da(p);
    let fb = |p: int| m.num(g, p) * db(p);
    assert forall|r: Seq<Tensor<E>>| #[trigger] rule.gives(g, r) implies {
        &&& r.len() == 2
        &&& r[0].dims() == x.dims()
        &&& r[1].dims() == y.dims()
        &&& forall|q: int|
            0 <= q < x.count() ==> #[trigger] m.num(r[0], q) == collected(
                fa,
                g.dims(),
                x.dims(),
                q,
            )
        &&& forall|q: int|
            0 <= q < y.count() ==> #[trigger] m.num(r[1], q) == collected(
                fb,
                g.dims(),
                y.dims(),
                q,
            )
    } by {
        let ga = choose|up: Tensor<E>| #[trigger] handed(m, g, up, x.dims(), r[0], da);
        let gb = choose|up: Tensor<E>| #[trigger] handed(m, g, up, y.dims(), r[1], db);
        assert forall|q: int| 0 <= q < x.count() implies #[trigger] m.num(r[0], q) == collected(
            fa,
            g.dims(),
            x.dims(),
            q,
        ) by {
            lemma_collects(m, ga, x.dims(), r[0], fa, q);
        }
        assert forall|q: int| 0 <= q < y.count() implies #[trigger] m.num(r[1], q) == collected(
            fb,
            g.dims(),
            y.dims(),
            q,
        ) by {
            lemma_collects(m, gb, y.dims(), r[1], fb, q);
        }
    }
}

/// The derivatives of `a + b` are 1 and 1.
pub proof fn law_add_derivative<E: Elem, V: VjpRule<E>>(
    m: Exact<E>,
    before: Graph<E, V>,
    a: Var,
    b: Var,
    v: Var,
    after: Graph<E, V>,
    g: Tensor<E>,
)
    requires
        m.arithmetic(),
        add_outcome(before, a, b, Ok(v), after),
        g.dims() == broadcast_of(before.node(a).value.dims(), before.node(b).value.dims()),
    ensures
        ({
            let xs = |p: int| m.shown(before.node(a).value, g.dims(), p);
            let ys = |p: int| m.shown(before.node(b).value, g.dims(), p);
            derives2(
                m,
                before,
                after,
                v,
                "add"@,
                a,
                b,
                g,
                |p: int| xs(p) + ys(p),
                |p: int| 1real,
                |p: int| 1real,
            )
        }),
{
    let x = before.node(a).value;
    let y = before.node(b).value;
    let xs = |p: int| m.shown(before.node(a).value, g.dims(), p);
    let ys = |p: int| m.shown(before.node(b).value, g.dims(), p);
    let value = |p: int| xs(p) + ys(p);
    let da = |p: int| 1real;
    let db = |p: int| 1real;
    law_broadcast_covers_operands(x.dims(), y.dims());
    let (out, rule) = choose|out: Tensor<E>, rule: OpGrad<E>| #[trigger]
        binary_result(BinaryOp::Add, x, y, out) && op_recorded(
            before,
            after,
            v,
            out,
            "add"@,
            both(a, b),
            rule,
        ) && #[trigger] rule_joins(rule, x.dims(), y.dims()) && rule is Add;
    assert forall|p: int| 0 <= p < out.count() implies #[trigger] m.num(out, p) == value(p) by {
        law_elementwise_broadcast(BinaryOp::Add, x, y, out, p);
    }
    assert forall|r: Seq<Tensor<E>>| #[trigger] rule.gives(g, r) implies r.len() == 2 && (exists|
        up: Tensor<E>,
    | #[trigger]
        handed(m, g, up, x.dims(), r[0], da)) && (exists|up: Tensor<E>| #[trigger]
        handed(m, g, up, y.dims(), r[1], db)) by {
        assert forall|p: int| 0 <= p < g.count() implies #[trigger] m.num(g, p) == m.num(g, p)
            * da(p) by {
            let n = m.num(g, p);
            assert(n * 1real == n) by (nonlinear_arith);
        }
        assert(handed(m, g, g, x.dims(), r[0], da));
        assert forall|p: int| 0 <= p < g.count() implies #[trigger] m.num(g, p) == m.num(g, p)
            * db(p) by {
            let n = m.num(g, p);
            assert(n * 1real == n) by (nonlinear_arith);
        }
        assert(handed(m, g, g, y.dims(), r[1], db));
    }
    lemma_derives2(m, before, after, v, "add"@, a, b, g, out, rule, value, da, db);
}

/// The derivatives of `a - b` are 1 and -1.
pub proof fn law_sub_derivative<E: Elem, V: VjpRule<E>>(
    m: Exact<E>,
    before: Graph<E, V>,
    a: Var,
    b: Var,
    v: Var,
    after: Graph<E, V>,
    g: Tensor<E>,
)
    requires
        m.arithmetic(),
        m.ordered(),
        m.functions(),
        sub_outcome(before, a, b, Ok(v), after),
        g.dims() == broadcast_of(before.node(a).value.dims(), before.node(b).value.dims()),
    ensures
        ({
            let xs = |p: int| m.shown(before.node(a).value, g.dims(), p);
            let ys = |p: int| m.shown(before.node(b).value, g.dims(), p);
            derives2(
                m,
                before,
                after,
                v,
                "sub"@,
                a,
                b,
                g,
                |p: int| xs(p) - ys(p),
                |p: int| 1real,
                |p: int| -1real,
            )
        }),
{
    let x = before.node(a).value;
    let y = before.node(b).value;
    let xs = |p: int| m.shown(before.node(a).value, g.dims(), p);
    let ys = |p: int| m.shown(before.node(b).value, g.dims(), p);
    let value = |p: int| xs(p) - ys(p);
    let da = |p: int| 1real;
    let db = |p: int| -1real;
    law_broadcast_covers_operands(x.dims(), y.dims());
    let (out, rule) = choose|out: Tensor<E>, rule: OpGrad<E>| #[trigger]
        binary_result(BinaryOp::Sub, x, y, out) && op_recorded(
            before,
            after,
            v,
            out,
            "sub"@,
            both(a, b),
            rule,
        ) && #[trigger] rule_joins(rule, x.dims(), y.dims()) && rule is Sub;
    assert forall|p: int| 0 <= p < out.count() implies #[trigger] m.num(out, p) == value(p) by {
        law_elementwise_broadcast(BinaryOp::Sub, x, y, out, p);
    }
    assert forall|r: Seq<Tensor<E>>| #[trigger] rule.gives(g, r) implies r.len() == 2 && (exists|
        up: Tensor<E>,
    | #[trigger]
        handed(m, g, up, x.dims(), r[0], da)) && (exists|up: Tensor<E>| #[trigger]
        handed(m, g, up, y.dims(), r[1], db)) by {
        assert forall|p: int| 0 <= p < g.count() implies #[trigger] m.num(g, p) == m.num(g, p)
            * da(p) by {
            let n = m.num(g, p);
            assert(n * 1real == n) by (nonlinear_arith);
        }
        assert(handed(m, g, g, x.dims(), r[0], da));
        let n = choose|n: Tensor<E>| #[trigger]
            unary_result(UnaryOp::Neg, g, n) && unbroadcast_result(n, y.dims(), r[1]);
        assert forall|p: int| 0 <= p < g.count() implies #[trigger] m.num(n, p) == m.num(g, p)
            * db(p) by {
            law_unary_ops(m, UnaryOp::Neg, g.data()[p], n.data()[p]);
            let k = m.num(g, p);
            assert(k * (-1real) == -k) by (nonlinear_arith);
        }
        assert(handed(m, g, n, y.dims(), r[1], db));
    }
    lemma_derives2(m, before, after, v, "sub"@, a, b, g, out, rule, value, da, db);
}

/// The derivatives of `a b` are `b` and `a`.
pub proof fn law_mul_derivative<E: Elem, V: VjpRule<E>>(
    m: Exact<E>,
    before: Graph<E, V>,
    a: Var,
    b: Var,
    v: Var,
    after: Graph<E, V>,
    g: Tensor<E>,
)
    requires
        m.arithmetic(),
        mul_outcome(before, a, b, Ok(v), after),
        g.dims() == broadcast_of(before.node(a).value.dims(), before.node(b).value.dims()),
    ensures
        ({
            let xs = |p: int| m.shown(before.node(a).value, g.dims(), p);
            let ys = |p: int| m.shown(before.node(b).value, g.dims(), p);
            derives2(
                m,
                before,
                after,
                v,
                "mul"@,
                a,
                b,
                g,
                |p: int| xs(p) * ys(p),
                |p: int| ys(p),
                |p: int| xs(p),
            )
        }),
{
    let x = before.node(a).value;
    let y = before.node(b).value;
    let xs = |p: int| m.shown(before.node(a).value, g.dims(), p);
    let ys = |p: int| m.shown(before.node(b).value, g.dims(), p);
    let value = |p: int| xs(p) * ys(p);
    let da = |p: int| ys(p);
    let db = |p: int| xs(p);
    law_broadcast_covers_operands(x.dims(), y.dims());
    let rule = OpGrad::Mul { a: x, b: y };
    let out = choose|out: Tensor<E>| #[trigger]
        binary_result(BinaryOp::Mul, x, y, out) && op_recorded(
            before,
            after,
            v,
            out,
            "mul"@,
            both(a, b),
            rule,
        );
    assert forall|p: int| 0 <= p < out.count() implies #[trigger] m.num(out, p) == value(p) by {
        law_elementwise_broadcast(BinaryOp::Mul, x, y, out, p);
    }
    assert forall|r: Seq<Tensor<E>>| #[trigger] rule.gives(g, r) implies r.len() == 2 && (exists|
        up: Tensor<E>,
    | #[trigger]
        handed(m, g, up, x.dims(), r[0], da)) && (exists|up: Tensor<E>| #[trigger]
        handed(m, g, up, y.dims(), r[1], db)) by {
        let ga = choose|ga: Tensor<E>| #[trigger]
            combines(BinaryOp::Mul, g, y, ga) && unbroadcast_result(ga, x.dims(), r[0]);
        let gb = choose|gb: Tensor<E>| #[trigger]
            combines(BinaryOp::Mul, g, x, gb) && unbroadcast_result(gb, y.dims(), r[1]);
        lemma_dims(BinaryOp::Mul, g, y, ga);
        lemma_dims(BinaryOp::Mul, g, x, gb);
        assert forall|p: int| 0 <= p < g.count() implies #[trigger] m.num(ga, p) == m.num(g, p)
            * da(p) by {
            lemma_onto(BinaryOp::Mul, g, y, ga, p);
        }
        assert(handed(m, g, ga, x.dims(), r[0], da));
        assert forall|p: int| 0 <= p < g.count() implies #[trigger] m.num(gb, p) == m.num(g, p)
            * db(p) by {
            lemma_onto(BinaryOp::Mul, g, x, gb, p);
        }
        assert(handed(m, g, gb, y.dims(), r[1], db));
    }
    lemma_derives2(m, before, after, v, "mul"@, a, b, g, out, rule, value, da, db);
}

proof fn lemma_div_denominator<E: Elem>(
    m: Exact<E>,
    x: Tensor<E>,
    y: Tensor<E>,
    g: Tensor<E>,
    b2: Tensor<E>,
    up: Tensor<E>,
    quot: Tensor<E>,
    gb: Tensor<E>,
)
    requires
        m.arithmetic(),
        broadcastable(x.dims(), y.dims()),
        g.dims() == broadcast_of(x.dims(), y.dims()),
        combines(BinaryOp::Mul, y, y, b2),
        combines(BinaryOp::Mul, g, x, up),
        combines(BinaryOp::Div, up, b2, quot),
        unary_result(UnaryOp::Neg, quot, gb),
        forall|q: int| 0 <= q < y.count() ==> #[trigger] m.num(y, q) != 0real,
    ensures
        gb.dims() == g.dims(),
        forall|p: int|
            0 <= p < g.count() ==> #[trigger] m.num(gb, p) == m.num(g, p) * (-(m.shown(
                x,
                g.dims(),
                p,
            ) / (m.shown(y, g.dims(), p) * m.shown(y, g.dims(), p)))),
{
    law_broadcast_covers_operands(x.dims(), y.dims());
    law_broadcast_identity(y.dims());
    lemma_dims(BinaryOp::Mul, g, x, up);
    lemma_dims(BinaryOp::Div, up, b2, quot);
    assert forall|p: int| 0 <= p < g.count() implies #[trigger] m.num(gb, p) == m.num(g, p) * (-(
    m.shown(x, g.dims(), p) / (m.shown(y, g.dims(), p) * m.shown(y, g.dims(), p)))) by {
        lemma_onto(BinaryOp::Mul, g, x, up, p);
        lemma_onto(BinaryOp::Div, up, b2, quot, p);
        let at = shown_at(p, g.dims(), y.dims());
        law_elementwise(BinaryOp::Mul, y, y, b2, at);
        assert(UnaryOp::Neg.gives(quot.data()[p], gb.data()[p]));
        assert(m.num(y, at) != 0real);
        let n = m.num(g, p);
        let t = m.shown(x, g.dims(), p);
        let d = m.shown(y, g.dims(), p);
        assert(d * d != 0real) by (nonlinear_arith)
            requires
                d != 0real,
        ;
        let w = d * d;
        assert(-((n * t) / w) == n * (-(t / w))) by (nonlinear_arith)
            requires
                w != 0real,
        ;
    }
}

/// The derivatives of `a / b` are `1 / b` and `-a / b^2`, where no `b` is zero.
pub proof fn law_div_derivative<E: Elem, V: VjpRule<E>>(
    m: Exact<E>,
    before: Graph<E, V>,
    a: Var,
    b: Var,
    v: Var,
    after: Graph<E, V>,
    g: Tensor<E>,
)
    requires
        m.arithmetic(),
        m.ordered(),
        m.functions(),
        div_outcome(before, a, b, Ok(v), after),
        g.dims() == broadcast_of(before.node(a).value.dims(), before.node(b).value.dims()),
        forall|q: int|
            0 <= q < before.node(b).value.count() ==> #[trigger] m.num(before.node(b).value, q)
                != 0real,
    ensures
        ({
            let xs = |p: int| m.shown(before.node(a).value, g.dims(), p);
            let ys = |p: int| m.shown(before.node(b).value, g.dims(), p);
            derives2(
                m,
                before,
                after,
                v,
                "div"@,
                a,
                b,
                g,
                |p: int| xs(p) / ys(p),
                |p: int| 1real / ys(p),
                |p: int| -(xs(p) / (ys(p) * ys(p))),
            )
        }),
{
    let x = before.node(a).value;
    let y = before.node(b).value;
    let xs = |p: int| m.shown(before.node(a).value, g.dims(), p);
    let ys = |p: int| m.shown(before.node(b).value, g.dims(), p);
    let value = |p: int| xs(p) / ys(p);
    let da = |p: int| 1real / ys(p);
    let db = |p: int| -(xs(p) / (ys(p) * ys(p)));
    law_broadcast_covers_operands(x.dims(), y.dims());
    let rule = OpGrad::Div { a: x, b: y };
    let out = choose|out: Tensor<E>| #[trigger]
        binary_result(BinaryOp::Div, x, y, out) && op_recorded(
            before,
            after,
            v,
            out,
            "div"@,
            both(a, b),
            rule,
        );
    assert forall|p: int| 0 <= p < out.count() implies #[trigger] m.num(out, p) == value(p) by {
        law_elementwise_broadcast(BinaryOp::Div, x, y, out, p);
            assert(m.num(y, shown_at(p, g.dims(), y.dims())) != 0real);
    }
    assert forall|r: Seq<Tensor<E>>| #[trigger] rule.gives(g, r) implies r.len() == 2 && (exists|
        up: Tensor<E>,
    | #[trigger]
        handed(m, g, up, x.dims(), r[0], da)) && (exists|up: Tensor<E>| #[trigger]
        handed(m, g, up, y.dims(), r[1], db)) by {
        let ga = choose|ga: Tensor<E>| #[trigger]
            combines(BinaryOp::Div, g, y, ga) && unbroadcast_result(ga, x.dims(), r[0]);
        let (b2, up, quot, gb) = choose|
            b2: Tensor<E>,
            up: Tensor<E>,
            quot: Tensor<E>,
            gb: Tensor<E>,
        | #[trigger]
            combines(BinaryOp::Mul, y, y, b2) && #[trigger] combines(BinaryOp::Mul, g, x, up)
                && #[trigger] combines(BinaryOp::Div, up, b2, quot) && #[trigger] unary_result(
                UnaryOp::Neg,
                quot,
                gb,
            ) && unbroadcast_result(gb, y.dims(), r[1]);
        lemma_dims(BinaryOp::Div, g, y, ga);
        lemma_div_denominator(m, x, y, g, b2, up, quot, gb);
        assert forall|p: int| 0 <= p < g.count() implies #[trigger] m.num(ga, p) == m.num(g, p)
            * da(p) by {
            lemma_onto(BinaryOp::Div, g, y, ga, p);
            assert(m.num(y, shown_at(p, g.dims(), y.dims())) != 0real);
            let d = ys(p);
            let n = m.num(g, p);
            assert(n / d == n * (1real / d)) by (nonlinear_arith)
                requires
                    d != 0real,
            ;
        }
        assert(handed(m, g, ga, x.dims(), r[0], da));
        assert forall|p: int| 0 <= p < g.count() implies #[trigger] m.num(gb, p) == m.num(g, p)
            * db(p) by {
            assert(db(p) == -(m.shown(x, g.dims(), p) / (m.shown(y, g.dims(), p) * m.shown(
                y,
                g.dims(),
                p,
            ))));
        }
        assert(handed(m, g, gb, y.dims(), r[1], db));
    }
    lemma_derives2(m, before, after, v, "div"@, a, b, g, out, rule, value, da, db);
}

proof fn lemma_pow_base<E: Elem>(
    m: Exact<E>,
    x: Tensor<E>,
    y: Tensor<E>,
    g: Tensor<E>,
    less: Tensor<E>,
    power: Tensor<E>,
    up: Tensor<E>,
    ga: Tensor<E>,
)
    requires
        m.arithmetic(),
        m.functions(),
        broadcastable(x.dims(), y.dims()),
        g.dims() == broadcast_of(x.dims(), y.dims()),
        minus_one(y, less),
        combines(BinaryOp::Pow, x, less, power),
        combines(BinaryOp::Mul, g, y, up),
        combines(BinaryOp::Mul, up, power, ga),
    ensures
        ga.dims() == g.dims(),
        forall|p: int|
            0 <= p < g.count() ==> #[trigger] m.num(ga, p) == m.num(g, p) * (m.shown(
                y,
                g.dims(),
                p,
            ) * (m.pow)(m.shown(x, g.dims(), p), m.shown(y, g.dims(), p) - 1real)),
{
    law_broadcast_covers_operands(x.dims(), y.dims());
    law_expands_iff_broadcast_keeps(g.dims(), g.dims());
    law_broadcast_identity(g.dims());
    lemma_dims(BinaryOp::Mul, g, y, up);
    lemma_dims(BinaryOp::Mul, up, power, ga);
    assert forall|p: int| 0 <= p < g.count() implies #[trigger] m.num(ga, p) == m.num(g, p) * (
    m.shown(y, g.dims(), p) * (m.pow)(m.shown(x, g.dims(), p), m.shown(y, g.dims(), p) - 1real)) by {
        lemma_onto(BinaryOp::Mul, g, y, up, p);
        lemma_onto(BinaryOp::Mul, up, power, ga, p);
        lemma_shown(power, g.dims(), p);
        law_elementwise_broadcast(BinaryOp::Pow, x, less, power, p);
        lemma_less(m, y, less, shown_at(p, g.dims(), y.dims()));
        let n = m.num(g, p);
        let k = m.shown(y, g.dims(), p);
        let w = (m.pow)(m.shown(x, g.dims(), p), m.shown(y, g.dims(), p) - 1real);
        assert((n * k) * w == n * (k * w)) by (nonlinear_arith);
    }
}

proof fn lemma_pow_exponent<E: Elem>(
    m: Exact<E>,
    x: Tensor<E>,
    y: Tensor<E>,
    g: Tensor<E>,
    whole: Tensor<E>,
    ln: Tensor<E>,
    up: Tensor<E>,
    gb: Tensor<E>,
)
    requires
        m.arithmetic(),
        m.functions(),
        broadcastable(x.dims(), y.dims()),
        g.dims() == broadcast_of(x.dims(), y.dims()),
        combines(BinaryOp::Pow, x, y, whole),
        unary_result(UnaryOp::Log, x, ln),
        combines(BinaryOp::Mul, g, whole, up),
        combines(BinaryOp::Mul, up, ln, gb),
    ensures
        gb.dims() == g.dims(),
        forall|p: int|
            0 <= p < g.count() ==> #[trigger] m.num(gb, p) == m.num(g, p) * ((m.pow)(
                m.shown(x, g.dims(), p),
                m.shown(y, g.dims(), p),
            ) * (m.ln)(m.shown(x, g.dims(), p))),
{
    law_broadcast_covers_operands(x.dims(), y.dims());
    law_expands_iff_broadcast_keeps(g.dims(), g.dims());
    law_broadcast_identity(g.dims());
    lemma_dims(BinaryOp::Mul, g, whole, up);
    lemma_dims(BinaryOp::Mul, up, ln, gb);
    assert forall|p: int| 0 <= p < g.count() implies #[trigger] m.num(gb, p) == m.num(g, p) * ((
    m.pow)(m.shown(x, g.dims(), p), m.shown(y, g.dims(), p)) * (m.ln)(m.shown(x, g.dims(), p))) by {
        lemma_onto(BinaryOp::Mul, g, whole, up, p);
        lemma_onto(BinaryOp::Mul, up, ln, gb, p);
        lemma_shown(whole, g.dims(), p);
        law_elementwise_broadcast(BinaryOp::Pow, x, y, whole, p);
        lemma_shown(x, g.dims(), p);
        let at = shown_at(p, g.dims(), x.dims());
        assert(UnaryOp::Log.gives(x.data()[at], ln.data()[at]));
        let n = m.num(g, p);
        let k = (m.pow)(m.shown(x, g.dims(), p), m.shown(y, g.dims(), p));
        let w = (m.ln)(m.shown(x, g.dims(), p));
        assert((n * k) * w == n * (k * w)) by (nonlinear_arith);
    }
}

/// The derivatives of `a^b` are `b a^(b-1)` and `a^b ln a`.
pub proof fn law_pow_derivative<E: Elem, V: VjpRule<E>>(
    m: Exact<E>,
    before: Graph<E, V>,
    a: Var,
    b: Var,
    v: Var,
    after: Graph<E, V>,
    g: Tensor<E>,
)
    requires
        m.arithmetic(),
        m.ordered(),
        m.functions(),
        pow_outcome(before, a, b, Ok(v), after),
        g.dims() == broadcast_of(before.node(a).value.dims(), before.node(b).value.dims()),
    ensures
        ({
            let xs = |p: int| m.shown(before.node(a).value, g.dims(), p);
            let ys = |p: int| m.shown(before.node(b).value, g.dims(), p);
            derives2(
                m,
                before,
                after,
                v,
                "pow"@,
                a,
                b,
                g,
                |p: int| (m.pow)(xs(p), ys(p)),
                |p: int| ys(p) * (m.pow)(xs(p), ys(p) - 1real),
                |p: int| (m.pow)(xs(p), ys(p)) * (m.ln)(xs(p)),
            )
        }),
{
    let x = before.node(a).value;
    let y = before.node(b).value;
    let xs = |p: int| m.shown(before.node(a).value, g.dims(), p);
    let ys = |p: int| m.shown(before.node(b).value, g.dims(), p);
    let value = |p: int| (m.pow)(xs(p), ys(p));
    let da = |p: int| ys(p) * (m.pow)(xs(p), ys(p) - 1real);
    let db = |p: int| (m.pow)(xs(p), ys(p)) * (m.ln)(xs(p));
    law_broadcast_covers_operands(x.dims(), y.dims());
    let rule = OpGrad::Pow { a: x, b: y };
    let out = choose|out: Tensor<E>| #[trigger]
        binary_result(BinaryOp::Pow, x, y, out) && op_recorded(
            before,
            after,
            v,
            out,
            "pow"@,
            both(a, b),
            rule,
        );
    assert forall|p: int| 0 <= p < out.count() implies #[trigger] m.num(out, p) == value(p) by {
        law_elementwise_broadcast(BinaryOp::Pow, x, y, out, p);
    }
    assert forall|r: Seq<Tensor<E>>| #[trigger] rule.gives(g, r) implies r.len() == 2 && (exists|
        up: Tensor<E>,
    | #[trigger]
        handed(m, g, up, x.dims(), r[0], da)) && (exists|up: Tensor<E>| #[trigger]
        handed(m, g, up, y.dims(), r[1], db)) by {
        let (less, power, up, ga) = choose|
            less: Tensor<E>,
            power: Tensor<E>,
            up: Tensor<E>,
            ga: Tensor<E>,
        | #[trigger]
            minus_one(y, less) && #[trigger] combines(BinaryOp::Pow, x, less, power)
                && #[trigger] combines(BinaryOp::Mul, g, y, up) && #[trigger] combines(
                BinaryOp::Mul,
                up,
                power,
                ga,
            ) && unbroadcast_result(ga, x.dims(), r[0]);
        let (whole, ln, up2, gb) = choose|
            whole: Tensor<E>,
            ln: Tensor<E>,
            up2: Tensor<E>,
            gb: Tensor<E>,
        | #[trigger]
            combines(BinaryOp::Pow, x, y, whole) && #[trigger] unary_result(UnaryOp::Log, x, ln)
                && #[trigger] combines(BinaryOp::Mul, g, whole, up2) && #[trigger] combines(
                BinaryOp::Mul,
                up2,
                ln,
                gb,
            ) && unbroadcast_result(gb, y.dims(), r[1]);
        lemma_pow_base(m, x, y, g, less, power, up, ga);
        lemma_pow_exponent(m, x, y, g, whole, ln, up2, gb);
        assert forall|p: int| 0 <= p < g.count() implies #[trigger] m.num(ga, p) == m.num(g, p)
            * da(p) by {
            assert(da(p) == m.shown(y, g.dims(), p) * (m.pow)(
                m.shown(x, g.dims(), p),
                m.shown(y, g.dims(), p) - 1real,
            ));
        }
        assert(handed(m, g, ga, x.dims(), r[0], da));
        assert forall|p: int| 0 <= p < g.count() implies #[trigger] m.num(gb, p) == m.num(g, p)
            * db(p) by {
            assert(db(p) == (m.pow)(m.shown(x, g.dims(), p), m.shown(y, g.dims(), p)) * (m.ln)(
                m.shown(x, g.dims(), p),
            ));
        }
        assert(handed(m, g, gb, y.dims(), r[1], db));
    }
    lemma_derives2(m, before, after, v, "pow"@, a, b, g, out, rule, value, da, db);
}

} // verus!
