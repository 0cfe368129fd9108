//! The user-facing tensor operations behind a scripting frontend.
//!
//! A frontend's tensor is a graph handle, so every op records into the graph
//! and a backward pass works from there. Ops on tensors that require no
//! gradient, and ops that have no derivative (comparisons, argmax), work on
//! the underlying value and give detached leaves.

pub mod indexing;
pub mod laws;
pub mod methods;

use vstd::prelude::*;
use vstd::string::*;
use crate::autograd::gradcheck::leaf_added;
use crate::autograd::graph::{Graph, Var, VjpRule};
use crate::autograd::ops::{
    add_outcome, div_outcome, mul_outcome, neg_outcome, pow_outcome, sub_outcome, unchanged,
};
use crate::elem::{Elem, is_one};
use crate::error::{ErrorText, OxitorchError, OxitorchResult};
use crate::tensor::Tensor;

verus! {

// ---- exceptions ---------------------------------------------------------------------

/// The exceptions that a frontend raises.
#[derive(Debug, Clone, Copy, PartialEq, Eq, Structural)]
pub enum ExceptionClass {
    /// An argument has the right type and a wrong value.
    ValueError,
    /// The feature is not implemented.
    NotImplementedError,
    /// Anything else.
    RuntimeError,
}

/// The exception that stands for an error:
///
/// | error                               | exception              |
/// |-------------------------------------|------------------------|
/// | `InvalidArgument` / `ShapeMismatch` | `ValueError`           |
/// | `NotImplemented`                    | `NotImplementedError`  |
/// | everything else                     | `RuntimeError`         |
pub fn exception_class(err: &OxitorchError) -> (r: ExceptionClass)
    ensures
        r == match err@ {
            ErrorText::InvalidArgument(_) => ExceptionClass::ValueError,
            ErrorText::ShapeMismatch { .. } => ExceptionClass::ValueError,
            ErrorText::NotImplemented(_) => ExceptionClass::NotImplementedError,
            _ => ExceptionClass::RuntimeError,
        },
{
    match err {
        OxitorchError::InvalidArgument(_) => ExceptionClass::ValueError,
        OxitorchError::ShapeMismatch { .. } => ExceptionClass::ValueError,
        OxitorchError::NotImplemented(_) => ExceptionClass::NotImplementedError,
        OxitorchError::OutOfBounds(_) => ExceptionClass::RuntimeError,
        OxitorchError::Other(_) => ExceptionClass::RuntimeError,
    }
}

// ---- detached results ---------------------------------------------------------------

/// Wrapping the result `q` of a tensor op as a detached leaf gives `r` and
/// leads from `before` to `after`.
pub open spec fn detached_outcome<E, V>(
    before: Graph<E, V>,
    q: OxitorchResult<Tensor<E>>,
    r: OxitorchResult<Var>,
    after: Graph<E, V>,
) -> bool {
    match q {
        Ok(t) => r matches Ok(v) && leaf_added(before, t, false, v, after),
        Err(e) => r == Err::<Var, OxitorchError>(e) && unchanged(before, after),
    }
}

/// Wraps the result of a tensor op as a detached leaf.
pub(crate) fn detached<E, V>(g: &mut Graph<E, V>, q: OxitorchResult<Tensor<E>>) -> (r:
    OxitorchResult<Var>)
    requires
        old(g).wf(),
    ensures
        final(g).wf(),
        detached_outcome(*old(g), q, r, *final(g)),
{
    match q {
        Ok(t) => Ok(Var::leaf(g, t, false)),
        Err(e) => Err(e),
    }
}

// ---- arithmetic with tensors and numbers --------------------------------------------

/// The second operand of an arithmetic operator: another tensor or a number.
#[derive(Debug)]
pub enum TensorOrScalar<E> {
    /// A tensor operand.
    Tensor(Var),
    /// A number.
    Scalar(E),
}

/// The arithmetic operators that take a number for a constant tensor.
#[derive(Debug, Clone, Copy, PartialEq, Eq, Structural)]
pub enum Arithmetic {
    /// `a + b`.
    Add,
    /// `a - b`.
    Sub,
    /// `a * b`.
    Mul,
    /// `a / b`.
    Div,
    /// `a ** b`.
    Pow,
}

/// What an operator gives and leaves behind.
pub open spec fn arithmetic_outcome<E: Elem, V: VjpRule<E>>(
    op: Arithmetic,
    before: Graph<E, V>,
    a: Var,
    b: Var,
    r: OxitorchResult<Var>,
    after: Graph<E, V>,
) -> bool {
    match op {
        Arithmetic::Add => add_outcome(before, a, b, r, after),
        Arithmetic::Sub => sub_outcome(before, a, b, r, after),
        Arithmetic::Mul => mul_outcome(before, a, b, r, after),
        Arithmetic::Div => div_outcome(before, a, b, r, after),
        Arithmetic::Pow => pow_outcome(before, a, b, r, after),
    }
}

/// Applies an operator to two tensors.
pub fn binary<E: Elem, V: VjpRule<E>>(g: &mut Graph<E, V>, op: Arithmetic, a: Var, b: Var) -> (r:
    OxitorchResult<Var>)
    requires
        old(g).wf(),
        old(g).has(a),
        old(g).has(b),
    ensures
        final(g).wf(),
        arithmetic_outcome(op, *old(g), a, b, r, *final(g)),
{
    match op {
        Arithmetic::Add => crate::autograd::ops::add(g, a, b),
        Arithmetic::Sub => crate::autograd::ops::sub(g, a, b),
        Arithmetic::Mul => crate::autograd::ops::mul(g, a, b),
        Arithmetic::Div => crate::autograd::ops::div(g, a, b),
        Arithmetic::Pow => crate::autograd::ops::pow(g, a, b),
    }
}

/// `t` has dims `dims` and holds `c` everywhere.
pub open spec fn is_full<E>(t: Tensor<E>, dims: Seq<usize>, c: E) -> bool {
    &&& t.dims() == dims
    &&& forall|p: int| 0 <= p < t.count() ==> #[trigger] t.data()[p] == c
}

/// A constant full tensor of `c` with the shape of `x` (for promoting numbers
/// to constant graph leaves).
fn const_full<E: Elem, V>(g: &Graph<E, V>, x: Var, c: E) -> (r: Tensor<E>)
    requires
        g.has(x),
    ensures
        is_full(r, g.node(x).value.dims(), c),
{
    let t = x.value(g);
    proof {
        use_type_invariant(t);
        t.lemma_wf();
    }
    Tensor::filled(t.shape(), c)
}

/// Promoting a number `c` to a constant leaf with the shape of `x` leads from
/// `before` to `after`, with `v` the leaf.
pub open spec fn promoted<E, V>(
    before: Graph<E, V>,
    x: Var,
    c: E,
    v: Var,
    after: Graph<E, V>,
) -> bool {
    exists|t: Tensor<E>| #[trigger]
        is_full(t, before.node(x).value.dims(), c) && leaf_added(before, t, false, v, after)
}

fn promote<E: Elem, V>(g: &mut Graph<E, V>, x: Var, c: E) -> (r: Var)
    requires
        old(g).wf(),
        old(g).has(x),
    ensures
        final(g).wf(),
        promoted(*old(g), x, c, r, *final(g)),
{
    let t = const_full(g, x, c);
    let ghost full = t;
    assert(is_full(full, old(g).node(x).value.dims(), c));
    Var::leaf(g, t, false)
}

/// What an operator with a tensor or a number gives and leaves behind:
/// numbers are promoted to constant leaves so that gradients flow through
/// unchanged.
pub open spec fn operand_outcome<E: Elem, V: VjpRule<E>>(
    op: Arithmetic,
    before: Graph<E, V>,
    x: Var,
    other: TensorOrScalar<E>,
    r: OxitorchResult<Var>,
    after: Graph<E, V>,
) -> bool {
    match other {
        TensorOrScalar::Tensor(t) => arithmetic_outcome(op, before, x, t, r, after),
        TensorOrScalar::Scalar(c) => exists|v: Var, mid: Graph<E, V>| #[trigger]
            promoted(before, x, c, v, mid) && arithmetic_outcome(op, mid, x, v, r, after),
    }
}

/// The operand, where it is a tensor, belongs to the graph.
pub open spec fn operand_held<E, V>(g: Graph<E, V>, other: TensorOrScalar<E>) -> bool {
    other matches TensorOrScalar::Tensor(t) ==> g.has(t)
}

/// Binary op with a tensor or scalar operand: `x op other`.
pub fn operand_binary<E: Elem, V: VjpRule<E>>(
    g: &mut Graph<E, V>,
    op: Arithmetic,
    x: Var,
    other: TensorOrScalar<E>,
) -> (r: OxitorchResult<Var>)
    requires
        old(g).wf(),
        old(g).has(x),
        operand_held(*old(g), other),
    ensures
        final(g).wf(),
        operand_outcome(op, *old(g), x, other, r, *final(g)),
{
    match other {
        TensorOrScalar::Tensor(t) => binary(g, op, x, t),
        TensorOrScalar::Scalar(c) => {
            let v = promote(g, x, c);
            let ghost mid = *g;
            assert(promoted(*old(g), x, c, v, mid));
            binary(g, op, x, v)
        },
    }
}

/// What `other - x` gives and leaves behind: `c - t` is `(-t) + c`.
pub open spec fn rsub_outcome<E: Elem, V: VjpRule<E>>(
    before: Graph<E, V>,
    x: Var,
    other: TensorOrScalar<E>,
    r: OxitorchResult<Var>,
    after: Graph<E, V>,
) -> bool {
    match other {
        TensorOrScalar::Tensor(t) => sub_outcome(before, t, x, r, after),
        TensorOrScalar::Scalar(c) => exists|
            n: Var,
            negated: Graph<E, V>,
            v: Var,
            mid: Graph<E, V>,
        | #[trigger]
            neg_outcome(before, x, Ok(n), negated) && #[trigger] promoted(negated, x, c, v, mid)
                && add_outcome(mid, n, v, r, after),
    }
}

/// `other - x`.
pub fn rsub<E: Elem, V: VjpRule<E>>(g: &mut Graph<E, V>, x: Var, other: TensorOrScalar<E>) -> (r:
    OxitorchResult<Var>)
    requires
        old(g).wf(),
        old(g).has(x),
        operand_held(*old(g), other),
    ensures
        final(g).wf(),
        rsub_outcome(*old(g), x, other, r, *final(g)),
{
    match other {
        TensorOrScalar::Tensor(t) => crate::autograd::ops::sub(g, t, x),
        TensorOrScalar::Scalar(c) => {
            let n = match crate::autograd::ops::neg(g, x) {
                Ok(n) => n,
                Err(e) => {
                    return Err(e);
                },
            };
            let ghost negated = *g;
            assert(neg_outcome(*old(g), x, Ok(n), negated));
            let v = promote(g, x, c);
            let ghost mid = *g;
            assert(promoted(negated, x, c, v, mid));
            crate::autograd::ops::add(g, n, v)
        },
    }
}

/// What `other / x` gives and leaves behind: `c / t` is `t ** -1 * c`; pow
/// and mul are both differentiable.
pub open spec fn rdiv_outcome<E: Elem, V: VjpRule<E>>(
    before: Graph<E, V>,
    x: Var,
    other: TensorOrScalar<E>,
    r: OxitorchResult<Var>,
    after: Graph<E, V>,
) -> bool {
    match other {
        TensorOrScalar::Tensor(t) => div_outcome(before, t, x, r, after),
        TensorOrScalar::Scalar(c) => exists|
            one: E,
            m: E,
            exponent: Var,
            held: Graph<E, V>,
            q: OxitorchResult<Var>,
            inverted: Graph<E, V>,
        |
            is_one(one) && #[trigger] call_ensures(E::negate, (one,), m) && #[trigger] promoted(
                before,
                x,
                m,
                exponent,
                held,
            ) && #[trigger] pow_outcome(held, x, exponent, q, inverted) && match q {
                Err(_) => r == q && unchanged(inverted, after),
                Ok(i) => exists|v: Var, mid: Graph<E, V>| #[trigger]
                    promoted(inverted, x, c, v, mid) && mul_outcome(mid, i, v, r, after),
            },
    }
}

/// `other / x`.
pub fn rdiv<E: Elem, V: VjpRule<E>>(g: &mut Graph<E, V>, x: Var, other: TensorOrScalar<E>) -> (r:
    OxitorchResult<Var>)
    requires
        old(g).wf(),
        old(g).has(x),
        operand_held(*old(g), other),
    ensures
        final(g).wf(),
        rdiv_outcome(*old(g), x, other, r, *final(g)),
{
    match other {
        TensorOrScalar::Tensor(t) => crate::autograd::ops::div(g, t, x),
        TensorOrScalar::Scalar(c) => {
            let one = E::one();
            assert(is_one(one));
            let m = E::negate(one);
            let exponent = promote(g, x, m);
            let ghost held = *g;
            assert(promoted(*old(g), x, m, exponent, held));
            let q = crate::autograd::ops::pow(g, x, exponent);
            let ghost inverted = *g;
            assert(pow_outcome(held, x, exponent, q, inverted));
            let i = match q {
                Ok(i) => i,
                Err(e) => {
                    return Err(e);
                },
            };
            let v = promote(g, x, c);
            let ghost mid = *g;
            assert(promoted(inverted, x, c, v, mid));
            crate::autograd::ops::mul(g, i, v)
        },
    }
}

/// What `x ** other` gives and leaves behind: the result of a number exponent
/// on a tensor that requires no gradient is detached.
pub open spec fn power_outcome<E: Elem, V: VjpRule<E>>(
    before: Graph<E, V>,
    x: Var,
    other: TensorOrScalar<E>,
    r: OxitorchResult<Var>,
    after: Graph<E, V>,
) -> bool {
    if other is Scalar && !before.node(x).requires_grad {
        exists|c: Tensor<E>, q: OxitorchResult<Tensor<E>>| #[trigger]
            is_full(c, before.node(x).value.dims(), other->Scalar_0) && #[trigger] call_ensures(
                Tensor::<E>::pow,
                (&before.node(x).value, &c),
                q,
            ) && detached_outcome(before, q, r, after)
    } else {
        operand_outcome(Arithmetic::Pow, before, x, other, r, after)
    }
}

/// `x ** other`.
pub fn power<E: Elem, V: VjpRule<E>>(g: &mut Graph<E, V>, x: Var, other: TensorOrScalar<E>) -> (r:
    OxitorchResult<Var>)
    requires
        old(g).wf(),
        old(g).has(x),
        operand_held(*old(g), other),
    ensures
        final(g).wf(),
        power_outcome(*old(g), x, other, r, *final(g)),
{
    if let TensorOrScalar::Scalar(c) = other {
        if !x.requires_grad(g) {
            let full = const_full(g, x, c);
            let q = x.value(g).pow(&full);
            assert(call_ensures(Tensor::<E>::pow, (&old(g).node(x).value, &full), q));
            return detached(g, q);
        }
    }
    operand_binary(g, Arithmetic::Pow, x, other)
}

} // verus!
