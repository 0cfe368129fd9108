//! Computation graph and reverse-mode automatic differentiation.
//!
//! The engine keeps every node of a computation in a [`Graph`] and differentiates
//! by walking it backwards once: ops record a rule for their vector-Jacobian
//! product, and a pass hands gradients from outputs to inputs.

pub mod gradcheck;
pub mod graph;
pub mod ops;
pub mod optim;
pub mod rules;
pub mod topo;
pub mod unbroadcast;
pub mod vjp;

use vstd::prelude::*;
use crate::autograd::gradcheck::leaf_added;
use crate::autograd::graph::{Graph, Var, VjpRule};
use crate::autograd::graph::pass::{backward_fails, backward_result};
use crate::elem::Elem;
use crate::error::OxitorchResult;
use crate::tensor::Tensor;

verus! {

/// Backward pass from a scalar `output` (torch's `loss.backward()`).
///
/// Fails if the output is no scalar, or if it is not connected to any
/// gradient-requiring leaf.
pub fn backward<E: Elem, V: VjpRule<E>>(g: &mut Graph<E, V>, output: Var) -> (r: OxitorchResult<()>)
    requires
        old(g).wf(),
        old(g).has(output),
    ensures
        final(g).wf(),
        final(g).recording() == old(g).recording(),
        match r {
            Ok(_) => backward_result(old(g).nodes(), output.id(), None, false, final(g).nodes()),
            Err(e) => backward_fails(
                old(g).nodes(),
                output.id(),
                None,
                false,
                e@,
                final(g).nodes(),
            ),
        },
{
    crate::autograd::graph::pass::backward(g, output, None)
}

/// Backward pass from `output` with an explicit seed gradient.
///
/// Fails as [`backward`] does, but for the size of the output.
pub fn backward_with_grad<E: Elem, V: VjpRule<E>>(
    g: &mut Graph<E, V>,
    output: Var,
    seed: Tensor<E>,
) -> (r: OxitorchResult<()>)
    requires
        old(g).wf(),
        old(g).has(output),
    ensures
        final(g).wf(),
        final(g).recording() == old(g).recording(),
        match r {
            Ok(_) => backward_result(
                old(g).nodes(),
                output.id(),
                Some(seed),
                false,
                final(g).nodes(),
            ),
            Err(e) => backward_fails(
                old(g).nodes(),
                output.id(),
                Some(seed),
                false,
                e@,
                final(g).nodes(),
            ),
        },
{
    crate::autograd::graph::pass::backward(g, output, Some(seed))
}

/// Wraps a tensor as a gradient-requiring leaf: a parameter.
#[must_use]
pub fn param<E, V>(g: &mut Graph<E, V>, value: Tensor<E>) -> (r: Var)
    requires
        old(g).wf(),
    ensures
        final(g).wf(),
        leaf_added(*old(g), value, true, r, *final(g)),
{
    Var::leaf(g, value, true)
}

/// The engine's version.
pub fn engine_version() -> (r: &'static str)
    ensures
        r@ == "0.1.0"@,
{
    "0.1.0"
}

} // verus!
