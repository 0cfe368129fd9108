//! What a run of an optimizer over a parameter list does to each of them.

use vstd::prelude::*;
use crate::autograd::graph::{Graph, Node, Var};
use crate::autograd::optim::{
    AdamView, OptimState, SgdView, adam_outcome, adam_step_at, adam_steps, adam_steps_until,
    adam_update, grads_zeroed, law_adam_state_is_per_parameter, law_sgd_state_is_per_parameter,
    rewrapped, sgd_outcome, sgd_step_at, sgd_steps, sgd_steps_until, sgd_update, slot_at, steps_at,
    zeroed_or_kept,
};
use crate::elem::{Elem, is_zero};
use crate::exact::Exact;
use crate::exact::chain::held;
use crate::index::lemma_product_positive;
use crate::layout::{signed_dims, sizes_of};
use crate::layout::laws::law_shape_accepted;

verus! {

proof fn lemma_sgd_between<E: Elem, V>(
    trace: Seq<OptimState<SgdView<E>, E, V>>,
    k: int,
    from: int,
    to: int,
    j: int,
)
    requires
        sgd_steps_until(trace, k),
        0 <= from <= to <= k,
        k <= trace[0].params.len(),
        trace[from].params.len() == trace[0].params.len(),
        0 <= j < trace[0].params.len(),
        j < from || to <= j,
    ensures
        trace[to].params.len() == trace[0].params.len(),
        trace[to].params[j] == trace[from].params[j],
        trace[to].optim.lr == trace[from].optim.lr && trace[to].optim.momentum
            == trace[from].optim.momentum && trace[to].optim.nesterov == trace[from].optim.nesterov,
        slot_at(trace[to].optim.velocities, j) == slot_at(trace[from].optim.velocities, j),
        trace[from].graph.nodes().len() <= trace[to].graph.nodes().len(),
        forall|v: Var|
            trace[from].graph.has(v) ==> #[trigger] trace[to].graph.node(v)
                == trace[from].graph.node(v),
    decreases to - from,
{
    if from < to {
        let i = to - 1;
        lemma_sgd_between(trace, k, from, i, j);
        assert(sgd_step_at(trace, i));
        let x = trace[i];
        let y = trace[i + 1];
        assert(i != j);
        match x.graph.node(x.params[i]).grad {
            None => {},
            Some(grad) => {
                let data = choose|data: Seq<E>| #[trigger]
                    sgd_update(
                        x.optim,
                        i,
                        x.graph.node(x.params[i]).value.data(),
                        grad.data(),
                        y.optim,
                        data,
                    ) && rewrapped(x.graph, y.graph, x.params[i], y.params[i], data);
                law_sgd_state_is_per_parameter(
                    x.optim,
                    i,
                    x.graph.node(x.params[i]).value.data(),
                    grad.data(),
                    y.optim,
                    data,
                    j,
                );
            },
        }
        assert forall|v: Var| trace[from].graph.has(v) implies #[trigger] y.graph.node(v)
            == trace[from].graph.node(v) by {
            assert(x.graph.node(v) == trace[from].graph.node(v));
            if y.graph != x.graph {
                assert(y.graph.nodes().drop_last()[v.id()] == y.graph.nodes()[v.id()]);
            }
        }
    }
}

/// A run of SGD over a parameter list steps every parameter once, on the
/// value and gradient it had and from the state it had: before the run, what
/// the step starts from; after it, what the step left.
pub proof fn law_sgd_run<E: Elem, V>(
    a: SgdView<E>,
    g: Graph<E, V>,
    params: Seq<Var>,
    b: SgdView<E>,
    h: Graph<E, V>,
    new_params: Seq<Var>,
    j: int,
) -> (r: (OptimState<SgdView<E>, E, V>, OptimState<SgdView<E>, E, V>))
    requires
        sgd_steps(a, g, params, Ok(()), b, h, new_params),
        0 <= j < params.len(),
        g.has(params[j]),
    ensures
        new_params.len() == params.len(),
        sgd_outcome(
            r.0.optim,
            r.0.graph,
            j,
            params[j],
            Ok(()),
            r.1.optim,
            r.1.graph,
            new_params[j],
        ),
        r.0.optim.lr == a.lr,
        r.0.optim.momentum == a.momentum,
        r.0.optim.nesterov == a.nesterov,
        slot_at(r.0.optim.velocities, j) == slot_at(a.velocities, j),
        slot_at(b.velocities, j) == slot_at(r.1.optim.velocities, j),
        r.0.graph.node(params[j]) == g.node(params[j]),
        h.node(new_params[j]) == r.1.graph.node(new_params[j]),
{
    let (trace, k) = choose|trace: Seq<OptimState<SgdView<E>, E, V>>, k: int| #[trigger]
        sgd_steps_until(trace, k) && 0 <= k <= params.len() && trace[0].optim == a
            && trace[0].graph == g && trace[0].params == params && k == params.len()
            && trace[k].optim == b && trace[k].graph == h && trace[k].params == new_params;
    lemma_sgd_between(trace, k, 0, j, j);
    assert(sgd_step_at(trace, j));
    let x = trace[j];
    let y = trace[j + 1];
    assert(y.graph.has(y.params[j])) by {
        assert(x.graph.has(params[j]));
    }
    lemma_sgd_between(trace, k, j + 1, k, j);
    (x, y)
}

proof fn lemma_adam_between<E: Elem, V>(
    trace: Seq<OptimState<AdamView<E>, E, V>>,
    k: int,
    from: int,
    to: int,
    j: int,
)
    requires
        adam_steps_until(trace, k),
        0 <= from <= to <= k,
        k <= trace[0].params.len(),
        trace[from].params.len() == trace[0].params.len(),
        0 <= j < trace[0].params.len(),
        j < from || to <= j,
    ensures
        trace[to].params.len() == trace[0].params.len(),
        trace[to].params[j] == trace[from].params[j],
        trace[to].optim.lr == trace[from].optim.lr && trace[to].optim.beta1
            == trace[from].optim.beta1 && trace[to].optim.beta2 == trace[from].optim.beta2
            && trace[to].optim.eps == trace[from].optim.eps && trace[to].optim.weight_decay
            == trace[from].optim.weight_decay && trace[to].optim.decoupled
            == trace[from].optim.decoupled,
        slot_at(trace[to].optim.moments, j) == slot_at(trace[from].optim.moments, j)
            && slot_at(trace[to].optim.sq_moments, j) == slot_at(trace[from].optim.sq_moments, j)
            && steps_at(trace[to].optim.steps, j) == steps_at(trace[from].optim.steps, j),
        trace[from].graph.nodes().len() <= trace[to].graph.nodes().len(),
        forall|v: Var|
            trace[from].graph.has(v) ==> #[trigger] trace[to].graph.node(v)
                == trace[from].graph.node(v),
    decreases to - from,
{
    if from < to {
        let i = to - 1;
        lemma_adam_between(trace, k, from, i, j);
        assert(adam_step_at(trace, i));
        let x = trace[i];
        let y = trace[i + 1];
        assert(i != j);
        match x.graph.node(x.params[i]).grad {
            None => {},
            Some(grad) => {
                let data = choose|data: Seq<E>| #[trigger]
                    adam_update(
                        x.optim,
                        i,
                        x.graph.node(x.params[i]).value.data(),
                        grad.data(),
                        y.optim,
                        data,
                    ) && rewrapped(x.graph, y.graph, x.params[i], y.params[i], data);
                law_adam_state_is_per_parameter(
                    x.optim,
                    i,
                    x.graph.node(x.params[i]).value.data(),
                    grad.data(),
                    y.optim,
                    data,
                    j,
                );
            },
        }
        assert forall|v: Var| trace[from].graph.has(v) implies #[trigger] y.graph.node(v)
            == trace[from].graph.node(v) by {
            assert(x.graph.node(v) == trace[from].graph.node(v));
            if y.graph != x.graph {
                assert(y.graph.nodes().drop_last()[v.id()] == y.graph.nodes()[v.id()]);
            }
        }
    }
}

/// A run of Adam over a parameter list steps every parameter once, on the
/// value and gradient it had and from the state it had: before the run, what
/// the step starts from; after it, what the step left.
pub proof fn law_adam_run<E: Elem, V>(
    a: AdamView<E>,
    g: Graph<E, V>,
    params: Seq<Var>,
    b: AdamView<E>,
    h: Graph<E, V>,
    new_params: Seq<Var>,
    j: int,
) -> (r: (OptimState<AdamView<E>, E, V>, OptimState<AdamView<E>, E, V>))
    requires
        adam_steps(a, g, params, Ok(()), b, h, new_params),
        0 <= j < params.len(),
        g.has(params[j]),
    ensures
        new_params.len() == params.len(),
        adam_outcome(
            r.0.optim,
            r.0.graph,
            j,
            params[j],
            Ok(()),
            r.1.optim,
            r.1.graph,
            new_params[j],
        ),
        r.0.optim.lr == a.lr,
        r.0.optim.beta1 == a.beta1,
        r.0.optim.beta2 == a.beta2,
        r.0.optim.eps == a.eps,
        r.0.optim.weight_decay == a.weight_decay,
        r.0.optim.decoupled == a.decoupled,
        slot_at(r.0.optim.moments, j) == slot_at(a.moments, j),
        slot_at(r.0.optim.sq_moments, j) == slot_at(a.sq_moments, j),
        slot_at(b.moments, j) == slot_at(r.1.optim.moments, j),
        slot_at(b.sq_moments, j) == slot_at(r.1.optim.sq_moments, j),
        steps_at(r.0.optim.steps, j) == steps_at(a.steps, j),
        steps_at(b.steps, j) == steps_at(r.1.optim.steps, j),
        r.0.graph.node(params[j]) == g.node(params[j]),
        h.node(new_params[j]) == r.1.graph.node(new_params[j]),
{
    let (trace, k) = choose|trace: Seq<OptimState<AdamView<E>, E, V>>, k: int| #[trigger]
        adam_steps_until(trace, k) && 0 <= k <= params.len() && trace[0].optim == a
            && trace[0].graph == g && trace[0].params == params && k == params.len()
            && trace[k].optim == b && trace[k].graph == h && trace[k].params == new_params;
    lemma_adam_between(trace, k, 0, j, j);
    assert(adam_step_at(trace, j));
    let x = trace[j];
    let y = trace[j + 1];
    assert(y.graph.has(y.params[j])) by {
        assert(x.graph.has(params[j]));
    }
    lemma_adam_between(trace, k, j + 1, k, j);
    (x, y)
}

/// Zeroing the gradients of parameters leaves each a gradient of zeros in its
/// own shape, so that the next pass starts from nothing; no other node changes.
pub proof fn law_zeroed_gradients<E: Elem, V>(
    m: Exact<E>,
    a: Seq<Node<E, V>>,
    ids: Seq<int>,
    b: Seq<Node<E, V>>,
    i: int,
    p: int,
)
    requires
        m.arithmetic(),
        grads_zeroed(a, ids, b),
        0 <= i < a.len(),
        0 <= p < a[i].value.count() <= usize::MAX,
        forall|k: int|
            0 <= k < a[i].value.dims().len() ==> #[trigger] a[i].value.dims()[k] <= i64::MAX,
    ensures
        b[i].value == a[i].value,
        b[i].requires_grad == a[i].requires_grad,
        ids.contains(i) ==> b[i].grad is Some && (b[i].grad->0).dims() == a[i].value.dims() && held(
            m,
            b[i],
            p,
        ) == 0real,
        !ids.contains(i) ==> b[i].grad == a[i].grad,
{
    let dims = a[i].value.dims();
    let shape = signed_dims(dims);
    assert(zeroed_or_kept(a[i], ids.contains(i), b[i]));
    lemma_product_positive(dims);
    assert(sizes_of(shape) =~= dims) by {
        assert forall|k: int| 0 <= k < dims.len() implies #[trigger] sizes_of(shape)[k]
            == dims[k] by {
            assert(dims[k] <= i64::MAX);
        }
    }
    assert forall|k: int| 0 <= k < shape.len() implies 0 < #[trigger] shape[k] <= usize::MAX by {
        assert(dims[k] > 0);
        assert(dims[k] <= i64::MAX);
    }
    law_shape_accepted(shape);
    if ids.contains(i) {
        let t = b[i].grad->0;
        assert(is_zero(t.data()[p]));
    }
}

} // verus!
