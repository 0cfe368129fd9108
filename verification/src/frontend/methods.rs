//! Comparisons, reductions, named ops and element access behind a scripting
//! frontend.

use vstd::prelude::*;
use vstd::string::*;
use crate::autograd::gradcheck::leaf_added;
use crate::autograd::graph::{Graph, Var, VjpRule};
use crate::autograd::ops::{
    abs_outcome, exp_outcome, log_outcome, neg_outcome, reduce_outcome, relu_outcome,
    reshape_outcome, sigmoid_outcome, sqrt_outcome, tanh_outcome, unchanged,
};
use crate::elem::{Elem, is_zero};
use crate::error::{OxitorchError, OxitorchResult};
use crate::frontend::{detached, detached_outcome};
use crate::ops::{ReduceKind, empty_reduction_error};
use crate::tensor::Tensor;
use crate::text::{join3, nat_text, same_text, usize_string};

verus! {

/// What a comparison gives and leaves behind: a detached tensor of zeros and
/// ones.
pub open spec fn comparison_outcome_of<E: Elem, V>(
    before: Graph<E, V>,
    x: Var,
    name: &str,
    other: Var,
    r: OxitorchResult<Var>,
    after: Graph<E, V>,
) -> bool {
    exists|q: OxitorchResult<Tensor<E>>| #[trigger]
        call_ensures(
            Tensor::<E>::cmp_op,
            (&before.node(x).value, name, &before.node(other).value),
            q,
        ) && detached_outcome(before, q, r, after)
}

/// Compares two tensors with the comparison called `name`.
pub fn compare<E: Elem, V>(g: &mut Graph<E, V>, x: Var, name: &str, other: Var) -> (r:
    OxitorchResult<Var>)
    requires
        old(g).wf(),
        old(g).has(x),
        old(g).has(other),
    ensures
        final(g).wf(),
        comparison_outcome_of(*old(g), x, name, other, r, *final(g)),
{
    let q = x.value(g).cmp_op(name, other.value(g));
    detached(g, q)
}

// ---- reductions ---------------------------------------------------------------------

/// Reducing dim `d` after the outcome `q` gives `r` and leads from `before`
/// to `after`.
pub open spec fn next_reduced<E: Elem, V: VjpRule<E>>(
    before: Graph<E, V>,
    q: OxitorchResult<Var>,
    kind: ReduceKind,
    d: i64,
    r: OxitorchResult<Var>,
    after: Graph<E, V>,
) -> bool {
    match q {
        Ok(u) => reduce_outcome(before, u, kind, d, true, r, after),
        Err(_) => r == q && unchanged(before, after),
    }
}

/// Reducing the first `k` dims of `x` in turn, each kept with length one,
/// gives `r` and leads from `before` to `after`.
pub open spec fn dims_reduced<E: Elem, V: VjpRule<E>>(
    before: Graph<E, V>,
    x: Var,
    kind: ReduceKind,
    k: int,
    r: OxitorchResult<Var>,
    after: Graph<E, V>,
) -> bool
    decreases k,
{
    if k <= 0 {
        r == Ok::<Var, OxitorchError>(x) && unchanged(before, after)
    } else {
        exists|q: OxitorchResult<Var>, mid: Graph<E, V>|
            dims_reduced(before, x, kind, k - 1, q, mid) && #[trigger] next_reduced(
                mid,
                q,
                kind,
                (k - 1) as i64,
                r,
                after,
            )
    }
}

/// Whether a full reduction of `x` stays connected to the graph.
pub open spec fn stays_connected<E, V>(g: Graph<E, V>, x: Var, kind: ReduceKind) -> bool {
    g.node(x).requires_grad && (kind == ReduceKind::Sum || kind == ReduceKind::Mean)
}

/// What a full reduction to a scalar gives and leaves behind.
pub open spec fn reduce_all_outcome<E: Elem, V: VjpRule<E>>(
    before: Graph<E, V>,
    x: Var,
    kind: ReduceKind,
    r: OxitorchResult<Var>,
    after: Graph<E, V>,
) -> bool {
    let t = before.node(x).value;
    if stays_connected(before, x, kind) {
        if t.dims().len() == 0 {
            r == Ok::<Var, OxitorchError>(x) && unchanged(before, after)
        } else {
            exists|q: OxitorchResult<Var>, mid: Graph<E, V>| #[trigger]
                dims_reduced(before, x, kind, t.dims().len() as int, q, mid) && match q {
                    Ok(u) => reshape_outcome(mid, u, Seq::<i64>::empty(), r, after),
                    Err(_) => r == q && unchanged(mid, after),
                }
        }
    } else {
        value_reduced(before, x, kind, r, after)
    }
}

/// Reducing all elements of the value of `x` to a detached scalar gives `r`
/// and leads from `before` to `after`.
pub open spec fn value_reduced<E: Elem, V>(
    before: Graph<E, V>,
    x: Var,
    kind: ReduceKind,
    r: OxitorchResult<Var>,
    after: Graph<E, V>,
) -> bool {
    let t = before.node(x).value;
    match r {
        Ok(v) => exists|out: Tensor<E>|
            out.dims() == Seq::<usize>::empty() && kind.gives(t.data(), out.data()[0])
                && #[trigger] leaf_added(before, out, false, v, after),
        Err(e) => t.count() == 0 && !kind.has_empty_value() && e@ == empty_reduction_error()
            && unchanged(before, after),
    }
}

/// Reduces all elements of a tensor's value to a detached scalar.
fn reduce_value<E: Elem, V>(g: &mut Graph<E, V>, x: Var, kind: ReduceKind) -> (r: OxitorchResult<
    Var,
>)
    requires
        old(g).wf(),
        old(g).has(x),
    ensures
        final(g).wf(),
        value_reduced(*old(g), x, kind, r, *final(g)),
{
    let flat = x.value(g).to_vec();
    let value = match kind.reduce_strip(flat.as_slice()) {
        Ok(y) => y,
        Err(e) => {
            return Err(e);
        },
    };
    let dims: Vec<usize> = Vec::new();
    assert(dims@ =~= Seq::<usize>::empty());
    let out = Tensor::filled(dims.as_slice(), value);
    let ghost held = out;
    assert(held.count() == 1);
    let v = Var::leaf(g, out, false);
    assert(held.data()[0] == value);
    let r: OxitorchResult<Var> = Ok(v);
    proof {
        let t = old(g).node(x).value;
        assert(leaf_added(*old(g), held, false, r->Ok_0, *g));
        assert(kind.gives(t.data(), held.data()[0]));
        assert(held.dims() == Seq::<usize>::empty());
        assert(value_reduced(*old(g), x, kind, r, *g));
    }
    r
}

/// Full reduction to a scalar tensor (torch's `t.sum()` without a `dim`).
/// Differentiable for sum and mean by reducing each dim in turn (keepdim, so
/// each dim index stays valid across the loop).
pub fn reduce_all<E: Elem, V: VjpRule<E>>(g: &mut Graph<E, V>, x: Var, kind: ReduceKind) -> (r:
    OxitorchResult<Var>)
    requires
        old(g).wf(),
        old(g).has(x),
    ensures
        final(g).wf(),
        reduce_all_outcome(*old(g), x, kind, r, *final(g)),
{
    let ghost before = *g;
    let differentiable = matches!(kind, ReduceKind::Sum) || matches!(kind, ReduceKind::Mean);
    if x.requires_grad(g) && differentiable {
        let ndim: usize = x.value(g).ndim();
        if ndim == 0 {
            return Ok(x);
        }
        let mut v = x;
        let mut d: usize = 0;
        while d < ndim
            invariant
                before == *old(g),
                ndim == before.node(x).value.dims().len(),
                ndim > 0,
                stays_connected(before, x, kind),
                g.wf(),
                g.has(v),
                dims_reduced(before, x, kind, d as int, Ok(v), *g),
                0 <= d <= ndim,
            decreases ndim - d,
        {
            let ghost mid = *g;
            let ghost so_far: OxitorchResult<Var> = Ok(v);
            let q = crate::autograd::ops::reduce(g, v, kind, d as i64, true);
            proof {
                assert(next_reduced(mid, so_far, kind, (d + 1 - 1) as i64, q, *g));
                assert(dims_reduced(before, x, kind, d + 1, q, *g));
            }
            match q {
                Ok(u) => {
                    v = u;
                },
                Err(e) => {
                    proof {
                        lemma_failure_stays(before, x, kind, d + 1, ndim as int, q, *g);
                        assert(dims_reduced(before, x, kind, ndim as int, q, *g));
                    }
                    return Err(e);
                },
            }
            d = d + 1;
        }
        let ghost mid = *g;
        assert(dims_reduced(before, x, kind, ndim as int, Ok(v), mid));
        let scalar: Vec<i64> = Vec::new();
        assert(scalar@ =~= Seq::<i64>::empty());
        return crate::autograd::ops::reshape(g, v, scalar.as_slice());
    }
    reduce_value(g, x, kind)
}

proof fn lemma_failure_stays<E: Elem, V: VjpRule<E>>(
    before: Graph<E, V>,
    x: Var,
    kind: ReduceKind,
    k: int,
    n: int,
    r: OxitorchResult<Var>,
    after: Graph<E, V>,
)
    requires
        0 < k <= n,
        dims_reduced(before, x, kind, k, r, after),
        r is Err,
    ensures
        dims_reduced(before, x, kind, n, r, after),
    decreases n - k,
{
    if k < n {
        assert(next_reduced(after, r, kind, (k + 1 - 1) as i64, r, after));
        assert(dims_reduced(before, x, kind, k + 1, r, after));
        lemma_failure_stays(before, x, kind, k + 1, n, r, after);
    }
}

/// What a reduction along `dim`, or of the whole tensor, gives and leaves
/// behind.
pub open spec fn reduction_outcome<E: Elem, V: VjpRule<E>>(
    before: Graph<E, V>,
    x: Var,
    kind: ReduceKind,
    dim: Option<i64>,
    keepdim: bool,
    r: OxitorchResult<Var>,
    after: Graph<E, V>,
) -> bool {
    match dim {
        Some(d) => reduce_outcome(before, x, kind, d, keepdim, r, after),
        None => reduce_all_outcome(before, x, kind, r, after),
    }
}

/// Reduces along `dim`, or the whole tensor.
pub fn reduction<E: Elem, V: VjpRule<E>>(
    g: &mut Graph<E, V>,
    x: Var,
    kind: ReduceKind,
    dim: Option<i64>,
    keepdim: bool,
) -> (r: OxitorchResult<Var>)
    requires
        old(g).wf(),
        old(g).has(x),
    ensures
        final(g).wf(),
        reduction_outcome(*old(g), x, kind, dim, keepdim, r, *final(g)),
{
    match dim {
        Some(d) => crate::autograd::ops::reduce(g, x, kind, d, keepdim),
        None => reduce_all(g, x, kind),
    }
}

/// Winner positions along `dim`, detached: `kind` is argmax or argmin.
pub fn winner_positions<E: Elem, V>(
    g: &mut Graph<E, V>,
    x: Var,
    kind: ReduceKind,
    dim: i64,
    keepdim: bool,
) -> (r: OxitorchResult<Var>)
    requires
        old(g).wf(),
        old(g).has(x),
    ensures
        final(g).wf(),
        exists|q: OxitorchResult<Tensor<E>>| #[trigger]
            call_ensures(
                Tensor::<E>::reduce,
                (&old(g).node(x).value, kind, dim, keepdim),
                q,
            ) && detached_outcome(*old(g), q, r, *final(g)),
{
    let q = x.value(g).reduce(kind, dim, keepdim);
    detached(g, q)
}

// ---- named unary ops ----------------------------------------------------------------

/// What a named unary op on a tensor's value gives and leaves behind.
pub open spec fn named_outcome<E: Elem, V>(
    before: Graph<E, V>,
    x: Var,
    name: &str,
    r: OxitorchResult<Var>,
    after: Graph<E, V>,
) -> bool {
    exists|q: OxitorchResult<Tensor<E>>| #[trigger]
        call_ensures(Tensor::<E>::unary_op, (&before.node(x).value, name), q) && detached_outcome(
            before,
            q,
            r,
            after,
        )
}

/// What a named unary op gives and leaves behind: connected to the graph for
/// the ops with a derivative, detached for the others.
pub open spec fn apply_outcome<E: Elem, V: VjpRule<E>>(
    before: Graph<E, V>,
    x: Var,
    name: &str,
    r: OxitorchResult<Var>,
    after: Graph<E, V>,
) -> bool {
    if !before.node(x).requires_grad {
        named_outcome(before, x, name, r, after)
    } else if name@ == "relu"@ {
        relu_outcome(before, x, r, after)
    } else if name@ == "sigmoid"@ {
        sigmoid_outcome(before, x, r, after)
    } else if name@ == "tanh"@ {
        tanh_outcome(before, x, r, after)
    } else if name@ == "exp"@ {
        exp_outcome(before, x, r, after)
    } else if name@ == "log"@ {
        log_outcome(before, x, r, after)
    } else if name@ == "sqrt"@ {
        sqrt_outcome(before, x, r, after)
    } else if name@ == "neg"@ {
        neg_outcome(before, x, r, after)
    } else if name@ == "abs"@ {
        abs_outcome(before, x, r, after)
    } else {
        named_outcome(before, x, name, r, after)
    }
}

/// Applies a named unary op (`t.apply("relu")`). Connected to the graph for
/// the ops with a derivative; the others give an honest detached leaf rather
/// than one that requires a gradient and never gets it.
pub fn apply<E: Elem, V: VjpRule<E>>(g: &mut Graph<E, V>, x: Var, name: &str) -> (r: OxitorchResult<
    Var,
>)
    requires
        old(g).wf(),
        old(g).has(x),
    ensures
        final(g).wf(),
        apply_outcome(*old(g), x, name, r, *final(g)),
{
    if !x.requires_grad(g) {
        apply_detached(g, x, name)
    } else if same_text(name, "relu") {
        crate::autograd::ops::relu(g, x)
    } else if same_text(name, "sigmoid") {
        crate::autograd::ops::sigmoid(g, x)
    } else if same_text(name, "tanh") {
        crate::autograd::ops::tanh(g, x)
    } else if same_text(name, "exp") {
        crate::autograd::ops::exp(g, x)
    } else if same_text(name, "log") {
        crate::autograd::ops::log(g, x)
    } else if same_text(name, "sqrt") {
        crate::autograd::ops::sqrt(g, x)
    } else if same_text(name, "neg") {
        crate::autograd::ops::neg(g, x)
    } else if same_text(name, "abs") {
        crate::autograd::ops::abs(g, x)
    } else {
        apply_detached(g, x, name)
    }
}

/// Applies a named unary op to a tensor's value.
pub fn apply_detached<E: Elem, V>(g: &mut Graph<E, V>, x: Var, name: &str) -> (r: OxitorchResult<
    Var,
>)
    requires
        old(g).wf(),
        old(g).has(x),
    ensures
        final(g).wf(),
        named_outcome(*old(g), x, name, r, *final(g)),
{
    let q = x.value(g).unary_op(name);
    detached(g, q)
}

// ---- element access -----------------------------------------------------------------

/// The length of the first dim (`len(t)`).
///
/// Fails for 0-d tensors.
pub fn length<E>(t: &Tensor<E>) -> (r: Result<usize, String>)
    ensures
        match r {
            Ok(n) => t.dims().len() > 0 && n == t.dims()[0],
            Err(m) => t.dims().len() == 0 && m@ == "len() of a 0-d tensor"@,
        },
{
    if t.ndim() == 0 {
        return Err("len() of a 0-d tensor".to_string());
    }
    Ok(t.shape()[0])
}

/// The scalar value of a one-element tensor (`t.item()`).
pub fn item<E: Elem>(t: &Tensor<E>) -> (r: Result<E, String>)
    ensures
        match r {
            Ok(x) => t.count() == 1 && x == t.data()[0],
            Err(m) => t.count() != 1 && m@
                == "only one-element tensors can be converted to scalars (got "@ + nat_text(
                t.count(),
            ) + ")"@,
        },
{
    let flat = t.to_vec();
    if flat.len() != 1 {
        return Err(
            join3(
                "only one-element tensors can be converted to scalars (got ",
                usize_string(flat.len()).as_str(),
                ")",
            ),
        );
    }
    Ok(flat[0])
}

/// The scalar value of a one-element tensor (`float(t)`).
pub fn to_float<E: Elem>(t: &Tensor<E>) -> (r: Result<E, String>)
    ensures
        match r {
            Ok(x) => t.count() == 1 && x == t.data()[0],
            Err(m) => t.count() != 1 && m@
                == "only one-element tensors can be converted to float, got "@ + nat_text(t.count())
                + " elements"@,
        },
{
    let flat = t.to_vec();
    if flat.len() != 1 {
        return Err(
            join3(
                "only one-element tensors can be converted to float, got ",
                usize_string(flat.len()).as_str(),
                " elements",
            ),
        );
    }
    Ok(flat[0])
}

/// Whether momentum settings make sense together.
///
/// Fails for Nesterov momentum without momentum.
pub fn momentum_settings<E: Elem>(momentum: E, nesterov: bool) -> (r: Result<(), String>)
    ensures
        nesterov ==> exists|zero: E, none: bool|
            is_zero(zero) && #[trigger] call_ensures(E::less_equal, (momentum, zero), none) && none
                == (r is Err),
        !nesterov ==> r is Ok,
        r matches Err(m) ==> m@ == "nesterov momentum requires momentum > 0"@,
{
    if !nesterov {
        return Ok(());
    }
    let zero = E::zero();
    assert(is_zero(zero));
    let none = E::less_equal(momentum, zero);
    if none {
        return Err("nesterov momentum requires momentum > 0".to_string());
    }
    Ok(())
}

} // verus!
