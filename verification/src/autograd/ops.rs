//! Differentiable ops: the forward computation plus the rule that turns the
//! output's gradient into the inputs' gradients.
//!
//! Non-differentiable bits (integer indices, winner positions) are captured
//! as constants inside the rules. Gradients flowing into broadcast operands
//! are reduced with [`unbroadcast`], mirroring torch's broadcast backward.

use vstd::prelude::*;
use vstd::string::*;
use crate::autograd::graph::{Graph, Var, VjpRule, recorded};
use crate::autograd::rules::{OpGrad, Sloped, expands_over, reduced_from, scales, sums_to};
use crate::elem::{Elem, is_zero};
use crate::error::{ErrorText, OxitorchError, OxitorchResult};
use crate::index::{
    index_of, inverse, is_permutation, lemma_inverse, lemma_permutation_covers,
    lemma_product_update, lemma_rank1, permuted, product,
};
use crate::layout::{
    broadcast_of, copy_dims, law_broadcast_identity, normalize_dim, resolve_bound, resolve_dim,
    resolved_bound,
};
use crate::ops::{BinaryOp, ComparisonOp, ReduceKind, UnaryOp};
use crate::tensor::{Tensor, broadcast_error};
use crate::tensor::elementwise::{binary_result, comparison_result, unary_result};
use crate::tensor::indexing::{
    flags_nonzero, index_select_error, kept, mask_result_at, picks_slices, resolve_all, resolved,
    scatter_dim0_error, spread_data, spread_places, writes_rows,
};
use crate::tensor::matmul::{
    bmm_error, bmm_result, kernel_error, kernel_misfits, matmul_error, matmul_result,
};
use crate::tensor::reduce::{are_winners, reduce_error, reduce_result};
use crate::tensor::views::{
    expand_error, narrow_error, narrow_len, narrow_result, order_error, out_of_range, permute_error,
    permute_result, reshape_error, reshape_result, resolved_order, transpose_result,
};

verus! {

/// The GEMM kernel behind a matrix product keeps to its lengths on the sizes
/// that the rule hands to it.
pub open spec fn kernel_keeps<E: Elem>(rule: OpGrad<E>) -> bool {
    match rule {
        OpGrad::Matmul { a, b } => {
            &&& !kernel_misfits::<E>(b.dims()[1] as int, b.dims()[0] as int)
            &&& !kernel_misfits::<E>(a.dims()[0] as int, b.dims()[1] as int)
        },
        OpGrad::Bmm { a, b } => {
            &&& !kernel_misfits::<E>(b.dims()[2] as int, b.dims()[1] as int)
            &&& !kernel_misfits::<E>(a.dims()[1] as int, b.dims()[2] as int)
        },
        _ => true,
    }
}

/// The gradient of an output of dims `d` can be summed down to the operands
/// that were broadcast. It can whenever it is not empty.
pub open spec fn sums_fit<E: Elem>(rule: OpGrad<E>, d: Seq<usize>) -> bool {
    match rule {
        OpGrad::Add { a_dims, b_dims } => sums_to(d, a_dims@) && sums_to(d, b_dims@),
        OpGrad::Sub { a_dims, b_dims } => sums_to(d, a_dims@) && sums_to(d, b_dims@),
        OpGrad::Mul { a, b } => sums_to(d, a.dims()) && sums_to(d, b.dims()),
        OpGrad::Div { a, b } => sums_to(d, a.dims()) && sums_to(d, b.dims()),
        OpGrad::Pow { a, b } => sums_to(d, a.dims()) && sums_to(d, b.dims()),
        OpGrad::BroadcastTo { dims } => sums_to(d, dims@),
        _ => true,
    }
}

/// The rule answers every output gradient that has the output's shape.
pub open spec fn answers<E: Elem>(rule: OpGrad<E>, value: Tensor<E>) -> bool {
    kernel_keeps(rule) && sums_fit(rule, value.dims()) ==> forall|g: Tensor<E>|
        g.dims() == value.dims() ==> #[trigger] rule.accepts(g)
}

/// The rule is that of an op on inputs of these shapes.
pub open spec fn fits_inputs<E: Elem, V>(
    rule: OpGrad<E>,
    d: Seq<usize>,
    g: Graph<E, V>,
    inputs: Seq<Var>,
) -> bool {
    &&& rule.input_dims(d).len() == inputs.len()
    &&& forall|k: int|
        0 <= k < inputs.len() ==> rule.input_dims(d)[k] == g.node(#[trigger] inputs[k]).value.dims()
}

/// Recording the built-in op `name` with `value`, `inputs` and `rule` leads
/// from `before` to `after`, with `v` the new node; the rule fits the inputs
/// and answers every gradient of the output's shape.
pub open spec fn op_recorded<E: Elem, V: VjpRule<E>>(
    before: Graph<E, V>,
    after: Graph<E, V>,
    v: Var,
    value: Tensor<E>,
    name: Seq<char>,
    inputs: Seq<Var>,
    rule: OpGrad<E>,
) -> bool {
    &&& answers(rule, value)
    &&& fits_inputs(rule, value.dims(), before, inputs)
    &&& exists|held: V| #[trigger]
        call_ensures(V::from_builtin, (rule,), held) && recorded(
            before,
            after,
            v,
            value,
            name,
            inputs,
            held,
        )
}

/// The inputs of a unary op.
pub open spec fn only(x: Var) -> Seq<Var> {
    seq![x]
}

/// The inputs of a binary op.
pub open spec fn both(a: Var, b: Var) -> Seq<Var> {
    seq![a, b]
}

/// `rule` is that of a sum or difference of operands of dims `a` and `b`.
pub open spec fn rule_joins<E: Elem>(rule: OpGrad<E>, a: Seq<usize>, b: Seq<usize>) -> bool {
    ||| rule matches OpGrad::Add { a_dims, b_dims } && a_dims@ == a && b_dims@ == b
    ||| rule matches OpGrad::Sub { a_dims, b_dims } && a_dims@ == a && b_dims@ == b
}

/// `rule` holds the dims of its input and nothing else.
pub open spec fn rule_keeps_dims<E: Elem>(rule: OpGrad<E>, d: Seq<usize>) -> bool {
    ||| rule matches OpGrad::Neg { dims } && dims@ == d
    ||| rule matches OpGrad::Transpose { dims } && dims@ == d
    ||| rule matches OpGrad::Reshape { dims } && dims@ == d
    ||| rule matches OpGrad::BroadcastTo { dims } && dims@ == d
}

/// `rule` masks the gradient of an input of dims `d`.
pub open spec fn rule_masks<E: Elem>(rule: OpGrad<E>, m: Tensor<E>, d: Seq<usize>) -> bool {
    rule matches OpGrad::Relu { mask, dims } && mask == m && dims@ == d
}

/// `rule` pads the gradient back into dims `d` from row `from` on.
pub open spec fn rule_pads<E: Elem>(rule: OpGrad<E>, d: Seq<usize>, from: int) -> bool {
    rule matches OpGrad::Narrow { dims, start } && dims@ == d && start == from
}

/// `rule` permutes the gradient back into dims `d`.
pub open spec fn rule_undoes<E: Elem>(rule: OpGrad<E>, d: Seq<usize>, perm: Seq<int>) -> bool {
    rule matches OpGrad::Permute { dims, undo } && dims@ == d && resolved_order(undo@) == inverse(
        perm,
    )
}

/// `rule` adds slices back to where they were selected.
pub open spec fn rule_selects<E: Elem>(
    rule: OpGrad<E>,
    d: Seq<usize>,
    along: int,
    selected: Seq<int>,
) -> bool {
    rule matches OpGrad::IndexSelect { dims, dim, picks } && dims@ == d && dim == along && index_of(
        picks@,
    ) == selected
}

/// `rule` is that of rows written over a base.
pub open spec fn rule_scatters<E: Elem>(
    rule: OpGrad<E>,
    b: Seq<usize>,
    w: Seq<usize>,
    written_rows: Seq<int>,
) -> bool {
    rule matches OpGrad::ScatterDim0 { base, values, picks } && base@ == b && values@ == w
        && index_of(picks@) == written_rows
}

/// `rule` adds elements back to where they came from.
pub open spec fn rule_returns<E: Elem>(rule: OpGrad<E>, d: Seq<usize>, from: Seq<int>) -> bool {
    rule matches OpGrad::Elements { dims, places } && dims@ == d && index_of(places@) == from
}

/// Nothing about the graph changed.
pub open spec fn unchanged<E, V>(before: Graph<E, V>, after: Graph<E, V>) -> bool {
    after.nodes() == before.nodes() && after.recording() == before.recording()
}

/// Records a built-in op.
fn record<E: Elem, V: VjpRule<E>>(
    g: &mut Graph<E, V>,
    value: Tensor<E>,
    name: &'static str,
    inputs: &[Var],
    rule: OpGrad<E>,
) -> (r: Var)
    requires
        old(g).wf(),
        forall|k: int| 0 <= k < inputs.len() ==> old(g).has(#[trigger] inputs@[k]),
        answers(rule, value),
        fits_inputs(rule, value.dims(), *old(g), inputs@),
    ensures
        op_recorded(*old(g), *final(g), r, value, name@, inputs@, rule),
{
    let ghost given = rule;
    let held = V::from_builtin(rule);
    assert(call_ensures(V::from_builtin, (given,), held));
    Var::op(g, value, name, inputs, held)
}

/// Records a built-in op of one input.
fn record_unary<E: Elem, V: VjpRule<E>>(
    g: &mut Graph<E, V>,
    value: Tensor<E>,
    name: &'static str,
    x: Var,
    rule: OpGrad<E>,
) -> (r: Var)
    requires
        old(g).wf(),
        old(g).has(x),
        answers(rule, value),
        fits_inputs(rule, value.dims(), *old(g), only(x)),
    ensures
        op_recorded(*old(g), *final(g), r, value, name@, only(x), rule),
{
    let inputs: Vec<Var> = vec![x];
    assert(inputs@ =~= only(x));
    record(g, value, name, inputs.as_slice(), rule)
}

/// Records a built-in op of two inputs.
fn record_binary<E: Elem, V: VjpRule<E>>(
    g: &mut Graph<E, V>,
    value: Tensor<E>,
    name: &'static str,
    a: Var,
    b: Var,
    rule: OpGrad<E>,
) -> (r: Var)
    requires
        old(g).wf(),
        old(g).has(a),
        old(g).has(b),
        answers(rule, value),
        fits_inputs(rule, value.dims(), *old(g), both(a, b)),
    ensures
        op_recorded(*old(g), *final(g), r, value, name@, both(a, b), rule),
{
    let inputs: Vec<Var> = vec![a, b];
    assert(inputs@ =~= both(a, b));
    record(g, value, name, inputs.as_slice(), rule)
}

// ---- elementwise binary (all differentiable both ways) ----------------------------

/// What [`add`] gives and leaves behind.
pub open spec fn add_outcome<E: Elem, V: VjpRule<E>>(
    before: Graph<E, V>,
    a: Var,
    b: Var,
    r: OxitorchResult<Var>,
    after: Graph<E, V>,
) -> bool {
    let x = before.node(a).value;
    let y = before.node(b).value;
    match r {
        Ok(v) => broadcast_error(x.dims(), y.dims()) is None && exists|
            out: Tensor<E>,
            rule: OpGrad<E>,
        | #[trigger]
            binary_result(BinaryOp::Add, x, y, out) && op_recorded(
                before,
                after,
                v,
                out,
                "add"@,
                both(a, b),
                rule,
            ) && #[trigger] rule_joins(rule, x.dims(), y.dims()) && rule is Add,
        Err(e) => broadcast_error(x.dims(), y.dims()) == Some(e@) && unchanged(
            before,
            after,
        ),
    }
}

/// `a + b` (broadcast).
///
/// Fails as [`Tensor::add`] does.
pub fn add<E: Elem, V: VjpRule<E>>(g: &mut Graph<E, V>, a: Var, b: Var) -> (r: OxitorchResult<Var>)
    requires
        old(g).wf(),
        old(g).has(a),
        old(g).has(b),
    ensures
        final(g).wf(),
        add_outcome(*old(g), a, b, r, *final(g)),
{
    let out = match a.value(g).add(b.value(g)) {
        Ok(t) => t,
        Err(e) => {
            return Err(e);
        },
    };
    let rule = OpGrad::Add {
        a_dims: copy_dims(a.value(g).shape()),
        b_dims: copy_dims(b.value(g).shape()),
    };
    assert(rule_joins(rule, old(g).node(a).value.dims(), old(g).node(b).value.dims()));
    Ok(record_binary(g, out, "add", a, b, rule))
}

/// What [`sub`] gives and leaves behind.
pub open spec fn sub_outcome<E: Elem, V: VjpRule<E>>(
    before: Graph<E, V>,
    a: Var,
    b: Var,
    r: OxitorchResult<Var>,
    after: Graph<E, V>,
) -> bool {
    let x = before.node(a).value;
    let y = before.node(b).value;
    match r {
        Ok(v) => broadcast_error(x.dims(), y.dims()) is None && exists|
            out: Tensor<E>,
            rule: OpGrad<E>,
        | #[trigger]
            binary_result(BinaryOp::Sub, x, y, out) && op_recorded(
                before,
                after,
                v,
                out,
                "sub"@,
                both(a, b),
                rule,
            ) && #[trigger] rule_joins(rule, x.dims(), y.dims()) && rule is Sub,
        Err(e) => broadcast_error(x.dims(), y.dims()) == Some(e@) && unchanged(
            before,
            after,
        ),
    }
}

/// `a - b` (broadcast).
///
/// Fails as [`Tensor::sub`] does.
pub fn sub<E: Elem, V: VjpRule<E>>(g: &mut Graph<E, V>, a: Var, b: Var) -> (r: OxitorchResult<Var>)
    requires
        old(g).wf(),
        old(g).has(a),
        old(g).has(b),
    ensures
        final(g).wf(),
        sub_outcome(*old(g), a, b, r, *final(g)),
{
    let out = match a.value(g).sub(b.value(g)) {
        Ok(t) => t,
        Err(e) => {
            return Err(e);
        },
    };
    let rule = OpGrad::Sub {
        a_dims: copy_dims(a.value(g).shape()),
        b_dims: copy_dims(b.value(g).shape()),
    };
    assert(rule_joins(rule, old(g).node(a).value.dims(), old(g).node(b).value.dims()));
    Ok(record_binary(g, out, "sub", a, b, rule))
}

/// What [`mul`] gives and leaves behind.
pub open spec fn mul_outcome<E: Elem, V: VjpRule<E>>(
    before: Graph<E, V>,
    a: Var,
    b: Var,
    r: OxitorchResult<Var>,
    after: Graph<E, V>,
) -> bool {
    let x = before.node(a).value;
    let y = before.node(b).value;
    match r {
        Ok(v) => broadcast_error(x.dims(), y.dims()) is None && exists|out: Tensor<E>| #[trigger]
            binary_result(BinaryOp::Mul, x, y, out) && op_recorded(
                before,
                after,
                v,
                out,
                "mul"@,
                both(a, b),
                OpGrad::Mul { a: x, b: y },
            ),
        Err(e) => broadcast_error(x.dims(), y.dims()) == Some(e@) && unchanged(
            before,
            after,
        ),
    }
}

/// `a * b` (broadcast).
///
/// Fails as [`Tensor::mul`] does.
pub fn mul<E: Elem, V: VjpRule<E>>(g: &mut Graph<E, V>, a: Var, b: Var) -> (r: OxitorchResult<Var>)
    requires
        old(g).wf(),
        old(g).has(a),
        old(g).has(b),
    ensures
        final(g).wf(),
        mul_outcome(*old(g), a, b, r, *final(g)),
{
    let out = match a.value(g).mul(b.value(g)) {
        Ok(t) => t,
        Err(e) => {
            return Err(e);
        },
    };
    let rule = OpGrad::Mul { a: a.detach(g), b: b.detach(g) };
    Ok(record_binary(g, out, "mul", a, b, rule))
}

/// What [`div`] gives and leaves behind.
pub open spec fn div_outcome<E: Elem, V: VjpRule<E>>(
    before: Graph<E, V>,
    a: Var,
    b: Var,
    r: OxitorchResult<Var>,
    after: Graph<E, V>,
) -> bool {
    let x = before.node(a).value;
    let y = before.node(b).value;
    match r {
        Ok(v) => broadcast_error(x.dims(), y.dims()) is None && exists|out: Tensor<E>| #[trigger]
            binary_result(BinaryOp::Div, x, y, out) && op_recorded(
                before,
                after,
                v,
                out,
                "div"@,
                both(a, b),
                OpGrad::Div { a: x, b: y },
            ),
        Err(e) => broadcast_error(x.dims(), y.dims()) == Some(e@) && unchanged(
            before,
            after,
        ),
    }
}

/// `a / b` (broadcast).
///
/// Fails as [`Tensor::div`] does.
pub fn div<E: Elem, V: VjpRule<E>>(g: &mut Graph<E, V>, a: Var, b: Var) -> (r: OxitorchResult<Var>)
    requires
        old(g).wf(),
        old(g).has(a),
        old(g).has(b),
    ensures
        final(g).wf(),
        div_outcome(*old(g), a, b, r, *final(g)),
{
    let out = match a.value(g).div(b.value(g)) {
        Ok(t) => t,
        Err(e) => {
            return Err(e);
        },
    };
    let rule = OpGrad::Div { a: a.detach(g), b: b.detach(g) };
    Ok(record_binary(g, out, "div", a, b, rule))
}

/// What [`pow`] gives and leaves behind.
pub open spec fn pow_outcome<E: Elem, V: VjpRule<E>>(
    before: Graph<E, V>,
    a: Var,
    b: Var,
    r: OxitorchResult<Var>,
    after: Graph<E, V>,
) -> bool {
    let x = before.node(a).value;
    let y = before.node(b).value;
    match r {
        Ok(v) => broadcast_error(x.dims(), y.dims()) is None && exists|out: Tensor<E>| #[trigger]
            binary_result(BinaryOp::Pow, x, y, out) && op_recorded(
                before,
                after,
                v,
                out,
                "pow"@,
                both(a, b),
                OpGrad::Pow { a: x, b: y },
            ),
        Err(e) => broadcast_error(x.dims(), y.dims()) == Some(e@) && unchanged(
            before,
            after,
        ),
    }
}

/// `a^b` (broadcast).
///
/// Fails as [`Tensor::pow`] does.
pub fn pow<E: Elem, V: VjpRule<E>>(g: &mut Graph<E, V>, a: Var, b: Var) -> (r: OxitorchResult<Var>)
    requires
        old(g).wf(),
        old(g).has(a),
        old(g).has(b),
    ensures
        final(g).wf(),
        pow_outcome(*old(g), a, b, r, *final(g)),
{
    let out = match a.value(g).pow(b.value(g)) {
        Ok(t) => t,
        Err(e) => {
            return Err(e);
        },
    };
    let rule = OpGrad::Pow { a: a.detach(g), b: b.detach(g) };
    Ok(record_binary(g, out, "pow", a, b, rule))
}

/// What [`mul_scalar`] gives and leaves behind.
pub open spec fn mul_scalar_outcome<E: Elem, V: VjpRule<E>>(
    before: Graph<E, V>,
    a: Var,
    c: E,
    r: OxitorchResult<Var>,
    after: Graph<E, V>,
) -> bool {
    match r {
        Ok(v) => exists|out: Tensor<E>| #[trigger]
            scales(before.node(a).value, c, out) && op_recorded(
                before,
                after,
                v,
                out,
                "mul_scalar"@,
                only(a),
                OpGrad::MulScalar { c },
            ),
        Err(_) => false,
    }
}

/// `a * scalar` (exact, no broadcast error paths).
pub fn mul_scalar<E: Elem, V: VjpRule<E>>(g: &mut Graph<E, V>, a: Var, c: E) -> (r: OxitorchResult<
    Var,
>)
    requires
        old(g).wf(),
        old(g).has(a),
    ensures
        final(g).wf(),
        mul_scalar_outcome(*old(g), a, c, r, *final(g)),
{
    let out = match a.value(g).mul_scalar(c) {
        Ok(t) => t,
        Err(e) => {
            return Err(e);
        },
    };
    assert(scales(old(g).node(a).value, c, out));
    Ok(record_unary(g, out, "mul_scalar", a, OpGrad::MulScalar { c }))
}

// ---- unary (differentiable via known derivatives) ----------------------------------

/// What [`neg`] gives and leaves behind.
pub open spec fn neg_outcome<E: Elem, V: VjpRule<E>>(
    before: Graph<E, V>,
    x: Var,
    r: OxitorchResult<Var>,
    after: Graph<E, V>,
) -> bool {
    match r {
        Ok(v) => exists|out: Tensor<E>, rule: OpGrad<E>| #[trigger]
            unary_result(UnaryOp::Neg, before.node(x).value, out) && op_recorded(
                before,
                after,
                v,
                out,
                "neg"@,
                only(x),
                rule,
            ) && #[trigger] rule_keeps_dims(rule, out.dims()) && rule is Neg,
        Err(_) => false,
    }
}

/// `-x`.
pub fn neg<E: Elem, V: VjpRule<E>>(g: &mut Graph<E, V>, x: Var) -> (r: OxitorchResult<Var>)
    requires
        old(g).wf(),
        old(g).has(x),
    ensures
        final(g).wf(),
        neg_outcome(*old(g), x, r, *final(g)),
{
    let out = x.value(g).unary(UnaryOp::Neg);
    let rule = OpGrad::Neg { dims: copy_dims(out.shape()) };
    assert(rule_keeps_dims(rule, out.dims()));
    Ok(record_unary(g, out, "neg", x, rule))
}

/// What [`abs`] gives and leaves behind.
pub open spec fn abs_outcome<E: Elem, V: VjpRule<E>>(
    before: Graph<E, V>,
    x: Var,
    r: OxitorchResult<Var>,
    after: Graph<E, V>,
) -> bool {
    match r {
        Ok(v) => exists|out: Tensor<E>| #[trigger]
            unary_result(UnaryOp::Abs, before.node(x).value, out) && op_recorded(
                before,
                after,
                v,
                out,
                "abs"@,
                only(x),
                OpGrad::Slope { kind: Sloped::Abs, x: before.node(x).value },
            ),
        Err(_) => false,
    }
}

/// Elementwise `|x|` (grad `sign(x)`).
pub fn abs<E: Elem, V: VjpRule<E>>(g: &mut Graph<E, V>, x: Var) -> (r: OxitorchResult<Var>)
    requires
        old(g).wf(),
        old(g).has(x),
    ensures
        final(g).wf(),
        abs_outcome(*old(g), x, r, *final(g)),
{
    let out = x.value(g).unary(UnaryOp::Abs);
    let rule = OpGrad::Slope { kind: Sloped::Abs, x: x.detach(g) };
    Ok(record_unary(g, out, "abs", x, rule))
}

/// What [`exp`] gives and leaves behind.
pub open spec fn exp_outcome<E: Elem, V: VjpRule<E>>(
    before: Graph<E, V>,
    x: Var,
    r: OxitorchResult<Var>,
    after: Graph<E, V>,
) -> bool {
    match r {
        Ok(v) => exists|out: Tensor<E>| #[trigger]
            unary_result(UnaryOp::Exp, before.node(x).value, out) && op_recorded(
                before,
                after,
                v,
                out,
                "exp"@,
                only(x),
                OpGrad::Slope { kind: Sloped::Exp, x: before.node(x).value },
            ),
        Err(_) => false,
    }
}

/// Elementwise `exp(x)`.
pub fn exp<E: Elem, V: VjpRule<E>>(g: &mut Graph<E, V>, x: Var) -> (r: OxitorchResult<Var>)
    requires
        old(g).wf(),
        old(g).has(x),
    ensures
        final(g).wf(),
        exp_outcome(*old(g), x, r, *final(g)),
{
    let out = x.value(g).unary(UnaryOp::Exp);
    let rule = OpGrad::Slope { kind: Sloped::Exp, x: x.detach(g) };
    Ok(record_unary(g, out, "exp", x, rule))
}

/// What [`log`] gives and leaves behind.
pub open spec fn log_outcome<E: Elem, V: VjpRule<E>>(
    before: Graph<E, V>,
    x: Var,
    r: OxitorchResult<Var>,
    after: Graph<E, V>,
) -> bool {
    match r {
        Ok(v) => exists|out: Tensor<E>| #[trigger]
            unary_result(UnaryOp::Log, before.node(x).value, out) && op_recorded(
                before,
                after,
                v,
                out,
                "log"@,
                only(x),
                OpGrad::Slope { kind: Sloped::Log, x: before.node(x).value },
            ),
        Err(_) => false,
    }
}

/// Elementwise `log(x)` (grad `1/x`).
pub fn log<E: Elem, V: VjpRule<E>>(g: &mut Graph<E, V>, x: Var) -> (r: OxitorchResult<Var>)
    requires
        old(g).wf(),
        old(g).has(x),
    ensures
        final(g).wf(),
        log_outcome(*old(g), x, r, *final(g)),
{
    let out = x.value(g).unary(UnaryOp::Log);
    let rule = OpGrad::Slope { kind: Sloped::Log, x: x.detach(g) };
    Ok(record_unary(g, out, "log", x, rule))
}

/// What [`sqrt`] gives and leaves behind.
pub open spec fn sqrt_outcome<E: Elem, V: VjpRule<E>>(
    before: Graph<E, V>,
    x: Var,
    r: OxitorchResult<Var>,
    after: Graph<E, V>,
) -> bool {
    match r {
        Ok(v) => exists|out: Tensor<E>| #[trigger]
            unary_result(UnaryOp::Sqrt, before.node(x).value, out) && op_recorded(
                before,
                after,
                v,
                out,
                "sqrt"@,
                only(x),
                OpGrad::Slope { kind: Sloped::Sqrt, x: before.node(x).value },
            ),
        Err(_) => false,
    }
}

/// Elementwise `sqrt(x)` (grad `1/(2 sqrt x)`).
pub fn sqrt<E: Elem, V: VjpRule<E>>(g: &mut Graph<E, V>, x: Var) -> (r: OxitorchResult<Var>)
    requires
        old(g).wf(),
        old(g).has(x),
    ensures
        final(g).wf(),
        sqrt_outcome(*old(g), x, r, *final(g)),
{
    let out = x.value(g).unary(UnaryOp::Sqrt);
    let rule = OpGrad::Slope { kind: Sloped::Sqrt, x: x.detach(g) };
    Ok(record_unary(g, out, "sqrt", x, rule))
}

/// What [`tanh`] gives and leaves behind.
pub open spec fn tanh_outcome<E: Elem, V: VjpRule<E>>(
    before: Graph<E, V>,
    x: Var,
    r: OxitorchResult<Var>,
    after: Graph<E, V>,
) -> bool {
    match r {
        Ok(v) => exists|out: Tensor<E>| #[trigger]
            unary_result(UnaryOp::Tanh, before.node(x).value, out) && op_recorded(
                before,
                after,
                v,
                out,
                "tanh"@,
                only(x),
                OpGrad::Slope { kind: Sloped::Tanh, x: before.node(x).value },
            ),
        Err(_) => false,
    }
}

/// Elementwise `tanh(x)` (grad `1 - tanh^2`).
pub fn tanh<E: Elem, V: VjpRule<E>>(g: &mut Graph<E, V>, x: Var) -> (r: OxitorchResult<Var>)
    requires
        old(g).wf(),
        old(g).has(x),
    ensures
        final(g).wf(),
        tanh_outcome(*old(g), x, r, *final(g)),
{
    let out = x.value(g).unary(UnaryOp::Tanh);
    let rule = OpGrad::Slope { kind: Sloped::Tanh, x: x.detach(g) };
    Ok(record_unary(g, out, "tanh", x, rule))
}

/// What [`sigmoid`] gives and leaves behind.
pub open spec fn sigmoid_outcome<E: Elem, V: VjpRule<E>>(
    before: Graph<E, V>,
    x: Var,
    r: OxitorchResult<Var>,
    after: Graph<E, V>,
) -> bool {
    match r {
        Ok(v) => exists|out: Tensor<E>| #[trigger]
            unary_result(UnaryOp::Sigmoid, before.node(x).value, out) && op_recorded(
                before,
                after,
                v,
                out,
                "sigmoid"@,
                only(x),
                OpGrad::Slope { kind: Sloped::Sigmoid, x: before.node(x).value },
            ),
        Err(_) => false,
    }
}

/// Elementwise `sigmoid(x)` (grad `s (1 - s)`).
pub fn sigmoid<E: Elem, V: VjpRule<E>>(g: &mut Graph<E, V>, x: Var) -> (r: OxitorchResult<Var>)
    requires
        old(g).wf(),
        old(g).has(x),
    ensures
        final(g).wf(),
        sigmoid_outcome(*old(g), x, r, *final(g)),
{
    let out = x.value(g).unary(UnaryOp::Sigmoid);
    let rule = OpGrad::Slope { kind: Sloped::Sigmoid, x: x.detach(g) };
    Ok(record_unary(g, out, "sigmoid", x, rule))
}

/// What [`relu`] gives and leaves behind.
pub open spec fn relu_outcome<E: Elem, V: VjpRule<E>>(
    before: Graph<E, V>,
    x: Var,
    r: OxitorchResult<Var>,
    after: Graph<E, V>,
) -> bool {
    match r {
        Ok(v) => exists|out: Tensor<E>, zeros: Tensor<E>, mask: Tensor<E>, rule: OpGrad<E>|
            #[trigger]
            unary_result(UnaryOp::Relu, before.node(x).value, out) && #[trigger] all_zeros(
                zeros,
                out.dims(),
            ) && #[trigger] comparison_result(
                ComparisonOp::Gt,
                before.node(x).value,
                zeros,
                mask,
            ) && op_recorded(
                before,
                after,
                v,
                out,
                "relu"@,
                only(x),
                rule,
            ) && #[trigger] rule_masks(rule, mask, out.dims()),
        Err(_) => false,
    }
}

/// ReLU: forward `max(x, 0)`, grad `x > 0`. Subgradient 0 at exactly 0
/// (torch's default).
pub fn relu<E: Elem, V: VjpRule<E>>(g: &mut Graph<E, V>, x: Var) -> (r: OxitorchResult<Var>)
    requires
        old(g).wf(),
        old(g).has(x),
    ensures
        final(g).wf(),
        relu_outcome(*old(g), x, r, *final(g)),
{
    let t = x.detach(g);
    proof {
        use_type_invariant(&t);
        t.lemma_wf();
        law_broadcast_identity(t.dims());
    }
    let out = t.unary(UnaryOp::Relu);
    let zeros = Tensor::filled(t.shape(), E::zero());
    assert(all_zeros(zeros, out.dims()));
    let mask = match t.gt(&zeros) {
        Ok(m) => m,
        Err(e) => {
            return Err(e);
        },
    };
    let rule = OpGrad::Relu { mask: mask.clone(), dims: copy_dims(t.shape()) };
    assert(rule_masks(rule, mask, out.dims()));
    Ok(record_unary(g, out, "relu", x, rule))
}

/// `t` has dims `dims` and holds zeros only.
pub open spec fn all_zeros<E: Elem>(t: Tensor<E>, dims: Seq<usize>) -> bool {
    &&& t.dims() == dims
    &&& forall|p: int| 0 <= p < t.count() ==> is_zero(#[trigger] t.data()[p])
}

// ---- matmul & reductions -------------------------------------------------------------

/// What [`matmul`] gives and leaves behind.
pub open spec fn matmul_outcome<E: Elem, V: VjpRule<E>>(
    before: Graph<E, V>,
    a: Var,
    b: Var,
    r: OxitorchResult<Var>,
    after: Graph<E, V>,
) -> bool {
    let x = before.node(a).value;
    let y = before.node(b).value;
    match r {
        Ok(v) => matmul_error(x.dims(), y.dims()) is None && exists|out: Tensor<E>|
            #[trigger]
            matmul_result(x, y, out) && op_recorded(
                before,
                after,
                v,
                out,
                "matmul"@,
                both(a, b),
                OpGrad::Matmul { a: x, b: y },
            ),
        Err(e) => unchanged(before, after) && (matmul_error(x.dims(), y.dims())
            == Some(e@) || (matmul_error(x.dims(), y.dims()) is None && e@ == kernel_error()
            && kernel_misfits::<E>(x.dims()[1] as int, y.dims()[1] as int))),
    }
}

/// 2-D matrix multiply `(m,k) @ (k,n)`.
///
/// Fails as [`Tensor::matmul`] does.
pub fn matmul<E: Elem, V: VjpRule<E>>(g: &mut Graph<E, V>, a: Var, b: Var) -> (r: OxitorchResult<
    Var,
>)
    requires
        old(g).wf(),
        old(g).has(a),
        old(g).has(b),
    ensures
        final(g).wf(),
        matmul_outcome(*old(g), a, b, r, *final(g)),
{
    let out = match a.value(g).matmul(b.value(g)) {
        Ok(t) => t,
        Err(e) => {
            return Err(e);
        },
    };
    let rule = OpGrad::Matmul { a: a.detach(g), b: b.detach(g) };
    Ok(record_binary(g, out, "matmul", a, b, rule))
}

/// What [`bmm`] gives and leaves behind.
pub open spec fn bmm_outcome<E: Elem, V: VjpRule<E>>(
    before: Graph<E, V>,
    a: Var,
    b: Var,
    r: OxitorchResult<Var>,
    after: Graph<E, V>,
) -> bool {
    let x = before.node(a).value;
    let y = before.node(b).value;
    match r {
        Ok(v) => bmm_error(x.dims(), y.dims()) is None && exists|out: Tensor<E>| #[trigger]
            bmm_result(x, y, out) && op_recorded(
                before,
                after,
                v,
                out,
                "bmm"@,
                both(a, b),
                OpGrad::Bmm { a: x, b: y },
            ),
        Err(e) => unchanged(before, after) && (bmm_error(x.dims(), y.dims()) == Some(
            e@,
        ) || (bmm_error(x.dims(), y.dims()) is None && e@ == kernel_error()
            && kernel_misfits::<E>(x.dims()[2] as int, y.dims()[2] as int))),
    }
}

/// Batched matrix multiply `(b,m,k) @ (b,k,n) -> (b,m,n)`.
///
/// Fails as [`Tensor::bmm`] does.
pub fn bmm<E: Elem, V: VjpRule<E>>(g: &mut Graph<E, V>, a: Var, b: Var) -> (r: OxitorchResult<Var>)
    requires
        old(g).wf(),
        old(g).has(a),
        old(g).has(b),
    ensures
        final(g).wf(),
        bmm_outcome(*old(g), a, b, r, *final(g)),
{
    let out = match a.value(g).bmm(b.value(g)) {
        Ok(t) => t,
        Err(e) => {
            return Err(e);
        },
    };
    let rule = OpGrad::Bmm { a: a.detach(g), b: b.detach(g) };
    Ok(record_binary(g, out, "bmm", a, b, rule))
}

/// The name under which a reduction is recorded.
pub open spec fn reduce_name(kind: ReduceKind) -> Seq<char> {
    match kind {
        ReduceKind::Sum => "sum"@,
        ReduceKind::Mean => "mean"@,
        ReduceKind::Norm => "norm"@,
        _ => "maxmin"@,
    }
}

/// `rule` is the rule of the reduction `kind` of `x` along dimension `d`.
pub open spec fn is_reduce_rule<E: Elem>(
    rule: OpGrad<E>,
    kind: ReduceKind,
    x: Tensor<E>,
    d: int,
) -> bool {
    match kind {
        ReduceKind::Sum => rule matches OpGrad::Sum { dims, dim } && dims@ == x.dims() && dim == d,
        ReduceKind::Mean => rule matches OpGrad::Mean { dims, dim } && dims@ == x.dims() && dim
            == d,
        ReduceKind::Norm => rule matches OpGrad::Norm { x: held, dim } && held == x && dim == d,
        _ => rule matches OpGrad::Winner { dims, dim, places } && dims@ == x.dims() && dim == d
            && are_winners(x, d, kind == ReduceKind::Max, index_of(places@)),
    }
}

/// The complaint about differentiating an index.
pub open spec fn index_output_error() -> ErrorText {
    ErrorText::NotImplemented("argmax/argmin are integer outputs and have no gradient"@)
}

/// Why a differentiable reduction fails, if it does.
pub open spec fn reduce_op_error(
    dims: Seq<usize>,
    kind: ReduceKind,
    dim: int,
    keepdim: bool,
) -> Option<ErrorText> {
    if reduce_error(dims, kind, dim, keepdim) is Some {
        reduce_error(dims, kind, dim, keepdim)
    } else if kind == ReduceKind::ArgMax || kind == ReduceKind::ArgMin {
        Some(index_output_error())
    } else {
        None
    }
}

/// What [`reduce`] gives and leaves behind.
pub open spec fn reduce_outcome<E: Elem, V: VjpRule<E>>(
    before: Graph<E, V>,
    x: Var,
    kind: ReduceKind,
    dim: i64,
    keepdim: bool,
    r: OxitorchResult<Var>,
    after: Graph<E, V>,
) -> bool {
    let t = before.node(x).value;
    let d = resolve_dim(dim as int, t.dims().len() as int);
    match r {
        Ok(v) => reduce_op_error(t.dims(), kind, dim as int, keepdim) is None && exists|
            out: Tensor<E>,
            rule: OpGrad<E>,
        | #[trigger]
            reduce_result(t, kind, d, keepdim, out) && op_recorded(
                before,
                after,
                v,
                out,
                reduce_name(kind),
                only(x),
                rule,
            ) && #[trigger] is_reduce_rule(rule, kind, t, d),
        Err(e) => reduce_op_error(t.dims(), kind, dim as int, keepdim) == Some(e@)
            && unchanged(before, after),
    }
}

/// Reduction along `dim` (`keepdim` in the forward call). Gradients
/// broadcast the reduced result back up; those of max and min go to the
/// winner of each strip, the first of equals.
///
/// Fails as [`Tensor::reduce`] does, and for argmax/argmin.
pub fn reduce<E: Elem, V: VjpRule<E>>(
    g: &mut Graph<E, V>,
    x: Var,
    kind: ReduceKind,
    dim: i64,
    keepdim: bool,
) -> (r: OxitorchResult<Var>)
    requires
        old(g).wf(),
        old(g).has(x),
    ensures
        final(g).wf(),
        reduce_outcome(*old(g), x, kind, dim, keepdim, r, *final(g)),
{
    let t = x.detach(g);
    let out = match t.reduce(kind, dim, keepdim) {
        Ok(o) => o,
        Err(e) => {
            return Err(e);
        },
    };
    let d: usize = match normalize_dim(dim, t.ndim()) {
        Ok(d) => d,
        Err(e) => {
            return Err(e);
        },
    };
    proof {
        use_type_invariant(&t);
        t.lemma_wf();
        assert(reduced_from(out.dims(), t.dims(), d as int));
    }
    match kind {
        ReduceKind::Sum => {
            let rule = OpGrad::Sum { dims: copy_dims(t.shape()), dim: d };
            assert(is_reduce_rule(rule, kind, t, d as int));
            Ok(record_unary(g, out, "sum", x, rule))
        },
        ReduceKind::Mean => {
            let rule = OpGrad::Mean { dims: copy_dims(t.shape()), dim: d };
            assert(is_reduce_rule(rule, kind, t, d as int));
            Ok(record_unary(g, out, "mean", x, rule))
        },
        ReduceKind::Max | ReduceKind::Min => {
            let places = t.winners(d, matches!(kind, ReduceKind::Max));
            let rule = OpGrad::Winner { dims: copy_dims(t.shape()), dim: d, places };
            assert(is_reduce_rule(rule, kind, t, d as int));
            proof {
                lemma_product_update(t.dims(), d as int, 1);
                assert(product(out.dims()) == product(t.dims().remove(d as int)));
                assert(places@.len() == index_of(places@).len());
                assert(answers(rule, out));
            }
            Ok(record_unary(g, out, "maxmin", x, rule))
        },
        ReduceKind::ArgMax | ReduceKind::ArgMin => Err(
            OxitorchError::NotImplemented(
                "argmax/argmin are integer outputs and have no gradient".to_string(),
            ),
        ),
        ReduceKind::Norm => {
            let rule = OpGrad::Norm { x: t.clone(), dim: d };
            assert(is_reduce_rule(rule, kind, t, d as int));
            Ok(record_unary(g, out, "norm", x, rule))
        },
    }
}

// ---- views (linear index maps: grads route straight back) -----------------------------

/// What [`transpose`] gives and leaves behind.
pub open spec fn transpose_outcome<E: Elem, V: VjpRule<E>>(
    before: Graph<E, V>,
    x: Var,
    r: OxitorchResult<Var>,
    after: Graph<E, V>,
) -> bool {
    let t = before.node(x).value;
    match r {
        Ok(v) => exists|out: Tensor<E>, rule: OpGrad<E>| #[trigger]
            transpose_result(t, out) && op_recorded(
                before,
                after,
                v,
                out,
                "transpose"@,
                only(x),
                rule,
            ) && #[trigger] rule_keeps_dims(rule, t.dims()) && rule is Transpose,
        Err(e) => t.dims().len() != 2 && e@ == ErrorText::InvalidArgument(
            "transpose() expects a 2-D tensor; use permute for other ranks"@,
        ) && unchanged(before, after),
    }
}

/// `transpose` (2-D).
///
/// Fails as [`Tensor::transpose`] does.
pub fn transpose<E: Elem, V: VjpRule<E>>(g: &mut Graph<E, V>, x: Var) -> (r: OxitorchResult<Var>)
    requires
        old(g).wf(),
        old(g).has(x),
    ensures
        final(g).wf(),
        transpose_outcome(*old(g), x, r, *final(g)),
{
    let t = x.detach(g);
    let out = match t.transpose() {
        Ok(o) => o,
        Err(e) => {
            return Err(e);
        },
    };
    let rule = OpGrad::Transpose { dims: copy_dims(t.shape()) };
    assert(rule_keeps_dims(rule, t.dims()));
    Ok(record_unary(g, out, "transpose", x, rule))
}

/// What [`reshape`] gives and leaves behind.
pub open spec fn reshape_outcome<E: Elem, V: VjpRule<E>>(
    before: Graph<E, V>,
    x: Var,
    new_shape: Seq<i64>,
    r: OxitorchResult<Var>,
    after: Graph<E, V>,
) -> bool {
    let t = before.node(x).value;
    match r {
        Ok(v) => reshape_error(t.count(), new_shape) is None && exists|
            out: Tensor<E>,
            rule: OpGrad<E>,
        | #[trigger]
            reshape_result(t, new_shape, out) && op_recorded(
                before,
                after,
                v,
                out,
                "reshape"@,
                only(x),
                rule,
            ) && #[trigger] rule_keeps_dims(rule, t.dims()) && rule is Reshape,
        Err(e) => reshape_error(t.count(), new_shape) == Some(e@) && unchanged(
            before,
            after,
        ),
    }
}

/// `reshape` (may copy for non-contiguous inputs; still linear).
///
/// Fails as [`Tensor::reshape`] does.
pub fn reshape<E: Elem, V: VjpRule<E>>(g: &mut Graph<E, V>, x: Var, new_shape: &[i64]) -> (r:
    OxitorchResult<Var>)
    requires
        old(g).wf(),
        old(g).has(x),
    ensures
        final(g).wf(),
        reshape_outcome(*old(g), x, new_shape@, r, *final(g)),
{
    let t = x.detach(g);
    let out = match t.reshape(new_shape) {
        Ok(o) => o,
        Err(e) => {
            return Err(e);
        },
    };
    let rule = OpGrad::Reshape { dims: copy_dims(t.shape()) };
    assert(rule_keeps_dims(rule, t.dims()));
    proof {
        assert(out.data().len() == t.data().len());
    }
    Ok(record_unary(g, out, "reshape", x, rule))
}

/// What [`narrow_dim0`] gives and leaves behind.
pub open spec fn narrow_dim0_outcome<E: Elem, V: VjpRule<E>>(
    before: Graph<E, V>,
    x: Var,
    offset: i64,
    len: i64,
    r: OxitorchResult<Var>,
    after: Graph<E, V>,
) -> bool {
    let t = before.node(x).value;
    let end = narrow_end(offset as int, len as int);
    match r {
        Ok(v) => narrow_error(t.dims().len() as int, 0, 1) is None && exists|
            out: Tensor<E>,
            rule: OpGrad<E>,
        | #[trigger]
            narrow_result(
                t,
                0,
                resolve_bound(t.dims()[0] as int, offset as int),
                1,
                narrow_len(t.dims()[0] as int, offset as int, end, 1),
                out,
            ) && op_recorded(
                before,
                after,
                v,
                out,
                "narrow"@,
                only(x),
                rule,
            ) && #[trigger] rule_pads(
                rule,
                t.dims(),
                resolve_bound(t.dims()[0] as int, offset as int),
            ),
        Err(e) => narrow_error(t.dims().len() as int, 0, 1) == Some(e@) && unchanged(
            before,
            after,
        ),
    }
}

/// `narrow` along dim 0: the `len` rows from `offset` on (step 1).
///
/// Fails as [`Tensor::narrow`] does.
pub fn narrow_dim0<E: Elem, V: VjpRule<E>>(g: &mut Graph<E, V>, x: Var, offset: i64, len: i64) -> (r:
    OxitorchResult<Var>)
    requires
        old(g).wf(),
        old(g).has(x),
    ensures
        final(g).wf(),
        narrow_dim0_outcome(*old(g), x, offset, len, r, *final(g)),
{
    let t = x.detach(g);
    let sum: i128 = offset as i128 + len as i128;
    let end: i64 = if sum > i64::MAX as i128 {
        i64::MAX
    } else if sum < i64::MIN as i128 {
        i64::MIN
    } else {
        sum as i64
    };
    assert(end == narrow_end(offset as int, len as int));
    let out = match t.narrow(0, offset, end, 1) {
        Ok(o) => o,
        Err(e) => {
            return Err(e);
        },
    };
    let rows: usize = t.shape()[0];
    let start: usize = resolved_bound(rows, offset);
    let rule = OpGrad::Narrow { dims: copy_dims(t.shape()), start };
    assert(rule_pads(rule, t.dims(), resolve_bound(t.dims()[0] as int, offset as int)));
    proof {
        use_type_invariant(&t);
        t.lemma_wf();
        lemma_narrow_fits(t.dims(), out.dims(), start as int, end as int);
    }
    Ok(record_unary(g, out, "narrow", x, rule))
}

/// `offset + len`, held within 64 bits.
pub open spec fn narrow_end(offset: int, len: int) -> int {
    if offset + len > i64::MAX {
        i64::MAX as int
    } else if offset + len < i64::MIN {
        i64::MIN as int
    } else {
        offset + len
    }
}

/// The rows of a slice lie inside the whole.
proof fn lemma_narrow_fits(dims: Seq<usize>, out: Seq<usize>, start: int, end: int)
    requires
        dims.len() > 0,
        0 <= start <= dims[0],
        out.len() == dims.len(),
        out == dims.update(0, out[0]),
        out[0] == 0 || start + out[0] <= dims[0],
    ensures
        start * product(dims.skip(1)) + product(out) <= product(dims),
{
    assert(out.skip(1) =~= dims.skip(1));
    let w = product(dims.skip(1)) as int;
    assert(product(out) == out[0] * w);
    assert(product(dims) == dims[0] * w);
    assert(start * w + out[0] * w <= dims[0] * w) by (nonlinear_arith)
        requires
            w >= 0,
            start + out[0] <= dims[0],
            start >= 0,
    ;
}

/// What [`permute`] gives and leaves behind.
pub open spec fn permute_outcome<E: Elem, V: VjpRule<E>>(
    before: Graph<E, V>,
    x: Var,
    order: Seq<i64>,
    r: OxitorchResult<Var>,
    after: Graph<E, V>,
) -> bool {
    let t = before.node(x).value;
    match r {
        Ok(v) => permute_error(t.dims().len() as int, order) is None && exists|
            out: Tensor<E>,
            rule: OpGrad<E>,
        | #[trigger]
            permute_result(t, resolved_order(order), out) && op_recorded(
                before,
                after,
                v,
                out,
                "permute"@,
                only(x),
                rule,
            ) && #[trigger] rule_undoes(rule, t.dims(), resolved_order(order)),
        Err(e) => permute_error(t.dims().len() as int, order) == Some(e@) && unchanged(
            before,
            after,
        ),
    }
}

/// `permute` (a view; the grad permutes back with the inverse order).
///
/// Fails as [`Tensor::permute`] does.
pub fn permute<E: Elem, V: VjpRule<E>>(g: &mut Graph<E, V>, x: Var, order: &[i64]) -> (r:
    OxitorchResult<Var>)
    requires
        old(g).wf(),
        old(g).has(x),
    ensures
        final(g).wf(),
        permute_outcome(*old(g), x, order@, r, *final(g)),
{
    let t = x.detach(g);
    let out = match t.permute(order) {
        Ok(o) => o,
        Err(e) => {
            return Err(e);
        },
    };
    let undo = undo_order(order);
    let ghost perm = resolved_order(order@);
    let rule = OpGrad::Permute { dims: copy_dims(t.shape()), undo };
    assert(rule_undoes(rule, t.dims(), perm));
    proof {
        lemma_inverse(perm);
        lemma_order_ok(undo@, 0);
        let inv = inverse(perm);
        assert(permuted(out.dims(), inv) =~= t.dims()) by {
            assert forall|v: int| 0 <= v < perm.len() implies permuted(out.dims(), inv)[v]
                == #[trigger] t.dims()[v] by {
                assert(perm[inv[v]] == v);
            }
        }
        assert(answers(rule, out));
    }
    Ok(record_unary(g, out, "permute", x, rule))
}

/// An order that resolves to a permutation has nothing to complain about.
proof fn lemma_order_ok(order: Seq<i64>, k: int)
    requires
        is_permutation(resolved_order(order)),
        0 <= k <= order.len(),
    ensures
        order_error(order, k) is None,
    decreases order.len() - k,
{
    if k < order.len() {
        let p = resolved_order(order);
        assert(0 <= p[k] < p.len());
        assert(!(exists|j: int| 0 <= j < k && p[j] == p[k])) by {
            assert forall|j: int| 0 <= j < k implies p[j] != p[k] by {
            }
        }
        lemma_order_ok(order, k + 1);
    }
}

/// The order that undoes a permutation of dimensions.
fn undo_order(order: &[i64]) -> (r: Vec<i64>)
    requires
        is_permutation(resolved_order(order@)),
    ensures
        resolved_order(r@) == inverse(resolved_order(order@)),
{
    let n: usize = order.len();
    let ghost perm = resolved_order(order@);
    let mut undo: Vec<i64> = Vec::with_capacity(n);
    proof {
        lemma_inverse(perm);
    }
    let mut v: usize = 0;
    while v < n
        invariant
            0 <= v <= n,
            n == order.len(),
            perm == resolved_order(order@),
            is_permutation(perm),
            undo.len() == v,
            forall|j: int|
                0 <= j < v ==> resolve_dim(#[trigger] undo@[j] as int, n as int) == inverse(
                    perm,
                )[j],
        decreases n - v,
    {
        let mut i: usize = 0;
        proof {
            lemma_permutation_covers(perm, v as int);
            lemma_inverse(perm);
        }
        while !dim_is(order[i], n, v)
            invariant
                i < n,
                n == order.len(),
                v < n,
                perm == resolved_order(order@),
                is_permutation(perm),
                exists|j: int| 0 <= j < n && perm[j] == v,
                forall|j: int| 0 <= j < i ==> perm[j] != v,
            decreases n - i,
        {
            proof {
                let j = choose|j: int| 0 <= j < n && perm[j] == v;
                assert(perm[i as int] != v);
                assert(i < j);
            }
            i = i + 1;
        }
        proof {
            assert(perm[i as int] == v);
            lemma_inverse(perm);
            assert(inverse(perm)[perm[i as int]] == i);
        }
        undo.push(back_from_end(i, n));
        v = v + 1;
    }
    assert(resolved_order(undo@) =~= inverse(perm));
    undo
}

/// Whether the dimension `d`, counted from either end, is dimension `v`.
fn dim_is(d: i64, n: usize, v: usize) -> (r: bool)
    requires
        v < n,
    ensures
        r == (resolve_dim(d as int, n as int) == v),
{
    match normalize_dim(d, n) {
        Ok(x) => x == v,
        Err(_) => false,
    }
}

/// A dimension that resolves to `i`: `i` itself, or counted from the end
/// where `i` itself is too large to be written down.
fn back_from_end(i: usize, n: usize) -> (r: i64)
    requires
        i < n,
    ensures
        resolve_dim(r as int, n as int) == i,
{
    if i as u64 <= i64::MAX as u64 {
        i as i64
    } else {
        let back: usize = n - i;
        assert(back <= i64::MAX);
        0 - back as i64
    }
}

/// What [`broadcast_to`] gives and leaves behind.
pub open spec fn broadcast_to_outcome<E: Elem, V: VjpRule<E>>(
    before: Graph<E, V>,
    x: Var,
    out_shape: Seq<usize>,
    r: OxitorchResult<Var>,
    after: Graph<E, V>,
) -> bool {
    let t = before.node(x).value;
    match r {
        Ok(v) => expand_error(t.dims(), out_shape) is None && exists|
            out: Tensor<E>,
            rule: OpGrad<E>,
        | #[trigger]
            expands_over(t, out_shape, out) && op_recorded(
                before,
                after,
                v,
                out,
                "broadcast_to"@,
                only(x),
                rule,
            ) && #[trigger] rule_keeps_dims(rule, t.dims()) && rule is BroadcastTo,
        Err(e) => expand_error(t.dims(), out_shape) == Some(e@) && unchanged(
            before,
            after,
        ),
    }
}

/// `broadcast_to` (zero-stride view; the grad sums the broadcast axes back).
///
/// Fails as [`Tensor::broadcast_to`] does.
pub fn broadcast_to<E: Elem, V: VjpRule<E>>(g: &mut Graph<E, V>, x: Var, out_shape: &[usize]) -> (r:
    OxitorchResult<Var>)
    requires
        old(g).wf(),
        old(g).has(x),
    ensures
        final(g).wf(),
        broadcast_to_outcome(*old(g), x, out_shape@, r, *final(g)),
{
    let t = x.detach(g);
    let out = match t.broadcast_to(out_shape) {
        Ok(o) => o,
        Err(e) => {
            return Err(e);
        },
    };
    assert(expands_over(t, out_shape@, out));
    let rule = OpGrad::BroadcastTo { dims: copy_dims(t.shape()) };
    assert(rule_keeps_dims(rule, t.dims()));
    Ok(record_unary(g, out, "broadcast_to", x, rule))
}

// ---- fancy indexing ---------------------------------------------------------------------

/// What [`index_select`] gives and leaves behind.
pub open spec fn index_select_outcome<E: Elem, V: VjpRule<E>>(
    before: Graph<E, V>,
    x: Var,
    dim: i64,
    indices: Seq<i64>,
    r: OxitorchResult<Var>,
    after: Graph<E, V>,
) -> bool {
    let t = before.node(x).value;
    let d = resolve_dim(dim as int, t.dims().len() as int);
    match r {
        Ok(v) => index_select_error(t.dims(), dim as int, indices) is None && exists|
            out: Tensor<E>,
            rule: OpGrad<E>,
        | #[trigger]
            picks_slices(t, d, resolved(indices, t.dims()[d] as int), out)
                && op_recorded(
                before,
                after,
                v,
                out,
                "index_select"@,
                only(x),
                rule,
            ) && #[trigger] rule_selects(
                rule,
                t.dims(),
                d,
                resolved(indices, t.dims()[d] as int),
            ),
        Err(e) => index_select_error(t.dims(), dim as int, indices) == Some(e@)
            && unchanged(before, after),
    }
}

/// `index_select` along `dim`; the grad adds every slice back where it came
/// from, accumulating on duplicate indices.
///
/// Fails as [`Tensor::index_select`] does.
pub fn index_select<E: Elem, V: VjpRule<E>>(
    g: &mut Graph<E, V>,
    x: Var,
    dim: i64,
    indices: &[i64],
) -> (r: OxitorchResult<Var>)
    requires
        old(g).wf(),
        old(g).has(x),
    ensures
        final(g).wf(),
        index_select_outcome(*old(g), x, dim, indices@, r, *final(g)),
{
    let t = x.detach(g);
    let out = match t.index_select(dim, indices) {
        Ok(o) => o,
        Err(e) => {
            return Err(e);
        },
    };
    let d: usize = match normalize_dim(dim, t.ndim()) {
        Ok(d) => d,
        Err(e) => {
            return Err(e);
        },
    };
    let len: usize = t.shape()[d];
    let picks = match resolve_all(indices, len) {
        Ok(p) => p,
        Err(i) => {
            return Err(out_of_range(i, d, len));
        },
    };
    proof {
        use_type_invariant(&t);
        t.lemma_wf();
        assert(index_of(picks@).len() == picks@.len());
        assert(resolved(indices@, len as int).len() == indices@.len());
    }
    let rule = OpGrad::IndexSelect { dims: copy_dims(t.shape()), dim: d, picks };
    assert(rule_selects(rule, t.dims(), d as int, resolved(indices@, len as int)));
    Ok(record_unary(g, out, "index_select", x, rule))
}

/// What [`scatter_dim0`] gives and leaves behind.
pub open spec fn scatter_dim0_outcome<E: Elem, V: VjpRule<E>>(
    before: Graph<E, V>,
    base: Var,
    indices: Seq<i64>,
    values: Var,
    r: OxitorchResult<Var>,
    after: Graph<E, V>,
) -> bool {
    let t = before.node(base).value;
    let w = before.node(values).value;
    match r {
        Ok(v) => scatter_dim0_error(t.dims(), indices, w.dims()) is None && exists|
            out: Tensor<E>,
            rule: OpGrad<E>,
        | #[trigger]
            writes_rows(t, resolved(indices, t.dims()[0] as int), w, out)
                && op_recorded(
                before,
                after,
                v,
                out,
                "scatter_dim0"@,
                both(base, values),
                rule,
            ) && #[trigger] rule_scatters(
                rule,
                t.dims(),
                w.dims(),
                resolved(indices, t.dims()[0] as int),
            ),
        Err(e) => scatter_dim0_error(t.dims(), indices, w.dims()) == Some(e@)
            && unchanged(before, after),
    }
}

/// `base[indices[i], ...] = values[i, ...]` along dim 0, last write wins
/// (matching [`Tensor::scatter_dim0`]'s forward semantics).
///
/// Gradients:
/// - `base`: its own rows where untouched, **zero** on every written row;
///   last-write-wins means nothing flows back to an overwritten row.
/// - `values`: the upstream grad gathered at the final write position for
///   each slot (duplicate indices keep only the last write's grad).
///
/// Fails as [`Tensor::scatter_dim0`] does.
pub fn scatter_dim0<E: Elem, V: VjpRule<E>>(
    g: &mut Graph<E, V>,
    base: Var,
    indices: &[i64],
    values: Var,
) -> (r: OxitorchResult<Var>)
    requires
        old(g).wf(),
        old(g).has(base),
        old(g).has(values),
    ensures
        final(g).wf(),
        scatter_dim0_outcome(*old(g), base, indices@, values, r, *final(g)),
{
    let t = base.detach(g);
    let w = values.detach(g);
    let out = match t.scatter_dim0(indices, &w) {
        Ok(o) => o,
        Err(e) => {
            return Err(e);
        },
    };
    let rows: usize = t.shape()[0];
    let picks = match resolve_all(indices, rows) {
        Ok(p) => p,
        Err(i) => {
            return Err(out_of_range(i, 0, rows));
        },
    };
    proof {
        use_type_invariant(&w);
        w.lemma_wf();
        assert(index_of(picks@).len() == picks@.len());
        assert(resolved(indices@, rows as int).len() == indices@.len());
    }
    let rule = OpGrad::ScatterDim0 {
        base: copy_dims(t.shape()),
        values: copy_dims(w.shape()),
        picks,
    };
    assert(rule_scatters(rule, t.dims(), w.dims(), resolved(indices@, rows as int)));
    Ok(record_binary(g, out, "scatter_dim0", base, values, rule))
}

/// What [`masked_select`] gives and leaves behind.
pub open spec fn masked_select_outcome<E: Elem, V: VjpRule<E>>(
    before: Graph<E, V>,
    x: Var,
    mask: Var,
    r: OxitorchResult<Var>,
    after: Graph<E, V>,
) -> bool {
    let t = before.node(x).value;
    let m = before.node(mask).value;
    match r {
        Ok(v) => broadcast_error(t.dims(), m.dims()) is None && exists|
            out: Tensor<E>,
            places: Seq<int>,
            rule: OpGrad<E>,
        | #[trigger]
            mask_result_at(t, m, out, places) && op_recorded(
                before,
                after,
                v,
                out,
                "masked_select"@,
                only(x),
                rule,
            ) && #[trigger] rule_returns(rule, t.dims(), places),
        Err(e) => broadcast_error(t.dims(), m.dims()) == Some(e@) && unchanged(
            before,
            after,
        ),
    }
}

/// Boolean-mask indexing: `x[mask]` with `mask` broadcast against `x`
/// (matching [`Tensor::masked_select`]). The gradient of each picked element
/// is added back where it came from, so duplicate picks from broadcasting
/// **accumulate**, the same policy as [`index_select`].
///
/// Fails as [`Tensor::masked_select`] does.
pub fn masked_select<E: Elem, V: VjpRule<E>>(g: &mut Graph<E, V>, x: Var, mask: Var) -> (r:
    OxitorchResult<Var>)
    requires
        old(g).wf(),
        old(g).has(x),
        old(g).has(mask),
    ensures
        final(g).wf(),
        masked_select_outcome(*old(g), x, mask, r, *final(g)),
{
    let t = x.detach(g);
    let (out, places) = match t.masked_pick(mask.value(g)) {
        Ok(p) => p,
        Err(e) => {
            return Err(e);
        },
    };
    let ghost kept_places = index_of(places@);
    let rule = OpGrad::Elements { dims: copy_dims(t.shape()), places };
    assert(rule_returns(rule, t.dims(), kept_places));
    proof {
        use_type_invariant(&t);
        t.lemma_wf();
        lemma_masked_counts(t, old(g).node(mask).value, out, index_of(places@));
        assert(places@.len() == index_of(places@).len());
        lemma_rank1(out.dims(), 0);
    }
    Ok(record_unary(g, out, "masked_select", x, rule))
}

/// A mask keeps as many positions as elements.
proof fn lemma_masked_counts<E: Elem>(
    t: Tensor<E>,
    mask: Tensor<E>,
    r: Tensor<E>,
    places: Seq<int>,
)
    requires
        mask_result_at(t, mask, r, places),
    ensures
        places.len() == r.data().len(),
        r.dims().len() == 1,
{
    let out = broadcast_of(t.dims(), mask.dims());
    let keep = choose|keep: Seq<bool>| #[trigger]
        flags_nonzero(spread_data(mask, out), keep) && r.data() == kept(spread_data(t, out), keep)
            && r.dims() == seq![r.data().len() as usize] && places == kept(
            spread_places(t.dims(), out),
            keep,
        );
    lemma_kept_len(spread_data(t, out), spread_places(t.dims(), out), keep);
}

/// What a mask keeps of two sequences has one length.
proof fn lemma_kept_len<A, B>(a: Seq<A>, b: Seq<B>, keep: Seq<bool>)
    requires
        a.len() == b.len(),
        a.len() == keep.len(),
    ensures
        kept(a, keep).len() == kept(b, keep).len(),
    decreases a.len(),
{
    if a.len() > 0 {
        lemma_kept_len(a.drop_last(), b.drop_last(), keep.drop_last());
    }
}

} // verus!
