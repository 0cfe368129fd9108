//! What holds of views and selections, whether or not they are connected to
//! the graph.

use vstd::prelude::*;
use crate::autograd::graph::{Graph, Var, VjpRule};
use crate::autograd::ops::{
    both, only, op_recorded, rule_keeps_dims, rule_returns, rule_scatters, rule_selects,
    rule_undoes,
};
use crate::autograd::rules::{OpGrad, expands_over};
use crate::elem::Elem;
use crate::error::OxitorchResult;
use crate::exact::operators::lemma_recorded;
use crate::frontend::detached_outcome;
use crate::frontend::indexing::{
    Subscript, dims_signed, expand_outcome, gather_outcome, is_entry, mask_outcome, number_or,
    permuted_outcome, scatter_outcome, subscript_outcome, transposed_outcome, view_outcome,
};
use crate::index::in_shape;
use crate::layout::{broadcast_of, resolve_bound, resolve_dim};
use crate::tensor::Tensor;
use crate::tensor::access::law_narrow_shows;
use crate::tensor::indexing::{
    flags_nonzero, kept, mask_result, mask_result_at, picks_slices, resolved, spread_data,
    spread_places, writes_rows,
};
use crate::tensor::views::{permute_result, reshape_result, resolved_order, transpose_result};

verus! {

proof fn lemma_detached<E, V>(
    before: Graph<E, V>,
    q: OxitorchResult<Tensor<E>>,
    v: Var,
    after: Graph<E, V>,
)
    requires
        detached_outcome(before, q, Ok(v), after),
    ensures
        q is Ok,
        after.node(v).value == q->Ok_0,
{
    assert(after.node(v) == after.nodes().last());
}

/// A reshape shows the same elements in the shape asked for.
pub proof fn law_reshape_values<E: Elem, V: VjpRule<E>>(
    before: Graph<E, V>,
    x: Var,
    shape: &[i64],
    v: Var,
    after: Graph<E, V>,
)
    requires
        view_outcome(before, x, shape, Ok(v), after),
    ensures
        reshape_result(before.node(x).value, shape@, after.node(v).value),
{
    let t = before.node(x).value;
    if before.node(x).requires_grad {
        let (out, rule) = choose|out: Tensor<E>, rule: OpGrad<E>| #[trigger]
            reshape_result(t, shape@, out)
                && op_recorded(before, after, v, out, "reshape"@, only(x), rule)
                && #[trigger] rule_keeps_dims(rule, t.dims()) && rule is Reshape;
        lemma_recorded(before, after, v, out, "reshape"@, only(x), rule);
    } else {
        let q = choose|q: OxitorchResult<Tensor<E>>| #[trigger]
            call_ensures(Tensor::<E>::reshape, (&before.node(x).value, shape), q)
                && detached_outcome(before, q, Ok(v), after);
        lemma_detached(before, q, v, after);
    }
}

/// A transpose shows rows as columns.
pub proof fn law_transpose_values<E: Elem, V: VjpRule<E>>(
    before: Graph<E, V>,
    x: Var,
    v: Var,
    after: Graph<E, V>,
)
    requires
        transposed_outcome(before, x, Ok(v), after),
    ensures
        transpose_result(before.node(x).value, after.node(v).value),
{
    let t = before.node(x).value;
    if before.node(x).requires_grad {
        let (out, rule) = choose|out: Tensor<E>, rule: OpGrad<E>| #[trigger]
            transpose_result(t, out)
                && op_recorded(before, after, v, out, "transpose"@, only(x), rule)
                && #[trigger] rule_keeps_dims(rule, t.dims()) && rule is Transpose;
        lemma_recorded(before, after, v, out, "transpose"@, only(x), rule);
    } else {
        let q = choose|q: OxitorchResult<Tensor<E>>| #[trigger]
            call_ensures(Tensor::<E>::transpose, (&before.node(x).value,), q)
                && detached_outcome(before, q, Ok(v), after);
        lemma_detached(before, q, v, after);
    }
}

/// A permutation shows the dims in the order asked for.
pub proof fn law_permute_values<E: Elem, V: VjpRule<E>>(
    before: Graph<E, V>,
    x: Var,
    order: &[i64],
    v: Var,
    after: Graph<E, V>,
)
    requires
        permuted_outcome(before, x, order, Ok(v), after),
    ensures
        permute_result(before.node(x).value, resolved_order(order@), after.node(v).value),
{
    let t = before.node(x).value;
    if before.node(x).requires_grad {
        let (out, rule) = choose|out: Tensor<E>, rule: OpGrad<E>| #[trigger]
            permute_result(t, resolved_order(order@), out)
                && op_recorded(before, after, v, out, "permute"@, only(x), rule)
                && #[trigger] rule_undoes(rule, t.dims(), resolved_order(order@));
        lemma_recorded(before, after, v, out, "permute"@, only(x), rule);
    } else {
        let q = choose|q: OxitorchResult<Tensor<E>>| #[trigger]
            call_ensures(Tensor::<E>::permute, (&before.node(x).value, order), q)
                && detached_outcome(before, q, Ok(v), after);
        lemma_detached(before, q, v, after);
    }
}

/// A selection shows the slices asked for.
pub proof fn law_index_select_values<E: Elem, V: VjpRule<E>>(
    before: Graph<E, V>,
    x: Var,
    dim: i64,
    indices: &[i64],
    v: Var,
    after: Graph<E, V>,
)
    requires
        gather_outcome(before, x, dim, indices, Ok(v), after),
    ensures
        ({
            let t = before.node(x).value;
            let d = resolve_dim(dim as int, t.dims().len() as int);
            picks_slices(t, d, resolved(indices@, t.dims()[d] as int), after.node(v).value)
        }),
{
    let t = before.node(x).value;
    let d = resolve_dim(dim as int, t.dims().len() as int);
    let picks = resolved(indices@, t.dims()[d] as int);
    if before.node(x).requires_grad {
        let (out, rule) = choose|out: Tensor<E>, rule: OpGrad<E>| #[trigger]
            picks_slices(t, d, picks, out)
                && op_recorded(before, after, v, out, "index_select"@, only(x), rule)
                && #[trigger] rule_selects(rule, t.dims(), d, picks);
        lemma_recorded(before, after, v, out, "index_select"@, only(x), rule);
    } else {
        let q = choose|q: OxitorchResult<Tensor<E>>| #[trigger]
            call_ensures(Tensor::<E>::index_select, (&before.node(x).value, dim, indices), q)
                && detached_outcome(before, q, Ok(v), after);
        lemma_detached(before, q, v, after);
    }
}

/// A scatter shows the rows written over the base.
pub proof fn law_scatter_values<E: Elem, V: VjpRule<E>>(
    before: Graph<E, V>,
    x: Var,
    indices: &[i64],
    values: Var,
    v: Var,
    after: Graph<E, V>,
)
    requires
        scatter_outcome(before, x, indices, values, Ok(v), after),
    ensures
        writes_rows(
            before.node(x).value,
            resolved(indices@, before.node(x).value.dims()[0] as int),
            before.node(values).value,
            after.node(v).value,
        ),
{
    let t = before.node(x).value;
    let w = before.node(values).value;
    let picks = resolved(indices@, t.dims()[0] as int);
    if before.node(x).requires_grad || before.node(values).requires_grad {
        let (out, rule) = choose|out: Tensor<E>, rule: OpGrad<E>| #[trigger]
            writes_rows(t, picks, w, out)
                && op_recorded(before, after, v, out, "scatter_dim0"@, both(x, values), rule)
                && #[trigger] rule_scatters(rule, t.dims(), w.dims(), picks);
        lemma_recorded(before, after, v, out, "scatter_dim0"@, both(x, values), rule);
    } else {
        let q = choose|q: OxitorchResult<Tensor<E>>| #[trigger]
            call_ensures(Tensor::<E>::scatter_dim0, (&before.node(x).value, indices,
                &before.node(values).value), q) && detached_outcome(before, q, Ok(v), after);
        lemma_detached(before, q, v, after);
    }
}

/// A mask shows the elements it keeps.
pub proof fn law_mask_values<E: Elem, V: VjpRule<E>>(
    before: Graph<E, V>,
    x: Var,
    mask: Var,
    v: Var,
    after: Graph<E, V>,
)
    requires
        mask_outcome(before, x, mask, Ok(v), after),
    ensures
        mask_result(before.node(x).value, before.node(mask).value, after.node(v).value),
{
    let t = before.node(x).value;
    let w = before.node(mask).value;
    if before.node(x).requires_grad || before.node(mask).requires_grad {
        let (out, places, rule) = choose|out: Tensor<E>, places: Seq<int>,
            rule: OpGrad<E>| #[trigger]
            mask_result_at(t, w, out, places)
                && op_recorded(before, after, v, out, "masked_select"@, only(x), rule)
                && #[trigger] rule_returns(rule, t.dims(), places);
        lemma_recorded(before, after, v, out, "masked_select"@, only(x), rule);
        let wide = broadcast_of(t.dims(), w.dims());
        let keep = choose|keep: Seq<bool>| #[trigger]
            flags_nonzero(spread_data(w, wide), keep) && out.data() == kept(
                spread_data(t, wide),
                keep,
            ) && out.dims() == seq![out.data().len() as usize] && places == kept(
                spread_places(t.dims(), wide),
                keep,
            );
        assert(flags_nonzero(spread_data(w, wide), keep));
    } else {
        let q = choose|q: OxitorchResult<Tensor<E>>| #[trigger]
            call_ensures(Tensor::<E>::masked_select, (&before.node(x).value,
                &before.node(mask).value), q) && detached_outcome(before, q, Ok(v), after);
        lemma_detached(before, q, v, after);
    }
}

/// An expansion shows every element at all the places that broadcasting puts
/// it.
pub proof fn law_expand_values<E: Elem, V: VjpRule<E>>(
    before: Graph<E, V>,
    x: Var,
    dims: Seq<usize>,
    v: Var,
    after: Graph<E, V>,
)
    requires
        expand_outcome(before, x, dims, Ok(v), after),
    ensures
        expands_over(before.node(x).value, dims, after.node(v).value),
{
    let t = before.node(x).value;
    if before.node(x).requires_grad {
        let (out, rule) = choose|out: Tensor<E>, rule: OpGrad<E>| #[trigger]
            expands_over(t, dims, out) && op_recorded(
                before,
                after,
                v,
                out,
                "broadcast_to"@,
                only(x),
                rule,
            ) && #[trigger] rule_keeps_dims(rule, t.dims()) && rule is BroadcastTo;
        lemma_recorded(before, after, v, out, "broadcast_to"@, only(x), rule);
    } else {
        let (out, q) = choose|out: &[usize], q: OxitorchResult<Tensor<E>>|
            out@ == dims && #[trigger] call_ensures(
                Tensor::<E>::broadcast_to,
                (&before.node(x).value, out),
                q,
            ) && detached_outcome(before, q, Ok(v), after);
        lemma_detached(before, q, v, after);
    }
}

/// A subscript with an index, counted from either end, drops the first dim and
/// shows that entry of it.
pub proof fn law_subscript_index<E: Elem, V: VjpRule<E>>(
    before: Graph<E, V>,
    x: Var,
    i: i64,
    v: Var,
    after: Graph<E, V>,
    idx: Seq<int>,
)
    requires
        dims_signed(before.node(x).value.dims()),
        subscript_outcome(before, x, Subscript::Index(i), Ok(v), after),
        in_shape(idx, after.node(v).value.dims()),
    ensures
        ({
            let t = before.node(x).value;
            let n = t.dims()[0] as int;
            let at = if i < 0 {
                n + i
            } else {
                i as int
            };
            &&& t.dims().len() > 0
            &&& 0 <= at < n
            &&& after.node(v).value.dims() == t.dims().remove(0)
            &&& after.node(v).value.at(idx) == t.at(seq![at] + idx)
        }),
{
    let t = before.node(x).value;
    let at = resolve_dim(i as int, t.dims()[0] as int);
    assert(is_entry(t, 0, at, after.node(v).value));
    assert(idx.insert(0, at) =~= seq![at] + idx);
}

/// A subscript with a slice shows the rows `start`, `start + step`, ... before
/// `stop`; left out, these are 0, the end and 1.
pub proof fn law_subscript_slice<E: Elem, V: VjpRule<E>>(
    before: Graph<E, V>,
    x: Var,
    start: Option<i64>,
    stop: Option<i64>,
    step: Option<i64>,
    v: Var,
    after: Graph<E, V>,
    idx: Seq<int>,
)
    requires
        dims_signed(before.node(x).value.dims()),
        subscript_outcome(before, x, Subscript::Slice { start, stop, step }, Ok(v), after),
        in_shape(idx, after.node(v).value.dims()),
    ensures
        ({
            let t = before.node(x).value;
            let n = t.dims()[0] as int;
            let from = match start {
                Some(s) => resolve_bound(n, s as int),
                None => 0,
            };
            let to = match stop {
                Some(s) => resolve_bound(n, s as int),
                None => n,
            };
            let by = match step {
                Some(s) => s as int,
                None => 1,
            };
            &&& t.dims().len() > 0
            &&& by > 0
            &&& from + by * idx[0] < to
            &&& after.node(v).value.at(idx) == t.at(idx.update(0, from + by * idx[0]))
        }),
{
    let t = before.node(x).value;
    let n = t.dims()[0] as int;
    let lo = number_or(start, 0);
    let hi = number_or(stop, i64::MAX);
    let by = number_or(step, 1);
    assert(0 <= idx[0] < after.node(v).value.dims()[0]);
    assert(t.dims()[0] <= i64::MAX);
    assert forall|j: int| 0 <= j < idx.len() && j != 0 implies 0 <= #[trigger] idx[j]
        < t.dims()[j] by {
        assert(after.node(v).value.dims()[j] == t.dims()[j]);
    }
    law_narrow_shows(t, 0, lo as int, hi as int, by as int, after.node(v).value, idx);
}

} // verus!
