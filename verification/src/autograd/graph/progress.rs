//! When a backward pass succeeds.

use vstd::prelude::*;
use crate::autograd::graph::{
    Graph, Node, Var, VjpRule, any_requires, ids_of, lemma_valid_kept, recorded, same_structure,
    valid_node, valid_nodes, vjp_returned,
};
use crate::autograd::graph::laws::{
    grad_after, grad_grew, grads_fit, lemma_accumulated_fits, lemma_contributions,
    lemma_contributions_fit, lemma_grad_stays, lemma_node_step, lemma_pass, lemma_pass_fits,
    tail_has,
};
use crate::autograd::graph::pass::{
    accumulate_fails, accumulated, backward_fails, cleared, contribution, contribution_fails,
    contributions, handed_out, handing_fails, is_seed, node_step, pass, pass_fails, propagates,
    rule_used, step_fails,
};
use crate::autograd::ops::{kernel_keeps, op_recorded, sums_fit};
use crate::autograd::rules::{OpGrad, law_rules_give_input_shapes};
use crate::autograd::topo::{Walk, depends_on, law_post_order, post_order, visit, visit_inputs};
use crate::autograd::unbroadcast::{lemma_unbroadcasts_own, unbroadcast_error, unbroadcast_result};
use crate::elem::Elem;
use crate::error::{ErrorText, OxitorchResult};
use crate::index::{index_of, product};
use crate::layout::law_broadcast_identity;
use crate::tensor::{Tensor, broadcast_error};

verus! {

/// The rule of node `i` serves it: for every gradient of the node's shape it
/// returns one gradient per input, and each can be summed down to the shape
/// of its input.
pub open spec fn rule_serves<E: Elem, V: VjpRule<E>>(nodes: Seq<Node<E, V>>, i: int) -> bool {
    &&& nodes[i].rule is Some
    &&& forall|g: Tensor<E>, r: OxitorchResult<Vec<Tensor<E>>>|
        g.dims() == nodes[i].value.dims() && #[trigger] vjp_returned(nodes[i].rule->0, g, r)
            ==> reply_fits(nodes, i, r)
}

/// `r` holds one gradient per input of node `i`, and each can be summed down
/// to the shape of its input.
pub open spec fn reply_fits<E: Elem, V>(
    nodes: Seq<Node<E, V>>,
    i: int,
    r: OxitorchResult<Vec<Tensor<E>>>,
) -> bool {
    let inputs = nodes[i].inputs@;
    &&& r is Ok
    &&& r->Ok_0@.len() == inputs.len()
    &&& forall|k: int|
        0 <= k < inputs.len() ==> unbroadcast_error(
            (#[trigger] r->Ok_0@[k]).dims(),
            nodes[inputs[k] as int].value.dims(),
        ) is None
}

/// Every node that takes part in a pass has a rule that serves it.
pub open spec fn rules_serve<E: Elem, V: VjpRule<E>>(nodes: Seq<Node<E, V>>, root: int) -> bool {
    forall|i: int|
        0 <= i < nodes.len() && depends_on(nodes, root, i) && #[trigger] propagates(nodes[i])
            ==> rule_serves(nodes, i)
}

/// Every value has a countable number of elements, as every tensor does.
pub open spec fn values_count<E, V>(nodes: Seq<Node<E, V>>) -> bool {
    forall|i: int| 0 <= i < nodes.len() ==> (#[trigger] nodes[i]).value.count() <= usize::MAX
}

/// A node other than the root is an input of another node in the walk.
proof fn lemma_has_consumer<E, V>(nodes: Seq<Node<E, V>>, root: int, x: int) -> (r: (int, int))
    requires
        0 <= root < nodes.len(),
        depends_on(nodes, root, x),
        x != root,
    ensures
        depends_on(nodes, root, r.0),
        0 <= r.0 <= root,
        0 <= r.1 < nodes[r.0].inputs@.len(),
        nodes[r.0].inputs@[r.1] == x,
    decreases root,
{
    let k = choose|k: int|
        #![trigger nodes[root].inputs@[k]]
        0 <= k < nodes[root].inputs@.len() && 0 <= nodes[root].inputs@[k] < root && depends_on(
            nodes,
            nodes[root].inputs@[k] as int,
            x,
        );
    let next = nodes[root].inputs@[k] as int;
    if next == x {
        (root, k)
    } else {
        let r = lemma_has_consumer(nodes, next, x);
        assert(0 <= nodes[root].inputs@[k] < root && depends_on(
            nodes,
            nodes[root].inputs@[k] as int,
            r.0,
        ));
        r
    }
}

/// Handing out gradients leaves one at every input that requires it.
proof fn lemma_contributions_reach<E: Elem, V>(
    a: Seq<Node<E, V>>,
    inputs: Seq<usize>,
    grads: Seq<Tensor<E>>,
    k: int,
    b: Seq<Node<E, V>>,
    j: int,
)
    requires
        0 <= j < k <= inputs.len(),
        forall|q: int| 0 <= q < inputs.len() ==> #[trigger] inputs[q] < a.len(),
        contributions(a, inputs, grads, k, b),
        a[inputs[j] as int].requires_grad,
    ensures
        b[inputs[j] as int].grad is Some,
    decreases k,
{
    let m = choose|m: Seq<Node<E, V>>|
        contributions(a, inputs, grads, k - 1, m) && #[trigger] contribution(
            m,
            inputs[k - 1] as int,
            grads[k - 1],
            b,
        );
    lemma_contributions(a, inputs, grads, k - 1, m);
    let x = inputs[j] as int;
    assert(m[x].requires_grad);
    if j < k - 1 {
        lemma_contributions_reach(a, inputs, grads, k - 1, m, j);
    }
}

/// `order` can be walked from its end: it lists nodes once, inputs first, and
/// every node in it that takes part has a rule that serves it.
spec fn walkable<E: Elem, V: VjpRule<E>>(nodes: Seq<Node<E, V>>, order: Seq<int>) -> bool {
    &&& valid_nodes(nodes)
    &&& order.no_duplicates()
    &&& forall|p: int| 0 <= p < order.len() ==> 0 <= #[trigger] order[p] < nodes.len()
    &&& forall|p: int, j: int|
        #![trigger nodes[order[p]].inputs@[j]]
        0 <= p < order.len() && 0 <= j < nodes[order[p]].inputs@.len() ==> order.take(
            p,
        ).contains(nodes[order[p]].inputs@[j] as int)
    &&& forall|p: int|
        0 <= p < order.len() && propagates(nodes[#[trigger] order[p]]) ==> rule_serves(
            nodes,
            order[p],
        )
}

proof fn lemma_inputs_listed<E: Elem, V: VjpRule<E>>(nodes: Seq<Node<E, V>>, order: Seq<int>)
    requires
        walkable(nodes, order),
    ensures
        forall|p: int, j: int|
            #![trigger nodes[order[p]].inputs@[j]]
            0 <= p < order.len() && 0 <= j < nodes[order[p]].inputs@.len() ==> order.contains(
                nodes[order[p]].inputs@[j] as int,
            ),
{
    assert forall|p: int, j: int|
        #![trigger nodes[order[p]].inputs@[j]]
        0 <= p < order.len() && 0 <= j < nodes[order[p]].inputs@.len() implies order.contains(
        nodes[order[p]].inputs@[j] as int,
    ) by {
        let x = nodes[order[p]].inputs@[j] as int;
        assert(order.take(p).contains(x));
        let q = choose|q: int| 0 <= q < order.take(p).len() && order.take(p)[q] == x;
        assert(order[q] == x);
    }
}

/// What holds of the state before the next node of a walk.
proof fn lemma_next_node<E: Elem, V: VjpRule<E>>(
    a: Seq<Node<E, V>>,
    order: Seq<int>,
    retain: bool,
    k: int,
    m: Seq<Node<E, V>>,
)
    requires
        walkable(a, order),
        grads_fit(a),
        0 <= k < order.len(),
        pass(a, order, retain, k, m),
    ensures
        grads_fit(m),
        valid_nodes(m),
        same_structure(a, m),
        m[order[order.len() - 1 - k]].rule == a[order[order.len() - 1 - k]].rule,
{
    lemma_inputs_listed(a, order);
    lemma_pass(a, order, retain, k, m);
    lemma_pass_fits(a, order, retain, k, m);
    lemma_valid_kept(a, m);
    let x = order[order.len() - 1 - k];
    assert(!tail_has(order, k, x)) by {
        if tail_has(order, k, x) {
            let p = choose|p: int| order.len() - k <= p < order.len() && #[trigger] order[p] == x;
            assert(order[p] != order[order.len() - 1 - k]);
        }
    }
}

/// The reply of a node's rule to the gradient that it has.
proof fn lemma_reply<E: Elem, V: VjpRule<E>>(
    a: Seq<Node<E, V>>,
    m: Seq<Node<E, V>>,
    id: int,
    r: OxitorchResult<Vec<Tensor<E>>>,
)
    requires
        0 <= id < a.len(),
        same_structure(a, m),
        m[id].rule == a[id].rule,
        grads_fit(m),
        m[id].grad is Some,
        rule_serves(a, id),
        vjp_returned(m[id].rule->0, m[id].grad->0, r),
    ensures
        reply_fits(a, id, r),
{
    assert(m[id].value == a[id].value);
}

/// Every node whose consumer was processed has a gradient.
proof fn lemma_pass_reaches<E: Elem, V: VjpRule<E>>(
    a: Seq<Node<E, V>>,
    order: Seq<int>,
    retain: bool,
    k: int,
    b: Seq<Node<E, V>>,
    p: int,
    j: int,
)
    requires
        walkable(a, order),
        grads_fit(a),
        0 <= k <= order.len(),
        pass(a, order, retain, k, b),
        order.len() - k <= p < order.len(),
        propagates(a[order[p]]),
        0 <= j < a[order[p]].inputs@.len(),
        a[a[order[p]].inputs@[j] as int].requires_grad,
    ensures
        b[a[order[p]].inputs@[j] as int].grad is Some,
    decreases k,
{
    let id = order[order.len() - k];
    let x = a[order[p]].inputs@[j] as int;
    let m = choose|m: Seq<Node<E, V>>|
        pass(a, order, retain, k - 1, m) && #[trigger] node_step(
            m,
            order[order.len() - k],
            retain,
            b,
        );
    lemma_next_node(a, order, retain, k - 1, m);
    lemma_node_step(m, id, retain, b);
    assert(valid_node(a, order[p]));
    assert(x < a.len());
    assert(b[x].requires_grad == m[x].requires_grad);
    if p == order.len() - k {
        let n = m[id];
        assert(n.inputs == a[id].inputs && n.op == a[id].op && n.requires_grad
            == a[id].requires_grad);
        assert(propagates(n));
        let used = rule_used(m, id, retain);
        let grads = choose|grads: Vec<Tensor<E>>| #[trigger]
            vjp_returned(n.rule->0, n.grad->0, Ok(grads)) && contributions(
                used,
                n.inputs@,
                grads@,
                handed_out(n.inputs@, grads@),
                b,
            );
        lemma_reply(a, m, id, Ok(grads));
        assert(valid_node(m, id));
        assert(m[x].requires_grad == a[x].requires_grad);
        assert(used[x].requires_grad);
        lemma_contributions_reach(
            used,
            n.inputs@,
            grads@,
            handed_out(n.inputs@, grads@),
            b,
            j,
        );
    } else {
        lemma_pass_reaches(a, order, retain, k - 1, m, p, j);
        assert(grad_grew(m[x].grad, b[x].grad));
        let parts = choose|parts: Seq<Tensor<E>>| #[trigger]
            grad_after(m[x].grad, parts, b[x].grad);
        lemma_grad_stays(m[x].grad, parts, b[x].grad);
    }
}

/// Gradients of one countable shape can be added.
proof fn lemma_same_shape_adds(dims: Seq<usize>)
    requires
        product(dims) <= usize::MAX,
    ensures
        broadcast_error(dims, dims) is None,
{
    law_broadcast_identity(dims);
}

/// Handing out a fitting reply does not fail.
proof fn lemma_no_handing_fails<E: Elem, V>(
    a: Seq<Node<E, V>>,
    inputs: Seq<usize>,
    grads: Seq<Tensor<E>>,
    e: ErrorText,
    b: Seq<Node<E, V>>,
)
    requires
        forall|q: int| 0 <= q < inputs.len() ==> #[trigger] inputs[q] < a.len(),
        grads_fit(a),
        values_count(a),
        grads.len() == inputs.len(),
        forall|q: int|
            0 <= q < inputs.len() ==> unbroadcast_error(
                (#[trigger] grads[q]).dims(),
                a[inputs[q] as int].value.dims(),
            ) is None,
    ensures
        !handing_fails(a, inputs, grads, inputs.len() as int, e, b),
{
    if handing_fails(a, inputs, grads, inputs.len() as int, e, b) {
        let (k, m) = choose|k: int, m: Seq<Node<E, V>>|
            0 <= k < inputs.len() && #[trigger] contributions(a, inputs, grads, k, m)
                && contribution_fails(m, inputs[k] as int, grads[k], e, b);
        lemma_contributions_fit(a, inputs, grads, k, m);
        let x = inputs[k] as int;
        assert(m[x].value == a[x].value);
        assert(unbroadcast_error(grads[k].dims(), a[x].value.dims()) is None);
        let r = choose|r: Tensor<E>| #[trigger]
            unbroadcast_result(grads[k], m[x].value.dims(), r) && accumulate_fails(m, x, r, e, b);
        assert(a[x].value.count() <= usize::MAX);
        lemma_same_shape_adds(a[x].value.dims());
    }
}

/// No step of a walk fails whose root has a gradient.
proof fn lemma_no_step_fails<E: Elem, V: VjpRule<E>>(
    a: Seq<Node<E, V>>,
    root: int,
    order: Seq<int>,
    retain: bool,
    k: int,
    m: Seq<Node<E, V>>,
    e: ErrorText,
    b: Seq<Node<E, V>>,
)
    requires
        0 <= root < a.len(),
        order == post_order(a, root),
        walkable(a, order),
        grads_fit(a),
        values_count(a),
        a[root].grad is Some,
        0 <= k < order.len(),
        pass(a, order, retain, k, m),
    ensures
        !step_fails(m, order[order.len() - 1 - k], retain, e, b),
{
    let at = order.len() - 1 - k;
    let id = order[at];
    lemma_next_node(a, order, retain, k, m);
    law_post_order(a, root);
    assert(m[id].value == a[id].value && m[id].inputs == a[id].inputs && m[id].op == a[id].op
        && m[id].requires_grad == a[id].requires_grad);
    if propagates(m[id]) {
        assert(propagates(a[id]));
        assert(rule_serves(a, id));
        assert(m[id].grad is Some) by {
            lemma_reached(a, root, order, retain, k, m);
        }
        let n = m[id];
        if step_fails(m, id, retain, e, b) {
            let r = choose|r: OxitorchResult<Vec<Tensor<E>>>| #[trigger]
                vjp_returned(n.rule->0, n.grad->0, r) && match r {
                    Err(x) => e == x@ && b == rule_used(m, id, retain),
                    Ok(grads) => handing_fails(
                        rule_used(m, id, retain),
                        n.inputs@,
                        grads@,
                        handed_out(n.inputs@, grads@),
                        e,
                        b,
                    ),
                };
            lemma_reply(a, m, id, r);
            let grads = r->Ok_0@;
            let used = rule_used(m, id, retain);
            assert(valid_node(m, id));
            assert(grads_fit(used)) by {
                assert forall|j: int|
                    0 <= j < used.len() && (#[trigger] used[j]).grad is Some implies (
                used[j].grad->0).dims() == used[j].value.dims() by {
                    assert(m[j].grad == used[j].grad);
                }
            }
            assert(values_count(used)) by {
                assert forall|j: int| 0 <= j < used.len() implies (#[trigger] used[j]).value.count()
                    <= usize::MAX by {
                    assert(m[j].value == a[j].value);
                    assert(a[j].value.count() <= usize::MAX);
                }
            }
            assert forall|q: int| 0 <= q < n.inputs@.len() implies unbroadcast_error(
                (#[trigger] grads[q]).dims(),
                used[n.inputs@[q] as int].value.dims(),
            ) is None by {
                let x = n.inputs@[q] as int;
                assert(x < a.len());
                assert(m[x].value == a[x].value);
                assert(used[x].value == a[x].value);
                assert(r->Ok_0@[q] == grads[q]);
            }
            lemma_no_handing_fails(used, n.inputs@, grads, e, b);
        }
    }
}

/// The next node of a walk that takes part has a gradient.
proof fn lemma_reached<E: Elem, V: VjpRule<E>>(
    a: Seq<Node<E, V>>,
    root: int,
    order: Seq<int>,
    retain: bool,
    k: int,
    m: Seq<Node<E, V>>,
)
    requires
        0 <= root < a.len(),
        order == post_order(a, root),
        walkable(a, order),
        grads_fit(a),
        a[root].grad is Some,
        0 <= k < order.len(),
        pass(a, order, retain, k, m),
        a[order[order.len() - 1 - k]].requires_grad,
    ensures
        m[order[order.len() - 1 - k]].grad is Some,
{
    let at = order.len() - 1 - k;
    let id = order[at];
    law_post_order(a, root);
    if id == root {
        assert(order[order.len() - 1] == root);
        if at != order.len() - 1 {
            assert(order[at] != order[order.len() - 1]);
        }
        assert(k == 0);
    } else {
        assert(order.contains(id));
        assert(depends_on(a, root, id));
        let (y, j) = lemma_has_consumer(a, root, id);
        assert(order.contains(y));
        let p = choose|p: int| 0 <= p < order.len() && order[p] == y;
        assert(a[order[p]].inputs@[j] == id);
        assert(order.take(p).contains(id));
        let q = choose|q: int| 0 <= q < order.take(p).len() && order.take(p)[q] == id;
        assert(order[q] == id);
        assert(q == at) by {
            if q != at {
                assert(order[q] != order[at]);
            }
        }
        assert(valid_node(a, y));
        assert(a[y].op is Some);
        assert(any_requires(a, a[y].inputs@)) by {
            assert(a[a[y].inputs@[j] as int].requires_grad);
        }
        assert(propagates(a[order[p]]));
        lemma_pass_reaches(a, order, retain, k, m, p, j);
    }
}

/// A backward pass succeeds on every valid graph whose rules serve their
/// nodes: from a root that requires a gradient, with a seed of the root's
/// shape, or without one from a root of one element.
pub proof fn law_backward_succeeds<E: Elem, V: VjpRule<E>>(
    a: Seq<Node<E, V>>,
    root: int,
    given: Option<Tensor<E>>,
    retain: bool,
    e: ErrorText,
    b: Seq<Node<E, V>>,
)
    requires
        valid_nodes(a),
        0 <= root < a.len(),
        a[root].requires_grad,
        match given {
            Some(s) => s.dims() == a[root].value.dims(),
            None => a[root].value.count() == 1,
        },
        grads_fit(a),
        values_count(a),
        rules_serve(a, root),
    ensures
        !backward_fails(a, root, given, retain, e, b),
{
    let order = post_order(a, root);
    law_post_order(a, root);
    let base = cleared(a, order);
    assert(grads_fit(base)) by {
        assert forall|j: int| 0 <= j < base.len() && (#[trigger] base[j]).grad is Some implies (
        base[j].grad->0).dims() == base[j].value.dims() by {
            assert(a[j].grad == base[j].grad);
        }
    }
    assert(a[root].value.count() <= usize::MAX);
    lemma_same_shape_adds(a[root].value.dims());
    assert(base[root].value == a[root].value);
    if backward_fails(a, root, given, retain, e, b) {
        assert(pass_fails(a, root, given, retain, e, b));
        assert(!(exists|seed: Tensor<E>| #[trigger]
            is_seed(a[root], given, seed) && accumulate_fails(base, root, seed, e, b)));
        let (seed, s, k, m) = choose|
            seed: Tensor<E>,
            s: Seq<Node<E, V>>,
            k: int,
            m: Seq<Node<E, V>>,
        |
            0 <= k < order.len() && #[trigger] is_seed(a[root], given, seed)
                && #[trigger] accumulated(base, root, seed, s) && #[trigger] pass(
                s,
                order,
                retain,
                k,
                m,
            ) && step_fails(m, order[order.len() - 1 - k], retain, e, b);
        lemma_accumulated_fits(base, root, seed, s);
        lemma_seeded(a, root, base, seed, s);
        lemma_no_step_fails(s, root, order, retain, k, m, e, b);
    }
}

/// The walk depends on the structure of a graph alone.
proof fn lemma_same_walk<E, V>(a: Seq<Node<E, V>>, s: Seq<Node<E, V>>, root: int)
    requires
        valid_nodes(a),
        same_structure(a, s),
        0 <= root < a.len(),
    ensures
        post_order(s, root) == post_order(a, root),
{
    lemma_same_visit(a, s, root, Walk { seen: Set::empty(), order: Seq::empty() });
}

proof fn lemma_same_visit<E, V>(a: Seq<Node<E, V>>, s: Seq<Node<E, V>>, v: int, w: Walk)
    requires
        valid_nodes(a),
        same_structure(a, s),
        0 <= v < a.len(),
    ensures
        visit(s, v, w) == visit(a, v, w),
    decreases v, a[v].inputs@.len() + 1,
{
    assert(s[v].inputs == a[v].inputs);
    if !w.seen.contains(v) {
        lemma_same_inputs(
            a,
            s,
            v,
            a[v].inputs@.len() as int,
            Walk { seen: w.seen.insert(v), order: w.order },
        );
    }
}

proof fn lemma_same_inputs<E, V>(a: Seq<Node<E, V>>, s: Seq<Node<E, V>>, v: int, k: int, w: Walk)
    requires
        valid_nodes(a),
        same_structure(a, s),
        0 <= v < a.len(),
        0 <= k <= a[v].inputs@.len(),
    ensures
        visit_inputs(s, v, k, w) == visit_inputs(a, v, k, w),
    decreases v, k,
{
    assert(s[v].inputs == a[v].inputs);
    if k > 0 {
        assert(valid_node(a, v));
        let x = a[v].inputs@[k - 1] as int;
        assert(x < v);
        lemma_same_visit(a, s, x, w);
        lemma_same_inputs(a, s, v, k - 1, visit(a, x, w));
    }
}

/// Seeding changes gradients only, so the walk stays the same.
proof fn lemma_seeded<E: Elem, V: VjpRule<E>>(
    a: Seq<Node<E, V>>,
    root: int,
    base: Seq<Node<E, V>>,
    seed: Tensor<E>,
    s: Seq<Node<E, V>>,
)
    requires
        valid_nodes(a),
        0 <= root < a.len(),
        base == cleared(a, post_order(a, root)),
        accumulated(base, root, seed, s),
        values_count(a),
        rules_serve(a, root),
    ensures
        post_order(s, root) == post_order(a, root),
        walkable(s, post_order(s, root)),
        values_count(s),
        s[root].grad is Some,
{
    let order = post_order(a, root);
    law_post_order(a, root);
    assert(same_structure(a, s) && forall|i: int|
        0 <= i < a.len() ==> (#[trigger] s[i]).rule == a[i].rule) by {
        assert forall|i: int| 0 <= i < a.len() implies (#[trigger] s[i]).value == a[i].value
            && s[i].op == a[i].op && s[i].inputs == a[i].inputs && s[i].requires_grad
            == a[i].requires_grad && s[i].rule == a[i].rule by {
            assert(base[i].value == a[i].value);
        }
    }
    lemma_valid_kept(a, s);
    lemma_same_walk(a, s, root);
    law_post_order(s, root);
    assert forall|p: int| 0 <= p < order.len() && propagates(s[#[trigger] order[p]]) implies rule_serves(
        s,
        order[p],
    ) by {
        let i = order[p];
        assert(order.contains(i));
        assert(depends_on(a, root, i));
        assert(propagates(a[i]));
        assert(rule_serves(a, i));
        assert(s[i].rule == a[i].rule && s[i].value == a[i].value);
        assert forall|g: Tensor<E>, r: OxitorchResult<Vec<Tensor<E>>>|
            g.dims() == s[i].value.dims() && #[trigger] vjp_returned(s[i].rule->0, g, r) implies reply_fits(
            s,
            i,
            r,
        ) by {
            assert(reply_fits(a, i, r));
            assert(valid_node(a, i));
            let inputs = a[i].inputs@;
            assert forall|k: int| 0 <= k < inputs.len() implies unbroadcast_error(
                (#[trigger] r->Ok_0@[k]).dims(),
                s[inputs[k] as int].value.dims(),
            ) is None by {
                assert(inputs[k] < i);
                assert(s[inputs[k] as int].value == a[inputs[k] as int].value);
            }
        }
    }
    assert forall|i: int| 0 <= i < s.len() implies (#[trigger] s[i]).value.count()
        <= usize::MAX by {
        assert(a[i].value.count() <= usize::MAX);
    }
}

/// A built-in op that was recorded has a rule that serves its node, if its
/// gradient can be summed down to the operands (as every gradient that is not
/// empty can) and the kernel behind a matrix product keeps to its lengths.
pub proof fn law_builtin_ops_serve<E: Elem>(
    before: Graph<E, OpGrad<E>>,
    after: Graph<E, OpGrad<E>>,
    v: Var,
    value: Tensor<E>,
    name: Seq<char>,
    inputs: Seq<Var>,
    rule: OpGrad<E>,
)
    requires
        before.recording(),
        forall|k: int| 0 <= k < inputs.len() ==> before.has(#[trigger] inputs[k]),
        op_recorded(before, after, v, value, name, inputs, rule),
        kernel_keeps(rule),
        sums_fit(rule, value.dims()),
    ensures
        rule_serves(after.nodes(), v.id()),
{
    let nodes = after.nodes();
    let i = v.id();
    let held = choose|held: OpGrad<E>| #[trigger]
        call_ensures(<OpGrad<E> as VjpRule<E>>::from_builtin, (rule,), held) && recorded(
            before,
            after,
            v,
            value,
            name,
            inputs,
            held,
        );
    assert(held == rule);
    assert(nodes.last() == nodes[i]);
    assert forall|g: Tensor<E>, r: OxitorchResult<Vec<Tensor<E>>>|
        g.dims() == nodes[i].value.dims() && #[trigger] vjp_returned(
            nodes[i].rule->0,
            g,
            r,
        ) implies reply_fits(nodes, i, r) by {
        assert(rule.accepts(g));
        assert(r is Ok && rule.gives(g, r->Ok_0@));
        let grads = r->Ok_0@;
        law_rules_give_input_shapes(rule, g, grads);
        let ids = nodes[i].inputs@;
        assert(index_of(ids).len() == inputs.len());
        assert forall|k: int| 0 <= k < ids.len() implies unbroadcast_error(
            (#[trigger] grads[k]).dims(),
            nodes[ids[k] as int].value.dims(),
        ) is None by {
            assert(index_of(ids)[k] == ids[k]);
            assert(ids_of(inputs)[k] == inputs[k].id());
            assert(before.has(inputs[k]));
            let x = inputs[k].id();
            assert(nodes.drop_last()[x] == nodes[x]);
            assert(grads[k].dims() == before.node(inputs[k]).value.dims());
            lemma_unbroadcasts_own(grads[k].dims(), 0);
        }
    }
}

/// A rule goes on serving its node while the graph grows and gradients
/// change.
pub proof fn law_rules_keep_serving<E: Elem, V: VjpRule<E>>(
    a: Seq<Node<E, V>>,
    b: Seq<Node<E, V>>,
    i: int,
)
    requires
        valid_nodes(a),
        0 <= i < a.len() <= b.len(),
        forall|j: int| 0 <= j <= i ==> (#[trigger] b[j]).value == a[j].value,
        b[i].inputs == a[i].inputs,
        b[i].rule == a[i].rule,
        rule_serves(a, i),
    ensures
        rule_serves(b, i),
{
    assert(valid_node(a, i));
    assert(b[i].value == a[i].value);
    assert forall|g: Tensor<E>, r: OxitorchResult<Vec<Tensor<E>>>|
        g.dims() == b[i].value.dims() && #[trigger] vjp_returned(
            b[i].rule->0,
            g,
            r,
        ) implies reply_fits(b, i, r) by {
        assert(reply_fits(a, i, r));
        let inputs = a[i].inputs@;
        assert forall|k: int| 0 <= k < inputs.len() implies unbroadcast_error(
            (#[trigger] r->Ok_0@[k]).dims(),
            b[inputs[k] as int].value.dims(),
        ) is None by {
            assert(inputs[k] < i);
            assert(b[inputs[k] as int].value == a[inputs[k] as int].value);
        }
    }
}

} // verus!
