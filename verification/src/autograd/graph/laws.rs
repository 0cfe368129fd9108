//! What holds of every backward pass.

use vstd::prelude::*;
use crate::autograd::graph::{
    Graph, Node, Var, VjpRule, ids_of, lemma_valid_kept, recorded, same_structure, valid_node,
    valid_nodes, vjp_returned,
};
use crate::autograd::graph::pass::{
    accumulate_fails, accumulated, backward_fails, backward_result, cleared, contribution,
    contributions, handed_out, is_seed, missing_rule_error, node_step, pass, pass_fails, propagates,
    rule_used, step_fails,
};
use crate::autograd::ops::op_recorded;
use crate::autograd::rules::OpGrad;
use crate::autograd::topo::{depends_on, law_post_order, post_order};
use crate::autograd::unbroadcast::unbroadcast_result;
use crate::elem::Elem;
use crate::error::ErrorText;
use crate::index::index_of;
use crate::layout::law_broadcast_identity;
use crate::ops::BinaryOp;
use crate::tensor::Tensor;
use crate::tensor::elementwise::binary_result;

verus! {

/// `r` is the gradient `start` after the contributions `parts` were added to
/// it, one after the other.
pub open spec fn grad_after<E: Elem>(
    start: Option<Tensor<E>>,
    parts: Seq<Tensor<E>>,
    r: Option<Tensor<E>>,
) -> bool
    decreases parts.len(),
{
    if parts.len() == 0 {
        r == start
    } else {
        exists|m: Option<Tensor<E>>|
            grad_after(start, parts.drop_last(), m) && #[trigger] grad_plus(m, parts.last(), r)
    }
}

/// `r` is the gradient `had` plus `part`.
pub open spec fn grad_plus<E: Elem>(
    had: Option<Tensor<E>>,
    part: Tensor<E>,
    r: Option<Tensor<E>>,
) -> bool {
    match had {
        None => r == Some(part),
        Some(h) => r is Some && binary_result(BinaryOp::Add, h, part, r->0),
    }
}

/// `r` is the gradient `start` plus some contributions.
pub open spec fn grad_grew<E: Elem>(start: Option<Tensor<E>>, r: Option<Tensor<E>>) -> bool {
    exists|parts: Seq<Tensor<E>>| #[trigger] grad_after(start, parts, r)
}

/// From `a` to `b` gradients only accumulate, and only where they are
/// required; nothing else changes.
pub open spec fn only_accumulates<E: Elem, V>(a: Seq<Node<E, V>>, b: Seq<Node<E, V>>) -> bool {
    &&& same_structure(a, b)
    &&& forall|i: int| 0 <= i < a.len() ==> grad_grew(a[i].grad, (#[trigger] b[i]).grad)
    &&& forall|i: int|
        0 <= i < a.len() && !a[i].requires_grad ==> (#[trigger] b[i]).grad == a[i].grad
}

proof fn lemma_grew_same<E: Elem>(g: Option<Tensor<E>>)
    ensures
        grad_grew(g, g),
{
    assert(grad_after(g, Seq::<Tensor<E>>::empty(), g));
}

proof fn lemma_grew_step<E: Elem>(
    a: Option<Tensor<E>>,
    m: Option<Tensor<E>>,
    part: Tensor<E>,
    b: Option<Tensor<E>>,
)
    requires
        grad_grew(a, m),
        grad_plus(m, part, b),
    ensures
        grad_grew(a, b),
{
    let parts = choose|parts: Seq<Tensor<E>>| #[trigger] grad_after(a, parts, m);
    let more = parts.push(part);
    assert(more.drop_last() =~= parts);
    assert(more.last() == part);
    assert(grad_after(a, more, b));
}

proof fn lemma_grew_trans<E: Elem>(
    a: Option<Tensor<E>>,
    m: Option<Tensor<E>>,
    parts: Seq<Tensor<E>>,
    b: Option<Tensor<E>>,
)
    requires
        grad_grew(a, m),
        grad_after(m, parts, b),
    ensures
        grad_grew(a, b),
    decreases parts.len(),
{
    if parts.len() > 0 {
        let x = choose|x: Option<Tensor<E>>|
            grad_after(m, parts.drop_last(), x) && #[trigger] grad_plus(x, parts.last(), b);
        lemma_grew_trans(a, m, parts.drop_last(), x);
        lemma_grew_step(a, x, parts.last(), b);
    }
}

proof fn lemma_contribution<E: Elem, V>(
    a: Seq<Node<E, V>>,
    i: int,
    g: Tensor<E>,
    b: Seq<Node<E, V>>,
)
    requires
        0 <= i < a.len(),
        contribution(a, i, g, b),
    ensures
        only_accumulates(a, b),
        forall|j: int| 0 <= j < a.len() ==> (#[trigger] b[j]).rule == a[j].rule,
        forall|j: int| 0 <= j < a.len() && j != i ==> #[trigger] b[j] == a[j],
{
    assert forall|j: int| 0 <= j < a.len() implies grad_grew(a[j].grad, (#[trigger] b[j]).grad) by {
        lemma_grew_same(a[j].grad);
        if a[i].requires_grad && j == i {
            let r = choose|r: Tensor<E>| #[trigger]
                unbroadcast_result(g, a[i].value.dims(), r) && accumulated(a, i, r, b);
            assert(grad_plus(a[i].grad, r, b[i].grad));
            lemma_grew_step(a[i].grad, a[i].grad, r, b[i].grad);
        }
    }
}

pub(crate) proof fn lemma_contributions<E: Elem, V>(
    a: Seq<Node<E, V>>,
    inputs: Seq<usize>,
    grads: Seq<Tensor<E>>,
    k: int,
    b: Seq<Node<E, V>>,
)
    requires
        0 <= k <= inputs.len(),
        forall|j: int| 0 <= j < inputs.len() ==> #[trigger] inputs[j] < a.len(),
        contributions(a, inputs, grads, k, b),
    ensures
        only_accumulates(a, b),
        forall|j: int| 0 <= j < a.len() ==> (#[trigger] b[j]).rule == a[j].rule,
        forall|j: int|
            0 <= j < a.len() && !index_of(inputs).contains(j) ==> #[trigger] b[j] == a[j],
    decreases k,
{
    if k == 0 {
        assert forall|j: int| 0 <= j < a.len() implies grad_grew(
            a[j].grad,
            (#[trigger] b[j]).grad,
        ) by {
            lemma_grew_same(a[j].grad);
        }
    } else {
        let m = choose|m: Seq<Node<E, V>>|
            contributions(a, inputs, grads, k - 1, m) && #[trigger] contribution(
                m,
                inputs[k - 1] as int,
                grads[k - 1],
                b,
            );
        lemma_contributions(a, inputs, grads, k - 1, m);
        lemma_contribution(m, inputs[k - 1] as int, grads[k - 1], b);
        lemma_accumulates_trans(a, m, b);
        assert(index_of(inputs)[k - 1] == inputs[k - 1]);
        assert forall|j: int| 0 <= j < a.len() implies (#[trigger] b[j]).rule == a[j].rule by {
            assert(m[j].rule == a[j].rule);
        }
        assert forall|j: int|
            0 <= j < a.len() && !index_of(inputs).contains(j) implies #[trigger] b[j] == a[j] by {
            assert(m[j] == a[j]);
        }
    }
}

proof fn lemma_accumulates_trans<E: Elem, V>(
    a: Seq<Node<E, V>>,
    m: Seq<Node<E, V>>,
    b: Seq<Node<E, V>>,
)
    requires
        only_accumulates(a, m),
        only_accumulates(m, b),
    ensures
        only_accumulates(a, b),
{
    assert forall|i: int| 0 <= i < a.len() implies (#[trigger] b[i]).value == a[i].value && b[i].op
        == a[i].op && b[i].inputs == a[i].inputs && b[i].requires_grad == a[i].requires_grad by {
        assert(m[i].value == a[i].value);
    }
    assert forall|i: int| 0 <= i < a.len() implies grad_grew(a[i].grad, (#[trigger] b[i]).grad) by {
        assert(grad_grew(a[i].grad, m[i].grad));
        assert(grad_grew(m[i].grad, b[i].grad));
        let parts = choose|parts: Seq<Tensor<E>>| #[trigger]
            grad_after(m[i].grad, parts, b[i].grad);
        lemma_grew_trans(a[i].grad, m[i].grad, parts, b[i].grad);
    }
    assert forall|i: int| 0 <= i < a.len() && !a[i].requires_grad implies (#[trigger] b[i]).grad
        == a[i].grad by {
        assert(m[i].grad == a[i].grad);
        assert(!m[i].requires_grad);
    }
}

pub(crate) proof fn lemma_node_step<E: Elem, V: VjpRule<E>>(
    a: Seq<Node<E, V>>,
    id: int,
    retain: bool,
    b: Seq<Node<E, V>>,
)
    requires
        valid_nodes(a),
        0 <= id < a.len(),
        node_step(a, id, retain, b),
    ensures
        only_accumulates(a, b),
        forall|j: int|
            0 <= j < a.len() ==> (#[trigger] b[j]).rule == if j == id && propagates(a[id])
                && !retain {
                None
            } else {
                a[j].rule
            },
        forall|j: int|
            0 <= j < a.len() && j != id && !index_of(a[id].inputs@).contains(j)
                ==> #[trigger] b[j] == a[j],
{
    if propagates(a[id]) {
        let n = a[id];
        let grads = choose|grads: Vec<Tensor<E>>| #[trigger]
            vjp_returned(n.rule->0, n.grad->0, Ok(grads)) && contributions(
                rule_used(a, id, retain),
                n.inputs@,
                grads@,
                handed_out(n.inputs@, grads@),
                b,
            );
        let s = rule_used(a, id, retain);
        assert(valid_node(a, id));
        lemma_contributions(s, n.inputs@, grads@, handed_out(n.inputs@, grads@), b);
        assert(only_accumulates(a, s)) by {
            assert forall|j: int| 0 <= j < a.len() implies grad_grew(
                a[j].grad,
                (#[trigger] s[j]).grad,
            ) by {
                lemma_grew_same(a[j].grad);
            }
        }
        lemma_accumulates_trans(a, s, b);
        assert forall|j: int|
            0 <= j < a.len() && j != id && !index_of(a[id].inputs@).contains(
                j,
            ) implies #[trigger] b[j] == a[j] by {
            assert(s[j] == a[j]);
        }
        assert forall|j: int| 0 <= j < a.len() implies (#[trigger] b[j]).rule == if j == id
            && propagates(a[id]) && !retain {
            None
        } else {
            a[j].rule
        } by {
            assert(b[j].rule == s[j].rule);
        }
    } else {
        assert forall|j: int| 0 <= j < a.len() implies grad_grew(
            a[j].grad,
            (#[trigger] b[j]).grad,
        ) by {
            lemma_grew_same(a[j].grad);
        }
    }
}

/// The last `k` entries of `order`.
pub(crate) open spec fn tail_has(order: Seq<int>, k: int, x: int) -> bool {
    exists|p: int| order.len() - k <= p < order.len() && #[trigger] order[p] == x
}

pub(crate) proof fn lemma_pass<E: Elem, V: VjpRule<E>>(
    a: Seq<Node<E, V>>,
    order: Seq<int>,
    retain: bool,
    k: int,
    b: Seq<Node<E, V>>,
)
    requires
        valid_nodes(a),
        0 <= k <= order.len(),
        forall|p: int| 0 <= p < order.len() ==> 0 <= #[trigger] order[p] < a.len(),
        forall|p: int, j: int|
            #![trigger a[order[p]].inputs@[j]]
            0 <= p < order.len() && 0 <= j < a[order[p]].inputs@.len() ==> order.contains(
                a[order[p]].inputs@[j] as int,
            ),
        pass(a, order, retain, k, b),
    ensures
        only_accumulates(a, b),
        forall|j: int|
            0 <= j < a.len() ==> (#[trigger] b[j]).rule == if tail_has(order, k, j) && propagates(
                a[j],
            ) && !retain {
                None
            } else {
                a[j].rule
            },
        forall|j: int| 0 <= j < a.len() && !order.contains(j) ==> #[trigger] b[j] == a[j],
    decreases k,
{
    if k == 0 {
        assert forall|j: int| 0 <= j < a.len() implies grad_grew(
            a[j].grad,
            (#[trigger] b[j]).grad,
        ) by {
            lemma_grew_same(a[j].grad);
        }
    } else {
        let id = order[order.len() - k];
        let m = choose|m: Seq<Node<E, V>>|
            pass(a, order, retain, k - 1, m) && #[trigger] node_step(
                m,
                order[order.len() - k],
                retain,
                b,
            );
        lemma_pass(a, order, retain, k - 1, m);
        lemma_valid_kept(a, m);
        lemma_node_step(m, id, retain, b);
        lemma_accumulates_trans(a, m, b);
        assert(m[id].inputs == a[id].inputs);
        assert(propagates(m[id]) == propagates(a[id]));
        assert forall|j: int| 0 <= j < a.len() implies (#[trigger] b[j]).rule == if tail_has(
            order,
            k,
            j,
        ) && propagates(a[j]) && !retain {
            None
        } else {
            a[j].rule
        } by {
            assert(m[j].rule == if tail_has(order, k - 1, j) && propagates(a[j]) && !retain {
                None
            } else {
                a[j].rule
            });
            if tail_has(order, k - 1, j) {
                assert(tail_has(order, k, j));
            }
            if j == id {
                assert(order[order.len() - k] == j);
                assert(tail_has(order, k, j));
            } else if tail_has(order, k, j) {
                let p = choose|p: int| order.len() - k <= p < order.len() && #[trigger] order[p] == j;
                assert(p != order.len() - k);
                assert(tail_has(order, k - 1, j));
            }
        }
        assert forall|j: int| 0 <= j < a.len() && !order.contains(j) implies #[trigger] b[j]
            == a[j] by {
            assert(m[j] == a[j]);
            assert(order[order.len() - k] == id);
            assert(j != id);
            if index_of(m[id].inputs@).contains(j) {
                let q = choose|q: int|
                    0 <= q < index_of(m[id].inputs@).len() && index_of(m[id].inputs@)[q] == j;
                assert(a[order[order.len() - k]].inputs@[q] as int == j);
            }
        }
    }
}

/// What a successful pass does to each node.
proof fn lemma_backward<E: Elem, V: VjpRule<E>>(
    a: Seq<Node<E, V>>,
    root: int,
    given: Option<Tensor<E>>,
    retain: bool,
    b: Seq<Node<E, V>>,
)
    requires
        valid_nodes(a),
        0 <= root < a.len(),
        backward_result(a, root, given, retain, b),
    ensures
        same_structure(a, b),
        forall|j: int|
            0 <= j < a.len() ==> grad_grew(
                cleared(a, post_order(a, root))[j].grad,
                (#[trigger] b[j]).grad,
            ),
        forall|j: int|
            0 <= j < a.len() && !a[j].requires_grad ==> (#[trigger] b[j]).grad == cleared(
                a,
                post_order(a, root),
            )[j].grad,
        forall|j: int|
            0 <= j < a.len() ==> (#[trigger] b[j]).rule == if post_order(a, root).contains(j)
                && propagates(a[j]) && !retain {
                None
            } else {
                a[j].rule
            },
        forall|j: int|
            0 <= j < a.len() && !post_order(a, root).contains(j) ==> #[trigger] b[j] == a[j],
{
    let order = post_order(a, root);
    law_post_order(a, root);
    let base = cleared(a, order);
    let (seed, s) = choose|seed: Tensor<E>, s: Seq<Node<E, V>>| #[trigger]
        is_seed(a[root], given, seed) && #[trigger] accumulated(base, root, seed, s) && pass(
            s,
            order,
            retain,
            order.len() as int,
            b,
        );
    assert(order.contains(root)) by {
        assert(order[order.len() - 1] == root);
    }
    assert(same_structure(a, base));
    assert(same_structure(a, s));
    lemma_valid_kept(a, s);
    assert forall|p: int, j: int|
        #![trigger s[order[p]].inputs@[j]]
        0 <= p < order.len() && 0 <= j < s[order[p]].inputs@.len() implies order.contains(
        s[order[p]].inputs@[j] as int,
    ) by {
        assert(s[order[p]].inputs == a[order[p]].inputs);
        let u = a[order[p]].inputs@[j] as int;
        assert(order.take(p).contains(u));
        let q = choose|q: int| 0 <= q < order.take(p).len() && order.take(p)[q] == u;
        assert(order[q] == u);
    }
    lemma_pass(s, order, retain, order.len() as int, b);
    assert(grad_plus(base[root].grad, seed, s[root].grad));
    assert forall|j: int| 0 <= j < a.len() implies grad_grew(
        base[j].grad,
        (#[trigger] b[j]).grad,
    ) by {
        lemma_grew_same(base[j].grad);
        if j == root {
            lemma_grew_step(base[j].grad, base[j].grad, seed, s[j].grad);
        } else {
            assert(s[j] == base[j]);
        }
        assert(grad_grew(s[j].grad, b[j].grad));
        let parts = choose|parts: Seq<Tensor<E>>| #[trigger]
            grad_after(s[j].grad, parts, b[j].grad);
        lemma_grew_trans(base[j].grad, s[j].grad, parts, b[j].grad);
    }
    assert forall|j: int| 0 <= j < a.len() implies (#[trigger] b[j]).rule == if order.contains(j)
        && propagates(a[j]) && !retain {
        None
    } else {
        a[j].rule
    } by {
        assert(s[j].rule == a[j].rule);
        assert(propagates(s[j]) == propagates(a[j]));
        if order.contains(j) {
            let p = choose|p: int| 0 <= p < order.len() && order[p] == j;
            assert(tail_has(order, order.len() as int, j));
        }
        if tail_has(order, order.len() as int, j) {
            let p = choose|p: int| 0 <= p < order.len() && #[trigger] order[p] == j;
            assert(order.contains(j));
        }
    }
    assert forall|j: int| 0 <= j < a.len() && !order.contains(j) implies #[trigger] b[j] == a[j] by {
        assert(b[j] == s[j]);
        assert(s[j] == base[j]);
    }
    assert forall|j: int| 0 <= j < a.len() && !a[j].requires_grad implies (#[trigger] b[j]).grad
        == base[j].grad by {
        assert(j != root);
        assert(s[j] == base[j]);
        assert(b[j].grad == s[j].grad);
    }
    assert forall|i: int| 0 <= i < a.len() implies (#[trigger] b[i]).value == a[i].value && b[i].op
        == a[i].op && b[i].inputs == a[i].inputs && b[i].requires_grad == a[i].requires_grad by {
        assert(s[i].value == a[i].value);
    }
}

/// A pass changes nothing outside the nodes that its root depends on.
pub proof fn law_backward_is_local<E: Elem, V: VjpRule<E>>(
    a: Seq<Node<E, V>>,
    root: int,
    given: Option<Tensor<E>>,
    retain: bool,
    b: Seq<Node<E, V>>,
    j: int,
)
    requires
        valid_nodes(a),
        0 <= root < a.len(),
        0 <= j < a.len(),
        backward_result(a, root, given, retain, b),
        !depends_on(a, root, j),
    ensures
        b[j] == a[j],
{
    lemma_backward(a, root, given, retain, b);
    law_post_order(a, root);
    assert(!post_order(a, root).contains(j));
}

/// Values, ops, inputs and flags survive every pass, and a node that does not
/// require a gradient never gains one.
pub proof fn law_backward_touches_required_only<E: Elem, V: VjpRule<E>>(
    a: Seq<Node<E, V>>,
    root: int,
    given: Option<Tensor<E>>,
    retain: bool,
    b: Seq<Node<E, V>>,
    j: int,
)
    requires
        valid_nodes(a),
        0 <= root < a.len(),
        0 <= j < a.len(),
        backward_result(a, root, given, retain, b),
    ensures
        same_structure(a, b),
        !a[j].requires_grad ==> b[j].grad == a[j].grad || b[j].grad is None,
        !a[j].requires_grad && a[j].op is None ==> b[j].grad == a[j].grad,
{
    lemma_backward(a, root, given, retain, b);
    let base = cleared(a, post_order(a, root));
    assert(!a[j].requires_grad ==> b[j].grad == base[j].grad);
}

/// Leaf gradients accumulate across passes: after a pass a leaf's gradient is
/// the one it had plus this pass's contributions, so it is never lost.
pub proof fn law_leaf_gradients_accumulate<E: Elem, V: VjpRule<E>>(
    a: Seq<Node<E, V>>,
    root: int,
    given: Option<Tensor<E>>,
    retain: bool,
    b: Seq<Node<E, V>>,
    j: int,
)
    requires
        valid_nodes(a),
        0 <= root < a.len(),
        0 <= j < a.len(),
        backward_result(a, root, given, retain, b),
        a[j].op is None,
    ensures
        grad_grew(a[j].grad, b[j].grad),
        a[j].grad is Some ==> b[j].grad is Some,
{
    lemma_backward(a, root, given, retain, b);
    let base = cleared(a, post_order(a, root));
    assert(base[j] == a[j]);
    assert(grad_grew(base[j].grad, b[j].grad));
    let parts = choose|parts: Seq<Tensor<E>>| #[trigger] grad_after(a[j].grad, parts, b[j].grad);
    if a[j].grad is Some {
        lemma_grad_stays(a[j].grad, parts, b[j].grad);
    }
}

pub(crate) proof fn lemma_grad_stays<E: Elem>(
    a: Option<Tensor<E>>,
    parts: Seq<Tensor<E>>,
    b: Option<Tensor<E>>,
)
    requires
        grad_after(a, parts, b),
        a is Some,
    ensures
        b is Some,
    decreases parts.len(),
{
    if parts.len() > 0 {
        let m = choose|m: Option<Tensor<E>>|
            grad_after(a, parts.drop_last(), m) && #[trigger] grad_plus(m, parts.last(), b);
        lemma_grad_stays(a, parts.drop_last(), m);
    }
}

/// The gradients of op nodes are transient: a pass rebuilds them from its own
/// contributions alone, whatever an earlier pass left there.
pub proof fn law_op_gradients_are_rebuilt<E: Elem, V: VjpRule<E>>(
    a: Seq<Node<E, V>>,
    root: int,
    given: Option<Tensor<E>>,
    retain: bool,
    b: Seq<Node<E, V>>,
    j: int,
)
    requires
        valid_nodes(a),
        0 <= root < a.len(),
        0 <= j < a.len(),
        backward_result(a, root, given, retain, b),
        a[j].op is Some,
        depends_on(a, root, j),
    ensures
        grad_grew(None::<Tensor<E>>, b[j].grad),
{
    lemma_backward(a, root, given, retain, b);
    law_post_order(a, root);
    let base = cleared(a, post_order(a, root));
    assert(base[j].grad is None);
    assert(grad_grew(base[j].grad, b[j].grad));
}

/// A pass frees the rules that it ran, unless the graph is retained; then all
/// rules stay.
pub proof fn law_backward_frees_rules<E: Elem, V: VjpRule<E>>(
    a: Seq<Node<E, V>>,
    root: int,
    given: Option<Tensor<E>>,
    retain: bool,
    b: Seq<Node<E, V>>,
    j: int,
)
    requires
        valid_nodes(a),
        0 <= root < a.len(),
        0 <= j < a.len(),
        backward_result(a, root, given, retain, b),
    ensures
        retain ==> b[j].rule == a[j].rule,
        !retain && depends_on(a, root, j) && propagates(a[j]) ==> b[j].rule is None,
{
    lemma_backward(a, root, given, retain, b);
    law_post_order(a, root);
    assert(post_order(a, root).contains(j) <==> depends_on(a, root, j));
}

/// A graph can be walked backward once: after a pass that freed the rules,
/// another pass from the same op node never succeeds, and when it gets as far
/// as running, its complaint says so.
pub proof fn law_second_backward_fails<E: Elem, V: VjpRule<E>>(
    a: Seq<Node<E, V>>,
    root: int,
    first: Option<Tensor<E>>,
    b: Seq<Node<E, V>>,
    second: Option<Tensor<E>>,
    retain: bool,
    e: ErrorText,
    c: Seq<Node<E, V>>,
)
    requires
        valid_nodes(a),
        0 <= root < a.len(),
        a[root].op is Some,
        backward_result(a, root, first, false, b),
    ensures
        !backward_result(b, root, second, retain, c),
        backward_fails(b, root, second, retain, e, c) && (second is Some
            || b[root].value.count() == 1) ==> e == missing_rule_error(retain),
{
    lemma_backward(a, root, first, false, b);
    law_post_order(a, root);
    assert(depends_on(a, root, root));
    assert(propagates(a[root]));
    assert(b[root].rule is None);
    lemma_valid_kept(a, b);
    let order = post_order(b, root);
    law_post_order(b, root);
    assert(order.contains(root)) by {
        assert(order[order.len() - 1] == root);
    }
    let base = cleared(b, order);
    assert(base[root].grad is None && base[root].rule is None && propagates(base[root]));
    if backward_result(b, root, second, retain, c) {
        let (seed, s) = choose|seed: Tensor<E>, s: Seq<Node<E, V>>| #[trigger]
            is_seed(b[root], second, seed) && #[trigger] accumulated(base, root, seed, s) && pass(
                s,
                order,
                retain,
                order.len() as int,
                c,
            );
        assert(s[root].rule is None && propagates(s[root]));
        lemma_first_step_runs(s, order, retain, order.len() as int, c);
    }
    if backward_fails(b, root, second, retain, e, c) && (second is Some || b[root].value.count()
        == 1) {
        assert(pass_fails(b, root, second, retain, e, c));
        assert(!(exists|seed: Tensor<E>| #[trigger]
            is_seed(b[root], second, seed) && accumulate_fails(base, root, seed, e, c)));
        let (seed, s, k, m) = choose|
            seed: Tensor<E>,
            s: Seq<Node<E, V>>,
            k: int,
            m: Seq<Node<E, V>>,
        |
            0 <= k < order.len() && #[trigger] is_seed(b[root], second, seed)
                && #[trigger] accumulated(base, root, seed, s) && #[trigger] pass(
                s,
                order,
                retain,
                k,
                m,
            ) && step_fails(m, order[order.len() - 1 - k], retain, e, c);
        assert(s[root].rule is None && propagates(s[root]) && s[root].grad is Some);
        if k > 0 {
            lemma_first_step_runs(s, order, retain, k, m);
        } else {
            assert(m == s);
            assert(order[order.len() - 1] == root);
        }
    }
}

/// A pass of at least one step has run its root's rule.
proof fn lemma_first_step_runs<E: Elem, V: VjpRule<E>>(
    a: Seq<Node<E, V>>,
    order: Seq<int>,
    retain: bool,
    k: int,
    b: Seq<Node<E, V>>,
)
    requires
        0 < k <= order.len(),
        pass(a, order, retain, k, b),
        propagates(a[order.last()]),
    ensures
        a[order.last()].rule is Some,
    decreases k,
{
    let m = choose|m: Seq<Node<E, V>>|
        pass(a, order, retain, k - 1, m) && #[trigger] node_step(
            m,
            order[order.len() - k],
            retain,
            b,
        );
    if k == 1 {
        assert(m == a);
        assert(node_step(a, order[order.len() - 1], retain, b));
    } else {
        lemma_first_step_runs(a, order, retain, k - 1, m);
    }
}

/// Every gradient has the shape of its node's value.
pub open spec fn grads_fit<E, V>(nodes: Seq<Node<E, V>>) -> bool {
    forall|i: int|
        0 <= i < nodes.len() && (#[trigger] nodes[i]).grad is Some ==> (nodes[i].grad->0).dims()
            == nodes[i].value.dims()
}

pub(crate) proof fn lemma_accumulated_fits<E: Elem, V>(
    a: Seq<Node<E, V>>,
    i: int,
    g: Tensor<E>,
    b: Seq<Node<E, V>>,
)
    requires
        0 <= i < a.len(),
        grads_fit(a),
        g.dims() == a[i].value.dims(),
        accumulated(a, i, g, b),
    ensures
        grads_fit(b),
        same_structure(a, b),
{
    law_broadcast_identity(g.dims());
    assert forall|j: int| 0 <= j < b.len() && (#[trigger] b[j]).grad is Some implies (
    b[j].grad->0).dims() == b[j].value.dims() by {
        assert(a[j].grad is Some ==> (a[j].grad->0).dims() == a[j].value.dims());
    }
}

pub(crate) proof fn lemma_contributions_fit<E: Elem, V>(
    a: Seq<Node<E, V>>,
    inputs: Seq<usize>,
    grads: Seq<Tensor<E>>,
    k: int,
    b: Seq<Node<E, V>>,
)
    requires
        0 <= k <= inputs.len(),
        forall|j: int| 0 <= j < inputs.len() ==> #[trigger] inputs[j] < a.len(),
        grads_fit(a),
        contributions(a, inputs, grads, k, b),
    ensures
        grads_fit(b),
        same_structure(a, b),
    decreases k,
{
    if k > 0 {
        let i = inputs[k - 1] as int;
        let m = choose|m: Seq<Node<E, V>>|
            contributions(a, inputs, grads, k - 1, m) && #[trigger] contribution(
                m,
                inputs[k - 1] as int,
                grads[k - 1],
                b,
            );
        lemma_contributions_fit(a, inputs, grads, k - 1, m);
        if m[i].requires_grad {
            let r = choose|r: Tensor<E>| #[trigger]
                unbroadcast_result(grads[k - 1], m[i].value.dims(), r) && accumulated(m, i, r, b);
            lemma_accumulated_fits(m, i, r, b);
        }
    }
}

pub(crate) proof fn lemma_pass_fits<E: Elem, V: VjpRule<E>>(
    a: Seq<Node<E, V>>,
    order: Seq<int>,
    retain: bool,
    k: int,
    b: Seq<Node<E, V>>,
)
    requires
        valid_nodes(a),
        0 <= k <= order.len(),
        forall|p: int| 0 <= p < order.len() ==> 0 <= #[trigger] order[p] < a.len(),
        grads_fit(a),
        pass(a, order, retain, k, b),
    ensures
        grads_fit(b),
        same_structure(a, b),
    decreases k,
{
    if k > 0 {
        let id = order[order.len() - k];
        let m = choose|m: Seq<Node<E, V>>|
            pass(a, order, retain, k - 1, m) && #[trigger] node_step(
                m,
                order[order.len() - k],
                retain,
                b,
            );
        lemma_pass_fits(a, order, retain, k - 1, m);
        lemma_valid_kept(a, m);
        let n = m[id];
        if propagates(n) {
            let used = rule_used(m, id, retain);
            let grads = choose|grads: Vec<Tensor<E>>| #[trigger]
                vjp_returned(n.rule->0, n.grad->0, Ok(grads)) && contributions(
                    used,
                    n.inputs@,
                    grads@,
                    handed_out(n.inputs@, grads@),
                    b,
                );
            assert(valid_node(m, id));
            assert(grads_fit(used)) by {
                assert forall|j: int| 0 <= j < used.len() && (#[trigger] used[j]).grad is Some implies (
                used[j].grad->0).dims() == used[j].value.dims() by {
                    assert(m[j].grad == used[j].grad);
                }
            }
            lemma_contributions_fit(
                used,
                n.inputs@,
                grads@,
                handed_out(n.inputs@, grads@),
                b,
            );
        }
    }
}

/// A pass keeps gradients in the shapes of their nodes, however operands were
/// broadcast on the way, if its seed has the shape of the root.
pub proof fn law_gradients_keep_shapes<E: Elem, V: VjpRule<E>>(
    a: Seq<Node<E, V>>,
    root: int,
    given: Option<Tensor<E>>,
    retain: bool,
    b: Seq<Node<E, V>>,
)
    requires
        valid_nodes(a),
        0 <= root < a.len(),
        grads_fit(a),
        given is Some ==> (given->0).dims() == a[root].value.dims(),
        backward_result(a, root, given, retain, b),
    ensures
        grads_fit(b),
{
    let order = post_order(a, root);
    law_post_order(a, root);
    let base = cleared(a, order);
    let (seed, s) = choose|seed: Tensor<E>, s: Seq<Node<E, V>>| #[trigger]
        is_seed(a[root], given, seed) && #[trigger] accumulated(base, root, seed, s) && pass(
            s,
            order,
            retain,
            order.len() as int,
            b,
        );
    assert(grads_fit(base)) by {
        assert forall|j: int| 0 <= j < base.len() && (#[trigger] base[j]).grad is Some implies (
        base[j].grad->0).dims() == base[j].value.dims() by {
            assert(a[j].grad == base[j].grad);
        }
    }
    lemma_accumulated_fits(base, root, seed, s);
    assert(same_structure(a, s)) by {
        assert forall|i: int| 0 <= i < a.len() implies (#[trigger] s[i]).value == a[i].value
            && s[i].op == a[i].op && s[i].inputs == a[i].inputs && s[i].requires_grad
            == a[i].requires_grad by {
            assert(base[i].value == a[i].value);
        }
    }
    lemma_valid_kept(a, s);
    lemma_pass_fits(s, order, retain, order.len() as int, b);
}

/// An op's result requires a gradient exactly when the graph records and one
/// of its inputs requires one; a result that was not recorded is a leaf
/// without inputs or rule. What was there stays.
pub proof fn law_recording<E: Elem, V: VjpRule<E>>(
    before: Graph<E, V>,
    after: Graph<E, V>,
    v: Var,
    value: Tensor<E>,
    name: Seq<char>,
    inputs: Seq<Var>,
    rule: OpGrad<E>,
    k: int,
)
    requires
        op_recorded(before, after, v, value, name, inputs, rule),
    ensures
        after.node(v).value == value,
        after.node(v).grad is None,
        after.node(v).requires_grad <==> before.recording() && exists|i: int|
            0 <= i < inputs.len() && before.node(#[trigger] inputs[i]).requires_grad,
        before.recording() ==> after.node(v).op is Some && after.node(v).op->0@ == name
            && after.node(v).rule is Some && after.node(v).inputs@.len() == inputs.len(),
        before.recording() && 0 <= k < inputs.len() ==> after.node(v).inputs@[k] == inputs[k].id(),
        !before.recording() ==> after.node(v).op is None && after.node(v).rule is None && after.node(
            v,
        ).inputs@.len() == 0,
        forall|i: int|
            0 <= i < before.nodes().len() ==> #[trigger] after.nodes()[i] == before.nodes()[i],
{
    let held = choose|held: V| #[trigger]
        call_ensures(V::from_builtin, (rule,), held) && recorded(
            before,
            after,
            v,
            value,
            name,
            inputs,
            held,
        );
    let n = after.nodes().last();
    assert(after.node(v) == n);
    if before.recording() {
        assert(index_of(n.inputs@).len() == inputs.len());
        if 0 <= k < inputs.len() {
            assert(index_of(n.inputs@)[k] == ids_of(inputs)[k]);
        }
    }
    assert forall|i: int| 0 <= i < before.nodes().len() implies #[trigger] after.nodes()[i]
        == before.nodes()[i] by {
        assert(after.nodes().drop_last()[i] == after.nodes()[i]);
    }
}

} // verus!
