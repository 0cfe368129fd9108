//! That a backward pass computes gradients by the chain rule.

use vstd::prelude::*;
use crate::autograd::graph::{
    Node, VjpRule, lemma_valid_kept, same_structure, valid_node, valid_nodes, vjp_returned,
    with_grad,
};
use crate::autograd::graph::laws::{grads_fit, lemma_accumulated_fits, tail_has};
use crate::autograd::graph::pass::{
    accumulated, backward_result, cleared, contribution, contributions, handed_out, is_seed,
    node_step, pass, propagates, rule_used,
};
use crate::autograd::topo::{depends_on, law_post_order, post_order};
use crate::autograd::unbroadcast::unbroadcast_result;
use crate::elem::{Elem, is_one};
use crate::exact::{Exact, lemma_total_equal, total};
use crate::exact::gradients::law_elementwise;
use crate::exact::totals::{lemma_total_plus, lemma_total_single, lemma_total_zero};
use crate::index::index_of;
use crate::ops::BinaryOp;
use crate::tensor::Tensor;
use crate::tensor::elementwise::binary_result;

verus! {

/// The gradient that a node holds at position `p`; none counts as zero.
pub open spec fn held<E, V>(m: Exact<E>, n: Node<E, V>, p: int) -> real {
    match n.grad {
        Some(t) => m.num(t, p),
        None => 0real,
    }
}

/// What part `j` of a node's reply gives to node `i` at position `p`: its own
/// number where `i` is input `j`.
pub open spec fn slot<E>(
    m: Exact<E>,
    inputs: Seq<usize>,
    parts: Seq<Tensor<E>>,
    i: int,
    p: int,
    j: int,
) -> real {
    if inputs[j] == i {
        m.num(parts[j], p)
    } else {
        0real
    }
}

/// What a node's reply gives to node `i` at position `p`, over all inputs.
pub open spec fn handed_to<E>(
    m: Exact<E>,
    inputs: Seq<usize>,
    parts: Seq<Tensor<E>>,
    i: int,
    p: int,
) -> real {
    total(|j: int| slot(m, inputs, parts, i, p, j), parts.len())
}

/// That `parts` are what the rule of node `c` returned for the output gradient
/// `up`, each summed down to the shape of its input.
pub open spec fn answered<E: Elem, V: VjpRule<E>>(
    nodes: Seq<Node<E, V>>,
    c: int,
    up: Tensor<E>,
    parts: Seq<Tensor<E>>,
) -> bool {
    exists|grads: Vec<Tensor<E>>| #[trigger]
        vjp_returned(nodes[c].rule->0, up, Ok(grads)) && answered_with(nodes, c, grads@, parts)
}

/// That `parts` are `grads`, each summed down to the shape of its input, one
/// per input as far as there are.
pub open spec fn answered_with<E: Elem, V>(
    nodes: Seq<Node<E, V>>,
    c: int,
    grads: Seq<Tensor<E>>,
    parts: Seq<Tensor<E>>,
) -> bool {
    let inputs = nodes[c].inputs@;
    &&& parts.len() == if grads.len() < inputs.len() {
        grads.len()
    } else {
        inputs.len()
    }
    &&& forall|j: int|
        0 <= j < parts.len() && nodes[inputs[j] as int].requires_grad ==> unbroadcast_result(
            grads[j],
            nodes[inputs[j] as int].value.dims(),
            #[trigger] parts[j],
        )
}

proof fn lemma_accumulate<E: Elem, V>(
    m: Exact<E>,
    a: Seq<Node<E, V>>,
    i: int,
    g: Tensor<E>,
    b: Seq<Node<E, V>>,
)
    requires
        m.arithmetic(),
        0 <= i < a.len(),
        grads_fit(a),
        g.dims() == a[i].value.dims(),
        accumulated(a, i, g, b),
    ensures
        grads_fit(b),
        same_structure(a, b),
        forall|x: int, p: int|
            0 <= x < a.len() && 0 <= p < a[x].value.count() ==> #[trigger] held(m, b[x], p) == held(
                m,
                a[x],
                p,
            ) + if x == i {
                m.num(g, p)
            } else {
                0real
            },
        forall|x: int| 0 <= x < a.len() && x != i ==> #[trigger] b[x] == a[x],
        forall|x: int| 0 <= x < a.len() ==> (#[trigger] b[x]).rule == a[x].rule,
{
    lemma_accumulated_fits(a, i, g, b);
    assert forall|x: int, p: int|
        0 <= x < a.len() && 0 <= p < a[x].value.count() implies #[trigger] held(m, b[x], p) == held(
        m,
        a[x],
        p,
    ) + if x == i {
        m.num(g, p)
    } else {
        0real
    } by {
        if x == i {
            match a[i].grad {
                None => {},
                Some(had) => {
                    let sum = choose|sum: Tensor<E>| #[trigger]
                        binary_result(BinaryOp::Add, had, g, sum) && b == with_grad(
                            a,
                            i,
                            Some(sum),
                        );
                    assert(a[i].grad is Some);
                    law_elementwise(BinaryOp::Add, had, g, sum, p);
                },
            }
        }
    }
}

/// Handing out gradients adds to every node what its slots say.
proof fn lemma_handing<E: Elem, V>(
    m: Exact<E>,
    a: Seq<Node<E, V>>,
    c: int,
    grads: Seq<Tensor<E>>,
    k: int,
    b: Seq<Node<E, V>>,
) -> (parts: Seq<Tensor<E>>)
    requires
        m.arithmetic(),
        0 <= c < a.len(),
        forall|j: int| 0 <= j < a[c].inputs@.len() ==> #[trigger] a[c].inputs@[j] < c,
        grads_fit(a),
        0 <= k <= a[c].inputs@.len(),
        k <= grads.len(),
        contributions(a, a[c].inputs@, grads, k, b),
    ensures
        grads_fit(b),
        same_structure(a, b),
        parts.len() == k,
        forall|j: int|
            0 <= j < k && a[a[c].inputs@[j] as int].requires_grad ==> unbroadcast_result(
                grads[j],
                a[a[c].inputs@[j] as int].value.dims(),
                #[trigger] parts[j],
            ),
        forall|x: int, p: int|
            0 <= x < a.len() && a[x].requires_grad && 0 <= p < a[x].value.count()
                ==> #[trigger] held(m, b[x], p) == held(m, a[x], p) + handed_to(
                m,
                a[c].inputs@,
                parts,
                x,
                p,
            ),
        forall|x: int|
            0 <= x < a.len() && !index_of(a[c].inputs@).contains(x) ==> #[trigger] b[x] == a[x],
        forall|x: int| 0 <= x < a.len() ==> (#[trigger] b[x]).rule == a[x].rule,
    decreases k,
{
    let inputs = a[c].inputs@;
    if k == 0 {
        let parts = Seq::<Tensor<E>>::empty();
        parts
    } else {
        let i = inputs[k - 1] as int;
        let mid = choose|mid: Seq<Node<E, V>>|
            contributions(a, inputs, grads, k - 1, mid) && #[trigger] contribution(
                mid,
                inputs[k - 1] as int,
                grads[k - 1],
                b,
            );
        let before = lemma_handing(m, a, c, grads, k - 1, mid);
        assert(mid[i].requires_grad == a[i].requires_grad);
        assert(mid[i].value == a[i].value);
        assert(index_of(inputs)[k - 1] == i);
        let r = if a[i].requires_grad {
            choose|r: Tensor<E>| #[trigger]
                unbroadcast_result(grads[k - 1], mid[i].value.dims(), r) && accumulated(
                    mid,
                    i,
                    r,
                    b,
                )
        } else {
            grads[k - 1]
        };
        if a[i].requires_grad {
            lemma_accumulate(m, mid, i, r, b);
        }
        let parts = before.push(r);
        assert forall|j: int|
            0 <= j < k && a[inputs[j] as int].requires_grad implies unbroadcast_result(
            grads[j],
            a[inputs[j] as int].value.dims(),
            #[trigger] parts[j],
        ) by {
            if j < k - 1 {
                assert(parts[j] == before[j]);
            }
        }
        assert forall|x: int, p: int|
            0 <= x < a.len() && a[x].requires_grad && 0 <= p
                < a[x].value.count() implies #[trigger] held(m, b[x], p) == held(m, a[x], p)
            + handed_to(m, inputs, parts, x, p) by {
            assert(mid[x].value == a[x].value);
            assert(held(m, mid[x], p) == held(m, a[x], p) + handed_to(m, inputs, before, x, p));
            let f = |j: int| slot(m, inputs, parts, x, p, j);
            let h = |j: int| slot(m, inputs, before, x, p, j);
            assert forall|j: int| 0 <= j < k - 1 implies #[trigger] f(j) == h(j) by {
                assert(parts[j] == before[j]);
            }
            lemma_total_equal(f, h, (k - 1) as nat);
            assert(total(f, k as nat) == total(f, (k - 1) as nat) + f(k - 1));
            assert(parts[k - 1] == r);
            assert(held(m, b[x], p) == held(m, mid[x], p) + if x == i {
                m.num(r, p)
            } else {
                0real
            });
        }
        assert forall|x: int|
            0 <= x < a.len() && !index_of(inputs).contains(x) implies #[trigger] b[x] == a[x] by {
            assert(mid[x] == a[x]);
            assert(x != i);
        }
        assert forall|x: int| 0 <= x < a.len() implies (#[trigger] b[x]).rule == a[x].rule by {
            assert(mid[x].rule == a[x].rule);
        }
        assert(same_structure(a, b)) by {
            assert forall|x: int| 0 <= x < a.len() implies (#[trigger] b[x]).value == a[x].value
                && b[x].op == a[x].op && b[x].inputs == a[x].inputs && b[x].requires_grad
                == a[x].requires_grad by {
                assert(mid[x].value == a[x].value);
            }
        }
        parts
    }
}

/// What node `c` gives to node `i` at position `p` once the last `k` nodes of
/// `order` are processed.
spec fn flow_so_far<E, V>(
    m: Exact<E>,
    a: Seq<Node<E, V>>,
    order: Seq<int>,
    k: int,
    replies: Seq<Seq<Tensor<E>>>,
    i: int,
    p: int,
    c: int,
) -> real {
    if tail_has(order, k, c) && propagates(a[c]) {
        handed_to(m, a[c].inputs@, replies[c], i, p)
    } else {
        0real
    }
}

/// What is known once the last `k` nodes of `order` are processed.
spec fn flowed<E: Elem, V: VjpRule<E>>(
    m: Exact<E>,
    a: Seq<Node<E, V>>,
    order: Seq<int>,
    k: int,
    replies: Seq<Seq<Tensor<E>>>,
    b: Seq<Node<E, V>>,
) -> bool {
    &&& replies.len() == a.len()
    &&& same_structure(a, b)
    &&& grads_fit(b)
    &&& forall|c: int|
        0 <= c < a.len() && !tail_has(order, k, c) ==> (#[trigger] b[c]).rule == a[c].rule
    &&& forall|c: int| #[trigger]
        tail_has(order, k, c) && propagates(a[c]) ==> a[c].rule is Some && b[c].grad is Some
            && answered(a, c, b[c].grad->0, replies[c])
    &&& forall|x: int, p: int|
        0 <= x < a.len() && a[x].requires_grad && 0 <= p < a[x].value.count() ==> #[trigger] held(
            m,
            b[x],
            p,
        ) == held(m, a[x], p) + total(
            |c: int| flow_so_far(m, a, order, k, replies, x, p, c),
            a.len(),
        )
}

/// A traversal that visits no node twice, and inputs before their consumers.
spec fn sorted<E, V>(a: Seq<Node<E, V>>, order: Seq<int>) -> bool {
    &&& order.no_duplicates()
    &&& forall|p: int| 0 <= p < order.len() ==> 0 <= #[trigger] order[p] < a.len()
    &&& forall|p: int, k: int|
        #![trigger a[order[p]].inputs@[k]]
        0 <= p < order.len() && 0 <= k < a[order[p]].inputs@.len() ==> order.take(p).contains(
            a[order[p]].inputs@[k] as int,
        )
}

proof fn lemma_not_in_tail<E, V>(a: Seq<Node<E, V>>, order: Seq<int>, k: int, x: int)
    requires
        sorted(a, order),
        0 <= k < order.len(),
        x == order[order.len() - 1 - k] || index_of(
            a[order[order.len() - 1 - k]].inputs@,
        ).contains(x),
    ensures
        !tail_has(order, k, x),
{
    let at = order.len() - 1 - k;
    if tail_has(order, k, x) {
        let q = choose|q: int| order.len() - k <= q < order.len() && #[trigger] order[q] == x;
        if x == order[at] {
            assert(order[q] == order[at]);
        } else {
            let ins = a[order[at]].inputs@;
            let j = choose|j: int| 0 <= j < index_of(ins).len() && index_of(ins)[j] == x;
            assert(a[order[at]].inputs@[j] as int == x);
            assert(order.take(at).contains(x));
            let w = choose|w: int| 0 <= w < order.take(at).len() && order.take(at)[w] == x;
            assert(order[w] == order[q]);
        }
    }
}

proof fn lemma_flow_step<E: Elem, V: VjpRule<E>>(
    m: Exact<E>,
    a: Seq<Node<E, V>>,
    order: Seq<int>,
    k: int,
    replies: Seq<Seq<Tensor<E>>>,
    mid: Seq<Node<E, V>>,
    retain: bool,
    b: Seq<Node<E, V>>,
) -> (more: Seq<Seq<Tensor<E>>>)
    requires
        m.arithmetic(),
        valid_nodes(a),
        sorted(a, order),
        0 <= k < order.len(),
        flowed(m, a, order, k, replies, mid),
        node_step(mid, order[order.len() - 1 - k], retain, b),
    ensures
        flowed(m, a, order, k + 1, more, b),
{
    let at = order.len() - 1 - k;
    let id = order[at];
    lemma_not_in_tail(a, order, k, id);
    assert(mid[id].rule == a[id].rule);
    assert(mid[id].inputs == a[id].inputs && mid[id].op == a[id].op && mid[id].requires_grad
        == a[id].requires_grad);
    assert forall|c: int| #[trigger] tail_has(order, k + 1, c) <==> tail_has(order, k, c) || c
        == id by {
        if tail_has(order, k, c) {
            let q = choose|q: int| order.len() - k <= q < order.len() && #[trigger] order[q] == c;
            assert(order[q] == c);
        }
        if c == id {
            assert(order[at] == c);
        }
        if tail_has(order, k + 1, c) {
            let q = choose|q: int|
                order.len() - (k + 1) <= q < order.len() && #[trigger] order[q] == c;
            if q != at {
                assert(tail_has(order, k, c));
            }
        }
    }
    assert(valid_node(a, id));
    let inputs = a[id].inputs@;
    if propagates(a[id]) {
        let n = mid[id];
        let used = rule_used(mid, id, retain);
        let grads = choose|grads: Vec<Tensor<E>>| #[trigger]
            vjp_returned(n.rule->0, n.grad->0, Ok(grads)) && contributions(
                used,
                n.inputs@,
                grads@,
                handed_out(n.inputs@, grads@),
                b,
            );
        assert(grads_fit(used)) by {
            assert forall|j: int| 0 <= j < used.len() && (#[trigger] used[j]).grad is Some implies (
            used[j].grad->0).dims() == used[j].value.dims() by {
                assert(mid[j].grad == used[j].grad);
            }
        }
        assert(same_structure(a, used)) by {
            assert forall|x: int| 0 <= x < a.len() implies (#[trigger] used[x]).value == a[x].value
                && used[x].op == a[x].op && used[x].inputs == a[x].inputs && used[x].requires_grad
                == a[x].requires_grad by {
                assert(mid[x].value == a[x].value);
            }
        }
        let parts = lemma_handing(m, used, id, grads@, handed_out(n.inputs@, grads@), b);
        let more = replies.update(id, parts);
        assert(!index_of(inputs).contains(id)) by {
            if index_of(inputs).contains(id) {
                let j = choose|j: int| 0 <= j < index_of(inputs).len() && index_of(inputs)[j] == id;
                assert(inputs[j] < id);
            }
        }
        assert(b[id] == used[id]);
        assert(b[id].grad == n.grad);
        assert(answered(a, id, b[id].grad->0, more[id])) by {
            assert(answered_with(a, id, grads@, parts)) by {
                assert forall|j: int|
                    0 <= j < parts.len() && a[inputs[j] as int].requires_grad
                        implies unbroadcast_result(
                    grads@[j],
                    a[inputs[j] as int].value.dims(),
                    #[trigger] parts[j],
                ) by {
                    assert(used[inputs[j] as int].requires_grad);
                }
            }
            assert(vjp_returned(a[id].rule->0, b[id].grad->0, Ok(grads)));
        }
        assert forall|c: int| #[trigger]
            tail_has(order, k + 1, c) && propagates(a[c]) implies a[c].rule is Some
                && b[c].grad is Some
            && answered(a, c, b[c].grad->0, more[c]) by {
            if c != id {
                assert(tail_has(order, k, c));
                let q = choose|q: int|
                    order.len() - k <= q < order.len() && #[trigger] order[q] == c;
                assert(0 <= order[q] < a.len());
                if index_of(inputs).contains(c) {
                    lemma_not_in_tail(a, order, k, c);
                }
                assert(b[c] == used[c]);
                assert(used[c].grad == mid[c].grad);
                assert(more[c] == replies[c]);
            }
        }
        assert forall|c: int| 0 <= c < a.len() && !tail_has(order, k + 1, c) implies (
        #[trigger] b[c]).rule == a[c].rule by {
            assert(c != id && !tail_has(order, k, c));
            assert(mid[c].rule == a[c].rule);
            assert(used[c].rule == mid[c].rule);
        }
        assert forall|x: int, p: int|
            0 <= x < a.len() && a[x].requires_grad && 0 <= p
                < a[x].value.count() implies #[trigger] held(m, b[x], p) == held(m, a[x], p)
            + total(|c: int| flow_so_far(m, a, order, k + 1, more, x, p, c), a.len()) by {
            assert(used[x].value == a[x].value && used[x].requires_grad);
            assert(held(m, used[x], p) == held(m, mid[x], p));
            let f = |c: int| flow_so_far(m, a, order, k, replies, x, p, c);
            let h = |c: int| flow_so_far(m, a, order, k + 1, more, x, p, c);
            let d = handed_to(m, inputs, parts, x, p);
            let one = |c: int|
                if c == id {
                    d
                } else {
                    0real
                };
            assert forall|c: int| 0 <= c < a.len() implies #[trigger] h(c) == f(c) + one(c) by {
                assert(tail_has(order, k + 1, c) <==> tail_has(order, k, c) || c == id);
                if c != id {
                    assert(more[c] == replies[c]);
                }
            }
            lemma_total_plus(f, one, h, a.len());
            lemma_total_single(one, a.len(), id);
            assert(held(m, mid[x], p) == held(m, a[x], p) + total(f, a.len()));
            assert(held(m, b[x], p) == held(m, used[x], p) + d);
        }
        assert(same_structure(a, b)) by {
            assert forall|x: int| 0 <= x < a.len() implies (#[trigger] b[x]).value == a[x].value
                && b[x].op == a[x].op && b[x].inputs == a[x].inputs && b[x].requires_grad
                == a[x].requires_grad by {
                assert(used[x].value == a[x].value);
            }
        }
        more
    } else {
        assert forall|x: int, p: int|
            0 <= x < a.len() && a[x].requires_grad && 0 <= p
                < a[x].value.count() implies #[trigger] held(m, b[x], p) == held(m, a[x], p)
            + total(|c: int| flow_so_far(m, a, order, k + 1, replies, x, p, c), a.len()) by {
            let f = |c: int| flow_so_far(m, a, order, k, replies, x, p, c);
            let h = |c: int| flow_so_far(m, a, order, k + 1, replies, x, p, c);
            assert forall|c: int| 0 <= c < a.len() implies #[trigger] h(c) == f(c) by {
                assert(tail_has(order, k + 1, c) <==> tail_has(order, k, c) || c == id);
            }
            lemma_total_equal(h, f, a.len());
            assert(held(m, mid[x], p) == held(m, a[x], p) + total(f, a.len()));
        }
        replies
    }
}

proof fn lemma_flow<E: Elem, V: VjpRule<E>>(
    m: Exact<E>,
    a: Seq<Node<E, V>>,
    order: Seq<int>,
    retain: bool,
    k: int,
    b: Seq<Node<E, V>>,
) -> (replies: Seq<Seq<Tensor<E>>>)
    requires
        m.arithmetic(),
        valid_nodes(a),
        grads_fit(a),
        sorted(a, order),
        0 <= k <= order.len(),
        pass(a, order, retain, k, b),
    ensures
        flowed(m, a, order, k, replies, b),
    decreases k,
{
    if k == 0 {
        let replies = Seq::new(a.len(), |c: int| Seq::<Tensor<E>>::empty());
        assert forall|x: int, p: int|
            0 <= x < a.len() && a[x].requires_grad && 0 <= p
                < a[x].value.count() implies #[trigger] held(m, b[x], p) == held(m, a[x], p)
            + total(|c: int| flow_so_far(m, a, order, 0, replies, x, p, c), a.len()) by {
            lemma_total_zero(|c: int| flow_so_far(m, a, order, 0, replies, x, p, c), a.len());
        }
        replies
    } else {
        let mid = choose|mid: Seq<Node<E, V>>|
            pass(a, order, retain, k - 1, mid) && #[trigger] node_step(
                mid,
                order[order.len() - k],
                retain,
                b,
            );
        let replies = lemma_flow(m, a, order, retain, k - 1, mid);
        lemma_flow_step(m, a, order, k - 1, replies, mid, retain, b)
    }
}

/// What node `c` gives to node `i` at position `p` in a pass from `root`: what
/// its rule answered, if it takes part.
pub open spec fn flow<E, V>(
    m: Exact<E>,
    a: Seq<Node<E, V>>,
    root: int,
    replies: Seq<Seq<Tensor<E>>>,
    i: int,
    p: int,
    c: int,
) -> real {
    if depends_on(a, root, c) && a[c].op is Some && a[c].requires_grad {
        handed_to(m, a[c].inputs@, replies[c], i, p)
    } else {
        0real
    }
}

/// What a pass finds at position `p` of node `i` before it adds anything: the
/// gradient of a leaf, or of a node that the root does not depend on; nothing
/// on the op nodes of the pass.
pub open spec fn carried<E, V>(m: Exact<E>, a: Seq<Node<E, V>>, root: int, i: int, p: int) -> real {
    if depends_on(a, root, i) && a[i].op is Some {
        0real
    } else {
        held(m, a[i], p)
    }
}

/// What a pass starts with at position `p` of node `i`: on the root the seed
/// that was given, or a 1.
pub open spec fn seeded_with<E>(
    m: Exact<E>,
    root: int,
    given: Option<Tensor<E>>,
    i: int,
    p: int,
) -> real {
    if i != root {
        0real
    } else {
        match given {
            Some(s) => m.num(s, p),
            None => 1real,
        }
    }
}

/// A backward pass is the chain rule: the rule of every op node that takes
/// part answers the node's whole gradient, and the gradient of every node is
/// what it started with plus all that the rules of its consumers answered for
/// it, each input slot counting.
pub proof fn law_backward_is_the_chain_rule<E: Elem, V: VjpRule<E>>(
    m: Exact<E>,
    a: Seq<Node<E, V>>,
    root: int,
    given: Option<Tensor<E>>,
    retain: bool,
    b: Seq<Node<E, V>>,
) -> (replies: Seq<Seq<Tensor<E>>>)
    requires
        m.arithmetic(),
        valid_nodes(a),
        0 <= root < a.len(),
        grads_fit(a),
        given is Some ==> (given->0).dims() == a[root].value.dims(),
        backward_result(a, root, given, retain, b),
    ensures
        replies.len() == a.len(),
        forall|c: int| #[trigger]
            depends_on(a, root, c) && a[c].op is Some && a[c].requires_grad ==> a[c].rule is Some
                && b[c].grad is Some && answered(a, c, b[c].grad->0, replies[c]),
        forall|i: int, p: int|
            0 <= i < a.len() && a[i].requires_grad && 0 <= p < a[i].value.count()
                ==> #[trigger] held(m, b[i], p) == carried(m, a, root, i, p) + seeded_with(
                m,
                root,
                given,
                i,
                p,
            ) + total(|c: int| flow(m, a, root, replies, i, p, c), a.len()),
{
    let order = post_order(a, root);
    law_post_order(a, root);
    let base = cleared(a, order);
    let (seed, s) = choose|seed: Tensor<E>, s: Seq<Node<E, V>>| #[trigger]
        is_seed(a[root], given, seed) && #[trigger] accumulated(base, root, seed, s) && pass(
            s,
            order,
            retain,
            order.len() as int,
            b,
        );
    assert(grads_fit(base)) by {
        assert forall|j: int| 0 <= j < base.len() && (#[trigger] base[j]).grad is Some implies (
        base[j].grad->0).dims() == base[j].value.dims() by {
            assert(a[j].grad == base[j].grad);
        }
    }
    lemma_accumulate(m, base, root, seed, s);
    assert(same_structure(a, s)) by {
        assert forall|i: int| 0 <= i < a.len() implies (#[trigger] s[i]).value == a[i].value
            && s[i].op == a[i].op && s[i].inputs == a[i].inputs && s[i].requires_grad
            == a[i].requires_grad by {
            assert(base[i].value == a[i].value);
        }
    }
    lemma_valid_kept(a, s);
    assert(sorted(s, order)) by {
        assert forall|p: int, k: int|
            #![trigger s[order[p]].inputs@[k]]
            0 <= p < order.len() && 0 <= k < s[order[p]].inputs@.len() implies order.take(
            p,
        ).contains(s[order[p]].inputs@[k] as int) by {
            assert(s[order[p]].inputs == a[order[p]].inputs);
            assert(order.take(p).contains(a[order[p]].inputs@[k] as int));
        }
    }
    let n = order.len() as int;
    let replies = lemma_flow(m, s, order, retain, n, b);
    assert forall|c: int| #[trigger] depends_on(a, root, c) <==> tail_has(order, n, c) by {
        if depends_on(a, root, c) {
            assert(order.contains(c));
            let q = choose|q: int| 0 <= q < order.len() && order[q] == c;
            assert(order[q] == c);
        }
        if tail_has(order, n, c) {
            let q = choose|q: int| 0 <= q < order.len() && #[trigger] order[q] == c;
            assert(order.contains(c));
        }
    }
    assert forall|c: int| #[trigger]
        depends_on(a, root, c) && a[c].op is Some && a[c].requires_grad implies a[c].rule is Some
        && b[c].grad is Some && answered(a, c, b[c].grad->0, replies[c]) by {
        assert(tail_has(order, n, c));
        assert(order.contains(c));
        let q = choose|q: int| 0 <= q < order.len() && order[q] == c;
        assert(0 <= order[q] < a.len());
        assert(s[c].rule == base[c].rule);
        assert(base[c].rule == a[c].rule);
        assert(propagates(s[c]));
        let grads = choose|grads: Vec<Tensor<E>>| #[trigger]
            vjp_returned(s[c].rule->0, b[c].grad->0, Ok(grads)) && answered_with(
                s,
                c,
                grads@,
                replies[c],
            );
        assert(valid_node(a, c));
        assert(answered_with(a, c, grads@, replies[c])) by {
            assert forall|j: int|
                0 <= j < replies[c].len() && a[a[c].inputs@[j] as int].requires_grad
                    implies unbroadcast_result(
                grads@[j],
                a[a[c].inputs@[j] as int].value.dims(),
                #[trigger] replies[c][j],
            ) by {
                let x = a[c].inputs@[j] as int;
                assert(s[x].value == a[x].value && s[x].requires_grad == a[x].requires_grad);
            }
        }
    }
    assert forall|i: int, p: int|
        0 <= i < a.len() && a[i].requires_grad && 0 <= p < a[i].value.count()
            implies #[trigger] held(
        m,
        b[i],
        p,
    ) == carried(m, a, root, i, p) + seeded_with(m, root, given, i, p) + total(
        |c: int| flow(m, a, root, replies, i, p, c),
        a.len(),
    ) by {
        let f = |c: int| flow_so_far(m, s, order, n, replies, i, p, c);
        let h = |c: int| flow(m, a, root, replies, i, p, c);
        assert forall|c: int| 0 <= c < a.len() implies #[trigger] f(c) == h(c) by {
            assert(depends_on(a, root, c) <==> tail_has(order, n, c));
            assert(s[c].inputs == a[c].inputs && s[c].op == a[c].op && s[c].requires_grad
                == a[c].requires_grad);
        }
        lemma_total_equal(f, h, a.len());
        assert(s[i].value == a[i].value && s[i].requires_grad);
        assert(held(m, b[i], p) == held(m, s[i], p) + total(f, a.len()));
        assert(base[i].value == a[i].value);
        assert(held(m, s[i], p) == held(m, base[i], p) + if i == root {
            m.num(seed, p)
        } else {
            0real
        });
        assert(held(m, base[i], p) == carried(m, a, root, i, p)) by {
            assert(order.contains(i) <==> depends_on(a, root, i));
        }
        if i == root && given is None {
            assert(p == 0);
            assert(is_one(seed.data()[0]));
        }
    }
    replies
}

} // verus!
