//! The backward pass.

use vstd::prelude::*;
use vstd::string::*;
use crate::autograd::graph::{
    Graph, Node, Var, VjpRule, lemma_valid_kept, same_structure, valid_node, vjp_returned,
    with_grad, without_rule,
};
use crate::autograd::topo::{law_post_order, post_order, topo_order};
use crate::autograd::unbroadcast::{unbroadcast, unbroadcast_error, unbroadcast_result};
use crate::elem::{Elem, is_one};
use crate::error::{ErrorText, OxitorchError, OxitorchResult};
use crate::index::index_of;
use crate::layout::copy_dims;
use crate::ops::BinaryOp;
use crate::tensor::{Tensor, broadcast_error};
use crate::tensor::elementwise::binary_result;

verus! {

// ---- what one pass does ---------------------------------------------------------

/// Adding `g` to the gradient of node `i` leads from `a` to `b`.
pub open spec fn accumulated<E: Elem, V>(
    a: Seq<Node<E, V>>,
    i: int,
    g: Tensor<E>,
    b: Seq<Node<E, V>>,
) -> bool {
    match a[i].grad {
        None => b == with_grad(a, i, Some(g)),
        Some(had) => exists|sum: Tensor<E>| #[trigger]
            binary_result(BinaryOp::Add, had, g, sum) && b == with_grad(a, i, Some(sum)),
    }
}

/// Adding `g` to the gradient of node `i` fails: the shapes do not broadcast,
/// and the gradient is dropped.
pub open spec fn accumulate_fails<E: Elem, V>(
    a: Seq<Node<E, V>>,
    i: int,
    g: Tensor<E>,
    e: ErrorText,
    b: Seq<Node<E, V>>,
) -> bool {
    &&& a[i].grad is Some
    &&& broadcast_error((a[i].grad->0).dims(), g.dims()) == Some(e)
    &&& b == with_grad(a, i, None)
}

/// Handing the gradient `g` to input `i` leads from `a` to `b`: it is summed
/// down to the input's shape and accumulated, if the input requires one.
pub open spec fn contribution<E: Elem, V>(
    a: Seq<Node<E, V>>,
    i: int,
    g: Tensor<E>,
    b: Seq<Node<E, V>>,
) -> bool {
    if a[i].requires_grad {
        exists|r: Tensor<E>| #[trigger]
            unbroadcast_result(g, a[i].value.dims(), r) && accumulated(a, i, r, b)
    } else {
        b == a
    }
}

/// Handing the gradient `g` to input `i` fails.
pub open spec fn contribution_fails<E: Elem, V>(
    a: Seq<Node<E, V>>,
    i: int,
    g: Tensor<E>,
    e: ErrorText,
    b: Seq<Node<E, V>>,
) -> bool {
    &&& a[i].requires_grad
    &&& {
        ||| unbroadcast_error(g.dims(), a[i].value.dims()) == Some(e) && b == a
        ||| exists|r: Tensor<E>| #[trigger]
            unbroadcast_result(g, a[i].value.dims(), r) && accumulate_fails(a, i, r, e, b)
    }
}

/// Handing out the first `k` gradients, one per input, leads from `a` to `b`.
pub open spec fn contributions<E: Elem, V>(
    a: Seq<Node<E, V>>,
    inputs: Seq<usize>,
    grads: Seq<Tensor<E>>,
    k: int,
    b: Seq<Node<E, V>>,
) -> bool
    decreases k,
{
    if k <= 0 {
        b == a
    } else {
        exists|m: Seq<Node<E, V>>|
            contributions(a, inputs, grads, k - 1, m) && #[trigger] contribution(
                m,
                inputs[k - 1] as int,
                grads[k - 1],
                b,
            )
    }
}

/// How many gradients are handed out: one per input, as far as there are.
pub open spec fn handed_out<E>(inputs: Seq<usize>, grads: Seq<Tensor<E>>) -> int {
    if inputs.len() <= grads.len() {
        inputs.len() as int
    } else {
        grads.len() as int
    }
}

/// The state in which a node's gradients are handed out: without its rule,
/// unless the graph is retained.
pub open spec fn rule_used<E, V>(a: Seq<Node<E, V>>, id: int, retain: bool) -> Seq<Node<E, V>> {
    if retain {
        a
    } else {
        without_rule(a, id)
    }
}

/// A node takes part in a pass: it was made by an op and requires a gradient.
pub open spec fn propagates<E, V>(n: Node<E, V>) -> bool {
    n.op is Some && n.requires_grad
}

/// Processing node `id` leads from `a` to `b`.
pub open spec fn node_step<E: Elem, V: VjpRule<E>>(
    a: Seq<Node<E, V>>,
    id: int,
    retain: bool,
    b: Seq<Node<E, V>>,
) -> bool {
    let n = a[id];
    if propagates(n) {
        &&& n.grad is Some
        &&& n.rule is Some
        &&& exists|grads: Vec<Tensor<E>>| #[trigger]
            vjp_returned(n.rule->0, n.grad->0, Ok(grads)) && contributions(
                rule_used(a, id, retain),
                n.inputs@,
                grads@,
                handed_out(n.inputs@, grads@),
                b,
            )
    } else {
        b == a
    }
}

/// The complaint about a node that no gradient reached.
pub open spec fn missing_grad_error() -> ErrorText {
    ErrorText::InvalidArgument("internal: node reached in backward without a gradient"@)
}

/// The complaint about a node whose rule is gone.
pub open spec fn missing_rule_error(retain: bool) -> ErrorText {
    if retain {
        ErrorText::InvalidArgument("internal: op node reached in backward without a VJP"@)
    } else {
        ErrorText::InvalidArgument(
            "trying to backward through the graph a second time (or along an already freed path): pass retain_graph=True on the first backward call"@,
        )
    }
}

/// Processing node `id` fails with `e` and leaves `b`.
pub open spec fn step_fails<E: Elem, V: VjpRule<E>>(
    a: Seq<Node<E, V>>,
    id: int,
    retain: bool,
    e: ErrorText,
    b: Seq<Node<E, V>>,
) -> bool {
    let n = a[id];
    &&& propagates(n)
    &&& if n.grad is None {
        e == missing_grad_error() && b == a
    } else if n.rule is None {
        e == missing_rule_error(retain) && b == a
    } else {
        exists|r: OxitorchResult<Vec<Tensor<E>>>| #[trigger]
            vjp_returned(n.rule->0, n.grad->0, r) && match r {
                Err(x) => e == x@ && b == rule_used(a, id, retain),
                Ok(grads) => handing_fails(
                    rule_used(a, id, retain),
                    n.inputs@,
                    grads@,
                    handed_out(n.inputs@, grads@),
                    e,
                    b,
                ),
            }
    }
}

/// Handing out one of `n` gradients fails after those before it went well.
pub open spec fn handing_fails<E: Elem, V>(
    a: Seq<Node<E, V>>,
    inputs: Seq<usize>,
    grads: Seq<Tensor<E>>,
    n: int,
    e: ErrorText,
    b: Seq<Node<E, V>>,
) -> bool {
    exists|k: int, m: Seq<Node<E, V>>|
        0 <= k < n && #[trigger] contributions(a, inputs, grads, k, m) && contribution_fails(
            m,
            inputs[k] as int,
            grads[k],
            e,
            b,
        )
}

/// Processing the last `k` nodes of `order`, from the end, leads from `a` to
/// `b`.
pub open spec fn pass<E: Elem, V: VjpRule<E>>(
    a: Seq<Node<E, V>>,
    order: Seq<int>,
    retain: bool,
    k: int,
    b: Seq<Node<E, V>>,
) -> bool
    decreases k,
{
    if k <= 0 {
        b == a
    } else {
        exists|m: Seq<Node<E, V>>|
            pass(a, order, retain, k - 1, m) && #[trigger] node_step(
                m,
                order[order.len() - k],
                retain,
                b,
            )
    }
}

/// The state with the gradients of op nodes in `order` dropped: they are
/// transient, while leaf gradients accumulate across passes.
pub open spec fn cleared<E, V>(a: Seq<Node<E, V>>, order: Seq<int>) -> Seq<Node<E, V>> {
    Seq::new(
        a.len(),
        |i: int|
            if order.contains(i) && a[i].op is Some {
                Node { grad: None, ..a[i] }
            } else {
                a[i]
            },
    )
}

/// `seed` is the gradient that a pass from `root` starts with: the one given,
/// or ones for a single-element root.
pub open spec fn is_seed<E: Elem, V>(
    root: Node<E, V>,
    given: Option<Tensor<E>>,
    seed: Tensor<E>,
) -> bool {
    match given {
        Some(s) => seed == s,
        None => root.value.count() == 1 && seed.dims() == root.value.dims()
            && seed.contiguous_layout() && is_one(seed.data()[0]),
    }
}

/// A whole pass from `root` leads from `a` to `b`.
pub open spec fn backward_result<E: Elem, V: VjpRule<E>>(
    a: Seq<Node<E, V>>,
    root: int,
    given: Option<Tensor<E>>,
    retain: bool,
    b: Seq<Node<E, V>>,
) -> bool {
    let order = post_order(a, root);
    &&& a[root].requires_grad
    &&& exists|seed: Tensor<E>, s: Seq<Node<E, V>>| #[trigger]
        is_seed(a[root], given, seed) && #[trigger] accumulated(cleared(a, order), root, seed, s)
            && pass(s, order, retain, order.len() as int, b)
}

/// A pass fails after seeding: accumulating the seed fails, or processing a
/// node does after those before it went well.
pub open spec fn pass_fails<E: Elem, V: VjpRule<E>>(
    a: Seq<Node<E, V>>,
    root: int,
    given: Option<Tensor<E>>,
    retain: bool,
    e: ErrorText,
    b: Seq<Node<E, V>>,
) -> bool {
    let order = post_order(a, root);
    ||| exists|seed: Tensor<E>| #[trigger]
        is_seed(a[root], given, seed) && accumulate_fails(cleared(a, order), root, seed, e, b)
    ||| exists|seed: Tensor<E>, s: Seq<Node<E, V>>, k: int, m: Seq<Node<E, V>>|
        0 <= k < order.len() && #[trigger] is_seed(a[root], given, seed) && #[trigger] accumulated(
            cleared(a, order),
            root,
            seed,
            s,
        ) && #[trigger] pass(s, order, retain, k, m) && step_fails(
            m,
            order[order.len() - 1 - k],
            retain,
            e,
            b,
        )
}

/// A pass from `root` fails with `e` and leaves `b`.
pub open spec fn backward_fails<E: Elem, V: VjpRule<E>>(
    a: Seq<Node<E, V>>,
    root: int,
    given: Option<Tensor<E>>,
    retain: bool,
    e: ErrorText,
    b: Seq<Node<E, V>>,
) -> bool {
    if !a[root].requires_grad {
        e == ErrorText::InvalidArgument(
            "element 0 of tensors does not require grad and does not have a grad_fn"@,
        ) && b == a
    } else if given is None && a[root].value.count() != 1 {
        e == ErrorText::InvalidArgument(
            "grad can be implicitly created only for scalar outputs; pass a seed tensor"@,
        ) && b == a
    } else {
        pass_fails(a, root, given, retain, e, b)
    }
}

// ---- the pass ----------------------------------------------------------------------

impl<E: Elem, V> Graph<E, V> {
    /// Adds `g` to the gradient of node `i`.
    pub(crate) fn accumulate_grad(&mut self, i: usize, g: Tensor<E>) -> (r: OxitorchResult<()>)
        requires
            old(self).wf(),
            i < old(self).nodes().len(),
        ensures
            final(self).wf(),
            final(self).recording() == old(self).recording(),
            same_structure(old(self).nodes(), final(self).nodes()),
            match r {
                Ok(_) => accumulated(old(self).nodes(), i as int, g, final(self).nodes()),
                Err(e) => accumulate_fails(
                    old(self).nodes(),
                    i as int,
                    g,
                    e@,
                    final(self).nodes(),
                ),
            },
    {
        let had = self.nodes[i].grad.take();
        let r = match had {
            None => {
                self.nodes[i].grad = Some(g);
                assert(self.nodes() =~= with_grad(old(self).nodes(), i as int, Some(g)));
                Ok(())
            },
            Some(existing) => {
                match existing.add(&g) {
                    Ok(sum) => {
                        self.nodes[i].grad = Some(sum);
                        assert(binary_result(BinaryOp::Add, existing, g, sum));
                        assert(self.nodes() =~= with_grad(
                            old(self).nodes(),
                            i as int,
                            Some(sum),
                        ));
                        Ok(())
                    },
                    Err(e) => Err(e),
                }
            },
        };
        proof {
            lemma_valid_kept(old(self).nodes(), self.nodes());
        }
        r
    }

    /// Hands the gradient `g` to node `i`.
    fn contribute(&mut self, i: usize, g: &Tensor<E>) -> (r: OxitorchResult<()>)
        requires
            old(self).wf(),
            i < old(self).nodes().len(),
        ensures
            final(self).wf(),
            final(self).recording() == old(self).recording(),
            same_structure(old(self).nodes(), final(self).nodes()),
            match r {
                Ok(_) => contribution(old(self).nodes(), i as int, *g, final(self).nodes()),
                Err(e) => contribution_fails(
                    old(self).nodes(),
                    i as int,
                    *g,
                    e@,
                    final(self).nodes(),
                ),
            },
    {
        if !self.nodes[i].requires_grad {
            return Ok(());
        }
        match unbroadcast(g, self.nodes[i].value.shape()) {
            Ok(t) => {
                assert(unbroadcast_result(*g, old(self).nodes()[i as int].value.dims(), t));
                self.accumulate_grad(i, t)
            },
            Err(e) => Err(e),
        }
    }

    /// Hands out gradients, one per input, as far as there are.
    fn contribute_all(&mut self, inputs: &[usize], grads: &Vec<Tensor<E>>) -> (r: OxitorchResult<
        (),
    >)
        requires
            old(self).wf(),
            forall|k: int|
                0 <= k < inputs.len() ==> #[trigger] inputs@[k] < old(self).nodes().len(),
        ensures
            final(self).wf(),
            final(self).recording() == old(self).recording(),
            same_structure(old(self).nodes(), final(self).nodes()),
            match r {
                Ok(_) => contributions(
                    old(self).nodes(),
                    inputs@,
                    grads@,
                    handed_out(inputs@, grads@),
                    final(self).nodes(),
                ),
                Err(e) => handing_fails(
                    old(self).nodes(),
                    inputs@,
                    grads@,
                    handed_out(inputs@, grads@),
                    e@,
                    final(self).nodes(),
                ),
            },
    {
        let ghost start = self.nodes();
        let mut k: usize = 0;
        while k < inputs.len() && k < grads.len()
            invariant
                0 <= k <= inputs.len(),
                k <= grads.len(),
                self.wf(),
                start == old(self).nodes(),
                self.recording() == old(self).recording(),
                same_structure(start, self.nodes()),
                forall|j: int| 0 <= j < inputs.len() ==> #[trigger] inputs@[j] < start.len(),
                contributions(start, inputs@, grads@, k as int, self.nodes()),
            decreases inputs.len() - k,
        {
            let ghost mid = self.nodes();
            match self.contribute(inputs[k], &grads[k]) {
                Ok(_) => {},
                Err(e) => {
                    assert(contributions(start, inputs@, grads@, k as int, mid));
                    return Err(e);
                },
            }
            k = k + 1;
            assert(contribution(mid, inputs@[k - 1] as int, grads@[k - 1], self.nodes()));
        }
        Ok(())
    }
}

impl<E: Elem, V: VjpRule<E>> Graph<E, V> {
    /// Applies the rule of node `id`, consuming it unless the graph is
    /// retained.
    fn apply_rule(&mut self, id: usize, upstream: &Tensor<E>, retain: bool) -> (r: OxitorchResult<
        Vec<Tensor<E>>,
    >)
        requires
            old(self).wf(),
            id < old(self).nodes().len(),
        ensures
            final(self).wf(),
            final(self).recording() == old(self).recording(),
            same_structure(old(self).nodes(), final(self).nodes()),
            match old(self).nodes()[id as int].rule {
                Some(rule) => vjp_returned(rule, *upstream, r) && final(self).nodes() == rule_used(
                    old(self).nodes(),
                    id as int,
                    retain,
                ),
                None => r is Err && r->Err_0@ == missing_rule_error(retain) && final(self).nodes()
                    == old(self).nodes(),
            },
    {
        if retain {
            return match &self.nodes[id].rule {
                Some(rule) => {
                    let r = rule.vjp(upstream);
                    assert(call_ensures(V::vjp, (rule, upstream), r));
                    r
                },
                None => Err(
                    OxitorchError::InvalidArgument(
                        "internal: op node reached in backward without a VJP".to_string(),
                    ),
                ),
            };
        }
        let taken = self.nodes[id].rule.take();
        proof {
            lemma_valid_kept(old(self).nodes(), self.nodes());
            assert(self.nodes() =~= without_rule(old(self).nodes(), id as int));
        }
        match taken {
            Some(rule) => {
                let r = rule.vjp(upstream);
                assert(call_ensures(V::vjp, (&rule, upstream), r));
                r
            },
            None => {
                assert(self.nodes() =~= old(self).nodes());
                Err(
                    OxitorchError::InvalidArgument(
                        "trying to backward through the graph a second time (or along an already freed path): pass retain_graph=True on the first backward call".to_string(),
                    ),
                )
            },
        }
    }

    /// Processes one node of a pass.
    fn run_node(&mut self, id: usize, retain: bool) -> (r: OxitorchResult<()>)
        requires
            old(self).wf(),
            id < old(self).nodes().len(),
        ensures
            final(self).wf(),
            final(self).recording() == old(self).recording(),
            same_structure(old(self).nodes(), final(self).nodes()),
            match r {
                Ok(_) => node_step(old(self).nodes(), id as int, retain, final(self).nodes()),
                Err(e) => step_fails(
                    old(self).nodes(),
                    id as int,
                    retain,
                    e@,
                    final(self).nodes(),
                ),
            },
    {
        if self.nodes[id].op.is_none() || !self.nodes[id].requires_grad {
            return Ok(());
        }
        let upstream = match &self.nodes[id].grad {
            Some(t) => t.clone(),
            None => {
                return Err(
                    OxitorchError::InvalidArgument(
                        "internal: node reached in backward without a gradient".to_string(),
                    ),
                );
            },
        };
        let ghost start = self.nodes();
        let inputs = copy_dims(self.nodes[id].inputs.as_slice());
        proof {
            assert(valid_node(start, id as int));
        }
        match self.apply_rule(id, &upstream, retain) {
            Ok(grads) => {
                assert(vjp_returned(start[id as int].rule->0, upstream, Ok(grads)));
                self.contribute_all(inputs.as_slice(), &grads)
            },
            Err(e) => {
                Err(e)
            },
        }
    }

    /// Drops the gradients of the op nodes in `order`.
    fn clear_grads(&mut self, order: &[usize])
        requires
            old(self).wf(),
            forall|k: int| 0 <= k < order.len() ==> #[trigger] order@[k] < old(self).nodes().len(),
        ensures
            final(self).wf(),
            final(self).recording() == old(self).recording(),
            same_structure(old(self).nodes(), final(self).nodes()),
            final(self).nodes() == cleared(old(self).nodes(), index_of(order@)),
    {
        let ghost start = self.nodes();
        let ghost ids = index_of(order@);
        let mut k: usize = 0;
        proof {
            assert(cleared(start, ids.take(0)) =~= start);
        }
        while k < order.len()
            invariant
                0 <= k <= order.len(),
                start == old(self).nodes(),
                ids == index_of(order@),
                self.recording() == old(self).recording(),
                forall|j: int| 0 <= j < order.len() ==> #[trigger] order@[j] < start.len(),
                self.nodes() == cleared(start, ids.take(k as int)),
            decreases order.len() - k,
        {
            let id: usize = order[k];
            let ghost before = self.nodes();
            if self.nodes[id].op.is_some() {
                self.nodes[id].grad = None;
            }
            k = k + 1;
            proof {
                let now = ids.take(k as int);
                let prev = ids.take(k - 1);
                assert(now =~= prev.push(id as int));
                assert(now[k - 1] == id);
                assert forall|i: int| 0 <= i < start.len() implies self.nodes()[i]
                    == #[trigger] cleared(start, now)[i] by {
                    if prev.contains(i) {
                        let j = choose|j: int| 0 <= j < prev.len() && prev[j] == i;
                        assert(now[j] == i);
                    }
                    if now.contains(i) && i != id {
                        let j = choose|j: int| 0 <= j < now.len() && now[j] == i;
                        assert(prev[j] == i);
                    }
                }
                assert(self.nodes() =~= cleared(start, now));
            }
        }
        proof {
            assert(ids.take(k as int) =~= ids);
            lemma_valid_kept(start, self.nodes());
        }
    }
}

impl Var {
    /// Adds `grad` to this node's gradient.
    ///
    /// Fails as [`Tensor::add`] does; the gradient is then dropped.
    pub fn accumulate_grad<E: Elem, V>(self, g: &mut Graph<E, V>, grad: Tensor<E>) -> (r:
        OxitorchResult<()>)
        requires
            old(g).wf(),
            old(g).has(self),
        ensures
            final(g).wf(),
            final(g).recording() == old(g).recording(),
            match r {
                Ok(_) => accumulated(old(g).nodes(), self.id(), grad, final(g).nodes()),
                Err(e) => accumulate_fails(
                    old(g).nodes(),
                    self.id(),
                    grad,
                    e@,
                    final(g).nodes(),
                ),
            },
    {
        g.accumulate_grad(self.id, grad)
    }
}

/// Backward pass: seeds `root`'s gradient with `seed` (default all-ones) and
/// accumulates gradients into every reachable node that requires them.
///
/// By default rules are consumed as they run, so a second `backward` through
/// the same graph fails (torch's behavior); pass `retain_graph` via
/// [`backward_ext`] to keep them.
pub fn backward<E: Elem, V: VjpRule<E>>(
    g: &mut Graph<E, V>,
    root: Var,
    seed: Option<Tensor<E>>,
) -> (r: OxitorchResult<()>)
    requires
        old(g).wf(),
        old(g).has(root),
    ensures
        final(g).wf(),
        final(g).recording() == old(g).recording(),
        same_structure(old(g).nodes(), final(g).nodes()),
        match r {
            Ok(_) => backward_result(old(g).nodes(), root.id(), seed, false, final(g).nodes()),
            Err(e) => backward_fails(
                old(g).nodes(),
                root.id(),
                seed,
                false,
                e@,
                final(g).nodes(),
            ),
        },
{
    backward_ext(g, root, seed, false)
}

/// `backward` with graph retention control. With `retain_graph = true` the
/// recorded rules survive the pass, so further `backward()` calls through the
/// same graph work (contributions accumulate into the leaf gradients); the
/// graph is then freed by the first backward *without* retention.
pub fn backward_ext<E: Elem, V: VjpRule<E>>(
    g: &mut Graph<E, V>,
    root: Var,
    seed: Option<Tensor<E>>,
    retain_graph: bool,
) -> (r: OxitorchResult<()>)
    requires
        old(g).wf(),
        old(g).has(root),
    ensures
        final(g).wf(),
        final(g).recording() == old(g).recording(),
        same_structure(old(g).nodes(), final(g).nodes()),
        match r {
            Ok(_) => backward_result(
                old(g).nodes(),
                root.id(),
                seed,
                retain_graph,
                final(g).nodes(),
            ),
            Err(e) => backward_fails(
                old(g).nodes(),
                root.id(),
                seed,
                retain_graph,
                e@,
                final(g).nodes(),
            ),
        },
{
    let ghost start = g.nodes();
    let ghost ri = root.id();
    if !root.requires_grad(g) {
        return Err(
            OxitorchError::InvalidArgument(
                "element 0 of tensors does not require grad and does not have a grad_fn".to_string(),
            ),
        );
    }
    let ghost given = seed;
    let first = match seed {
        Some(s) => s,
        None => {
            if root.value(g).numel() != 1 {
                return Err(
                    OxitorchError::InvalidArgument(
                        "grad can be implicitly created only for scalar outputs; pass a seed tensor".to_string(),
                    ),
                );
            }
            Tensor::filled(root.value(g).shape(), E::one())
        },
    };
    assert(is_seed(start[ri], given, first));
    let order = topo_order(&g.nodes, root.id);
    let ghost ids = post_order(start, ri);
    proof {
        law_post_order(start, ri);
        assert forall|k: int| 0 <= k < order.len() implies #[trigger] order@[k] < start.len() by {
            assert(index_of(order@)[k] == ids[k]);
            assert(ids[k] < start.len());
        }
        assert(order.len() == ids.len()) by {
            assert(index_of(order@).len() == ids.len());
        }
    }
    g.clear_grads(order.as_slice());
    let ghost base = g.nodes();
    assert(base == cleared(start, ids));
    match g.accumulate_grad(root.id, first) {
        Ok(_) => {},
        Err(e) => {
            assert(accumulate_fails(base, ri, first, e@, g.nodes()));
            return Err(e);
        },
    }
    let ghost seeded = g.nodes();
    assert(accumulated(cleared(start, ids), ri, first, seeded));
    let mut k: usize = 0;
    while k < order.len()
        invariant
            0 <= k <= order.len(),
            order.len() == ids.len(),
            start == old(g).nodes(),
            ri == root.id(),
            ids == post_order(start, ri),
            index_of(order@) == ids,
            start[ri].requires_grad,
            given is None ==> start[ri].value.count() == 1,
            given == seed,
            is_seed(start[ri], given, first),
            accumulated(cleared(start, ids), ri, first, seeded),
            g.wf(),
            g.recording() == old(g).recording(),
            same_structure(start, g.nodes()),
            forall|j: int| 0 <= j < order.len() ==> #[trigger] order@[j] < start.len(),
            pass(seeded, ids, retain_graph, k as int, g.nodes()),
        decreases order.len() - k,
    {
        let at: usize = order.len() - 1 - k;
        let ghost mid = g.nodes();
        assert(index_of(order@)[at as int] == ids[at as int]);
        match g.run_node(order[at], retain_graph) {
            Ok(_) => {},
            Err(e) => {
                proof {
                    assert(pass(seeded, ids, retain_graph, k as int, mid));
                    assert(step_fails(
                        mid,
                        ids[ids.len() - 1 - k as int],
                        retain_graph,
                        e@,
                        g.nodes(),
                    ));
                    assert(pass_fails(start, ri, given, retain_graph, e@, g.nodes()));
                }
                return Err(e);
            },
        }
        k = k + 1;
        assert(node_step(mid, ids[ids.len() - k as int], retain_graph, g.nodes()));
    }
    Ok(())
}

} // verus!
