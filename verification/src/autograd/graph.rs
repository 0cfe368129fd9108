//! The computation graph: nodes, edges, and the backward driver.
//!
//! - A [`Graph`] holds every node; a [`Var`] is a handle on one of them. A
//!   node is a tensor plus provenance: which op made it and which nodes it
//!   consumed. Copying a `Var` copies the handle, so diamonds are shared and
//!   gradient contributions accumulate into the same node.
//! - Each op records a rule ([`VjpRule`]) that gives its vector-Jacobian
//!   product: from the gradient of the output, the gradients of the inputs.
//! - [`backward`] runs an iterative topological sort and accumulates
//!   gradients into every reachable node that requires them.
//! - Gradients flowing into broadcast operands are summed back down to the
//!   operand's shape ([`unbroadcast`]), the reverse of `broadcast_to`.

pub mod laws;
pub mod pass;
pub mod progress;
pub mod sweep;
pub mod sweep_laws;

use vstd::prelude::*;
use vstd::string::*;
use crate::autograd::rules::OpGrad;
use crate::elem::{Elem, is_zero};
use crate::error::OxitorchResult;
use crate::index::index_of;
use crate::layout::{mismatch, mismatch_error, same_dims, shape_error, signed_dims, sizes_of};
use crate::tensor::Tensor;
use crate::text::{dims_string, dims_text, join5};

verus! {

/// How a recorded op turns the gradient of its output into the gradients of
/// its inputs. Users extend the engine by implementing this for a type of
/// their own that also holds the built-in rules.
pub trait VjpRule<E: Elem>: Sized {
    /// The gradients of the inputs, in input order.
    fn vjp(&self, upstream: &Tensor<E>) -> OxitorchResult<Vec<Tensor<E>>>;

    /// The rule of a built-in op.
    fn from_builtin(rule: OpGrad<E>) -> Self;
}

/// `r` is what `rule` returned for the output gradient `up`.
pub open spec fn vjp_returned<E: Elem, V: VjpRule<E>>(
    rule: V,
    up: Tensor<E>,
    r: OxitorchResult<Vec<Tensor<E>>>,
) -> bool {
    exists|x: &V, u: &Tensor<E>| *x == rule && *u == up && #[trigger] call_ensures(V::vjp, (x, u), r)
}

/// One node of the graph.
pub struct Node<E, V> {
    /// The forward value.
    pub value: Tensor<E>,
    /// Op name for error messages and debugging (`None` for leaves).
    pub op: Option<&'static str>,
    /// Inputs, in the order the rule returns gradients.
    pub inputs: Vec<usize>,
    /// The rule, if this node was produced by a differentiable op and no
    /// backward pass has consumed it.
    pub rule: Option<V>,
    /// Accumulated gradient.
    pub grad: Option<Tensor<E>>,
    /// Whether gradients should accumulate here.
    pub requires_grad: bool,
}

/// Every node of a computation, in the order they were made, and whether ops
/// currently record.
pub struct Graph<E, V> {
    nodes: Vec<Node<E, V>>,
    recording: bool,
}

/// A handle on a node of a graph. Cheap to copy.
#[derive(Debug, Clone, Copy, PartialEq, Eq, Structural)]
pub struct Var {
    id: usize,
}

impl Var {
    /// The place of the node in its graph.
    pub closed spec fn id(self) -> int {
        self.id as int
    }
}

/// Some input of a node requires a gradient.
pub open spec fn any_requires<E, V>(nodes: Seq<Node<E, V>>, inputs: Seq<usize>) -> bool {
    exists|k: int| 0 <= k < inputs.len() && nodes[#[trigger] inputs[k] as int].requires_grad
}

/// Node `i` refers to earlier nodes only, a leaf refers to none, and an op
/// node requires a gradient exactly if one of its inputs does.
pub open spec fn valid_node<E, V>(nodes: Seq<Node<E, V>>, i: int) -> bool {
    let n = nodes[i];
    &&& forall|k: int| 0 <= k < n.inputs@.len() ==> #[trigger] n.inputs@[k] < i
    &&& n.op is None ==> n.inputs@.len() == 0
    &&& n.op is Some ==> n.requires_grad == any_requires(nodes, n.inputs@)
}

/// Every node is valid.
pub open spec fn valid_nodes<E, V>(nodes: Seq<Node<E, V>>) -> bool {
    forall|i: int| 0 <= i < nodes.len() ==> #[trigger] valid_node(nodes, i)
}

/// A leaf node.
pub open spec fn is_leaf_node<E, V>(n: Node<E, V>, value: Tensor<E>, requires_grad: bool) -> bool {
    &&& n.value == value
    &&& n.op is None
    &&& n.inputs@ == Seq::<usize>::empty()
    &&& n.rule is None
    &&& n.grad is None
    &&& n.requires_grad == requires_grad
}

/// The handles' places.
pub open spec fn ids_of(vars: Seq<Var>) -> Seq<int> {
    Seq::new(vars.len(), |k: int| vars[k].id())
}

impl<E, V> Graph<E, V> {
    /// The nodes.
    pub closed spec fn nodes(&self) -> Seq<Node<E, V>> {
        self.nodes@
    }

    /// Ops currently record their provenance.
    pub closed spec fn recording(&self) -> bool {
        self.recording
    }

    /// Every node of the graph is valid.
    pub open spec fn wf(&self) -> bool {
        valid_nodes(self.nodes())
    }

    /// `v` is a handle on a node of this graph.
    pub open spec fn has(&self, v: Var) -> bool {
        0 <= v.id() < self.nodes().len()
    }

    /// The node behind a handle.
    pub open spec fn node(&self, v: Var) -> Node<E, V> {
        self.nodes()[v.id()]
    }

    /// An empty graph that records.
    pub fn new() -> (r: Self)
        ensures
            r.wf(),
            r.nodes().len() == 0,
            r.recording(),
    {
        Graph { nodes: Vec::new(), recording: true }
    }

    /// How many nodes the graph holds.
    pub fn len(&self) -> (r: usize)
        ensures
            r == self.nodes().len(),
    {
        self.nodes.len()
    }

    /// Whether `v` is a handle on a node of this graph.
    pub fn holds(&self, v: Var) -> (r: bool)
        ensures
            r == self.has(v),
    {
        v.id < self.nodes.len()
    }

    /// Frees every node made after the graph held `len` nodes, such as those
    /// of one training step.
    pub fn rewind(&mut self, len: usize)
        requires
            old(self).wf(),
        ensures
            final(self).wf(),
            final(self).nodes() == if len < old(self).nodes().len() {
                old(self).nodes().take(len as int)
            } else {
                old(self).nodes()
            },
            final(self).recording() == old(self).recording(),
    {
        self.nodes.truncate(len);
        proof {
            let before = old(self).nodes();
            let after = self.nodes();
            assert forall|i: int| 0 <= i < after.len() implies #[trigger] valid_node(after, i) by {
                assert(valid_node(before, i));
                assert(after[i] == before[i]);
                let inputs = after[i].inputs@;
                if any_requires(before, inputs) {
                    let k = choose|k: int|
                        0 <= k < inputs.len() && before[#[trigger] inputs[k] as int].requires_grad;
                    assert(after[inputs[k] as int].requires_grad);
                }
                if any_requires(after, inputs) {
                    let k = choose|k: int|
                        0 <= k < inputs.len() && after[#[trigger] inputs[k] as int].requires_grad;
                    assert(before[inputs[k] as int].requires_grad);
                }
            }
        }
    }

    fn push_node(&mut self, node: Node<E, V>) -> (r: Var)
        requires
            old(self).wf(),
            valid_node(old(self).nodes().push(node), old(self).nodes().len() as int),
        ensures
            final(self).wf(),
            final(self).nodes() == old(self).nodes().push(node),
            final(self).recording() == old(self).recording(),
            r.id() == old(self).nodes().len(),
    {
        let id: usize = self.nodes.len();
        self.nodes.push(node);
        proof {
            let before = old(self).nodes();
            let after = self.nodes();
            assert forall|i: int| 0 <= i < after.len() implies #[trigger] valid_node(after, i) by {
                if i < before.len() {
                    lemma_valid_extends(before, node, i);
                }
            }
        }
        Var { id }
    }
}

proof fn lemma_valid_extends<E, V>(nodes: Seq<Node<E, V>>, node: Node<E, V>, i: int)
    requires
        0 <= i < nodes.len(),
        valid_node(nodes, i),
    ensures
        valid_node(nodes.push(node), i),
{
    let after = nodes.push(node);
    let inputs = nodes[i].inputs@;
    if any_requires(nodes, inputs) {
        let k = choose|k: int|
            0 <= k < inputs.len() && nodes[#[trigger] inputs[k] as int].requires_grad;
        assert(after[inputs[k] as int].requires_grad);
    }
    if any_requires(after, inputs) {
        let k = choose|k: int|
            0 <= k < inputs.len() && after[#[trigger] inputs[k] as int].requires_grad;
        assert(nodes[inputs[k] as int].requires_grad);
    }
}

// ---- grad mode ----------------------------------------------------------------

/// Whether ops currently record into the graph.
#[must_use]
pub fn is_grad_enabled<E, V>(g: &Graph<E, V>) -> (r: bool)
    ensures
        r == g.recording(),
{
    g.recording
}

/// Setting the grad mode to `enabled` returns `prev` and leads from `before`
/// to `after`.
pub open spec fn mode_set<E, V>(
    before: Graph<E, V>,
    enabled: bool,
    prev: bool,
    after: Graph<E, V>,
) -> bool {
    &&& prev == before.recording()
    &&& after.recording() == enabled
    &&& after.nodes() == before.nodes()
}

/// Setting the grad mode and then setting what that returned brings the
/// previous mode back, and the nodes stay.
pub proof fn law_grad_mode_restores<E, V>(
    a: Graph<E, V>,
    enabled: bool,
    prev: bool,
    b: Graph<E, V>,
    again: bool,
    c: Graph<E, V>,
)
    requires
        mode_set(a, enabled, prev, b),
        mode_set(b, prev, again, c),
    ensures
        again == enabled,
        c.recording() == a.recording(),
        c.nodes() == a.nodes(),
{
}

/// Sets the grad mode, returning the previous mode so callers can restore it
/// (manual save/restore; prefer [`GradGuard`], [`no_grad`], or
/// [`enable_grad`]).
#[must_use]
pub fn set_grad_enabled<E, V>(g: &mut Graph<E, V>, enabled: bool) -> (r: bool)
    ensures
        mode_set(*old(g), enabled, r, *final(g)),
{
    let prev = g.recording;
    g.recording = enabled;
    prev
}

/// Runs `f` in the mode `on`; the previous mode comes back when `f` returns
/// and when it unwinds.
fn in_mode<E, V, R, F: FnOnce(&mut Graph<E, V>) -> R>(g: &mut Graph<E, V>, on: bool, f: F) -> (r: R)
    requires
        forall|x: &mut Graph<E, V>|
            #![trigger call_requires(f, (x,))]
            x.nodes() == old(g).nodes() && x.recording() == on ==> call_requires(f, (x,)),
    ensures
        exists|x: &mut Graph<E, V>|
            #![trigger call_ensures(f, (x,), r)]
            x.nodes() == old(g).nodes() && x.recording() == on && call_ensures(f, (x,), r)
                && final(g).nodes() == final(x).nodes(),
        final(g).recording() == old(g).recording(),
{
    let mut guard = GradGuard::set(g, on);
    let r = f(guard.graph());
    guard.restore();
    r
}

/// Runs `f` with graph recording disabled: every op inside returns detached
/// values (torch's `no_grad`). The previous mode comes back when `f` returns,
/// and also when it unwinds, so scopes nest. What holds after unwinding is
/// not part of the contract.
pub fn no_grad<E, V, R, F: FnOnce(&mut Graph<E, V>) -> R>(g: &mut Graph<E, V>, f: F) -> (r: R)
    requires
        forall|x: &mut Graph<E, V>|
            #![trigger call_requires(f, (x,))]
            x.nodes() == old(g).nodes() && !x.recording() ==> call_requires(f, (x,)),
    ensures
        exists|x: &mut Graph<E, V>|
            #![trigger call_ensures(f, (x,), r)]
            x.nodes() == old(g).nodes() && !x.recording() && call_ensures(f, (x,), r)
                && final(g).nodes() == final(x).nodes(),
        final(g).recording() == old(g).recording(),
{
    in_mode(g, false, f)
}

/// Runs `f` with graph recording force-enabled, useful inside a `no_grad`
/// scope (torch's `enable_grad`). The previous mode comes back when `f`
/// returns, and also when it unwinds. What holds after unwinding is not part
/// of the contract.
pub fn enable_grad<E, V, R, F: FnOnce(&mut Graph<E, V>) -> R>(g: &mut Graph<E, V>, f: F) -> (r: R)
    requires
        forall|x: &mut Graph<E, V>|
            #![trigger call_requires(f, (x,))]
            x.nodes() == old(g).nodes() && x.recording() ==> call_requires(f, (x,)),
    ensures
        exists|x: &mut Graph<E, V>|
            #![trigger call_ensures(f, (x,), r)]
            x.nodes() == old(g).nodes() && x.recording() && call_ensures(f, (x,), r)
                && final(g).nodes() == final(x).nodes(),
        final(g).recording() == old(g).recording(),
{
    in_mode(g, true, f)
}

/// RAII toggle for grad mode. Construction sets the mode; the guard holds the
/// graph ([`GradGuard::graph`]) until [`GradGuard::restore`] or dropping it,
/// also by unwinding, brings the previous mode back. What a drop does is not
/// part of any contract, so callers that rely on the mode afterwards end with
/// `restore`. Prefer [`no_grad`] / [`enable_grad`] unless the mode must span
/// unrelated calls.
#[must_use]
pub struct GradGuard<'a, E, V> {
    g: Option<&'a mut Graph<E, V>>,
    prev: bool,
}

impl<'a, E, V> Drop for GradGuard<'a, E, V> {
    fn drop(&mut self)
        opens_invariants none
        no_unwind
    {
        if let Some(g) = &mut self.g {
            g.recording = self.prev;
        }
    }
}

impl<'a, E, V> GradGuard<'a, E, V> {
    /// The guard holds its graph.
    pub closed spec fn active(self) -> bool {
        self.g is Some
    }

    /// The graph that the guard holds.
    pub closed spec fn held(self) -> &'a mut Graph<E, V> {
        self.g->0
    }

    /// The mode that comes back.
    pub closed spec fn previous(self) -> bool {
        self.prev
    }

    /// Pauses graph recording until the guard is restored or dropped.
    pub fn pause(g: &'a mut Graph<E, V>) -> (r: Self)
        ensures
            r.active(),
            r.previous() == old(g).recording(),
            !r.held().recording(),
            r.held().nodes() == old(g).nodes(),
            *final(g) == *final(r.held()),
    {
        Self::set(g, false)
    }

    /// Forces graph recording on until the guard is restored or dropped.
    pub fn force(g: &'a mut Graph<E, V>) -> (r: Self)
        ensures
            r.active(),
            r.previous() == old(g).recording(),
            r.held().recording(),
            r.held().nodes() == old(g).nodes(),
            *final(g) == *final(r.held()),
    {
        Self::set(g, true)
    }

    fn set(g: &'a mut Graph<E, V>, on: bool) -> (r: Self)
        ensures
            r.active(),
            r.previous() == old(g).recording(),
            r.held().recording() == on,
            r.held().nodes() == old(g).nodes(),
            *final(g) == *final(r.held()),
    {
        let prev = set_grad_enabled(g, on);
        GradGuard { g: Some(g), prev }
    }

    /// The graph, in the mode of the guard.
    pub fn graph(&mut self) -> (x: &mut Graph<E, V>)
        requires
            old(self).active(),
        ensures
            *x == *old(self).held(),
            final(self).active(),
            final(self).previous() == old(self).previous(),
            *final(self).held() == *final(x),
            *final(final(self).held()) == *final(old(self).held()),
    {
        match &mut self.g {
            Some(g) => g,
            None => vstd::pervasive::unreached(),
        }
    }

    /// Brings the previous mode back and gives the graph up.
    pub fn restore(self)
        requires
            self.active(),
        ensures
            final(self.held()).recording() == self.previous(),
            final(self.held()).nodes() == self.held().nodes(),
    {
        let mut guard = self;
        if let Some(g) = guard.g.take() {
            g.recording = guard.prev;
        }
    }
}

// ---- nodes and handles --------------------------------------------------------

/// A graph state with the gradient of node `i` replaced.
pub open spec fn with_grad<E, V>(
    nodes: Seq<Node<E, V>>,
    i: int,
    grad: Option<Tensor<E>>,
) -> Seq<Node<E, V>> {
    nodes.update(i, Node { grad, ..nodes[i] })
}

/// A graph state with the rule of node `i` consumed.
pub open spec fn without_rule<E, V>(nodes: Seq<Node<E, V>>, i: int) -> Seq<Node<E, V>> {
    nodes.update(i, Node { rule: None, ..nodes[i] })
}

/// What recording an op adds to the nodes: an op node with its inputs and
/// rule, or a detached leaf when the graph is not recording.
pub open spec fn recorded<E, V>(
    before: Graph<E, V>,
    after: Graph<E, V>,
    v: Var,
    value: Tensor<E>,
    op: Seq<char>,
    inputs: Seq<Var>,
    rule: V,
) -> bool {
    let n = after.nodes().last();
    &&& after.wf()
    &&& after.recording() == before.recording()
    &&& after.nodes().len() == before.nodes().len() + 1
    &&& after.nodes().drop_last() == before.nodes()
    &&& v.id() == before.nodes().len()
    &&& if before.recording() {
        &&& n.value == value
        &&& n.op is Some
        &&& n.op->0@ == op
        &&& index_of(n.inputs@) == ids_of(inputs)
        &&& n.rule == Some(rule)
        &&& n.grad is None
        &&& n.requires_grad == (exists|k: int|
            0 <= k < inputs.len() && before.node(#[trigger] inputs[k]).requires_grad)
    } else {
        is_leaf_node(n, value, false)
    }
}

impl Var {
    /// Wraps a tensor as a graph leaf.
    #[must_use]
    pub fn leaf<E, V>(g: &mut Graph<E, V>, value: Tensor<E>, requires_grad: bool) -> (r: Self)
        requires
            old(g).wf(),
        ensures
            final(g).wf(),
            final(g).recording() == old(g).recording(),
            final(g).nodes().len() == old(g).nodes().len() + 1,
            final(g).nodes().drop_last() == old(g).nodes(),
            is_leaf_node(final(g).nodes().last(), value, requires_grad),
            r.id() == old(g).nodes().len(),
    {
        let node = Node {
            value,
            op: None,
            inputs: Vec::new(),
            rule: None,
            grad: None,
            requires_grad,
        };
        let ghost before = g.nodes();
        assert(before.push(node)[before.len() as int] == node);
        let r = g.push_node(node);
        assert(g.nodes().drop_last() =~= before);
        r
    }

    /// Records an op node: `value = op(inputs...)`, with its rule.
    ///
    /// When grad mode is off ([`no_grad`]), the result is a detached leaf
    /// instead: no inputs are stored, no rule is kept, and the node does not
    /// require grad, matching torch.
    pub fn op<E, V>(
        g: &mut Graph<E, V>,
        value: Tensor<E>,
        op: &'static str,
        inputs: &[Var],
        rule: V,
    ) -> (r: Self)
        requires
            old(g).wf(),
            forall|k: int| 0 <= k < inputs.len() ==> old(g).has(#[trigger] inputs@[k]),
        ensures
            recorded(*old(g), *final(g), r, value, op@, inputs@, rule),
    {
        if !g.recording {
            return Var::leaf(g, value, false);
        }
        let ghost before = g.nodes();
        let mut ids: Vec<usize> = Vec::with_capacity(inputs.len());
        let mut requires_grad = false;
        let mut k: usize = 0;
        while k < inputs.len()
            invariant
                0 <= k <= inputs.len(),
                g.nodes() == before,
                *g == *old(g),
                forall|j: int| 0 <= j < inputs.len() ==> g.has(#[trigger] inputs@[j]),
                ids.len() == k,
                forall|j: int| 0 <= j < k ==> ids@[j] == (#[trigger] inputs@[j]).id(),
                requires_grad == (exists|j: int|
                    0 <= j < k && before[(#[trigger] inputs@[j]).id()].requires_grad),
            decreases inputs.len() - k,
        {
            let v = inputs[k];
            assert(g.has(inputs@[k as int]));
            ids.push(v.id);
            if g.nodes[v.id].requires_grad {
                requires_grad = true;
                assert(before[inputs@[k as int].id()].requires_grad);
            }
            k = k + 1;
        }
        let node = Node { value, op: Some(op), inputs: ids, rule: Some(rule), grad: None, requires_grad };
        proof {
            let after = before.push(node);
            let n = before.len() as int;
            assert(after[n] == node);
            assert forall|j: int| 0 <= j < ids@.len() implies #[trigger] ids@[j] < n by {
                assert(g.has(inputs@[j]));
            }
            if requires_grad {
                let j = choose|j: int|
                    0 <= j < inputs@.len() && before[(#[trigger] inputs@[j]).id()].requires_grad;
                assert(after[ids@[j] as int].requires_grad);
            }
            if any_requires(after, ids@) {
                let j = choose|j: int|
                    0 <= j < ids@.len() && after[#[trigger] ids@[j] as int].requires_grad;
                assert(g.has(inputs@[j]));
                assert(before[inputs@[j].id()].requires_grad);
            }
            assert(valid_node(after, n));
            assert(index_of(ids@) =~= ids_of(inputs@));
        }
        let r = g.push_node(node);
        proof {
            assert(g.nodes().drop_last() =~= before);
            assert(requires_grad == (exists|j: int|
                0 <= j < inputs@.len() && old(g).node(#[trigger] inputs@[j]).requires_grad)) by {
                if requires_grad {
                    let j = choose|j: int|
                        0 <= j < inputs@.len() && before[(#[trigger] inputs@[j]).id()].requires_grad;
                    assert(old(g).node(inputs@[j]).requires_grad);
                }
                if exists|j: int|
                    0 <= j < inputs@.len() && old(g).node(#[trigger] inputs@[j]).requires_grad {
                    let j = choose|j: int|
                        0 <= j < inputs@.len() && old(g).node(
                            #[trigger] inputs@[j],
                        ).requires_grad;
                    assert(before[inputs@[j].id()].requires_grad);
                }
            }
        }
        r
    }

    /// The forward value.
    #[must_use]
    pub fn value<E, V>(self, g: &Graph<E, V>) -> (r: &Tensor<E>)
        requires
            g.has(self),
        ensures
            *r == g.node(self).value,
    {
        &g.nodes[self.id].value
    }

    /// Whether this node participates in autograd (leaf flag or any input
    /// requires grad).
    #[must_use]
    pub fn requires_grad<E, V>(self, g: &Graph<E, V>) -> (r: bool)
        requires
            g.has(self),
        ensures
            r == g.node(self).requires_grad,
    {
        g.nodes[self.id].requires_grad
    }

    /// The op name, or `None` for leaves.
    #[must_use]
    pub fn op_name<E, V>(self, g: &Graph<E, V>) -> (r: Option<&'static str>)
        requires
            g.has(self),
        ensures
            r == g.node(self).op,
    {
        g.nodes[self.id].op
    }

    /// The accumulated gradient, if `backward()` has run and reached here.
    #[must_use]
    pub fn grad<E, V>(self, g: &Graph<E, V>) -> (r: Option<Tensor<E>>)
        requires
            g.has(self),
        ensures
            r == g.node(self).grad,
    {
        match &g.nodes[self.id].grad {
            Some(t) => Some(t.clone()),
            None => None,
        }
    }

    /// Overwrites the accumulated gradient (gradient surgery: clipping,
    /// scaled/normalised seeds). The shape must match the node's value.
    pub fn set_grad<E, V>(self, g: &mut Graph<E, V>, grad: Tensor<E>) -> (r: OxitorchResult<()>)
        requires
            old(g).wf(),
            old(g).has(self),
        ensures
            final(g).wf(),
            final(g).recording() == old(g).recording(),
            match r {
                Ok(_) => grad.dims() == old(g).node(self).value.dims() && final(g).nodes()
                    == with_grad(old(g).nodes(), self.id(), Some(grad)),
                Err(e) => grad.dims() != old(g).node(self).value.dims() && e@ == mismatch_error(
                    grad.dims(),
                    old(g).node(self).value.dims(),
                ) && final(g).nodes() == old(g).nodes(),
            },
    {
        if !same_dims(grad.shape(), g.nodes[self.id].value.shape()) {
            return Err(mismatch(grad.shape(), g.nodes[self.id].value.shape()));
        }
        g.nodes[self.id].grad = Some(grad);
        proof {
            lemma_valid_kept(old(g).nodes(), g.nodes());
        }
        Ok(())
    }

    /// Discards the graph: returns the forward value without provenance.
    #[must_use]
    pub fn detach<E, V>(self, g: &Graph<E, V>) -> (r: Tensor<E>)
        requires
            g.has(self),
        ensures
            r == g.node(self).value,
    {
        self.value(g).clone()
    }

    /// Zeroes this node's gradient (a fresh zero tensor of its shape).
    ///
    /// Fails as [`Tensor::zeros`] does.
    pub fn zero_grad<E: Elem, V>(self, g: &mut Graph<E, V>) -> (r: OxitorchResult<()>)
        requires
            old(g).wf(),
            old(g).has(self),
        ensures
            final(g).wf(),
            final(g).recording() == old(g).recording(),
            match r {
                Ok(_) => {
                    let shape = signed_dims(old(g).node(self).value.dims());
                    &&& shape_error(shape) is None
                    &&& exists|z: Tensor<E>|
                        #![trigger with_grad(old(g).nodes(), self.id(), Some(z))]
                        z.dims() == sizes_of(shape) && (forall|p: int|
                            0 <= p < z.count() ==> is_zero(#[trigger] z.data()[p]))
                            && final(g).nodes() == with_grad(
                            old(g).nodes(),
                            self.id(),
                            Some(z),
                        )
                },
                Err(e) => shape_error(signed_dims(old(g).node(self).value.dims())) == Some(e@)
                    && final(g).nodes() == old(g).nodes(),
            },
    {
        let shape = g.nodes[self.id].value.shape_i64();
        match Tensor::zeros(shape.as_slice()) {
            Ok(z) => {
                g.nodes[self.id].grad = Some(z);
                proof {
                    lemma_valid_kept(old(g).nodes(), g.nodes());
                    assert(g.nodes() == with_grad(old(g).nodes(), self.id(), Some(z)));
                }
                Ok(())
            },
            Err(e) => Err(e),
        }
    }

    /// The node as shown to a user: its op and shape.
    pub fn to_string<E, V>(self, g: &Graph<E, V>) -> (r: String)
        requires
            g.has(self),
        ensures
            r@ == "Var("@ + (match g.node(self).op {
                Some(op) => op@,
                None => "leaf"@,
            }) + ", shape="@ + dims_text(g.node(self).value.dims()) + ")"@,
    {
        let shape = dims_string(g.nodes[self.id].value.shape());
        match g.nodes[self.id].op {
            Some(op) => join5("Var(", op, ", shape=", shape.as_str(), ")"),
            None => join5("Var(", "leaf", ", shape=", shape.as_str(), ")"),
        }
    }
}

/// Nothing but gradients and rules differs.
pub open spec fn same_structure<E, V>(a: Seq<Node<E, V>>, b: Seq<Node<E, V>>) -> bool {
    &&& a.len() == b.len()
    &&& forall|i: int|
        0 <= i < a.len() ==> (#[trigger] b[i]).value == a[i].value && b[i].op == a[i].op
            && b[i].inputs == a[i].inputs && b[i].requires_grad == a[i].requires_grad
}

/// Changing gradients and rules keeps the graph valid.
pub proof fn lemma_valid_kept<E, V>(a: Seq<Node<E, V>>, b: Seq<Node<E, V>>)
    requires
        valid_nodes(a),
        same_structure(a, b),
    ensures
        valid_nodes(b),
{
    assert forall|i: int| 0 <= i < b.len() implies #[trigger] valid_node(b, i) by {
        assert(valid_node(a, i));
        let inputs = a[i].inputs@;
        assert(b[i].inputs == a[i].inputs);
        if any_requires(a, inputs) {
            let k = choose|k: int|
                0 <= k < inputs.len() && a[#[trigger] inputs[k] as int].requires_grad;
            assert(b[inputs[k] as int].requires_grad);
        }
        if any_requires(b, inputs) {
            let k = choose|k: int|
                0 <= k < inputs.len() && b[#[trigger] inputs[k] as int].requires_grad;
            assert(inputs[k] < i);
            assert(a[inputs[k] as int].requires_grad);
        }
    }
}

} // verus!
