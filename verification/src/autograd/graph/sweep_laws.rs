//! What freeing nodes keeps.

use vstd::prelude::*;
use crate::autograd::graph::{Node, Var, valid_node, valid_nodes};
use crate::autograd::graph::sweep::{
    has_input, is_root, lemma_count_grows, needed, new_places, swept,
};
use crate::autograd::topo::depends_on;

verus! {

/// An input of something that a node depends on is something that it depends
/// on.
proof fn lemma_depends_further<E, V>(nodes: Seq<Node<E, V>>, from: int, j: int, i: int)
    requires
        valid_nodes(nodes),
        0 <= from < nodes.len(),
        depends_on(nodes, from, j),
        0 <= j < nodes.len(),
        has_input(nodes[j], i),
    ensures
        depends_on(nodes, from, i),
    decreases from,
{
    if from == j {
        let k = choose|k: int| 0 <= k < nodes[j].inputs@.len() && #[trigger] nodes[j].inputs@[k] == i;
        assert(valid_node(nodes, j));
        assert(nodes[from].inputs@[k] < from);
        assert(depends_on(nodes, nodes[from].inputs@[k] as int, i));
    } else {
        let k = choose|k: int|
            #![trigger nodes[from].inputs@[k]]
            0 <= k < nodes[from].inputs@.len() && 0 <= nodes[from].inputs@[k] < from && depends_on(
                nodes,
                nodes[from].inputs@[k] as int,
                j,
            );
        lemma_depends_further(nodes, nodes[from].inputs@[k] as int, j, i);
    }
}

/// What a needed node depends on is needed.
proof fn lemma_needed_further<E, V>(nodes: Seq<Node<E, V>>, roots: Seq<Var>, j: int, i: int)
    requires
        valid_nodes(nodes),
        0 <= j < nodes.len(),
        needed(nodes, roots, j),
        depends_on(nodes, j, i),
    ensures
        needed(nodes, roots, i),
    decreases j,
{
    if j != i {
        let k = choose|k: int|
            #![trigger nodes[j].inputs@[k]]
            0 <= k < nodes[j].inputs@.len() && 0 <= nodes[j].inputs@[k] < j && depends_on(
                nodes,
                nodes[j].inputs@[k] as int,
                i,
            );
        let u = nodes[j].inputs@[k] as int;
        assert(has_input(nodes[j], u));
        lemma_needed_further(nodes, roots, u, i);
    }
}

proof fn lemma_needed_by_root<E, V>(nodes: Seq<Node<E, V>>, roots: Seq<Var>, i: int)
    requires
        valid_nodes(nodes),
        forall|k: int| 0 <= k < roots.len() ==> 0 <= (#[trigger] roots[k]).id() < nodes.len(),
        0 <= i < nodes.len(),
        needed(nodes, roots, i),
    ensures
        exists|k: int| 0 <= k < roots.len() && depends_on(nodes, (#[trigger] roots[k]).id(), i),
    decreases nodes.len() - i,
{
    if is_root(roots, i) {
        let k = choose|k: int| 0 <= k < roots.len() && (#[trigger] roots[k]).id() == i;
        assert(depends_on(nodes, roots[k].id(), i));
    } else {
        let j = choose|j: int|
            i < j < nodes.len() && #[trigger] has_input(nodes[j], i) && needed(nodes, roots, j);
        lemma_needed_by_root(nodes, roots, j);
        let k = choose|k: int|
            0 <= k < roots.len() && depends_on(nodes, (#[trigger] roots[k]).id(), j);
        lemma_depends_further(nodes, roots[k].id(), j, i);
    }
}

/// A node is kept exactly when some handle depends on it.
pub proof fn law_sweep_keeps_what_handles_need<E, V>(
    nodes: Seq<Node<E, V>>,
    roots: Seq<Var>,
    i: int,
)
    requires
        valid_nodes(nodes),
        forall|k: int| 0 <= k < roots.len() ==> 0 <= (#[trigger] roots[k]).id() < nodes.len(),
        0 <= i < nodes.len(),
    ensures
        needed(nodes, roots, i) <==> exists|k: int|
            0 <= k < roots.len() && depends_on(nodes, (#[trigger] roots[k]).id(), i),
{
    if needed(nodes, roots, i) {
        lemma_needed_by_root(nodes, roots, i);
    }
    if exists|k: int| 0 <= k < roots.len() && depends_on(nodes, (#[trigger] roots[k]).id(), i) {
        let k = choose|k: int|
            0 <= k < roots.len() && depends_on(nodes, (#[trigger] roots[k]).id(), i);
        assert(is_root(roots, roots[k].id()));
        lemma_needed_further(nodes, roots, roots[k].id(), i);
    }
}

/// Kept nodes keep their order, their values, gradients and rules, and their
/// inputs wherever these have moved; nothing else is left.
pub proof fn law_sweep_keeps_order<E, V>(
    before: Seq<Node<E, V>>,
    roots: Seq<Var>,
    after: Seq<Node<E, V>>,
    i: int,
    j: int,
)
    requires
        valid_nodes(before),
        swept(before, roots, after),
        0 <= i < j < before.len(),
        needed(before, roots, i),
        needed(before, roots, j),
    ensures
        ({
            let at = new_places(before, roots);
            &&& 0 <= at[i] < at[j] < after.len()
            &&& after[at[j]].value == before[j].value
            &&& after[at[j]].grad == before[j].grad
            &&& after[at[j]].rule == before[j].rule
            &&& after[at[j]].requires_grad == before[j].requires_grad
            &&& after[at[j]].inputs@.len() == before[j].inputs@.len()
            &&& forall|k: int|
                0 <= k < before[j].inputs@.len() ==> #[trigger] after[at[j]].inputs@[k]
                    == at[before[j].inputs@[k] as int]
        }),
        after.len() <= before.len(),
{
    lemma_count_grows(before, roots, i, j);
    lemma_count_grows(before, roots, j, before.len() as int);
    lemma_count_grows(before, roots, 0, i);
}

} // verus!
