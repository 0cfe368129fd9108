//! The order in which a backward pass meets the nodes.

use vstd::prelude::*;
use crate::autograd::graph::{Node, valid_node, valid_nodes};
use crate::index::index_of;

verus! {

/// A traversal under way: the nodes met so far, and the finished ones in the
/// order they finished.
pub struct Walk {
    pub seen: Set<int>,
    pub order: Seq<int>,
}

/// Depth-first post-order from node `v`: unless it was met before, the last
/// input is finished first, then the one before it, and `v` comes last.
pub open spec fn visit<E, V>(nodes: Seq<Node<E, V>>, v: int, w: Walk) -> Walk
    decreases v, nodes[v].inputs@.len() + 1,
{
    if w.seen.contains(v) {
        w
    } else {
        let done = visit_inputs(
            nodes,
            v,
            nodes[v].inputs@.len() as int,
            Walk { seen: w.seen.insert(v), order: w.order },
        );
        Walk { seen: done.seen, order: done.order.push(v) }
    }
}

/// Visits the first `k` inputs of node `v`, from the last of them down.
pub open spec fn visit_inputs<E, V>(nodes: Seq<Node<E, V>>, v: int, k: int, w: Walk) -> Walk
    decreases v, k,
{
    if k <= 0 || k > nodes[v].inputs@.len() {
        w
    } else {
        let u = nodes[v].inputs@[k - 1] as int;
        if 0 <= u < v {
            visit_inputs(nodes, v, k - 1, visit(nodes, u, w))
        } else {
            w
        }
    }
}

/// The nodes that `root` depends on, itself last, every node after its
/// inputs.
pub open spec fn post_order<E, V>(nodes: Seq<Node<E, V>>, root: int) -> Seq<int> {
    visit(nodes, root, Walk { seen: Set::empty(), order: Seq::empty() }).order
}

/// `to` is `from` or one of the nodes it depends on.
pub open spec fn depends_on<E, V>(nodes: Seq<Node<E, V>>, from: int, to: int) -> bool
    decreases from,
{
    from == to || exists|k: int|
        #![trigger nodes[from].inputs@[k]]
        0 <= k < nodes[from].inputs@.len() && 0 <= nodes[from].inputs@[k] < from && depends_on(
            nodes,
            nodes[from].inputs@[k] as int,
            to,
        )
}

/// Every finished node comes after all its inputs, and none comes twice.
pub open spec fn is_sorted_walk<E, V>(nodes: Seq<Node<E, V>>, w: Walk) -> bool {
    &&& forall|p: int| 0 <= p < w.order.len() ==> w.seen.contains(#[trigger] w.order[p])
    &&& forall|p: int| 0 <= p < w.order.len() ==> 0 <= #[trigger] w.order[p] < nodes.len()
    &&& w.order.no_duplicates()
    &&& forall|p: int, k: int|
        #![trigger nodes[w.order[p]].inputs@[k]]
        0 <= p < w.order.len() && 0 <= k < nodes[w.order[p]].inputs@.len() ==> w.order.take(
            p,
        ).contains(nodes[w.order[p]].inputs@[k] as int)
}

/// Every node met that is not above `bound` is finished.
pub open spec fn finished_up_to(w: Walk, bound: int) -> bool {
    forall|x: int| #[trigger] w.seen.contains(x) && x <= bound ==> w.order.contains(x)
}

/// A later state of the same traversal: what was met stays met, what was
/// finished stays in place, and all that is new depends on `v`.
pub open spec fn continues<E, V>(nodes: Seq<Node<E, V>>, v: int, a: Walk, b: Walk) -> bool {
    &&& a.seen.subset_of(b.seen)
    &&& a.order.len() <= b.order.len()
    &&& b.order.take(a.order.len() as int) == a.order
    &&& forall|x: int| #[trigger]
        b.seen.contains(x) && !a.seen.contains(x) ==> x <= v && depends_on(nodes, v, x)
    &&& forall|p: int|
        a.order.len() <= p < b.order.len() ==> depends_on(nodes, v, #[trigger] b.order[p])
}

proof fn lemma_visit<E, V>(nodes: Seq<Node<E, V>>, v: int, w: Walk)
    requires
        valid_nodes(nodes),
        0 <= v < nodes.len(),
        is_sorted_walk(nodes, w),
        finished_up_to(w, v),
    ensures
        ({
            let r = visit(nodes, v, w);
            &&& is_sorted_walk(nodes, r)
            &&& finished_up_to(r, v)
            &&& r.order.contains(v)
            &&& continues(nodes, v, w, r)
            &&& !w.seen.contains(v) ==> r.order.last() == v && r.order.len() > 0
        }),
    decreases v, nodes[v].inputs@.len() + 1,
{
    if !w.seen.contains(v) {
        let n = nodes[v].inputs@.len() as int;
        let start = Walk { seen: w.seen.insert(v), order: w.order };
        assert(valid_node(nodes, v));
        assert(!w.order.contains(v)) by {
            if w.order.contains(v) {
                let p = choose|p: int| 0 <= p < w.order.len() && w.order[p] == v;
                assert(w.seen.contains(w.order[p]));
            }
        }
        lemma_visit_inputs(nodes, v, n, start);
        let done = visit_inputs(nodes, v, n, start);
        let r = visit(nodes, v, w);
        assert(r == Walk { seen: done.seen, order: done.order.push(v) });
        assert(!done.order.contains(v)) by {
            if done.order.contains(v) {
                let p = choose|p: int| 0 <= p < done.order.len() && done.order[p] == v;
                if p < start.order.len() {
                    assert(done.order.take(start.order.len() as int)[p] == start.order[p]);
                    assert(w.order.contains(v));
                } else {
                    assert(inputs_reach(nodes, v, done.order[p]));
                    lemma_inputs_below(nodes, v, done.order[p]);
                }
            }
        }
        assert(r.order.last() == v);
        assert(r.order[done.order.len() as int] == v);
        assert forall|p: int| 0 <= p < r.order.len() implies r.seen.contains(#[trigger] r.order[p])
            && 0 <= r.order[p] < nodes.len() by {
            if p < done.order.len() {
                assert(r.order[p] == done.order[p]);
            } else {
                assert(start.seen.contains(v));
            }
        }
        assert(r.order.no_duplicates()) by {
            assert forall|i: int, j: int|
                0 <= i < r.order.len() && 0 <= j < r.order.len() && i != j implies r.order[i]
                != r.order[j] by {
                if i < done.order.len() && j < done.order.len() {
                    assert(done.order[i] != done.order[j]);
                } else if i < done.order.len() {
                    assert(done.order.contains(done.order[i]));
                } else {
                    assert(done.order.contains(done.order[j]));
                }
            }
        }
        assert forall|p: int, k: int|
            #![trigger nodes[r.order[p]].inputs@[k]]
            0 <= p < r.order.len() && 0 <= k < nodes[r.order[p]].inputs@.len() implies r.order.take(
            p,
        ).contains(nodes[r.order[p]].inputs@[k] as int) by {
            if p < done.order.len() {
                assert(r.order[p] == done.order[p]);
                assert(done.order.take(p).contains(nodes[done.order[p]].inputs@[k] as int));
                assert(r.order.take(p) =~= done.order.take(p));
            } else {
                assert(r.order.take(p) =~= done.order);
                assert(done.order.contains(nodes[v].inputs@[k] as int));
            }
        }
        assert forall|x: int| #[trigger] r.seen.contains(x) && x <= v implies r.order.contains(
            x,
        ) by {
            if x == v {
                assert(r.order[done.order.len() as int] == v);
            } else {
                assert(done.order.contains(x));
                let p = choose|p: int| 0 <= p < done.order.len() && done.order[p] == x;
                assert(r.order[p] == x);
            }
        }
        assert forall|x: int| #[trigger] r.seen.contains(x) && !w.seen.contains(x) implies x <= v
            && depends_on(nodes, v, x) by {
            if x != v {
                assert(!start.seen.contains(x));
                assert(inputs_reach(nodes, v, x));
                lemma_inputs_below(nodes, v, x);
                lemma_inputs_reach(nodes, v, x);
            }
        }
        assert forall|p: int| w.order.len() <= p < r.order.len() implies depends_on(
            nodes,
            v,
            #[trigger] r.order[p],
        ) by {
            if p < done.order.len() {
                assert(r.order[p] == done.order[p]);
                assert(inputs_reach(nodes, v, done.order[p]));
                lemma_inputs_reach(nodes, v, done.order[p]);
            }
        }
        assert(r.order.take(w.order.len() as int) =~= w.order) by {
            assert forall|p: int| 0 <= p < w.order.len() implies r.order[p] == w.order[p] by {
                assert(done.order.take(w.order.len() as int)[p] == w.order[p]);
            }
        }
        assert(w.seen.subset_of(r.seen)) by {
            assert forall|x: int| w.seen.contains(x) implies r.seen.contains(x) by {
                assert(start.seen.contains(x));
            }
        }
    } else {
        assert(w.order.contains(v));
        assert(w.order.take(w.order.len() as int) =~= w.order);
    }
}

/// `x` is reached through one of the inputs of `v`.
spec fn inputs_reach<E, V>(nodes: Seq<Node<E, V>>, v: int, x: int) -> bool {
    exists|k: int|
        #![trigger nodes[v].inputs@[k]]
        0 <= k < nodes[v].inputs@.len() && depends_on(nodes, nodes[v].inputs@[k] as int, x)
}

proof fn lemma_inputs_reach<E, V>(nodes: Seq<Node<E, V>>, v: int, x: int)
    requires
        0 <= v < nodes.len(),
        valid_node(nodes, v),
        inputs_reach(nodes, v, x),
    ensures
        depends_on(nodes, v, x),
{
    let k = choose|k: int|
        #![trigger nodes[v].inputs@[k]]
        0 <= k < nodes[v].inputs@.len() && depends_on(nodes, nodes[v].inputs@[k] as int, x);
    assert(nodes[v].inputs@[k] < v);
}

proof fn lemma_inputs_below<E, V>(nodes: Seq<Node<E, V>>, v: int, x: int)
    requires
        valid_nodes(nodes),
        0 <= v < nodes.len(),
        inputs_reach(nodes, v, x),
    ensures
        x < v,
{
    let k = choose|k: int|
        #![trigger nodes[v].inputs@[k]]
        0 <= k < nodes[v].inputs@.len() && depends_on(nodes, nodes[v].inputs@[k] as int, x);
    assert(valid_node(nodes, v));
    assert(nodes[v].inputs@[k] < v);
    lemma_depends_below(nodes, nodes[v].inputs@[k] as int, x);
}

/// A node depends on itself and earlier nodes only.
pub proof fn lemma_depends_below<E, V>(nodes: Seq<Node<E, V>>, from: int, to: int)
    requires
        valid_nodes(nodes),
        0 <= from < nodes.len(),
        depends_on(nodes, from, to),
    ensures
        0 <= to <= from,
    decreases from,
{
    if from != to {
        let k = choose|k: int|
            #![trigger nodes[from].inputs@[k]]
            0 <= k < nodes[from].inputs@.len() && 0 <= nodes[from].inputs@[k] < from && depends_on(
                nodes,
                nodes[from].inputs@[k] as int,
                to,
            );
        lemma_depends_below(nodes, nodes[from].inputs@[k] as int, to);
    }
}

proof fn lemma_visit_inputs<E, V>(nodes: Seq<Node<E, V>>, v: int, k: int, w: Walk)
    requires
        valid_nodes(nodes),
        0 <= v < nodes.len(),
        0 <= k <= nodes[v].inputs@.len(),
        is_sorted_walk(nodes, w),
        finished_up_to(w, v - 1),
    ensures
        ({
            let r = visit_inputs(nodes, v, k, w);
            &&& is_sorted_walk(nodes, r)
            &&& finished_up_to(r, v - 1)
            &&& forall|j: int|
                0 <= j < k ==> r.order.contains(#[trigger] nodes[v].inputs@[j] as int)
            &&& w.seen.subset_of(r.seen)
            &&& w.order.len() <= r.order.len()
            &&& r.order.take(w.order.len() as int) == w.order
            &&& forall|x: int| #[trigger]
                r.seen.contains(x) && !w.seen.contains(x) ==> inputs_reach(nodes, v, x)
            &&& forall|p: int|
                w.order.len() <= p < r.order.len() ==> inputs_reach(nodes, v, #[trigger] r.order[p])
        }),
    decreases v, k,
{
    if k == 0 {
        assert(w.order.take(w.order.len() as int) =~= w.order);
    } else {
        let u = nodes[v].inputs@[k - 1] as int;
        assert(valid_node(nodes, v));
        assert(0 <= u < v);
        lemma_visit(nodes, u, w);
        let mid = visit(nodes, u, w);
        assert(finished_up_to(mid, v - 1)) by {
            assert forall|x: int| #[trigger] mid.seen.contains(x) && x <= v - 1 implies mid
                .order.contains(x) by {
                if w.seen.contains(x) {
                    assert(w.order.contains(x));
                    let p = choose|p: int| 0 <= p < w.order.len() && w.order[p] == x;
                    assert(mid.order.take(w.order.len() as int)[p] == x);
                    assert(mid.order[p] == x);
                } else {
                    assert(x <= u);
                }
            }
        }
        lemma_visit_inputs(nodes, v, k - 1, mid);
        let r = visit_inputs(nodes, v, k - 1, mid);
        assert(r == visit_inputs(nodes, v, k, w));
        assert forall|j: int| 0 <= j < k implies r.order.contains(
            #[trigger] nodes[v].inputs@[j] as int,
        ) by {
            if j == k - 1 {
                let p = choose|p: int| 0 <= p < mid.order.len() && mid.order[p] == u;
                assert(r.order.take(mid.order.len() as int)[p] == u);
                assert(r.order[p] == u);
            }
        }
        assert(r.order.take(w.order.len() as int) =~= w.order) by {
            assert forall|p: int| 0 <= p < w.order.len() implies r.order[p] == w.order[p] by {
                assert(r.order.take(mid.order.len() as int)[p] == mid.order[p]);
                assert(mid.order.take(w.order.len() as int)[p] == w.order[p]);
            }
        }
        assert forall|x: int| #[trigger] r.seen.contains(x) && !w.seen.contains(
            x,
        ) implies inputs_reach(nodes, v, x) by {
            if mid.seen.contains(x) {
                assert(depends_on(nodes, nodes[v].inputs@[k - 1] as int, x));
            }
        }
        assert forall|p: int| w.order.len() <= p < r.order.len() implies inputs_reach(
            nodes,
            v,
            #[trigger] r.order[p],
        ) by {
            if p < mid.order.len() {
                assert(r.order.take(mid.order.len() as int)[p] == mid.order[p]);
                assert(depends_on(nodes, nodes[v].inputs@[k - 1] as int, mid.order[p]));
            }
        }
    }
}

/// The post-order of a graph is a topological order of exactly the nodes
/// that the root depends on: none twice, inputs before their consumers, the
/// root last.
pub proof fn law_post_order<E, V>(nodes: Seq<Node<E, V>>, root: int)
    requires
        valid_nodes(nodes),
        0 <= root < nodes.len(),
    ensures
        ({
            let order = post_order(nodes, root);
            &&& order.len() > 0
            &&& order.last() == root
            &&& order.no_duplicates()
            &&& forall|x: int| order.contains(x) <==> #[trigger] depends_on(nodes, root, x)
            &&& forall|p: int| 0 <= p < order.len() ==> 0 <= #[trigger] order[p] < nodes.len()
            &&& forall|p: int, k: int|
                #![trigger nodes[order[p]].inputs@[k]]
                0 <= p < order.len() && 0 <= k < nodes[order[p]].inputs@.len() ==> order.take(
                    p,
                ).contains(nodes[order[p]].inputs@[k] as int)
        }),
{
    let w = Walk { seen: Set::empty(), order: Seq::empty() };
    lemma_visit(nodes, root, w);
    let r = visit(nodes, root, w);
    let order = post_order(nodes, root);
    assert(order == r.order);
    assert forall|x: int| order.contains(x) <==> #[trigger] depends_on(nodes, root, x) by {
        if order.contains(x) {
            let p = choose|p: int| 0 <= p < order.len() && order[p] == x;
            assert(depends_on(nodes, root, r.order[p]));
        }
        if depends_on(nodes, root, x) {
            lemma_order_closed(nodes, r, root, x);
        }
    }
}

/// A sorted walk that holds a node holds everything it depends on.
proof fn lemma_order_closed<E, V>(nodes: Seq<Node<E, V>>, w: Walk, from: int, to: int)
    requires
        is_sorted_walk(nodes, w),
        w.order.contains(from),
        depends_on(nodes, from, to),
    ensures
        w.order.contains(to),
    decreases from,
{
    if from != to {
        let k = choose|k: int|
            #![trigger nodes[from].inputs@[k]]
            0 <= k < nodes[from].inputs@.len() && 0 <= nodes[from].inputs@[k] < from && depends_on(
                nodes,
                nodes[from].inputs@[k] as int,
                to,
            );
        let p = choose|p: int| 0 <= p < w.order.len() && w.order[p] == from;
        let u = nodes[w.order[p]].inputs@[k] as int;
        assert(w.order.take(p).contains(u));
        let q = choose|q: int| 0 <= q < w.order.take(p).len() && w.order.take(p)[q] == u;
        assert(w.order[q] == u);
        lemma_order_closed(nodes, w, u, to);
    }
}

// ---- the iterative traversal --------------------------------------------------

/// A stack entry: a node to visit, or a node whose inputs are done.
#[derive(Clone, Copy)]
enum Frame {
    /// First visit of a node.
    Enter(usize),
    /// All inputs processed; emit in post-order.
    Exit(usize),
}

/// What remains to be done when the stack is worked off from the top.
spec fn unwind<E, V>(nodes: Seq<Node<E, V>>, stack: Seq<Frame>, w: Walk) -> Walk
    decreases stack.len(),
{
    if stack.len() == 0 {
        w
    } else {
        match stack.last() {
            Frame::Enter(v) => unwind(nodes, stack.drop_last(), visit(nodes, v as int, w)),
            Frame::Exit(v) => unwind(
                nodes,
                stack.drop_last(),
                Walk { seen: w.seen, order: w.order.push(v as int) },
            ),
        }
    }
}

/// Pushing the inputs that were not met yet has the effect of visiting all of
/// them, last one first.
proof fn lemma_unwind_inputs<E, V>(
    nodes: Seq<Node<E, V>>,
    base: Seq<Frame>,
    pushed: Seq<Frame>,
    v: int,
    k: int,
    met: Set<int>,
    w: Walk,
)
    requires
        0 <= v < nodes.len(),
        valid_node(nodes, v),
        0 <= k <= nodes[v].inputs@.len(),
        pushed == fresh_inputs(nodes, v, k, met),
        met.subset_of(w.seen),
    ensures
        unwind(nodes, base + pushed, w) == unwind(nodes, base, visit_inputs(nodes, v, k, w)),
    decreases k,
{
    if k == 0 {
        assert(base + pushed =~= base);
    } else {
        let u = nodes[v].inputs@[k - 1] as int;
        let fewer = fresh_inputs(nodes, v, k - 1, met);
        assert(0 <= u < v);
        if met.contains(u) {
            assert(visit(nodes, u, w) == w);
            lemma_unwind_inputs(nodes, base, fewer, v, k - 1, met, w);
        } else {
            let all = base + pushed;
            assert(all.last() == Frame::Enter(nodes[v].inputs@[k - 1]));
            assert(all.drop_last() =~= base + fewer);
            let next = visit(nodes, u, w);
            lemma_seen_grows(nodes, u, w);
            lemma_unwind_inputs(nodes, base, fewer, v, k - 1, met, next);
        }
    }
}

/// The entries pushed for the first `k` inputs of `v`.
spec fn fresh_inputs<E, V>(nodes: Seq<Node<E, V>>, v: int, k: int, met: Set<int>) -> Seq<Frame>
    decreases k,
{
    if k <= 0 {
        Seq::empty()
    } else if met.contains(nodes[v].inputs@[k - 1] as int) {
        fresh_inputs(nodes, v, k - 1, met)
    } else {
        fresh_inputs(nodes, v, k - 1, met).push(Frame::Enter(nodes[v].inputs@[k - 1]))
    }
}

proof fn lemma_seen_grows<E, V>(nodes: Seq<Node<E, V>>, v: int, w: Walk)
    ensures
        w.seen.subset_of(visit(nodes, v, w).seen),
    decreases v, nodes[v].inputs@.len() + 1,
{
    if !w.seen.contains(v) {
        lemma_seen_grows_inputs(
            nodes,
            v,
            nodes[v].inputs@.len() as int,
            Walk { seen: w.seen.insert(v), order: w.order },
        );
    }
}

proof fn lemma_seen_grows_inputs<E, V>(nodes: Seq<Node<E, V>>, v: int, k: int, w: Walk)
    ensures
        w.seen.subset_of(visit_inputs(nodes, v, k, w).seen),
    decreases v, k,
{
    if 0 < k <= nodes[v].inputs@.len() {
        let u = nodes[v].inputs@[k - 1] as int;
        if 0 <= u < v {
            lemma_seen_grows(nodes, u, w);
            lemma_seen_grows_inputs(nodes, v, k - 1, visit(nodes, u, w));
        }
    }
}

/// The nodes whose flag is set.
spec fn flagged(seen: Seq<bool>) -> Set<int> {
    Set::new(|x: int| 0 <= x < seen.len() && seen[x])
}

/// How many flags are clear.
spec fn clear_flags(seen: Seq<bool>) -> nat
    decreases seen.len(),
{
    if seen.len() == 0 {
        0
    } else {
        clear_flags(seen.drop_last()) + if seen.last() {
            0nat
        } else {
            1nat
        }
    }
}

proof fn lemma_clear_flags(seen: Seq<bool>, v: int)
    requires
        0 <= v < seen.len(),
        !seen[v],
    ensures
        clear_flags(seen.update(v, true)) + 1 == clear_flags(seen),
    decreases seen.len(),
{
    let now = seen.update(v, true);
    if v == seen.len() - 1 {
        assert(now.drop_last() =~= seen.drop_last());
    } else {
        assert(now.drop_last() =~= seen.drop_last().update(v, true));
        lemma_clear_flags(seen.drop_last(), v);
    }
}

/// Iterative topological sort from `root` following input edges.
pub(crate) fn topo_order<E, V>(nodes: &Vec<Node<E, V>>, root: usize) -> (r: Vec<usize>)
    requires
        valid_nodes(nodes@),
        root < nodes.len(),
    ensures
        index_of(r@) == post_order(nodes@, root as int),
{
    let mut order: Vec<usize> = Vec::new();
    let mut seen: Vec<bool> = vec![false; nodes.len()];
    let mut stack: Vec<Frame> = vec![Frame::Enter(root)];
    let ghost goal = visit(nodes@, root as int, Walk { seen: Set::empty(), order: Seq::empty() });
    proof {
        assert(flagged(seen@) =~= Set::empty());
        assert(index_of(order@) =~= Seq::<int>::empty());
        assert(stack@.last() == Frame::Enter(root));
        assert(stack@.drop_last() =~= Seq::<Frame>::empty());
        reveal_with_fuel(unwind, 2);
    }
    while stack.len() > 0
        invariant
            valid_nodes(nodes@),
            seen.len() == nodes.len(),
            forall|i: int|
                0 <= i < stack.len() ==> match #[trigger] stack@[i] {
                    Frame::Enter(v) => v < nodes.len(),
                    Frame::Exit(v) => v < nodes.len(),
                },
            unwind(
                nodes@,
                stack@,
                Walk { seen: flagged(seen@), order: index_of(order@) },
            ) == goal,
        decreases clear_flags(seen@), stack.len(),
    {
        let ghost before = stack@;
        let ghost w = Walk { seen: flagged(seen@), order: index_of(order@) };
        let frame = stack.pop();
        assert(frame == Some(before[before.len() - 1]));
        let ghost base = before.drop_last();
        assert(stack@ =~= base);
        match frame {
            Some(Frame::Enter(v)) => {
                if !seen[v] {
                    proof {
                        lemma_clear_flags(seen@, v as int);
                    }
                    seen[v] = true;
                    let ghost met = flagged(seen@);
                    assert(met =~= w.seen.insert(v as int));
                    stack.push(Frame::Exit(v));
                    let ghost lower = stack@;
                    let n: usize = nodes[v].inputs.len();
                    let mut k: usize = 0;
                    while k < n
                        invariant
                            0 <= k <= n,
                            v < nodes.len(),
                            n == nodes@[v as int].inputs@.len(),
                            valid_nodes(nodes@),
                            seen.len() == nodes.len(),
                            met == flagged(seen@),
                            stack@ == lower + fresh_inputs(nodes@, v as int, k as int, met),
                            forall|i: int|
                                0 <= i < stack.len() ==> match #[trigger] stack@[i] {
                                    Frame::Enter(x) => x < nodes.len(),
                                    Frame::Exit(x) => x < nodes.len(),
                                },
                        decreases n - k,
                    {
                        assert(valid_node(nodes@, v as int));
                        let u: usize = nodes[v].inputs[k];
                        assert(u < v);
                        if !seen[u] {
                            assert(!met.contains(u as int));
                            stack.push(Frame::Enter(u));
                        } else {
                            assert(met.contains(u as int));
                        }
                        k = k + 1;
                        assert(stack@ =~= lower + fresh_inputs(nodes@, v as int, k as int, met));
                    }
                    proof {
                        assert(valid_node(nodes@, v as int));
                        let now = Walk { seen: met, order: w.order };
                        lemma_unwind_inputs(
                            nodes@,
                            lower,
                            fresh_inputs(nodes@, v as int, n as int, met),
                            v as int,
                            n as int,
                            met,
                            now,
                        );
                        assert(lower.last() == Frame::Exit(v));
                        assert(lower.drop_last() =~= base);
                    }
                } else {
                    assert(visit(nodes@, v as int, w) == w);
                }
            },
            Some(Frame::Exit(v)) => {
                order.push(v);
                assert(index_of(order@) =~= w.order.push(v as int));
            },
            None => {},
        }
    }
    order
}

} // verus!
