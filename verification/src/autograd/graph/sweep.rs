//! Freeing the nodes that no handle needs any more.

use vstd::prelude::*;
use crate::autograd::graph::{Graph, Node, Var, any_requires, valid_node, valid_nodes};
use crate::index::index_of;

verus! {

/// Node `i` is one of `roots`, or an input of a node that is needed.
pub open spec fn needed<E, V>(nodes: Seq<Node<E, V>>, roots: Seq<Var>, i: int) -> bool
    decreases nodes.len() - i,
{
    ||| is_root(roots, i)
    ||| exists|j: int|
        i < j < nodes.len() && #[trigger] has_input(nodes[j], i) && needed(nodes, roots, j)
}

/// A handle in `roots` stands for node `i`.
pub open spec fn is_root(roots: Seq<Var>, i: int) -> bool {
    exists|k: int| 0 <= k < roots.len() && (#[trigger] roots[k]).id() == i
}

/// Node `i` is an input of `n`.
pub open spec fn has_input<E, V>(n: Node<E, V>, i: int) -> bool {
    exists|k: int| 0 <= k < n.inputs@.len() && #[trigger] n.inputs@[k] == i
}

/// `b` is `a` with its inputs at their new places.
pub open spec fn moved<E, V>(a: Node<E, V>, place: Seq<int>, b: Node<E, V>) -> bool {
    &&& b.value == a.value
    &&& b.op == a.op
    &&& b.rule == a.rule
    &&& b.grad == a.grad
    &&& b.requires_grad == a.requires_grad
    &&& b.inputs@.len() == a.inputs@.len()
    &&& forall|k: int|
        0 <= k < a.inputs@.len() ==> #[trigger] b.inputs@[k] == place[a.inputs@[k] as int]
}

/// How many of the first `k` nodes are needed.
pub open spec fn needed_count<E, V>(nodes: Seq<Node<E, V>>, roots: Seq<Var>, k: int) -> int
    decreases k,
{
    if k <= 0 {
        0
    } else if needed(nodes, roots, k - 1) {
        needed_count(nodes, roots, k - 1) + 1
    } else {
        needed_count(nodes, roots, k - 1)
    }
}

/// Where each needed node is once the others are gone: behind the needed
/// nodes before it.
pub open spec fn new_places<E, V>(nodes: Seq<Node<E, V>>, roots: Seq<Var>) -> Seq<int> {
    Seq::new(nodes.len(), |i: int| needed_count(nodes, roots, i))
}

/// The state without the nodes that are not needed.
pub open spec fn swept<E, V>(
    before: Seq<Node<E, V>>,
    roots: Seq<Var>,
    after: Seq<Node<E, V>>,
) -> bool {
    &&& after.len() == needed_count(before, roots, before.len() as int)
    &&& forall|i: int|
        0 <= i < before.len() && #[trigger] needed(before, roots, i) ==> moved(
            before[i],
            new_places(before, roots),
            after[needed_count(before, roots, i)],
        )
}

pub(crate) proof fn lemma_count_grows<E, V>(nodes: Seq<Node<E, V>>, roots: Seq<Var>, i: int, j: int)
    requires
        0 <= i <= j,
    ensures
        0 <= needed_count(nodes, roots, i) <= needed_count(nodes, roots, j),
        i < j && needed(nodes, roots, i) ==> needed_count(nodes, roots, i) < needed_count(
            nodes,
            roots,
            j,
        ),
        needed_count(nodes, roots, j) <= j,
    decreases j,
{
    if j > 0 {
        if i < j {
            lemma_count_grows(nodes, roots, i, j - 1);
        } else {
            lemma_count_grows(nodes, roots, i - 1, j - 1);
        }
    }
}

/// Node `j` is one of `roots`, or an input of a needed node from `i` on.
spec fn marked<E, V>(nodes: Seq<Node<E, V>>, roots: Seq<Var>, i: int, j: int) -> bool {
    ||| is_root(roots, j)
    ||| exists|m: int|
        i <= m < nodes.len() && #[trigger] has_input(nodes[m], j) && needed(nodes, roots, m)
}

/// Node `j` is one of the first `k` inputs of `n`.
spec fn among_inputs<E, V>(n: Node<E, V>, k: int, j: int) -> bool {
    exists|q: int| 0 <= q < k && #[trigger] n.inputs@[q] == j
}

/// All inputs of a node come before it, so once the later nodes are done it
/// is settled whether it is needed.
proof fn lemma_marked<E, V>(nodes: Seq<Node<E, V>>, roots: Seq<Var>, i: int, j: int)
    requires
        valid_nodes(nodes),
        0 <= i <= j + 1,
        0 <= j < nodes.len(),
    ensures
        marked(nodes, roots, i, j) == needed(nodes, roots, j),
{
    if marked(nodes, roots, i, j) && !is_root(roots, j) {
        let m = choose|m: int|
            i <= m < nodes.len() && #[trigger] has_input(nodes[m], j) && needed(nodes, roots, m);
        assert(valid_node(nodes, m));
        assert(has_input(nodes[m], j));
        assert(j < m);
    }
    if needed(nodes, roots, j) && !is_root(roots, j) {
        let m = choose|m: int|
            j < m < nodes.len() && #[trigger] has_input(nodes[m], j) && needed(nodes, roots, m);
        assert(has_input(nodes[m], j));
    }
}

/// Marking the inputs of one more node.
proof fn lemma_mark_one<E, V>(nodes: Seq<Node<E, V>>, roots: Seq<Var>, i: int, j: int)
    requires
        0 <= i < nodes.len(),
    ensures
        marked(nodes, roots, i, j) == (marked(nodes, roots, i + 1, j) || (needed(nodes, roots, i)
            && among_inputs(nodes[i], nodes[i].inputs@.len() as int, j))),
{
    assert(has_input(nodes[i], j) == among_inputs(nodes[i], nodes[i].inputs@.len() as int, j));
    if marked(nodes, roots, i, j) && !is_root(roots, j) {
        let m = choose|m: int|
            i <= m < nodes.len() && #[trigger] has_input(nodes[m], j) && needed(nodes, roots, m);
        assert(has_input(nodes[m], j));
    }
    if marked(nodes, roots, i + 1, j) && !is_root(roots, j) {
        let m = choose|m: int|
            i + 1 <= m < nodes.len() && #[trigger] has_input(nodes[m], j) && needed(
                nodes,
                roots,
                m,
            );
        assert(has_input(nodes[m], j));
    }
}

proof fn lemma_among_grows<E, V>(n: Node<E, V>, k: int, j: int)
    requires
        0 < k,
    ensures
        among_inputs(n, k, j) == (among_inputs(n, k - 1, j) || n.inputs@[k - 1] == j),
{
    if among_inputs(n, k, j) {
        let q = choose|q: int| 0 <= q < k && #[trigger] n.inputs@[q] == j;
        if q < k - 1 {
            assert(among_inputs(n, k - 1, j));
        }
    }
    if among_inputs(n, k - 1, j) {
        let q = choose|q: int| 0 <= q < k - 1 && #[trigger] n.inputs@[q] == j;
        assert(n.inputs@[q] == j);
    }
}

impl<E, V> Graph<E, V> {
    /// Marks the inputs of every marked node, from the last node on.
    fn mark_inputs(&self, roots: &[Var], start: Vec<bool>) -> (r: Vec<bool>)
        requires
            self.wf(),
            start.len() == self.nodes().len(),
            forall|j: int|
                0 <= j < start.len() ==> #[trigger] start@[j] == is_root(roots@, j),
        ensures
            r.len() == self.nodes().len(),
            forall|j: int|
                0 <= j < r.len() ==> #[trigger] r@[j] == needed(self.nodes(), roots@, j),
    {
        let ghost nodes = self.nodes();
        let mut keep = start;
        let mut i: usize = keep.len();
        while i > 0
            invariant
                0 <= i <= nodes.len(),
                self.wf(),
                nodes == self.nodes(),
                keep.len() == nodes.len(),
                forall|j: int|
                    0 <= j < nodes.len() ==> #[trigger] keep@[j] == marked(
                        nodes,
                        roots@,
                        i as int,
                        j,
                    ),
            decreases i,
        {
            i = i - 1;
            let ghost n = nodes[i as int];
            proof {
                lemma_marked(nodes, roots@, i + 1, i as int);
                assert(valid_node(nodes, i as int));
            }
            if keep[i] {
                let mut k: usize = 0;
                while k < self.nodes[i].inputs.len()
                    invariant
                        i < nodes.len(),
                        self.wf(),
                        nodes == self.nodes(),
                        n == nodes[i as int],
                        valid_node(nodes, i as int),
                        needed(nodes, roots@, i as int),
                        0 <= k <= n.inputs@.len(),
                        keep.len() == nodes.len(),
                        forall|j: int|
                            0 <= j < nodes.len() ==> #[trigger] keep@[j] == (marked(
                                nodes,
                                roots@,
                                i + 1,
                                j,
                            ) || among_inputs(n, k as int, j)),
                    decreases n.inputs@.len() - k,
                {
                    let id: usize = self.nodes[i].inputs[k];
                    assert(n.inputs@[k as int] < i);
                    keep.set(id, true);
                    k = k + 1;
                    assert forall|j: int| 0 <= j < nodes.len() implies #[trigger] keep@[j] == (
                    marked(nodes, roots@, i + 1, j) || among_inputs(n, k as int, j)) by {
                        lemma_among_grows(n, k as int, j);
                    }
                }
            }
            assert forall|j: int| 0 <= j < nodes.len() implies #[trigger] keep@[j] == marked(
                nodes,
                roots@,
                i as int,
                j,
            ) by {
                lemma_mark_one(nodes, roots@, i as int, j);
            }
        }
        assert forall|j: int| 0 <= j < keep.len() implies #[trigger] keep@[j] == needed(
            nodes,
            roots@,
            j,
        ) by {
            lemma_marked(nodes, roots@, 0, j);
        }
        keep
    }

    /// Which nodes are needed.
    fn mark(&self, roots: &[Var]) -> (r: Vec<bool>)
        requires
            self.wf(),
            forall|k: int| 0 <= k < roots.len() ==> self.has(#[trigger] roots@[k]),
        ensures
            r.len() == self.nodes().len(),
            forall|i: int|
                0 <= i < r.len() ==> #[trigger] r@[i] == needed(self.nodes(), roots@, i),
    {
        let n: usize = self.len();
        let mut keep: Vec<bool> = Vec::new();
        let mut i: usize = 0;
        while i < n
            invariant
                0 <= i <= n,
                keep.len() == i,
                forall|j: int| 0 <= j < i ==> !(#[trigger] keep@[j]),
            decreases n - i,
        {
            keep.push(false);
            i = i + 1;
        }
        let mut k: usize = 0;
        while k < roots.len()
            invariant
                0 <= k <= roots.len(),
                n == self.nodes().len(),
                keep.len() == n,
                forall|j: int| 0 <= j < roots.len() ==> self.has(#[trigger] roots@[j]),
                forall|j: int|
                    0 <= j < n ==> #[trigger] keep@[j] == is_root(roots@.take(k as int), j),
            decreases roots.len() - k,
        {
            assert(self.has(roots@[k as int]));
            let id: usize = roots[k].id;
            keep.set(id, true);
            k = k + 1;
            proof {
                let so_far = roots@.take(k as int);
                assert(so_far[k - 1].id() == id);
                assert forall|j: int| 0 <= j < n implies #[trigger] keep@[j] == is_root(
                    so_far,
                    j,
                ) by {
                    lemma_roots_grow(roots@, k as int, j);
                }
            }
        }
        assert(roots@.take(k as int) =~= roots@);
        self.mark_inputs(roots, keep)
    }

    /// The places of the needed nodes.
    fn places(keep: &Vec<bool>, Ghost(nodes): Ghost<Seq<Node<E, V>>>, roots: &[Var]) -> (r: Vec<usize>)
        requires
            keep.len() == nodes.len(),
            forall|i: int|
                0 <= i < keep.len() ==> #[trigger] keep@[i] == needed(nodes, roots@, i),
        ensures
            index_of(r@) == new_places(nodes, roots@),
    {
        let mut out: Vec<usize> = Vec::new();
        let mut count: usize = 0;
        let mut i: usize = 0;
        while i < keep.len()
            invariant
                0 <= i <= keep.len(),
                keep.len() == nodes.len(),
                forall|j: int|
                    0 <= j < keep.len() ==> #[trigger] keep@[j] == needed(nodes, roots@, j),
                out.len() == i,
                count == needed_count(nodes, roots@, i as int),
                count <= i,
                forall|j: int|
                    0 <= j < i ==> #[trigger] out@[j] == needed_count(nodes, roots@, j),
            decreases keep.len() - i,
        {
            out.push(count);
            if keep[i] {
                count = count + 1;
            }
            i = i + 1;
        }
        assert(index_of(out@) =~= new_places(nodes, roots@));
        out
    }

    /// Frees every node that is neither one of `roots` nor leads to one, and
    /// renumbers the handles.
    pub fn sweep(&mut self, roots: &mut Vec<Var>)
        requires
            old(self).wf(),
            forall|k: int| 0 <= k < old(roots).len() ==> old(self).has(#[trigger] old(roots)@[k]),
        ensures
            final(self).wf(),
            final(self).recording() == old(self).recording(),
            swept(old(self).nodes(), old(roots)@, final(self).nodes()),
            final(roots).len() == old(roots).len(),
            forall|k: int|
                0 <= k < final(roots).len() ==> (#[trigger] final(roots)@[k]).id() == needed_count(
                    old(self).nodes(),
                    old(roots)@,
                    old(roots)@[k].id(),
                ),
    {
        let ghost nodes = self.nodes();
        let ghost given = roots@;
        let keep = self.mark(roots.as_slice());
        let places = Self::places(&keep, Ghost(nodes), roots.as_slice());
        let ghost map = new_places(nodes, given);
        self.move_nodes(&keep, &places, Ghost(given));
        let mut out: Vec<Var> = Vec::new();
        let mut k: usize = 0;
        while k < roots.len()
            invariant
                0 <= k <= roots.len(),
                roots@ == given,
                given == old(roots)@,
                nodes == old(self).nodes(),
                index_of(places@) == map,
                map == new_places(nodes, given),
                forall|j: int| 0 <= j < given.len() ==> old(self).has(#[trigger] given[j]),
                out.len() == k,
                forall|j: int|
                    0 <= j < k ==> (#[trigger] out@[j]).id() == needed_count(
                        nodes,
                        given,
                        given[j].id(),
                    ),
            decreases roots.len() - k,
        {
            assert(old(self).has(given[k as int]));
            assert(index_of(places@).len() == nodes.len());
            let id: usize = places[roots[k].id];
            assert(index_of(places@)[given[k as int].id()] == id);
            out.push(Var { id });
            k = k + 1;
        }
        *roots = out;
    }

    /// Keeps the needed nodes, with their inputs at their new places.
    fn move_nodes(&mut self, keep: &Vec<bool>, places: &Vec<usize>, Ghost(roots): Ghost<Seq<Var>>)
        requires
            old(self).wf(),
            keep.len() == old(self).nodes().len(),
            forall|i: int|
                0 <= i < keep.len() ==> #[trigger] keep@[i] == needed(
                    old(self).nodes(),
                    roots,
                    i,
                ),
            index_of(places@) == new_places(old(self).nodes(), roots),
        ensures
            final(self).wf(),
            final(self).recording() == old(self).recording(),
            swept(old(self).nodes(), roots, final(self).nodes()),
    {
        let ghost nodes = self.nodes();
        let ghost n = nodes.len() as int;
        let ghost map = new_places(nodes, roots);
        let mut rest: Vec<Node<E, V>> = Vec::new();
        while self.nodes.len() > 0
            invariant
                self.nodes@ == nodes.take(self.nodes@.len() as int),
                self.nodes@.len() + rest.len() == n,
                n == nodes.len(),
                self.recording == old(self).recording,
                forall|t: int| 0 <= t < rest.len() ==> #[trigger] rest@[t] == nodes[n - 1 - t],
            decreases self.nodes.len(),
        {
            let ghost left = self.nodes@;
            match self.nodes.pop() {
                Some(node) => {
                    assert(node == left.last());
                    rest.push(node);
                },
                None => {},
            }
            assert(self.nodes@ =~= nodes.take(self.nodes@.len() as int));
        }
        let mut i: usize = 0;
        let ghost mut from: Seq<int> = Seq::empty();
        while i < keep.len()
            invariant
                0 <= i <= keep.len(),
                n == nodes.len(),
                nodes == old(self).nodes(),
                valid_nodes(nodes),
                keep.len() == n,
                forall|j: int|
                    0 <= j < keep.len() ==> #[trigger] keep@[j] == needed(nodes, roots, j),
                map == new_places(nodes, roots),
                index_of(places@) == map,
                self.recording == old(self).recording,
                rest.len() == n - i,
                forall|t: int| 0 <= t < rest.len() ==> #[trigger] rest@[t] == nodes[n - 1 - t],
                self.nodes@.len() == needed_count(nodes, roots, i as int),
                from.len() == self.nodes@.len(),
                forall|q: int|
                    0 <= q < from.len() ==> 0 <= #[trigger] from[q] < i && needed(
                        nodes,
                        roots,
                        from[q],
                    ) && needed_count(nodes, roots, from[q]) == q,
                forall|j: int|
                    0 <= j < i && #[trigger] needed(nodes, roots, j) ==> needed_count(
                        nodes,
                        roots,
                        j,
                    ) < self.nodes@.len() && moved(
                        nodes[j],
                        map,
                        self.nodes@[needed_count(nodes, roots, j)],
                    ),
            decreases keep.len() - i,
        {
            let node = match rest.pop() {
                Some(node) => node,
                None => {
                    return;
                },
            };
            assert(node == nodes[i as int]);
            if keep[i] {
                let Node { value, op, inputs, rule, grad, requires_grad } = node;
                assert(valid_node(nodes, i as int));
                assert(index_of(places@).len() == n);
                let ghost old_inputs = inputs@;
                let inputs = renumbered(&inputs, places, Ghost(n));
                let ghost before = self.nodes@;
                assert forall|k: int| 0 <= k < inputs.len() implies #[trigger] inputs@[k]
                    == map[old_inputs[k] as int] by {
                    assert(inputs@[k] == index_of(places@)[old_inputs[k] as int]);
                }
                self.nodes.push(Node { value, op, inputs, rule, grad, requires_grad });
                proof {
                    from = from.push(i as int);
                    lemma_count_grows(nodes, roots, 0, i as int);
                    assert forall|j: int|
                        0 <= j < i + 1 && #[trigger] needed(nodes, roots, j) implies needed_count(
                        nodes,
                        roots,
                        j,
                    ) < self.nodes@.len() && moved(
                        nodes[j],
                        map,
                        self.nodes@[needed_count(nodes, roots, j)],
                    ) by {
                        if j < i {
                            lemma_count_grows(nodes, roots, j, i as int);
                            assert(self.nodes@[needed_count(nodes, roots, j)]
                                == before[needed_count(nodes, roots, j)]);
                        } else {
                            assert(moved(nodes[j], map, self.nodes@.last()));
                        }
                    }
                }
            }
            i = i + 1;
        }
        proof {
            lemma_swept_valid(nodes, roots, from, self.nodes@);
        }
    }
}

/// The inputs at their new places.
fn renumbered(inputs: &Vec<usize>, places: &Vec<usize>, Ghost(n): Ghost<int>) -> (r: Vec<usize>)
    requires
        places.len() == n,
        forall|k: int| 0 <= k < inputs.len() ==> #[trigger] inputs@[k] < n,
    ensures
        r.len() == inputs.len(),
        forall|k: int|
            0 <= k < inputs.len() ==> #[trigger] r@[k] == places@[inputs@[k] as int],
{
    let mut out: Vec<usize> = Vec::new();
    let mut k: usize = 0;
    while k < inputs.len()
        invariant
            0 <= k <= inputs.len(),
            places.len() == n,
            forall|j: int| 0 <= j < inputs.len() ==> #[trigger] inputs@[j] < n,
            out.len() == k,
            forall|j: int| 0 <= j < k ==> #[trigger] out@[j] == places@[inputs@[j] as int],
        decreases inputs.len() - k,
    {
        assert(inputs@[k as int] < n);
        out.push(places[inputs[k]]);
        k = k + 1;
    }
    out
}

/// The needed nodes refer to needed nodes only, in the same order as before.
proof fn lemma_swept_valid<E, V>(
    nodes: Seq<Node<E, V>>,
    roots: Seq<Var>,
    from: Seq<int>,
    after: Seq<Node<E, V>>,
)
    requires
        valid_nodes(nodes),
        from.len() == after.len(),
        forall|q: int|
            0 <= q < from.len() ==> 0 <= #[trigger] from[q] < nodes.len() && needed(
                nodes,
                roots,
                from[q],
            ) && needed_count(nodes, roots, from[q]) == q,
        forall|j: int|
            0 <= j < nodes.len() && #[trigger] needed(nodes, roots, j) ==> needed_count(
                nodes,
                roots,
                j,
            ) < after.len() && moved(
                nodes[j],
                new_places(nodes, roots),
                after[needed_count(nodes, roots, j)],
            ),
    ensures
        valid_nodes(after),
{
    let map = new_places(nodes, roots);
    assert forall|q: int| 0 <= q < after.len() implies #[trigger] valid_node(after, q) by {
        let i = from[q];
        let a = nodes[i];
        let b = after[q];
        assert(valid_node(nodes, i));
        assert(moved(a, map, b));
        assert forall|k: int| 0 <= k < b.inputs@.len() implies #[trigger] b.inputs@[k] < q
            && after[b.inputs@[k] as int].requires_grad
            == nodes[a.inputs@[k] as int].requires_grad by {
            let x = a.inputs@[k] as int;
            assert(has_input(nodes[i], x));
            assert(needed(nodes, roots, x));
            lemma_count_grows(nodes, roots, x, i);
            assert(moved(nodes[x], map, after[needed_count(nodes, roots, x)]));
        }
        if any_requires(nodes, a.inputs@) {
            let k = choose|k: int|
                0 <= k < a.inputs@.len() && nodes[#[trigger] a.inputs@[k] as int].requires_grad;
            assert(after[b.inputs@[k] as int].requires_grad);
        }
        if any_requires(after, b.inputs@) {
            let k = choose|k: int|
                0 <= k < b.inputs@.len() && after[#[trigger] b.inputs@[k] as int].requires_grad;
            assert(nodes[a.inputs@[k] as int].requires_grad);
        }
    }
}

proof fn lemma_roots_grow(roots: Seq<Var>, k: int, i: int)
    requires
        0 < k <= roots.len(),
    ensures
        is_root(roots.take(k), i) == (is_root(roots.take(k - 1), i) || roots[k - 1].id() == i),
{
    let now = roots.take(k);
    let was = roots.take(k - 1);
    if is_root(was, i) {
        let j = choose|j: int| 0 <= j < was.len() && (#[trigger] was[j]).id() == i;
        assert(now[j].id() == i);
    }
    if roots[k - 1].id() == i {
        assert(now[k - 1].id() == i);
    }
    if is_root(now, i) {
        let j = choose|j: int| 0 <= j < now.len() && (#[trigger] now[j]).id() == i;
        if j < k - 1 {
            assert(was[j].id() == i);
        }
    }
}

} // verus!
