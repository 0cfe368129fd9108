//! What reducing a whole tensor computes.

use vstd::prelude::*;
use crate::autograd::gradcheck::{leaf_added, summed, weighed};
use crate::autograd::graph::{Graph, Var, VjpRule};
use crate::autograd::ops::{
    both, is_reduce_rule, mul_outcome, only, op_recorded, reduce_name, reduce_outcome,
    reshape_outcome, rule_keeps_dims, unchanged,
};
use crate::autograd::rules::OpGrad;
use crate::elem::{Elem, is_zero};
use crate::error::{OxitorchError, OxitorchResult};
use crate::exact::{Exact, lemma_total_equal, total};
use crate::exact::derivatives::law_elementwise_broadcast;
use crate::exact::operators::lemma_recorded;
use crate::exact::reduction_gradients::lemma_place;
use crate::exact::reductions::{law_mean, law_reduce_mean, law_reduce_sum, law_sum, place_after};
use crate::exact::totals::{
    lemma_total_scaled, lemma_total_single, lemma_total_swap, lemma_total_zero,
};
use crate::frontend::methods::{dims_reduced, next_reduced, reduce_all_outcome, stays_connected};
use crate::index::{
    in_shape, lemma_product_concat, lemma_product_positive, lemma_product_remove,
    lemma_product_split, lemma_product_update, lemma_rank0, lemma_rank1, lemma_ravel, lemma_unravel,
    product, ravel, unravel,
};
use crate::layout::{broadcast_of, resolve_dim};
use crate::ops::{BinaryOp, ReduceKind};
use crate::tensor::Tensor;
use crate::tensor::elementwise::binary_result;
use crate::tensor::reduce::{column, lemma_rest_of, reduce_result, rest_of, strip};
use crate::tensor::views::reshape_result;

verus! {

impl<E> Exact<E> {
    /// The sum of all numbers of a tensor.
    pub open spec fn whole_sum(self, t: Tensor<E>) -> real {
        total(|p: int| self.num(t, p), t.count())
    }
}

/// An index whose entry along dimension `d` is 0.
spec fn flat_at(idx: Seq<int>, d: int) -> Seq<int> {
    idx.update(d, 0)
}

/// A term of a sum, counted only where `a` is `b`.
spec fn counted(f: spec_fn(Seq<int>) -> real, a: Seq<int>, b: Seq<int>) -> real {
    if a == b {
        f(a)
    } else {
        0real
    }
}

/// The terms along dimension `d` through `y`, found among all terms.
proof fn lemma_line(f: spec_fn(Seq<int>) -> real, dims: Seq<usize>, d: int, y: Seq<int>)
    requires
        0 <= d < dims.len(),
        in_shape(y, dims.update(d, 1)),
    ensures
        total(
            |p: int|
                if flat_at(unravel(p, dims), d) == y {
                    f(unravel(p, dims))
                } else {
                    0real
                },
            product(dims),
        ) == total(|c: int| f(y.update(d, c)), dims[d] as nat),
{
    let n = dims[d] as nat;
    let count = product(dims);
    let table = |c: int, p: int| counted(f, unravel(p, dims), y.update(d, c));
    let rows = |c: int| total(|p: int| table(c, p), count);
    let terms = |c: int| f(y.update(d, c));
    assert(0 <= y[d] < dims.update(d, 1)[d]);
    assert forall|c: int| 0 <= c < n implies #[trigger] rows(c) == terms(c) by {
        let z = y.update(d, c);
        assert(in_shape(z, dims)) by {
            assert forall|j: int| 0 <= j < z.len() implies 0 <= #[trigger] z[j] < dims[j] by {
                assert(0 <= y[j] < dims.update(d, 1)[j]);
            }
        }
        lemma_ravel(z, dims);
        let row = |p: int| table(c, p);
        let at = ravel(z, dims);
        assert forall|p: int| 0 <= p < count && p != at implies #[trigger] row(p) == 0real by {
            lemma_unravel(p, dims);
        }
        lemma_total_single(row, count, at);
    }
    lemma_total_equal(rows, terms, n);
    lemma_total_swap(table, n, count);
    let columns = |p: int| total(|c: int| table(c, p), n);
    let wanted = |p: int|
        if flat_at(unravel(p, dims), d) == y {
            f(unravel(p, dims))
        } else {
            0real
        };
    assert forall|p: int| 0 <= p < count implies #[trigger] columns(p) == wanted(p) by {
        lemma_unravel(p, dims);
        let idx = unravel(p, dims);
        assert(0 <= idx[d] < dims[d]);
        let column = |c: int| table(c, p);
        assert forall|c: int| 0 <= c < n && c != idx[d] implies #[trigger] column(c) == 0real by {
            if idx == y.update(d, c) {
                assert(idx[d] == c);
            }
        }
        lemma_total_single(column, n, idx[d]);
        if flat_at(idx, d) == y {
            assert(idx =~= y.update(d, idx[d]));
        } else if idx == y.update(d, idx[d]) {
            assert(flat_at(idx, d) =~= y);
        }
    }
    lemma_total_equal(columns, wanted, count);
}

/// A sum over all indices, line by line along dimension `d`.
proof fn lemma_lines(f: spec_fn(Seq<int>) -> real, dims: Seq<usize>, d: int)
    requires
        0 <= d < dims.len(),
    ensures
        total(|p: int| f(unravel(p, dims)), product(dims)) == total(
            |q: int| total(|c: int| f(unravel(q, dims.update(d, 1)).update(d, c)), dims[d] as nat),
            product(dims.update(d, 1)),
        ),
{
    let lower = dims.update(d, 1);
    let count = product(dims);
    let fewer = product(lower);
    let table = |q: int, p: int|
        if flat_at(unravel(p, dims), d) == unravel(q, lower) {
            f(unravel(p, dims))
        } else {
            0real
        };
    lemma_total_swap(table, fewer, count);
    let rows = |q: int| total(|p: int| table(q, p), count);
    let lines = |q: int| total(|c: int| f(unravel(q, lower).update(d, c)), dims[d] as nat);
    assert forall|q: int| 0 <= q < fewer implies #[trigger] rows(q) == lines(q) by {
        lemma_unravel(q, lower);
        let y = unravel(q, lower);
        lemma_line(f, dims, d, y);
        let a = |p: int| table(q, p);
        let b = |p: int|
            if flat_at(unravel(p, dims), d) == y {
                f(unravel(p, dims))
            } else {
                0real
            };
        lemma_total_equal(a, b, count);
    }
    lemma_total_equal(rows, lines, fewer);
    let columns = |p: int| total(|q: int| table(q, p), fewer);
    let terms = |p: int| f(unravel(p, dims));
    assert forall|p: int| 0 <= p < count implies #[trigger] columns(p) == terms(p) by {
        lemma_unravel(p, dims);
        let idx = unravel(p, dims);
        let y = flat_at(idx, d);
        assert(0 <= idx[d] < dims[d]);
        assert(in_shape(y, lower)) by {
            assert forall|j: int| 0 <= j < y.len() implies 0 <= #[trigger] y[j] < lower[j] by {
                assert(0 <= idx[j] < dims[j]);
            }
        }
        lemma_ravel(y, lower);
        let at = ravel(y, lower);
        let column = |q: int| table(q, p);
        assert forall|q: int| 0 <= q < fewer && q != at implies #[trigger] column(q) == 0real by {
            lemma_unravel(q, lower);
        }
        lemma_total_single(column, fewer, at);
    }
    lemma_total_equal(columns, terms, count);
}

/// Summing along a dimension keeps the sum of all numbers; averaging divides
/// it by the length of the dimension.
pub proof fn law_reduce_keeps_whole_sum<E: Elem>(
    m: Exact<E>,
    t: Tensor<E>,
    kind: ReduceKind,
    d: int,
    keepdim: bool,
    r: Tensor<E>,
)
    requires
        m.arithmetic(),
        0 <= d < t.dims().len(),
        t.dims()[d] > 0 || kind == ReduceKind::Sum,
        reduce_result(t, kind, d, keepdim, r),
    ensures
        kind == ReduceKind::Sum ==> m.whole_sum(r) == m.whole_sum(t),
        kind == ReduceKind::Mean ==> m.whole_sum(r) * (t.dims()[d] as int as real)
            == m.whole_sum(t),
{
    let dims = t.dims();
    let lower = dims.update(d, 1);
    let n = dims[d] as nat;
    let w = dims[d] as int as real;
    lemma_product_update(dims, d, 1);
    lemma_product_remove(dims, d);
    assert(r.count() == product(lower));
    let here = |q: int| m.num(r, q);
    if n == 0 {
        assert(t.count() == 0) by (nonlinear_arith)
            requires
                t.count() == product(dims.remove(d)) * n,
                n == 0,
        ;
        assert forall|q: int| 0 <= q < r.count() implies #[trigger] here(q) == 0real by {
            lemma_unravel(q, r.dims());
            let idx = unravel(q, r.dims());
            assert(kind.gives(strip(t, d, rest_of(idx, d, keepdim)), r.at(idx)));
            assert(is_zero(r.data()[q]));
        }
        lemma_total_zero(here, r.count());
    } else {
        let f = |idx: Seq<int>| (m.val)(t.at(idx));
        lemma_lines(f, dims, d);
        let terms = |p: int| f(unravel(p, dims));
        let mine = |p: int| m.num(t, p);
        lemma_total_equal(mine, terms, product(dims));
        let lines = |q: int| total(|c: int| f(unravel(q, lower).update(d, c)), n);
        assert forall|q: int| 0 <= q < product(lower) implies (kind == ReduceKind::Sum ==> here(q)
            == #[trigger] lines(q)) && (kind == ReduceKind::Mean ==> lines(q) == here(q) * w) by {
            lemma_unravel(q, lower);
            let idx = unravel(q, lower);
            assert(0 <= idx[d] < lower[d]);
            assert(in_shape(idx, dims)) by {
                assert forall|j: int| 0 <= j < idx.len() implies 0 <= #[trigger] idx[j]
                    < dims[j] by {
                    assert(0 <= idx[j] < lower[j]);
                }
            }
            lemma_place(t, d, keepdim, r, idx);
            lemma_rest_of(idx, dims, d, true);
            assert(ravel(place_after(idx, d, keepdim), r.dims()) == q);
            r.lemma_at(place_after(idx, d, keepdim));
            let g = |c: int| (m.val)(t.at(idx.update(d, c)));
            let h = |c: int| f(idx.update(d, c));
            lemma_total_equal(g, h, n);
            if kind == ReduceKind::Sum {
                law_reduce_sum(m, t, d, keepdim, r, idx);
            }
            if kind == ReduceKind::Mean {
                law_reduce_mean(m, t, d, keepdim, r, idx);
            }
        }
        if kind == ReduceKind::Sum {
            assert forall|q: int| 0 <= q < product(lower) implies #[trigger] here(q)
                == lines(q) by {
                assert(lines(q) == lines(q));
            }
            lemma_total_equal(here, lines, product(lower));
        }
        if kind == ReduceKind::Mean {
            assert forall|q: int| 0 <= q < product(lower) implies #[trigger] lines(q) == here(q)
                * w by {}
            lemma_total_scaled(here, w, lines, product(lower));
        }
    }
}

/// The first `k` dimensions replaced by ones.
spec fn lowered(dims: Seq<usize>, k: int) -> Seq<usize> {
    Seq::new(
        dims.len(),
        |j: int|
            if j < k {
                1
            } else {
                dims[j]
            },
    )
}

/// How many elements the first `k` dimensions have.
spec fn scale(kind: ReduceKind, dims: Seq<usize>, k: int) -> real {
    if kind == ReduceKind::Mean {
        product(dims.take(k)) as int as real
    } else {
        1real
    }
}

proof fn lemma_dims_reduced<E: Elem, V: VjpRule<E>>(
    m: Exact<E>,
    before: Graph<E, V>,
    x: Var,
    kind: ReduceKind,
    k: int,
    u: Var,
    after: Graph<E, V>,
)
    requires
        m.arithmetic(),
        before.has(x),
        kind == ReduceKind::Sum || kind == ReduceKind::Mean,
        0 <= k <= before.node(x).value.dims().len() <= i64::MAX,
        forall|j: int|
            0 <= j < before.node(x).value.dims().len() ==> #[trigger] before.node(
                x,
            ).value.dims()[j] > 0,
        dims_reduced(before, x, kind, k, Ok(u), after),
    ensures
        after.node(u).value.dims() == lowered(before.node(x).value.dims(), k),
        m.whole_sum(after.node(u).value) * scale(kind, before.node(x).value.dims(), k)
            == m.whole_sum(before.node(x).value),
    decreases k,
{
    let t = before.node(x).value;
    let dims = t.dims();
    if k == 0 {
        assert(lowered(dims, 0) =~= dims);
        assert(after.node(u) == before.node(x));
        assert(product(dims.take(0)) == 1) by {
            lemma_rank0(dims.take(0));
        }
        let s = m.whole_sum(t);
        assert(s * 1real == s) by (nonlinear_arith);
    } else {
        let (q, mid) = choose|q: OxitorchResult<Var>, mid: Graph<E, V>|
            dims_reduced(before, x, kind, k - 1, q, mid) && #[trigger] next_reduced(
                mid,
                q,
                kind,
                (k - 1) as i64,
                Ok(u),
                after,
            );
        let w = q->Ok_0;
        lemma_dims_reduced(m, before, x, kind, k - 1, w, mid);
        let v = mid.node(w).value;
        let d = resolve_dim((k - 1) as i64 as int, v.dims().len() as int);
        assert(d == k - 1);
        let (out, rule) = choose|out: Tensor<E>, rule: OpGrad<E>| #[trigger]
            reduce_result(v, kind, d, true, out) && op_recorded(
                mid,
                after,
                u,
                out,
                reduce_name(kind),
                only(w),
                rule,
            ) && #[trigger] is_reduce_rule(rule, kind, v, d);
        lemma_recorded(mid, after, u, out, reduce_name(kind), only(w), rule);
        assert(v.dims()[d] == dims[k - 1]);
        assert(dims[k - 1] > 0);
        law_reduce_keeps_whole_sum(m, v, kind, d, true, out);
        assert(out.dims() =~= lowered(dims, k));
        if kind == ReduceKind::Mean {
            let a = product(dims.take(k - 1)) as int;
            let n = dims[k - 1] as int;
            assert(product(dims.take(k)) == a * n) by {
                lemma_product_split(dims.take(k), k - 1);
                assert(dims.take(k).take(k - 1) =~= dims.take(k - 1));
                assert(dims.take(k) =~= dims.take(k - 1) + seq![dims[k - 1]]);
                lemma_product_concat(dims.take(k - 1), seq![dims[k - 1]]);
                lemma_rank1(seq![dims[k - 1]], 0);
            }
            let s = m.whole_sum(out);
            let sa = a as real;
            let sn = n as real;
            let both_scales = (a * n) as real;
            assert(both_scales == sa * sn) by (nonlinear_arith)
                requires
                    both_scales == (a * n) as real,
                    sa == a as real,
                    sn == n as real,
            ;
            assert(s * (sa * sn) == (s * sn) * sa) by (nonlinear_arith);
        } else {
            let s = m.whole_sum(out);
            assert(s * 1real == s) by (nonlinear_arith);
        }
    }
}

proof fn lemma_lowered_count(dims: Seq<usize>, k: int)
    requires
        0 <= k <= dims.len(),
    ensures
        product(lowered(dims.take(k), k)) == 1,
    decreases k,
{
    let s = lowered(dims.take(k), k);
    if k > 0 {
        lemma_lowered_count(dims, k - 1);
        assert(s =~= lowered(dims.take(k - 1), k - 1) + seq![1usize]);
        lemma_product_concat(lowered(dims.take(k - 1), k - 1), seq![1usize]);
        lemma_rank1(seq![1usize], 0);
    } else {
        lemma_rank0(s);
    }
}

/// The sum of a whole tensor is the sum of all its numbers, and its mean, times
/// the number of elements, too, whether or not a gradient is required.
pub proof fn law_reduce_all<E: Elem, V: VjpRule<E>>(
    m: Exact<E>,
    before: Graph<E, V>,
    x: Var,
    kind: ReduceKind,
    v: Var,
    after: Graph<E, V>,
)
    requires
        m.arithmetic(),
        before.has(x),
        kind == ReduceKind::Sum || kind == ReduceKind::Mean,
        before.node(x).value.dims().len() <= i64::MAX,
        0 < before.node(x).value.count() <= usize::MAX,
        reduce_all_outcome(before, x, kind, Ok(v), after),
    ensures
        after.node(v).value.dims() == Seq::<usize>::empty(),
        kind == ReduceKind::Sum ==> m.num(after.node(v).value, 0) == m.whole_sum(
            before.node(x).value,
        ),
        kind == ReduceKind::Mean ==> m.num(after.node(v).value, 0) * (before.node(
            x,
        ).value.count() as int as real) == m.whole_sum(before.node(x).value),
{
    let t = before.node(x).value;
    let dims = t.dims();
    let n = dims.len() as int;
    lemma_product_positive(dims);
    if stays_connected(before, x, kind) {
        if n == 0 {
            lemma_rank0(dims);
            assert(dims =~= Seq::<usize>::empty());
            lemma_only(m, t);
            assert(after.node(v) == before.node(x));
            let s = m.num(t, 0);
            assert(s * 1real == s) by (nonlinear_arith);
        } else {
            let (q, mid) = choose|q: OxitorchResult<Var>, mid: Graph<E, V>| #[trigger]
                dims_reduced(before, x, kind, n, q, mid) && match q {
                    Ok(u) => reshape_outcome(mid, u, Seq::<i64>::empty(), Ok(v), after),
                    Err(_) => Ok::<Var, OxitorchError>(v) == q && unchanged(mid, after),
                };
            let u = q->Ok_0;
            lemma_dims_reduced(m, before, x, kind, n, u, mid);
            let w = mid.node(u).value;
            let (out, rule) = choose|out: Tensor<E>, rule: OpGrad<E>| #[trigger]
                reshape_result(w, Seq::<i64>::empty(), out) && op_recorded(
                    mid,
                    after,
                    v,
                    out,
                    "reshape"@,
                    only(u),
                    rule,
                ) && #[trigger] rule_keeps_dims(rule, w.dims()) && rule is Reshape;
            lemma_recorded(mid, after, v, out, "reshape"@, only(u), rule);
            lemma_lowered_count(dims, n);
            assert(dims.take(n) =~= dims);
            assert(out.dims() =~= Seq::<usize>::empty());
            lemma_only(m, w);
            assert(out.data()[0] == w.data()[0]);
            let s = m.num(out, 0);
            assert(s * 1real == s) by (nonlinear_arith);
        }
    } else {
        let out = choose|out: Tensor<E>|
            out.dims() == Seq::<usize>::empty() && kind.gives(t.data(), out.data()[0])
                && #[trigger] leaf_added(before, out, false, v, after);
        assert(after.node(v) == after.nodes().last());
        let s = t.data();
        lemma_total_equal(|i: int| m.vals(s)[i], |p: int| m.num(t, p), t.count());
        if kind == ReduceKind::Sum {
            law_sum(m, s, out.data()[0]);
        } else {
            law_mean(m, s, out.data()[0]);
        }
    }
}

/// The sum of a single number is that number.
proof fn lemma_only<E>(m: Exact<E>, t: Tensor<E>)
    requires
        t.count() == 1,
    ensures
        m.whole_sum(t) == m.num(t, 0),
{
    let f = |p: int| m.num(t, p);
    assert(total(f, 1) == total(f, 0) + f(0));
}

/// Summing away one dimension after the other leaves the sum of all numbers.
pub proof fn law_summed_to_a_scalar<E: Elem, V: VjpRule<E>>(
    m: Exact<E>,
    before: Graph<E, V>,
    v: Var,
    s: Var,
    after: Graph<E, V>,
)
    requires
        m.arithmetic(),
        summed(before, v, before.node(v).value.dims().len(), Ok(s), after),
    ensures
        after.node(s).value.dims().len() == 0,
        m.num(after.node(s).value, 0) == m.whole_sum(before.node(v).value),
    decreases before.node(v).value.dims().len(),
{
    let t = before.node(v).value;
    if t.dims().len() == 0 {
        lemma_rank0(t.dims());
        lemma_only(m, t);
        assert(after.node(s) == before.node(v));
    } else {
        let (q, mid) = choose|q: OxitorchResult<Var>, mid: Graph<E, V>| #[trigger]
            reduce_outcome(before, v, ReduceKind::Sum, 0, false, q, mid) && match q {
                Ok(u) => summed(mid, u, (t.dims().len() - 1) as nat, Ok(s), after),
                Err(_) => Ok::<Var, OxitorchError>(s) == q && unchanged(mid, after),
            };
        let u = q->Ok_0;
        let (out, rule) = choose|out: Tensor<E>, rule: OpGrad<E>| #[trigger]
            reduce_result(t, ReduceKind::Sum, 0, false, out) && op_recorded(
                before,
                mid,
                u,
                out,
                reduce_name(ReduceKind::Sum),
                only(v),
                rule,
            ) && #[trigger] is_reduce_rule(rule, ReduceKind::Sum, t, 0);
        lemma_recorded(before, mid, u, out, reduce_name(ReduceKind::Sum), only(v), rule);
        law_reduce_keeps_whole_sum(m, t, ReduceKind::Sum, 0, false, out);
        assert(out.dims().len() == t.dims().len() - 1);
        law_summed_to_a_scalar(m, mid, u, s, after);
    }
}

/// A gradient check weighs an output by multiplying every number of it with
/// its weight and summing the products.
pub proof fn law_checks_weigh_outputs<E: Elem, V: VjpRule<E>>(
    m: Exact<E>,
    before: Graph<E, V>,
    o: Var,
    w: Tensor<E>,
    s: Var,
    after: Graph<E, V>,
)
    requires
        m.arithmetic(),
        m.functions(),
        before.has(o),
        weighed(before, Ok(o), Some(w), Ok(s), after),
    ensures
        ({
            let out = broadcast_of(before.node(o).value.dims(), w.dims());
            m.num(after.node(s).value, 0) == total(
                |p: int| m.shown(before.node(o).value, out, p) * m.shown(w, out, p),
                product(out),
            )
        }),
{
    let x = before.node(o).value;
    let (c, held, q, mid) = choose|
        c: Var,
        held: Graph<E, V>,
        q: OxitorchResult<Var>,
        mid: Graph<E, V>,
    | #[trigger]
        leaf_added(before, w, false, c, held) && #[trigger] mul_outcome(held, o, c, q, mid)
            && match q {
            Ok(d) => summed(mid, d, mid.node(d).value.dims().len(), Ok(s), after),
            Err(_) => Ok::<Var, OxitorchError>(s) == q && unchanged(mid, after),
        };
    let d = q->Ok_0;
    assert(held.node(c) == held.nodes().last());
    assert(held.node(o) == before.node(o)) by {
        assert(held.nodes().drop_last()[o.id()] == held.nodes()[o.id()]);
    }
    let rule = OpGrad::Mul { a: x, b: w };
    let prod = choose|prod: Tensor<E>| #[trigger]
        binary_result(BinaryOp::Mul, x, w, prod) && op_recorded(
            held,
            mid,
            d,
            prod,
            "mul"@,
            both(o, c),
            rule,
        );
    lemma_recorded(held, mid, d, prod, "mul"@, both(o, c), rule);
    law_summed_to_a_scalar(m, mid, d, s, after);
    let out = broadcast_of(x.dims(), w.dims());
    let f = |p: int| m.num(prod, p);
    let h = |p: int| m.shown(x, out, p) * m.shown(w, out, p);
    assert forall|p: int| 0 <= p < product(out) implies #[trigger] f(p) == h(p) by {
        law_elementwise_broadcast(BinaryOp::Mul, x, w, prod, p);
    }
    lemma_total_equal(f, h, product(out));
}

} // verus!
