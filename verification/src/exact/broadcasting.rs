//! What summing a gradient back down to the shape it was broadcast from
//! computes.

use vstd::prelude::*;
use crate::autograd::unbroadcast::{
    axis_summed, dims_after, summed_axes, sums_axes, unbroadcast_result,
};
use crate::elem::Elem;
use crate::exact::{Exact, lemma_total_equal, total};
use crate::exact::reductions::law_sum;
use crate::exact::totals::{lemma_total_single, lemma_total_swap};
use crate::index::{
    in_shape, lemma_ravel, lemma_ravel_concat, lemma_ravel_zero, lemma_unravel, product, ravel,
    unravel,
};
use crate::layout::{broadcast_index, expands_to};
use crate::ops::ReduceKind;
use crate::tensor::Tensor;
use crate::tensor::reduce::{column, reduce_result, rest_of, strip};

verus! {

/// The row-major position of the element of a tensor of `shape` that
/// broadcasting shows at position `p` of `out`.
pub open spec fn shown_at(p: int, out: Seq<usize>, shape: Seq<usize>) -> int {
    ravel(broadcast_index(unravel(p, out), shape), shape)
}

/// An index with 0 in place of the axes below `k` that are summed.
spec fn folded(idx: Seq<int>, from: Seq<usize>, to: Seq<usize>, k: int) -> Seq<int> {
    Seq::new(
        idx.len(),
        |j: int|
            if j < k && axis_summed(from, to, j) {
                0
            } else {
                idx[j]
            },
    )
}

/// What position `p` adds to the element at `y` once the axes below `k` are
/// summed.
spec fn share<E: Elem>(m: Exact<E>, g: Tensor<E>, to: Seq<usize>, k: int, y: Seq<int>,
    p: int) -> real {
    if folded(unravel(p, g.dims()), g.dims(), to, k) == y {
        m.num(g, p)
    } else {
        0real
    }
}

proof fn lemma_step<E: Elem>(
    m: Exact<E>,
    g: Tensor<E>,
    to: Seq<usize>,
    k: int,
    mid: Tensor<E>,
    t: Tensor<E>,
    y: Seq<int>,
)
    requires
        m.arithmetic(),
        0 <= k < g.dims().len(),
        axis_summed(g.dims(), to, k),
        mid.dims() == dims_after(g.dims(), to, k),
        forall|z: Seq<int>|
            in_shape(z, mid.dims()) ==> (m.val)(#[trigger] mid.at(z)) == total(
                |p: int| share(m, g, to, k, z, p),
                g.count(),
            ),
        reduce_result(mid, ReduceKind::Sum, k, true, t),
        in_shape(y, t.dims()),
    ensures
        (m.val)(t.at(y)) == total(|p: int| share(m, g, to, k + 1, y, p), g.count()),
{
    let from = g.dims();
    let n = from[k] as nat;
    let s = strip(mid, k, rest_of(y, k, true));
    assert(0 <= y[k] < t.dims()[k]);
    assert(ReduceKind::Sum.gives(s, t.at(y)));
    if n > 0 {
        law_sum(m, s, t.at(y));
    }
    let table = |c: int, p: int| share(m, g, to, k, y.update(k, c), p);
    let rows = |c: int| total(|p: int| table(c, p), g.count());
    let terms = |c: int| m.vals(s)[c];
    assert forall|c: int| 0 <= c < n implies #[trigger] terms(c) == rows(c) by {
        let z = y.update(k, c);
        assert(y.remove(k).insert(k, c) =~= z);
        assert(in_shape(z, mid.dims())) by {
            assert forall|j: int| 0 <= j < z.len() implies 0 <= #[trigger] z[j] < mid.dims()[j] by {
                assert(j == k || z[j] == y[j]);
            }
        }
        assert((m.val)(mid.at(z)) == total(|p: int| share(m, g, to, k, z, p), g.count()));
        lemma_total_equal(
            |p: int| share(m, g, to, k, z, p),
            |p: int| table(c, p),
            g.count(),
        );
    }
    lemma_total_equal(terms, rows, n);
    lemma_total_swap(table, n, g.count());
    let columns = |p: int| total(|c: int| table(c, p), n);
    let wanted = |p: int| share(m, g, to, k + 1, y, p);
    assert forall|p: int| 0 <= p < g.count() implies #[trigger] columns(p) == wanted(p) by {
        lemma_unravel(p, from);
        let idx = unravel(p, from);
        let column = |c: int| table(c, p);
        let here = folded(idx, from, to, k);
        let next = folded(idx, from, to, k + 1);
        assert(0 <= idx[k] < from[k]);
        assert(next =~= here.update(k, 0));
        assert forall|c: int| 0 <= c < n && c != idx[k] implies #[trigger] column(c) == 0real by {
            if here == y.update(k, c) {
                assert(here[k] == c);
                assert(here[k] == idx[k]);
            }
        }
        lemma_total_single(column, n, idx[k]);
        if next == y {
            assert(here =~= y.update(k, idx[k]));
        } else if here == y.update(k, idx[k]) {
            assert(next =~= y);
        }
    }
    lemma_total_equal(columns, wanted, g.count());
}

proof fn lemma_summed<E: Elem>(m: Exact<E>, g: Tensor<E>, to: Seq<usize>, k: int, t: Tensor<E>)
    requires
        m.arithmetic(),
        0 <= k <= g.dims().len(),
        sums_axes(g, summed_axes(g.dims(), to, k), t),
    ensures
        t.dims() == dims_after(g.dims(), to, k),
        forall|y: Seq<int>|
            in_shape(y, t.dims()) ==> (m.val)(#[trigger] t.at(y)) == total(
                |p: int| share(m, g, to, k, y, p),
                g.count(),
            ),
    decreases k,
{
    let from = g.dims();
    if k == 0 {
        assert(dims_after(from, to, 0) =~= from);
        assert forall|y: Seq<int>| in_shape(y, t.dims()) implies (m.val)(#[trigger] t.at(y))
            == total(|p: int| share(m, g, to, k, y, p), g.count()) by {
            g.lemma_at(y);
            lemma_ravel(y, from);
            let at = ravel(y, from);
            let f = |p: int| share(m, g, to, k, y, p);
            assert forall|p: int| 0 <= p < g.count() && p != at implies #[trigger] f(p)
                == 0real by {
                lemma_unravel(p, from);
                assert(folded(unravel(p, from), from, to, 0) =~= unravel(p, from));
            }
            lemma_total_single(f, g.count(), at);
            assert(folded(unravel(at, from), from, to, 0) =~= y);
        }
    } else if axis_summed(from, to, k - 1) {
        let axes = summed_axes(from, to, k);
        assert(axes.drop_last() =~= summed_axes(from, to, k - 1));
        let mid = choose|mid: Tensor<E>|
            sums_axes(g, axes.drop_last(), mid) && #[trigger] reduce_result(
                mid,
                ReduceKind::Sum,
                axes.last(),
                true,
                t,
            );
        lemma_summed(m, g, to, k - 1, mid);
        assert(t.dims() =~= dims_after(from, to, k));
        assert forall|y: Seq<int>| in_shape(y, t.dims()) implies (m.val)(#[trigger] t.at(y))
            == total(|p: int| share(m, g, to, k, y, p), g.count()) by {
            lemma_step(m, g, to, k - 1, mid, t, y);
        }
    } else {
        lemma_summed(m, g, to, k - 1, t);
        assert(dims_after(from, to, k) =~= dims_after(from, to, k - 1));
        assert forall|y: Seq<int>| in_shape(y, t.dims()) implies (m.val)(#[trigger] t.at(y))
            == total(|p: int| share(m, g, to, k, y, p), g.count()) by {
            assert forall|p: int| #[trigger]
                share(m, g, to, k, y, p) == share(m, g, to, k - 1, y, p) by {
                let idx = unravel(p, from);
                assert(folded(idx, from, to, k) =~= folded(idx, from, to, k - 1));
            }
            lemma_total_equal(
                |p: int| share(m, g, to, k, y, p),
                |p: int| share(m, g, to, k - 1, y, p),
                g.count(),
            );
        }
    }
}

proof fn lemma_folded_place(idx: Seq<int>, from: Seq<usize>, to: Seq<usize>)
    requires
        expands_to(to, from),
        in_shape(idx, from),
    ensures
        in_shape(folded(idx, from, to, from.len() as int), dims_after(from, to, from.len() as int)),
        ravel(
            folded(idx, from, to, from.len() as int),
            dims_after(from, to, from.len() as int),
        ) == ravel(broadcast_index(idx, to), to),
{
    let n = from.len() as int;
    let extra = from.len() - to.len();
    let f = folded(idx, from, to, n);
    let d = dims_after(from, to, n);
    assert forall|j: int| 0 <= j < d.len() implies 0 <= #[trigger] f[j] < d[j] by {
        assert(0 <= idx[j] < from[j]);
    }
    assert forall|j: int| 0 <= j < to.len() implies d.skip(extra)[j] == #[trigger] to[j] by {
        assert(to[j] == 1 || to[j] == from[j + extra]);
    }
    assert(d.skip(extra) =~= to);
    let b = broadcast_index(idx, to);
    assert forall|j: int| 0 <= j < to.len() implies f.skip(extra)[j] == #[trigger] b[j] by {
        assert(0 <= idx[j + extra] < from[j + extra]);
        assert(to[j] == 1 || to[j] == from[j + extra]);
    }
    assert(f.skip(extra) =~= b);
    assert(f =~= f.take(extra) + b);
    assert(d =~= d.take(extra) + to);
    lemma_ravel_concat(f.take(extra), b, d.take(extra), to);
    assert forall|j: int| 0 <= j < extra implies #[trigger] f.take(extra)[j] == 0 by {
        assert(axis_summed(from, to, j));
    }
    lemma_ravel_zero(f.take(extra), d.take(extra));
    assert(0 * product(to) == 0);
}

/// Summing a gradient down to a shape adds every number of it to the one
/// element that broadcasting that shape would show in its place.
pub proof fn law_unbroadcast<E: Elem>(
    m: Exact<E>,
    g: Tensor<E>,
    shape: Seq<usize>,
    r: Tensor<E>,
    q: int,
)
    requires
        m.arithmetic(),
        expands_to(shape, g.dims()),
        unbroadcast_result(g, shape, r),
        0 <= q < r.count(),
    ensures
        m.num(r, q) == total(
            |p: int|
                if shown_at(p, g.dims(), shape) == q {
                    m.num(g, p)
                } else {
                    0real
                },
            g.count(),
        ),
{
    let from = g.dims();
    let n = from.len() as int;
    let d = dims_after(from, shape, n);
    let t = choose|t: Tensor<E>| #[trigger]
        sums_axes(g, summed_axes(from, shape, n), t) && r.data() == t.data();
    lemma_summed(m, g, shape, n, t);
    assert(r.data().len() == t.data().len());
    lemma_unravel(q, d);
    let y = unravel(q, d);
    assert(r.data()[q] == t.at(y));
    let f = |p: int| share(m, g, shape, n, y, p);
    let h = |p: int|
        if shown_at(p, from, shape) == q {
            m.num(g, p)
        } else {
            0real
        };
    assert forall|p: int| 0 <= p < g.count() implies #[trigger] f(p) == h(p) by {
        lemma_unravel(p, from);
        let idx = unravel(p, from);
        lemma_folded_place(idx, from, shape);
        let z = folded(idx, from, shape, n);
        if shown_at(p, from, shape) == q {
            lemma_ravel(z, d);
        }
    }
    lemma_total_equal(f, h, g.count());
}

} // verus!
