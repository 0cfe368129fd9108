//! Slices, selections and views behind a scripting frontend.

use vstd::prelude::*;
use crate::autograd::gradcheck::leaf_added;
use crate::autograd::graph::{Graph, Var, VjpRule};
use crate::autograd::ops::{
    broadcast_to_outcome, index_select_outcome, masked_select_outcome, narrow_dim0_outcome,
    narrow_end, permute_outcome, reshape_outcome, scatter_dim0_outcome, transpose_outcome,
    unchanged,
};
use crate::elem::Elem;
use crate::error::{ErrorText, OxitorchError, OxitorchResult};
use crate::frontend::{detached, detached_outcome};
use crate::index::{
    in_shape, inverse, is_permutation, lemma_in_shape_insert, lemma_inverse, lemma_product_update,
    lemma_ravel_concat, lemma_ravel_split, outer_pos, permuted, product, ravel,
};
use crate::layout::{
    normalize_dim, resolve_bound, resolve_dim, resolved_bound, signed_dims, sizes_of,
};
use crate::tensor::Tensor;
use crate::tensor::laws::law_reshape_to_own_shape;
use crate::tensor::views::{
    narrow_error, narrow_len, narrow_result, narrow_source, order_error, permute_result,
    reshape_error, reshape_result, resolved_order, select_error,
};

verus! {

// ---- windows ------------------------------------------------------------------------

/// The order of `n` dims in which dim `d` and dim 0 change places.
pub open spec fn swap_order(n: int, d: int) -> Seq<i64> {
    Seq::new(
        n as nat,
        |i: int|
            if i == 0 {
                d as i64
            } else if i == d {
                0i64
            } else {
                i as i64
            },
    )
}

/// The swap of two dims names every dim once.
proof fn lemma_swap_order(n: int, d: int)
    requires
        0 <= d < n <= i64::MAX,
    ensures
        is_permutation(resolved_order(swap_order(n, d))),
        inverse(resolved_order(swap_order(n, d))) == resolved_order(swap_order(n, d)),
        resolved_order(swap_order(n, d)).len() == n,
        forall|i: int|
            0 <= i < n ==> #[trigger] resolved_order(swap_order(n, d))[i] == if i == 0 {
                d
            } else if i == d {
                0
            } else {
                i
            },
        order_error(swap_order(n, d), 0) is None,
{
    let perm = resolved_order(swap_order(n, d));
    lemma_inverse(perm);
    assert(inverse(perm) =~= perm) by {
        assert forall|v: int| 0 <= v < n implies inverse(perm)[v] == perm[v] by {
            assert(perm[perm[v]] == v);
            assert(inverse(perm)[perm[perm[v]]] == perm[v]);
        }
    }
    lemma_permutation_accepted(swap_order(n, d), 0);
}

/// An order that names every dim once is accepted.
proof fn lemma_permutation_accepted(order: Seq<i64>, k: int)
    requires
        is_permutation(resolved_order(order)),
        0 <= k <= order.len(),
    ensures
        order_error(order, k) is None,
    decreases order.len() - k,
{
    if k < order.len() {
        let perm = resolved_order(order);
        assert(0 <= perm[k] < perm.len());
        if exists|j: int| 0 <= j < k && perm[j] == perm[k] {
            let j = choose|j: int| 0 <= j < k && perm[j] == perm[k];
            assert(perm[j] != perm[k]);
        }
        lemma_permutation_accepted(order, k + 1);
    }
}

/// Windowing dim 0 of a tensor whose dims were swapped, and swapping back, is
/// windowing dim `d`.
proof fn lemma_window<E>(
    t: Tensor<E>,
    d: int,
    start: int,
    len: int,
    u: Tensor<E>,
    w: Tensor<E>,
    v: Tensor<E>,
)
    requires
        0 < d < t.dims().len() <= i64::MAX,
        permute_result(t, resolved_order(swap_order(t.dims().len() as int, d)), u),
        narrow_result(u, 0, start, 1, len, w),
        permute_result(w, resolved_order(swap_order(t.dims().len() as int, d)), v),
    ensures
        narrow_result(t, d, start, 1, len, v),
{
    let n = t.dims().len() as int;
    let perm = resolved_order(swap_order(n, d));
    lemma_swap_order(n, d);
    assert(v.dims() =~= t.dims().update(d, len as usize));
    assert forall|idx: Seq<int>|
        #![trigger v.at(idx)]
        #![trigger in_shape(idx, v.dims())]
        in_shape(idx, v.dims()) implies in_shape(narrow_source(idx, d, start, 1), t.dims())
        && v.at(idx) == t.at(narrow_source(idx, d, start, 1)) by {
        let a = permuted(idx, perm);
        assert(in_shape(a, w.dims()));
        let b = narrow_source(a, 0, start, 1);
        assert(w.at(a) == u.at(b));
        let c = permuted(b, perm);
        assert(in_shape(b, u.dims()));
        assert(u.at(b) == t.at(c));
        assert(c =~= narrow_source(idx, d, start, 1));
    }
}

/// Taking the window of `len` entries of dim `d` from `start` on leads from
/// `before` to `after`, with `v` the result: the dim is swapped with dim 0,
/// narrowed there and swapped back.
pub open spec fn window_recorded<E: Elem, V: VjpRule<E>>(
    before: Graph<E, V>,
    x: Var,
    d: int,
    start: i64,
    len: i64,
    v: Var,
    after: Graph<E, V>,
) -> bool {
    let order = swap_order(before.node(x).value.dims().len() as int, d);
    if d == 0 {
        narrow_dim0_outcome(before, x, start, len, Ok(v), after)
    } else {
        exists|u: Var, moved: Graph<E, V>, w: Var, narrowed: Graph<E, V>| #[trigger]
            permute_outcome(before, x, order, Ok(u), moved) && #[trigger] narrow_dim0_outcome(
                moved,
                u,
                start,
                len,
                Ok(w),
                narrowed,
            ) && permute_outcome(narrowed, w, order, Ok(v), after)
    }
}

/// Windows of a tensor of this many dims can be taken along dim `d`: its
/// orders are written in 64 signed bits.
pub open spec fn window_fits(ndim: int, d: int) -> bool {
    d == 0 || ndim <= i64::MAX
}

/// The order of `n` dims in which dim `d` and dim 0 change places.
fn swapped(n: usize, d: usize) -> (r: Vec<i64>)
    requires
        n <= i64::MAX,
    ensures
        r@ == swap_order(n as int, d as int),
{
    let mut order: Vec<i64> = Vec::new();
    let mut i: usize = 0;
    while i < n
        invariant
            0 <= i <= n <= i64::MAX,
            order.len() == i,
            forall|k: int| 0 <= k < i ==> #[trigger] order@[k] == swap_order(n as int, d as int)[k],
        decreases n - i,
    {
        if i == 0 {
            order.push(d as i64);
        } else if i == d {
            order.push(0);
        } else {
            order.push(i as i64);
        }
        i = i + 1;
    }
    assert(order@ =~= swap_order(n as int, d as int));
    order
}

/// Windowing rows whose bounds are in range takes just these rows.
proof fn lemma_rows<E>(t: Tensor<E>, start: int, len: int, out: Tensor<E>)
    requires
        t.dims().len() > 0,
        0 <= start,
        0 <= len,
        start + len <= t.dims()[0],
        start + len <= i64::MAX,
        narrow_result(
            t,
            0,
            resolve_bound(t.dims()[0] as int, start),
            1,
            narrow_len(t.dims()[0] as int, start, narrow_end(start, len), 1),
            out,
        ),
    ensures
        narrow_result(t, 0, start, 1, len, out),
{
    let n = t.dims()[0] as int;
    assert(resolve_bound(n, start) == start);
    assert(resolve_bound(n, start + len) == start + len);
    assert(narrow_len(n, start, start + len, 1) == len);
}

/// Takes the window of `len` entries of dim `d` from `start` on.
fn window<E: Elem, V: VjpRule<E>>(g: &mut Graph<E, V>, x: Var, d: usize, start: i64, len: i64) -> (r:
    OxitorchResult<Var>)
    requires
        old(g).wf(),
        old(g).has(x),
        d < old(g).node(x).value.dims().len(),
        window_fits(old(g).node(x).value.dims().len() as int, d as int),
    ensures
        final(g).wf(),
        r is Ok,
        final(g).has(r->Ok_0),
        window_recorded(*old(g), x, d as int, start, len, r->Ok_0, *final(g)),
        ({
            let t = old(g).node(x).value;
            0 <= start && 0 <= len && start + len <= t.dims()[d as int] && start + len <= i64::MAX
                ==> narrow_result(
                t,
                d as int,
                start as int,
                1,
                len as int,
                final(g).node(r->Ok_0).value,
            )
        }),
{
    let ghost before = *g;
    let ghost t = before.node(x).value;
    let ghost fits = 0 <= start && 0 <= len && start + len <= t.dims()[d as int] && start + len
        <= i64::MAX;
    if d == 0 {
        let r = crate::autograd::ops::narrow_dim0(g, x, start, len);
        proof {
            if fits {
                lemma_rows(t, start as int, len as int, g.node(r->Ok_0).value);
            }
        }
        return r;
    }
    let ndim: usize = x.value(g).ndim();
    let order = swapped(ndim, d);
    proof {
        lemma_swap_order(ndim as int, d as int);
    }
    let u = match crate::autograd::ops::permute(g, x, order.as_slice()) {
        Ok(u) => u,
        Err(e) => {
            return Err(e);
        },
    };
    let ghost moved = *g;
    assert(permute_outcome(before, x, order@, Ok(u), moved));
    let w = match crate::autograd::ops::narrow_dim0(g, u, start, len) {
        Ok(w) => w,
        Err(e) => {
            return Err(e);
        },
    };
    let ghost narrowed = *g;
    assert(narrow_dim0_outcome(moved, u, start, len, Ok(w), narrowed));
    let r = crate::autograd::ops::permute(g, w, order.as_slice());
    proof {
        assert(narrowed.node(w).value.dims().len() == ndim);
        assert(r is Ok);
        if fits {
            let moved_value = moved.node(u).value;
            assert(moved_value.dims()[0] == t.dims()[d as int]);
            lemma_rows(moved_value, start as int, len as int, narrowed.node(w).value);
            lemma_window(
                t,
                d as int,
                start as int,
                len as int,
                moved_value,
                narrowed.node(w).value,
                g.node(r->Ok_0).value,
            );
        }
    }
    r
}

/// The complaint about a tensor with too many dims for a window.
pub open spec fn window_error() -> ErrorText {
    ErrorText::InvalidArgument("windows of a tensor of this many dims are not supported"@)
}

fn no_window() -> (r: OxitorchError)
    ensures
        r@ == window_error(),
{
    OxitorchError::InvalidArgument(
        "windows of a tensor of this many dims are not supported".to_string(),
    )
}

// ---- slices -------------------------------------------------------------------------

/// What a slice gives and leaves behind. Its elements are the same whether or
/// not it is connected to the graph; a slice of step one of a tensor that
/// requires a gradient is, the others are detached.
pub open spec fn slice_outcome<E: Elem, V: VjpRule<E>>(
    before: Graph<E, V>,
    x: Var,
    dim: i64,
    lo: i64,
    hi: i64,
    by: i64,
    r: OxitorchResult<Var>,
    after: Graph<E, V>,
) -> bool {
    let t = before.node(x).value;
    let ndim = t.dims().len() as int;
    let d = resolve_dim(dim as int, ndim);
    let start = resolve_bound(t.dims()[d] as int, lo as int);
    let len = narrow_len(t.dims()[d] as int, lo as int, hi as int, by as int);
    let connected = by == 1 && before.node(x).requires_grad;
    match r {
        Ok(v) => {
            &&& narrow_error(ndim, dim as int, by as int) is None
            &&& !connected || t.dims()[d] <= i64::MAX ==> narrow_result(
                t,
                d,
                start,
                by as int,
                len,
                after.node(v).value,
            )
            &&& if connected {
                window_recorded(before, x, d, start as i64, len as i64, v, after)
            } else {
                leaf_added(before, after.node(v).value, false, v, after)
            }
        },
        Err(e) => {
            &&& unchanged(before, after)
            &&& match narrow_error(ndim, dim as int, by as int) {
                Some(m) => e@ == m,
                None => connected && !window_fits(ndim, d) && e@ == window_error(),
            }
        },
    }
}

/// Slices dim `dim` from `lo` to `hi` with step `by`. Bounds resolve as
/// [`Tensor::narrow`] resolves them.
pub fn narrow<E: Elem, V: VjpRule<E>>(
    g: &mut Graph<E, V>,
    x: Var,
    dim: i64,
    lo: i64,
    hi: i64,
    by: i64,
) -> (r: OxitorchResult<Var>)
    requires
        old(g).wf(),
        old(g).has(x),
    ensures
        final(g).wf(),
        slice_outcome(*old(g), x, dim, lo, hi, by, r, *final(g)),
{
    let t = x.detach(g);
    let out = match t.narrow(dim, lo, hi, by) {
        Ok(out) => out,
        Err(e) => {
            return Err(e);
        },
    };
    if by == 1 && x.requires_grad(g) {
        let d: usize = match normalize_dim(dim, t.ndim()) {
            Ok(d) => d,
            Err(e) => {
                return Err(e);
            },
        };
        if d != 0 && t.ndim() as u64 > i64::MAX as u64 {
            return Err(no_window());
        }
        let start: usize = resolved_bound(t.shape()[d], lo);
        let len: usize = out.shape()[d];
        window(g, x, d, start as i64, len as i64)
    } else {
        Ok(Var::leaf(g, out, false))
    }
}

/// `r` holds the entry `i` of dim `d` of `t`, without that dim.
pub open spec fn is_entry<E>(t: Tensor<E>, d: int, i: int, r: Tensor<E>) -> bool {
    &&& r.dims() == t.dims().remove(d)
    &&& forall|idx: Seq<int>|
        #![trigger r.at(idx)]
        #![trigger in_shape(idx, r.dims())]
        in_shape(idx, r.dims()) ==> in_shape(idx.insert(d, i), t.dims()) && r.at(idx) == t.at(
            idx.insert(d, i),
        )
}

/// Dropping a dim of length one keeps row-major positions.
proof fn lemma_ravel_drop(idx: Seq<int>, dims: Seq<usize>, d: int)
    requires
        0 <= d < dims.len(),
        in_shape(idx, dims.remove(d)),
    ensures
        in_shape(idx.insert(d, 0), dims.update(d, 1)),
        ravel(idx.insert(d, 0), dims.update(d, 1)) == ravel(idx, dims.remove(d)),
{
    let one = dims.update(d, 1);
    let rest = dims.remove(d);
    let full = idx.insert(d, 0);
    assert(one.remove(d) =~= rest);
    lemma_in_shape_insert(idx, one, d, 0);
    lemma_ravel_split(full, one, d);
    assert(idx =~= idx.take(d) + idx.skip(d));
    assert(rest =~= rest.take(d) + rest.skip(d));
    lemma_ravel_concat(idx.take(d), idx.skip(d), rest.take(d), rest.skip(d));
    assert(full.take(d) =~= idx.take(d));
    assert(full.skip(d + 1) =~= idx.skip(d));
    assert(one.take(d) =~= rest.take(d));
    assert(one.skip(d + 1) =~= rest.skip(d));
    let o = outer_pos(full, one, d);
    assert(o * 1 + 0 == o);
}

/// A window of one entry, reshaped to drop its dim, is that entry.
proof fn lemma_entry<E>(t: Tensor<E>, d: int, i: int, w: Tensor<E>, r: Tensor<E>)
    requires
        0 <= d < t.dims().len(),
        narrow_result(t, d, i, 1, 1, w),
        dims_signed(t.dims()),
        reshape_result(w, signed_dims(t.dims().remove(d)), r),
    ensures
        is_entry(t, d, i, r),
{
    let rest = t.dims().remove(d);
    assert forall|k: int| 0 <= k < rest.len() implies #[trigger] rest[k] <= i64::MAX by {
        assert(rest[k] == t.dims()[if k < d {
            k
        } else {
            k + 1
        }]);
    }
    law_reshape_to_own_shape(rest);
    lemma_product_update(t.dims(), d, 1);
    assert(w.count() == product(rest));
    assert(r.dims() == rest);
    assert forall|idx: Seq<int>|
        #![trigger r.at(idx)]
        #![trigger in_shape(idx, r.dims())]
        in_shape(idx, r.dims()) implies in_shape(idx.insert(d, i), t.dims()) && r.at(idx) == t.at(
        idx.insert(d, i),
    ) by {
        lemma_ravel_drop(idx, t.dims(), d);
        let full = idx.insert(d, 0);
        r.lemma_at(idx);
        w.lemma_at(full);
        assert(r.at(idx) == w.at(full));
        assert(narrow_source(full, d, i, 1) =~= idx.insert(d, i));
    }
}

/// Every dim can be written in 64 signed bits.
pub open spec fn dims_signed(dims: Seq<usize>) -> bool {
    forall|k: int| 0 <= k < dims.len() ==> #[trigger] dims[k] <= i64::MAX
}

/// Selecting entry `i` of dim `d` leads from `before` to `after` and gives
/// `r`: a window of one entry, reshaped to drop its dim.
pub open spec fn entry_recorded<E: Elem, V: VjpRule<E>>(
    before: Graph<E, V>,
    x: Var,
    d: int,
    i: i64,
    r: OxitorchResult<Var>,
    after: Graph<E, V>,
) -> bool {
    exists|w: Var, mid: Graph<E, V>| #[trigger]
        window_recorded(before, x, d, i, 1, w, mid) && reshape_outcome(
            mid,
            w,
            signed_dims(before.node(x).value.dims().remove(d)),
            r,
            after,
        )
}

/// What a selection gives and leaves behind. Its elements are the same
/// whether or not it is connected to the graph; it is if the tensor requires
/// a gradient.
pub open spec fn select_outcome<E: Elem, V: VjpRule<E>>(
    before: Graph<E, V>,
    x: Var,
    dim: i64,
    index: i64,
    r: OxitorchResult<Var>,
    after: Graph<E, V>,
) -> bool {
    let t = before.node(x).value;
    let ndim = t.dims().len() as int;
    let d = resolve_dim(dim as int, ndim);
    let i = resolve_dim(index as int, t.dims()[d] as int);
    let connected = before.node(x).requires_grad;
    match r {
        Ok(v) => {
            &&& select_error(t.dims(), dim as int, index as int) is None
            &&& !connected || dims_signed(t.dims()) ==> is_entry(t, d, i, after.node(v).value)
            &&& if connected {
                entry_recorded(before, x, d, i as i64, r, after)
            } else {
                leaf_added(before, after.node(v).value, false, v, after)
            }
        },
        Err(e) => match select_error(t.dims(), dim as int, index as int) {
            Some(m) => e@ == m && unchanged(before, after),
            None => {
                ||| connected && !window_fits(ndim, d) && e@ == window_error() && unchanged(
                    before,
                    after,
                )
                ||| connected && !dims_signed(t.dims()) && entry_recorded(
                    before,
                    x,
                    d,
                    i as i64,
                    r,
                    after,
                )
            },
        },
    }
}

/// Selects entry `index` of dim `dim` and drops the dim. Indices resolve as
/// [`Tensor::select`] resolves them.
pub fn select<E: Elem, V: VjpRule<E>>(g: &mut Graph<E, V>, x: Var, dim: i64, index: i64) -> (r:
    OxitorchResult<Var>)
    requires
        old(g).wf(),
        old(g).has(x),
    ensures
        final(g).wf(),
        select_outcome(*old(g), x, dim, index, r, *final(g)),
{
    let ghost before = *g;
    let t = x.detach(g);
    let out = match t.select(dim, index) {
        Ok(out) => out,
        Err(e) => {
            return Err(e);
        },
    };
    if !x.requires_grad(g) {
        assert(is_entry(
            t,
            resolve_dim(dim as int, t.dims().len() as int),
            resolve_dim(
                index as int,
                t.dims()[resolve_dim(dim as int, t.dims().len() as int)] as int,
            ),
            out,
        ));
        return Ok(Var::leaf(g, out, false));
    }
    let d: usize = match normalize_dim(dim, t.ndim()) {
        Ok(d) => d,
        Err(e) => {
            return Err(e);
        },
    };
    if d != 0 && t.ndim() as u64 > i64::MAX as u64 {
        return Err(no_window());
    }
    let i: usize = match normalize_dim(index, t.shape()[d]) {
        Ok(i) => i,
        Err(e) => {
            return Err(e);
        },
    };
    let w = match window(g, x, d, i as i64, 1) {
        Ok(w) => w,
        Err(e) => {
            return Err(e);
        },
    };
    let ghost mid = *g;
    let shape = out.shape_i64();
    let r = crate::autograd::ops::reshape(g, w, shape.as_slice());
    proof {
        assert(window_recorded(before, x, d as int, i as i64, 1, w, mid));
        assert(reshape_outcome(mid, w, signed_dims(t.dims().remove(d as int)), r, *g));
        assert(entry_recorded(before, x, d as int, i as i64, r, *g));
        if dims_signed(t.dims()) {
            assert(t.dims()[d as int] <= i64::MAX);
            assert(narrow_result(t, d as int, i as int, 1, 1, mid.node(w).value));
            lemma_entry_reshapes(t, d as int, i as int, mid.node(w).value);
            if r is Ok {
                lemma_entry(t, d as int, i as int, mid.node(w).value, g.node(r->Ok_0).value);
            }
        }
    }
    r
}

/// A window of one entry can be reshaped to drop its dim.
proof fn lemma_entry_reshapes<E>(t: Tensor<E>, d: int, i: int, w: Tensor<E>)
    requires
        0 <= d < t.dims().len(),
        narrow_result(t, d, i, 1, 1, w),
        dims_signed(t.dims()),
    ensures
        reshape_error(w.count(), signed_dims(t.dims().remove(d))) is None,
{
    let rest = t.dims().remove(d);
    assert forall|k: int| 0 <= k < rest.len() implies #[trigger] rest[k] <= i64::MAX by {
        assert(rest[k] == t.dims()[if k < d {
            k
        } else {
            k + 1
        }]);
    }
    law_reshape_to_own_shape(rest);
    lemma_product_update(t.dims(), d, 1);
    assert(product(rest) * 1 == product(rest));
}

// ---- views and gathers --------------------------------------------------------------

/// What [`reshape`] gives and leaves behind.
pub open spec fn view_outcome<E: Elem, V: VjpRule<E>>(
    before: Graph<E, V>,
    x: Var,
    shape: &[i64],
    r: OxitorchResult<Var>,
    after: Graph<E, V>,
) -> bool {
    if before.node(x).requires_grad {
        reshape_outcome(before, x, shape@, r, after)
    } else {
        exists|q: OxitorchResult<Tensor<E>>| #[trigger]
            call_ensures(
                Tensor::<E>::reshape,
                (&before.node(x).value, shape),
                q,
            ) && detached_outcome(before, q, r, after)
    }
}

/// The same elements in another shape, connected to the graph if the tensor
/// requires a gradient.
pub fn reshape<E: Elem, V: VjpRule<E>>(
    g: &mut Graph<E, V>,
    x: Var,
    shape: &[i64],
) -> (r: OxitorchResult<Var>)
    requires
        old(g).wf(),
        old(g).has(x),
    ensures
        final(g).wf(),
        view_outcome(*old(g), x, shape, r, *final(g)),
{
    if x.requires_grad(g) {
        crate::autograd::ops::reshape(g, x, shape)
    } else {
        let q = x.value(g).reshape(shape);
        detached(g, q)
    }
}

/// What [`transpose`] gives and leaves behind.
pub open spec fn transposed_outcome<E: Elem, V: VjpRule<E>>(
    before: Graph<E, V>,
    x: Var,
    r: OxitorchResult<Var>,
    after: Graph<E, V>,
) -> bool {
    if before.node(x).requires_grad {
        transpose_outcome(before, x, r, after)
    } else {
        exists|q: OxitorchResult<Tensor<E>>| #[trigger]
            call_ensures(
                Tensor::<E>::transpose,
                (&before.node(x).value,),
                q,
            ) && detached_outcome(before, q, r, after)
    }
}

/// The transpose of a 2-D tensor, connected to the graph if it requires a
/// gradient.
pub fn transpose<E: Elem, V: VjpRule<E>>(
    g: &mut Graph<E, V>,
    x: Var,
) -> (r: OxitorchResult<Var>)
    requires
        old(g).wf(),
        old(g).has(x),
    ensures
        final(g).wf(),
        transposed_outcome(*old(g), x, r, *final(g)),
{
    if x.requires_grad(g) {
        crate::autograd::ops::transpose(g, x)
    } else {
        let q = x.value(g).transpose();
        detached(g, q)
    }
}

/// What [`permute`] gives and leaves behind.
pub open spec fn permuted_outcome<E: Elem, V: VjpRule<E>>(
    before: Graph<E, V>,
    x: Var,
    order: &[i64],
    r: OxitorchResult<Var>,
    after: Graph<E, V>,
) -> bool {
    if before.node(x).requires_grad {
        permute_outcome(before, x, order@, r, after)
    } else {
        exists|q: OxitorchResult<Tensor<E>>| #[trigger]
            call_ensures(
                Tensor::<E>::permute,
                (&before.node(x).value, order),
                q,
            ) && detached_outcome(before, q, r, after)
    }
}

/// The dims in another order, connected to the graph if the tensor requires
/// a gradient.
pub fn permute<E: Elem, V: VjpRule<E>>(
    g: &mut Graph<E, V>,
    x: Var,
    order: &[i64],
) -> (r: OxitorchResult<Var>)
    requires
        old(g).wf(),
        old(g).has(x),
    ensures
        final(g).wf(),
        permuted_outcome(*old(g), x, order, r, *final(g)),
{
    if x.requires_grad(g) {
        crate::autograd::ops::permute(g, x, order)
    } else {
        let q = x.value(g).permute(order);
        detached(g, q)
    }
}

/// What [`index_select`] gives and leaves behind.
pub open spec fn gather_outcome<E: Elem, V: VjpRule<E>>(
    before: Graph<E, V>,
    x: Var,
    dim: i64,
    indices: &[i64],
    r: OxitorchResult<Var>,
    after: Graph<E, V>,
) -> bool {
    if before.node(x).requires_grad {
        index_select_outcome(before, x, dim, indices@, r, after)
    } else {
        exists|q: OxitorchResult<Tensor<E>>| #[trigger]
            call_ensures(
                Tensor::<E>::index_select,
                (&before.node(x).value, dim, indices),
                q,
            ) && detached_outcome(before, q, r, after)
    }
}

/// Slices along `dim` in the order of `indices`, connected to the graph if
/// the tensor requires a gradient. Along dim 0 this is fancy indexing.
pub fn index_select<E: Elem, V: VjpRule<E>>(
    g: &mut Graph<E, V>,
    x: Var,
    dim: i64,
    indices: &[i64],
) -> (r: OxitorchResult<Var>)
    requires
        old(g).wf(),
        old(g).has(x),
    ensures
        final(g).wf(),
        gather_outcome(*old(g), x, dim, indices, r, *final(g)),
{
    if x.requires_grad(g) {
        crate::autograd::ops::index_select(g, x, dim, indices)
    } else {
        let q = x.value(g).index_select(dim, indices);
        detached(g, q)
    }
}

/// What [`scatter`] gives and leaves behind.
pub open spec fn scatter_outcome<E: Elem, V: VjpRule<E>>(
    before: Graph<E, V>,
    x: Var,
    indices: &[i64],
    values: Var,
    r: OxitorchResult<Var>,
    after: Graph<E, V>,
) -> bool {
    if before.node(x).requires_grad || before.node(values).requires_grad {
        scatter_dim0_outcome(before, x, indices@, values, r, after)
    } else {
        exists|q: OxitorchResult<Tensor<E>>| #[trigger]
            call_ensures(
                Tensor::<E>::scatter_dim0,
                (&before.node(x).value, indices, &before.node(values).value),
                q,
            ) && detached_outcome(before, q, r, after)
    }
}

/// Rows of `values` written over rows of `x`, connected to the graph if either
/// requires a gradient.
pub fn scatter<E: Elem, V: VjpRule<E>>(
    g: &mut Graph<E, V>,
    x: Var,
    indices: &[i64],
    values: Var,
) -> (r: OxitorchResult<Var>)
    requires
        old(g).wf(),
        old(g).has(x),
        old(g).has(values),
    ensures
        final(g).wf(),
        scatter_outcome(*old(g), x, indices, values, r, *final(g)),
{
    if x.requires_grad(g) || values.requires_grad(g) {
        crate::autograd::ops::scatter_dim0(g, x, indices, values)
    } else {
        let q = x.value(g).scatter_dim0(indices, values.value(g));
        detached(g, q)
    }
}

/// What [`masked_select`] gives and leaves behind.
pub open spec fn mask_outcome<E: Elem, V: VjpRule<E>>(
    before: Graph<E, V>,
    x: Var,
    mask: Var,
    r: OxitorchResult<Var>,
    after: Graph<E, V>,
) -> bool {
    if before.node(x).requires_grad || before.node(mask).requires_grad {
        masked_select_outcome(before, x, mask, r, after)
    } else {
        exists|q: OxitorchResult<Tensor<E>>| #[trigger]
            call_ensures(
                Tensor::<E>::masked_select,
                (&before.node(x).value, &before.node(mask).value),
                q,
            ) && detached_outcome(before, q, r, after)
    }
}

/// The elements that a mask keeps, connected to the graph if either requires a
/// gradient.
pub fn masked_select<E: Elem, V: VjpRule<E>>(
    g: &mut Graph<E, V>,
    x: Var,
    mask: Var,
) -> (r: OxitorchResult<Var>)
    requires
        old(g).wf(),
        old(g).has(x),
        old(g).has(mask),
    ensures
        final(g).wf(),
        mask_outcome(*old(g), x, mask, r, *final(g)),
{
    if x.requires_grad(g) || mask.requires_grad(g) {
        crate::autograd::ops::masked_select(g, x, mask)
    } else {
        let q = x.value(g).masked_select(mask.value(g));
        detached(g, q)
    }
}

/// What an expansion to `dims` gives and leaves behind.
pub open spec fn expand_outcome<E: Elem, V: VjpRule<E>>(
    before: Graph<E, V>,
    x: Var,
    dims: Seq<usize>,
    r: OxitorchResult<Var>,
    after: Graph<E, V>,
) -> bool {
    if before.node(x).requires_grad {
        broadcast_to_outcome(before, x, dims, r, after)
    } else {
        exists|out: &[usize], q: OxitorchResult<Tensor<E>>|
            out@ == dims && #[trigger] call_ensures(
                Tensor::<E>::broadcast_to,
                (&before.node(x).value, out),
                q,
            ) && detached_outcome(before, q, r, after)
    }
}

/// Expands to `shape` following the broadcast rules, connected to the graph if
/// the tensor requires a gradient.
pub fn broadcast_to<E: Elem, V: VjpRule<E>>(g: &mut Graph<E, V>, x: Var, shape: &[i64]) -> (r:
    OxitorchResult<Var>)
    requires
        old(g).wf(),
        old(g).has(x),
    ensures
        final(g).wf(),
        expand_outcome(*old(g), x, sizes_of(shape@), r, *final(g)),
{
    let mut dims: Vec<usize> = Vec::new();
    let mut i: usize = 0;
    while i < shape.len()
        invariant
            0 <= i <= shape.len(),
            dims.len() == i,
            forall|k: int| 0 <= k < i ==> #[trigger] dims@[k] == sizes_of(shape@)[k],
        decreases shape.len() - i,
    {
        dims.push(shape[i] as usize);
        i = i + 1;
    }
    assert(dims@ =~= sizes_of(shape@));
    if x.requires_grad(g) {
        crate::autograd::ops::broadcast_to(g, x, dims.as_slice())
    } else {
        let out = dims.as_slice();
        let q = x.value(g).broadcast_to(out);
        assert(call_ensures(Tensor::<E>::broadcast_to, (&old(g).node(x).value, out), q));
        detached(g, q)
    }
}

/// A contiguous, detached copy.
pub fn contiguous<E: Elem, V>(g: &mut Graph<E, V>, x: Var) -> (r: Var)
    requires
        old(g).wf(),
        old(g).has(x),
    ensures
        final(g).wf(),
        exists|t: Tensor<E>| #[trigger]
            call_ensures(Tensor::<E>::contiguous, (&old(g).node(x).value,), t) && leaf_added(
                *old(g),
                t,
                false,
                r,
                *final(g),
            ),
{
    let t = x.value(g).contiguous();
    let ghost copy = t;
    assert(call_ensures(Tensor::<E>::contiguous, (&old(g).node(x).value,), copy));
    Var::leaf(g, t, false)
}

// ---- subscripts ---------------------------------------------------------------------

/// What stands in the brackets of `t[..]`.
#[derive(Debug)]
pub enum Subscript {
    /// One entry of dim 0.
    Index(i64),
    /// A slice of dim 0; what is left out is `0`, the end and `1`.
    Slice {
        /// Where the slice starts.
        start: Option<i64>,
        /// Where it stops.
        stop: Option<i64>,
        /// Its step.
        step: Option<i64>,
    },
    /// Entries of dim 0, in this order.
    List(Vec<i64>),
}

/// A number, or what stands for it where it is left out.
pub open spec fn number_or(given: Option<i64>, default: i64) -> i64 {
    match given {
        Some(v) => v,
        None => default,
    }
}

/// `given`, or `default` where it is left out.
fn or_default(given: Option<i64>, default: i64) -> (r: i64)
    ensures
        r == number_or(given, default),
{
    match given {
        Some(v) => v,
        None => default,
    }
}

/// What `t[key]` gives and leaves behind.
pub open spec fn subscript_outcome<E: Elem, V: VjpRule<E>>(
    before: Graph<E, V>,
    x: Var,
    key: Subscript,
    r: OxitorchResult<Var>,
    after: Graph<E, V>,
) -> bool {
    match key {
        Subscript::Index(i) => select_outcome(before, x, 0, i, r, after),
        Subscript::Slice { start, stop, step } => slice_outcome(
            before,
            x,
            0,
            number_or(start, 0),
            number_or(stop, i64::MAX),
            number_or(step, 1),
            r,
            after,
        ),
        Subscript::List(indices) => exists|picks: &[i64]|
            picks@ == indices@ && #[trigger] gather_outcome(before, x, 0, picks, r, after),
    }
}

/// `t[key]`: an index selects, a slice narrows, a list gathers, all along
/// dim 0.
pub fn subscript<E: Elem, V: VjpRule<E>>(g: &mut Graph<E, V>, x: Var, key: &Subscript) -> (r:
    OxitorchResult<Var>)
    requires
        old(g).wf(),
        old(g).has(x),
    ensures
        final(g).wf(),
        subscript_outcome(*old(g), x, *key, r, *final(g)),
{
    match key {
        Subscript::Index(i) => select(g, x, 0, *i),
        Subscript::Slice { start, stop, step } => narrow(
            g,
            x,
            0,
            or_default(*start, 0),
            or_default(*stop, i64::MAX),
            or_default(*step, 1),
        ),
        Subscript::List(indices) => index_select(g, x, 0, indices.as_slice()),
    }
}

} // verus!
