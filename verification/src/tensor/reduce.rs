//! Reductions along a dimension and over whole tensors.

use vstd::prelude::*;
use vstd::arithmetic::div_mod::*;
use vstd::arithmetic::mul::*;
use vstd::string::*;
use crate::elem::{
    Elem, argmax_of, argmin_of, is_argmax, is_argmin, is_mean, is_sum, mean_of, sum_of,
};
use crate::error::{ErrorText, OxitorchError, OxitorchResult};
use crate::index::{
    cell, in_shape, index_of, lemma_cell, lemma_in_shape_insert, lemma_product_concat,
    lemma_product_remove, lemma_product_split, lemma_product_tail, lemma_product_update,
    lemma_rank0, lemma_ravel, lemma_ravel_concat, lemma_ravel_split, product, ravel,
};
use crate::layout::{
    copy_dims, dim_error, element_count, has_count, normalize_dim, overflow, overflow_error,
    resolve_dim,
};
use crate::ops::ReduceKind;
use crate::parallel::{PARALLEL_THRESHOLD_ELEMENTS, par_collect, seq_collect};
use crate::tensor::Tensor;
use crate::text::{dims_string, ints};

verus! {

/// The elements of `t` along dimension `d`, at the place `rest` gives in all
/// other dimensions.
pub open spec fn strip<E>(t: Tensor<E>, d: int, rest: Seq<int>) -> Seq<E> {
    Seq::new(t.dims()[d] as nat, |s: int| t.at(rest.insert(d, s)))
}

/// The shape that reducing dimension `d` leaves.
pub open spec fn reduced_dims(dims: Seq<usize>, d: int, keepdim: bool) -> Seq<usize> {
    if keepdim {
        dims.update(d, 1)
    } else {
        dims.remove(d)
    }
}

/// Why a dimension cannot be reduced, if it cannot.
pub open spec fn reduce_error(
    dims: Seq<usize>,
    kind: ReduceKind,
    dim: int,
    keepdim: bool,
) -> Option<ErrorText> {
    let ndim = dims.len() as int;
    let d = resolve_dim(dim, ndim);
    if !(0 <= d < ndim) {
        Some(dim_error(dim, ndim))
    } else if dims[d] == 0 && (kind == ReduceKind::ArgMax || kind == ReduceKind::ArgMin) {
        Some(ErrorText::InvalidArgument("cannot compute argmax/argmin over a zero-length dim"@))
    } else if dims[d] == 0 && (kind == ReduceKind::Max || kind == ReduceKind::Min) {
        Some(ErrorText::InvalidArgument("cannot compute max/min over a zero-length dim"@))
    } else if product(reduced_dims(dims, d, keepdim)) > usize::MAX {
        Some(overflow_error(ints(reduced_dims(dims, d, keepdim))))
    } else {
        None
    }
}

/// `r` holds the reduction of every strip of `t` along dimension `d`.
pub open spec fn reduce_result<E: Elem>(
    t: Tensor<E>,
    kind: ReduceKind,
    d: int,
    keepdim: bool,
    r: Tensor<E>,
) -> bool {
    &&& r.dims() == reduced_dims(t.dims(), d, keepdim)
    &&& r.contiguous_layout()
    &&& forall|idx: Seq<int>|
        in_shape(idx, r.dims()) ==> kind.gives(
            strip(t, d, rest_of(idx, d, keepdim)),
            #[trigger] r.at(idx),
        )
}

/// Strip `q` of a stack of planes of `len` rows of `inner` columns: one
/// column of one plane.
pub open spec fn column<E>(flat: Seq<E>, q: int, len: int, inner: int) -> Seq<E> {
    Seq::new(len as nat, |s: int| flat[cell(q / inner, s, q % inner, len, inner)])
}

/// Reduces the rows of `data`, `strips` rows of `strip_len` elements each, on
/// the thread pool for large workloads.
fn reduce_strips<E: Elem>(data: &[E], strips: usize, strip_len: usize, kind: ReduceKind) -> (r: Vec<
    E,
>)
    requires
        data.len() == strips * strip_len,
        strip_len > 0 || kind.has_empty_value(),
    ensures
        r.len() == strips,
        forall|q: int|
            0 <= q < strips ==> kind.gives(
                column(data@, q, strip_len as int, 1),
                #[trigger] r@[q],
            ),
{
    let one = |s: usize| -> (x: E)
        requires
            s < strips,
        ensures
            kind.gives(column(data@, s as int, strip_len as int, 1), x),
        {
            assert(s * strip_len + strip_len <= strips * strip_len) by (nonlinear_arith)
                requires
                    s < strips,
                    strip_len >= 0,
            ;
            let row = vstd::slice::slice_subrange(
                data,
                s * strip_len,
                s * strip_len + strip_len,
            );
            proof {
                assert(s as int / 1 == s && s as int % 1 == 0);
                assert forall|i: int| 0 <= i < strip_len implies row@[i] == #[trigger] column(
                    data@,
                    s as int,
                    strip_len as int,
                    1,
                )[i] by {
                    assert((s * strip_len + i) * 1 + 0 == s * strip_len + i);
                }
                assert(row@ =~= column(data@, s as int, strip_len as int, 1));
            }
            kind.reduce_known(row)
        };
    let r = if strips > 1 && data.len() >= PARALLEL_THRESHOLD_ELEMENTS {
        par_collect(strips, one)
    } else {
        seq_collect(strips, one)
    };
    proof {
        assert forall|q: int| 0 <= q < strips implies kind.gives(
            column(data@, q, strip_len as int, 1),
            #[trigger] r@[q],
        ) by {
            assert(call_ensures(one, (q as usize,), r@[q as usize as int]));
        }
    }
    r
}

/// `best` is the place of the largest element of `s`, or of the smallest.
pub open spec fn is_winner<E: Elem>(s: Seq<E>, largest: bool, best: int) -> bool {
    if largest {
        is_argmax(s, best)
    } else {
        is_argmin(s, best)
    }
}

/// `places` are the places of the winners of every strip along dimension
/// `d`, in row-major order of the other dimensions.
pub open spec fn are_winners<E: Elem>(
    t: Tensor<E>,
    d: int,
    largest: bool,
    places: Seq<int>,
) -> bool {
    &&& places.len() == product(t.dims().remove(d))
    &&& forall|q: int|
        0 <= q < places.len() ==> is_winner(
            column(t.data(), q, t.dims()[d] as int, product(t.dims().skip(d + 1)) as int),
            largest,
            #[trigger] places[q],
        )
}

/// The values of strip `q`.
fn column_values<E: Copy>(flat: &[E], outer: usize, len: usize, inner: usize, q: usize) -> (r: Vec<
    E,
>)
    requires
        inner > 0,
        q < outer * inner,
        flat.len() == outer * len * inner,
    ensures
        r@ == column(flat@, q as int, len as int, inner as int),
{
    let o: usize = q / inner;
    let i: usize = q % inner;
    proof {
        lemma_fundamental_div_mod(q as int, inner as int);
        assert(o < outer) by (nonlinear_arith)
            requires
                q < outer * inner,
                q == inner * o + i,
                i >= 0,
        ;
    }
    let mut one: Vec<E> = Vec::with_capacity(len);
    let mut s: usize = 0;
    while s < len
        invariant
            0 <= s <= len,
            o < outer,
            i < inner,
            o == q as int / inner as int,
            i == q as int % inner as int,
            flat.len() == outer * len * inner,
            one@ == column(flat@, q as int, len as int, inner as int).take(s as int),
        decreases len - s,
    {
        proof {
            lemma_cell(o as int, s as int, i as int, outer as int, len as int, inner as int);
            lemma_mul_nonnegative(o as int, len as int);
            assert(o * len + s <= (o * len + s) * inner) by (nonlinear_arith)
                requires
                    inner >= 1,
                    o * len + s >= 0,
            ;
        }
        one.push(flat[(o * len + s) * inner + i]);
        s = s + 1;
        let ghost all = column(flat@, q as int, len as int, inner as int);
        assert(all.take(s as int) =~= all.take(s - 1).push(all[s - 1]));
    }
    assert(one@ =~= column(flat@, q as int, len as int, inner as int));
    one
}

/// Reduces every column of a stack of planes.
fn reduce_columns<E: Elem>(
    flat: &[E],
    outer: usize,
    len: usize,
    inner: usize,
    kind: ReduceKind,
) -> (r: Vec<E>)
    requires
        inner > 0,
        outer * inner <= usize::MAX,
        flat.len() == outer * len * inner,
        len > 0 || kind.has_empty_value(),
    ensures
        r.len() == outer * inner,
        forall|q: int|
            0 <= q < r.len() ==> kind.gives(
                column(flat@, q, len as int, inner as int),
                #[trigger] r@[q],
            ),
{
    let total: usize = outer * inner;
    let mut results: Vec<E> = Vec::with_capacity(total);
    let mut q: usize = 0;
    while q < total
        invariant
            0 <= q <= total,
            inner > 0,
            total == outer * inner,
            flat.len() == outer * len * inner,
            len > 0 || kind.has_empty_value(),
            results.len() == q,
            forall|k: int|
                0 <= k < q ==> kind.gives(
                    column(flat@, k, len as int, inner as int),
                    #[trigger] results@[k],
                ),
        decreases total - q,
    {
        let one = column_values(flat, outer, len, inner, q);
        results.push(kind.reduce_known(one.as_slice()));
        q = q + 1;
    }
    results
}

/// Reduces every column of a stack of planes; single-column planes are rows.
fn reduce_planes<E: Elem>(
    flat: &[E],
    outer: usize,
    len: usize,
    inner: usize,
    kind: ReduceKind,
) -> (r: Vec<E>)
    requires
        inner > 0,
        outer * inner <= usize::MAX,
        flat.len() == outer * len * inner,
        len > 0 || kind.has_empty_value(),
    ensures
        r.len() == outer * inner,
        forall|q: int|
            0 <= q < r.len() ==> kind.gives(
                column(flat@, q, len as int, inner as int),
                #[trigger] r@[q],
            ),
{
    if inner == 1 {
        assert(outer * len * inner == outer * len && outer * inner == outer) by (nonlinear_arith)
            requires
                inner == 1,
        ;
        reduce_strips(flat, outer, len, kind)
    } else {
        reduce_columns(flat, outer, len, inner, kind)
    }
}

/// A strip is a column of the flat data.
pub(crate) proof fn lemma_strip_column<E>(t: Tensor<E>, d: int, rest: Seq<int>, q: int)
    requires
        0 <= d < t.dims().len(),
        in_shape(rest, t.dims().remove(d)),
        q == ravel(rest, t.dims().remove(d)),
    ensures
        strip(t, d, rest) == column(
            t.data(),
            q,
            t.dims()[d] as int,
            product(t.dims().skip(d + 1)) as int,
        ),
        0 <= q < product(t.dims().take(d)) * product(t.dims().skip(d + 1)),
{
    let dims = t.dims();
    let cut = dims.remove(d);
    let len = dims[d] as int;
    let inner = product(dims.skip(d + 1)) as int;
    lemma_ravel(rest, cut);
    let a = rest.take(d);
    let b = rest.skip(d);
    assert(rest =~= a + b);
    assert(cut =~= dims.take(d) + dims.skip(d + 1));
    lemma_ravel_concat(a, b, dims.take(d), dims.skip(d + 1));
    lemma_product_concat(dims.take(d), dims.skip(d + 1));
    let o = ravel(a, dims.take(d));
    let i = ravel(b, dims.skip(d + 1));
    assert(in_shape(b, dims.skip(d + 1))) by {
        assert forall|j: int| 0 <= j < b.len() implies 0 <= #[trigger] b[j] < dims.skip(d + 1)[j] by {
            assert(0 <= rest[d + j] < cut[d + j]);
        }
    }
    lemma_ravel(b, dims.skip(d + 1));
    lemma_fundamental_div_mod_converse(q, inner, o, i);
    assert forall|s: int| 0 <= s < len implies strip(t, d, rest)[s] == #[trigger] column(
        t.data(),
        q,
        len,
        inner,
    )[s] by {
        let full = rest.insert(d, s);
        lemma_in_shape_insert(rest, dims, d, s);
        lemma_ravel_split(full, dims, d);
        assert(full.take(d) =~= a);
        assert(full.skip(d + 1) =~= b);
        assert(full[d] == s);
        t.lemma_at(full);
    }
    assert(strip(t, d, rest) =~= column(t.data(), q, len, inner));
}

/// The place of a reduced element among the other dimensions.
pub open spec fn rest_of(idx: Seq<int>, d: int, keepdim: bool) -> Seq<int> {
    if keepdim {
        idx.remove(d)
    } else {
        idx
    }
}

/// Keeping the reduced dimension does not move any result.
pub(crate) proof fn lemma_rest_of(idx: Seq<int>, dims: Seq<usize>, d: int, keepdim: bool)
    requires
        0 <= d < dims.len(),
        in_shape(idx, reduced_dims(dims, d, keepdim)),
    ensures
        in_shape(rest_of(idx, d, keepdim), dims.remove(d)),
        ravel(rest_of(idx, d, keepdim), dims.remove(d)) == ravel(
            idx,
            reduced_dims(dims, d, keepdim),
        ),
{
    let rest = rest_of(idx, d, keepdim);
    let cut = dims.remove(d);
    let shape = reduced_dims(dims, d, keepdim);
    if keepdim {
        assert(0 <= idx[d] < shape[d]);
        assert forall|j: int| 0 <= j < cut.len() implies 0 <= #[trigger] rest[j] < cut[j] by {
            let k = if j < d {
                j
            } else {
                j + 1
            };
            assert(0 <= idx[k] < shape[k]);
        }
        lemma_ravel_split(idx, shape, d);
        assert(shape.take(d) =~= dims.take(d));
        assert(shape.skip(d + 1) =~= dims.skip(d + 1));
        let a = rest.take(d);
        let b = rest.skip(d);
        assert(rest =~= a + b);
        assert(cut =~= dims.take(d) + dims.skip(d + 1));
        lemma_ravel_concat(a, b, dims.take(d), dims.skip(d + 1));
        assert(idx.take(d) =~= a);
        assert(idx.skip(d + 1) =~= b);
        let o = ravel(a, dims.take(d));
        assert(o * 1 + 0 == o);
    }
}

impl<E: Elem> Tensor<E> {
    /// Reduces along `dim` (negative dims count from the end).
    ///
    /// With `keepdim=false` the reduced dim is removed; with `keepdim=true`
    /// it becomes 1. Index reductions give the place as an element.
    ///
    /// Fails with [`OxitorchError::InvalidArgument`] for out-of-range dims or
    /// reducing min/max/arg* over a zero-length dim.
    pub fn reduce(&self, kind: ReduceKind, dim: i64, keepdim: bool) -> (r: OxitorchResult<Self>)
        ensures
            match r {
                Ok(t) => reduce_error(self.dims(), kind, dim as int, keepdim) is None
                    && reduce_result(
                    *self,
                    kind,
                    resolve_dim(dim as int, self.dims().len() as int),
                    keepdim,
                    t,
                ),
                Err(e) => reduce_error(self.dims(), kind, dim as int, keepdim) == Some(e@),
            },
    {
        let d: usize = match normalize_dim(dim, self.ndim()) {
            Ok(d) => d,
            Err(e) => {
                return Err(e);
            },
        };
        self.reduce_axis(kind, d, keepdim)
    }

    /// Reduces along dimension `d`.
    pub(crate) fn reduce_axis(&self, kind: ReduceKind, d: usize, keepdim: bool) -> (r:
        OxitorchResult<Self>)
        requires
            d < self.dims().len(),
        ensures
            match r {
                Ok(t) => reduce_error(self.dims(), kind, d as int, keepdim) is None
                    && reduce_result(*self, kind, d as int, keepdim, t),
                Err(e) => reduce_error(self.dims(), kind, d as int, keepdim) == Some(e@),
            },
    {
        let len: usize = self.shape()[d];
        if len == 0 && kind.is_index_output() {
            return Err(
                OxitorchError::InvalidArgument(
                    "cannot compute argmax/argmin over a zero-length dim".to_string(),
                ),
            );
        }
        if len == 0 && !kind.allows_empty() {
            return Err(
                OxitorchError::InvalidArgument(
                    "cannot compute max/min over a zero-length dim".to_string(),
                ),
            );
        }
        let ghost dims = self.dims();
        let ghost di = d as int;
        let mut shape = copy_dims(self.shape());
        if keepdim {
            shape[d] = 1;
            assert(shape@ =~= reduced_dims(dims, di, keepdim));
        } else {
            let _ = shape.remove(d);
            assert(shape@ =~= reduced_dims(dims, di, keepdim));
        }
        if !has_count(shape.as_slice()) {
            return Err(overflow(dims_string(shape.as_slice())));
        }
        Ok(self.reduce_cells(kind, d, keepdim, shape.as_slice()))
    }

    /// The reduction of every strip along dimension `d`.
    fn reduce_cells(&self, kind: ReduceKind, d: usize, keepdim: bool, shape: &[usize]) -> (t: Self)
        requires
            d < self.dims().len(),
            shape@ == reduced_dims(self.dims(), d as int, keepdim),
            product(shape@) <= usize::MAX,
            self.dims()[d as int] > 0 || kind.has_empty_value(),
        ensures
            reduce_result(*self, kind, d as int, keepdim, t),
    {
        proof {
            use_type_invariant(self);
            self.lemma_wf();
        }
        let ghost dims = self.dims();
        let ghost di = d as int;
        let total: usize = element_count(shape);
        if total == 0 {
            let t = Self::from_results(shape, Vec::new());
            proof {
                assert forall|idx: Seq<int>| in_shape(idx, t.dims()) implies kind.gives(
                    strip(*self, di, rest_of(idx, di, keepdim)),
                    #[trigger] t.at(idx),
                ) by {
                    lemma_ravel(idx, t.dims());
                }
            }
            return t;
        }
        let len: usize = self.shape()[d];
        proof {
            lemma_product_split(dims, di);
            assert(dims.remove(di) =~= dims.take(di) + dims.skip(di + 1));
            lemma_product_concat(dims.take(di), dims.skip(di + 1));
            lemma_product_update(dims, di, 1);
            assert(total == product(dims.remove(di)));
            let a = product(dims.take(di)) as int;
            let b = product(dims.skip(di + 1)) as int;
            assert(a > 0 && b > 0 && a <= usize::MAX && b <= usize::MAX) by (nonlinear_arith)
                requires
                    a * b > 0,
                    a * b <= usize::MAX,
                    a >= 0,
                    b >= 0,
            ;
            assert(dims.subrange(0, di) =~= dims.take(di));
            assert(dims.subrange(di + 1, dims.len() as int) =~= dims.skip(di + 1));
        }
        let outer: usize = element_count(vstd::slice::slice_subrange(self.shape(), 0, d));
        let inner: usize = element_count(
            vstd::slice::slice_subrange(self.shape(), d + 1, self.ndim()),
        );
        let flat = self.to_vec();
        let results = reduce_planes(flat.as_slice(), outer, len, inner, kind);
        let ghost values = results@;
        let t = Self::from_results(shape, results);
        proof {
            assert forall|idx: Seq<int>| in_shape(idx, t.dims()) implies kind.gives(
                strip(*self, di, rest_of(idx, di, keepdim)),
                #[trigger] t.at(idx),
            ) by {
                let rest = rest_of(idx, di, keepdim);
                t.lemma_at(idx);
                lemma_rest_of(idx, dims, di, keepdim);
                let q = ravel(rest, dims.remove(di));
                lemma_strip_column(*self, di, rest, q);
                assert(values[q] == t.at(idx));
            }
        }
        t
    }

    /// The place of the winner of every strip along dimension `d`: of its
    /// largest element, or of its smallest.
    pub(crate) fn winners(&self, d: usize, largest: bool) -> (r: Vec<usize>)
        requires
            d < self.dims().len(),
            self.dims()[d as int] > 0,
        ensures
            are_winners(*self, d as int, largest, index_of(r@)),
            forall|q: int| 0 <= q < r.len() ==> #[trigger] r@[q] < self.dims()[d as int],
    {
        proof {
            use_type_invariant(self);
            self.lemma_wf();
        }
        let ghost dims = self.dims();
        let ghost di = d as int;
        let len: usize = self.shape()[d];
        let mut out: Vec<usize> = Vec::new();
        proof {
            lemma_product_split(dims, di);
            assert(dims.remove(di) =~= dims.take(di) + dims.skip(di + 1));
            lemma_product_concat(dims.take(di), dims.skip(di + 1));
            lemma_product_remove(dims, di);
        }
        if self.numel() == 0 {
            proof {
                assert(product(dims.remove(di)) == 0) by (nonlinear_arith)
                    requires
                        product(dims) == product(dims.remove(di)) * len,
                        product(dims) == 0,
                        len > 0,
                ;
            }
            return out;
        }
        let flat = self.to_vec();
        proof {
            lemma_product_tail(dims, di + 1);
            assert(dims.subrange(di + 1, dims.len() as int) =~= dims.skip(di + 1));
            let a = product(dims.take(di)) as int;
            let b = product(dims.skip(di + 1)) as int;
            assert(a <= usize::MAX && a * b <= usize::MAX) by (nonlinear_arith)
                requires
                    a * len * b <= usize::MAX,
                    len >= 1,
                    b >= 1,
                    a >= 0,
            ;
            assert(dims.subrange(0, di) =~= dims.take(di));
        }
        let outer: usize = element_count(vstd::slice::slice_subrange(self.shape(), 0, d));
        let inner: usize = element_count(
            vstd::slice::slice_subrange(self.shape(), d + 1, self.ndim()),
        );
        let total: usize = outer * inner;
        let mut q: usize = 0;
        while q < total
            invariant
                0 <= q <= total,
                inner > 0,
                len > 0,
                total == outer * inner,
                flat@ == self.data(),
                flat.len() == outer * len * inner,
                out.len() == q,
                forall|k: int|
                    0 <= k < q ==> is_winner(
                        column(self.data(), k, len as int, inner as int),
                        largest,
                        #[trigger] out@[k] as int,
                    ) && out@[k] < len,
            decreases total - q,
        {
            let one = column_values(flat.as_slice(), outer, len, inner, q);
            let best: usize = if largest {
                argmax_of(one.as_slice())
            } else {
                argmin_of(one.as_slice())
            };
            out.push(best);
            q = q + 1;
        }
        proof {
            assert forall|k: int| 0 <= k < index_of(out@).len() implies is_winner(
                column(self.data(), k, len as int, product(dims.skip(di + 1)) as int),
                largest,
                #[trigger] index_of(out@)[k],
            ) by {
                assert(index_of(out@)[k] == out@[k]);
            }
        }
        out
    }

    /// Full-tensor sum (a 0-d tensor). Zero for an empty tensor.
    pub fn sum_all(&self) -> (r: OxitorchResult<Self>)
        ensures
            match r {
                Ok(t) => t.dims().len() == 0 && t.contiguous_layout() && t.data().len() == 1
                    && is_sum(self.data(), t.data()[0]),
                Err(_) => false,
            },
    {
        let data = self.to_vec();
        Ok(Self::scalar(sum_of(data.as_slice())))
    }

    /// Full-tensor mean (a 0-d tensor): the sum divided by the count, also
    /// for an empty tensor.
    pub fn mean_all(&self) -> (r: OxitorchResult<Self>)
        ensures
            match r {
                Ok(t) => t.dims().len() == 0 && t.contiguous_layout() && t.data().len() == 1
                    && is_mean(self.data(), t.data()[0]),
                Err(_) => false,
            },
    {
        let data = self.to_vec();
        Ok(Self::scalar(mean_of(data.as_slice())))
    }

    /// A 0-d tensor.
    pub(crate) fn scalar(value: E) -> (r: Self)
        ensures
            r.dims() == Seq::<usize>::empty(),
            r.contiguous_layout(),
            r.data() == seq![value],
    {
        let dims: Vec<usize> = Vec::new();
        let values: Vec<E> = vec![value];
        proof {
            lemma_rank0(dims@);
            assert(dims@ =~= Seq::<usize>::empty());
            assert(values@ =~= seq![value]);
        }
        Self::from_results(dims.as_slice(), values)
    }

    /// Euclidean (L2) norm along `dim`.
    ///
    /// Fails as [`Tensor::reduce`] does.
    pub fn norm(&self, dim: i64, keepdim: bool) -> (r: OxitorchResult<Self>)
        ensures
            match r {
                Ok(t) => reduce_error(self.dims(), ReduceKind::Norm, dim as int, keepdim) is None
                    && reduce_result(
                    *self,
                    ReduceKind::Norm,
                    resolve_dim(dim as int, self.dims().len() as int),
                    keepdim,
                    t,
                ),
                Err(e) => reduce_error(self.dims(), ReduceKind::Norm, dim as int, keepdim)
                    == Some(e@),
            },
    {
        self.reduce(ReduceKind::Norm, dim, keepdim)
    }
}

} // verus!
