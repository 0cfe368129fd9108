//! Views: other windows on the same elements.

use std::sync::Arc;
use vstd::prelude::*;
use vstd::arithmetic::div_mod::*;
use vstd::arithmetic::mul::*;
use vstd::string::*;
use crate::elem::Elem;
use crate::error::{ErrorText, OxitorchError, OxitorchResult};
use crate::index::{
    dot, in_shape, index2, index_of, inverse, is_permutation, lemma_dot_nonnegative,
    lemma_dot_remove, lemma_in_shape_insert, lemma_inverse, lemma_permuted, lemma_product_remove,
    lemma_product_update, lemma_rank2, permuted, product, wrapping_product,
};
use crate::layout::{
    broadcast_index, broadcast_strides, copy_dims, dim_error, element_count, expanded_strides,
    expands_to, has_count, law_slice_selects_range, lemma_broadcast_index, mismatch_error,
    normalize_dim, normalize_slice, overflow, overflow_error, resolve_bound, resolve_dim,
    row_major_strides, slice_len, span_len,
};
use crate::tensor::{Tensor, lemma_rows_offset};
use crate::text::{
    dims_string, i64_string, int_text, ints, join3, join4, list_text, nat_text, signed_dims_string,
    signed_ints, usize_string,
};

verus! {

// ---- narrow and select ------------------------------------------------------

/// Why a dimension cannot be narrowed, if it cannot.
pub open spec fn narrow_error(ndim: int, dim: int, by: int) -> Option<ErrorText> {
    if !(0 <= resolve_dim(dim, ndim) < ndim) {
        Some(dim_error(dim, ndim))
    } else if by <= 0 {
        Some(ErrorText::InvalidArgument("negative slice steps are not supported yet"@))
    } else {
        None
    }
}

/// The end of a slice: the resolved bound, but not before the start.
pub open spec fn slice_stop(len: int, lo: int, hi: int) -> int {
    if resolve_bound(len, hi) < resolve_bound(len, lo) {
        resolve_bound(len, lo)
    } else {
        resolve_bound(len, hi)
    }
}

/// The length that narrowing leaves.
pub open spec fn narrow_len(len: int, lo: int, hi: int, by: int) -> int {
    span_len(resolve_bound(len, lo), slice_stop(len, lo, hi), by)
}

/// Where index `idx` of a narrowed tensor lies in the whole one.
pub open spec fn narrow_source(idx: Seq<int>, d: int, start: int, by: int) -> Seq<int> {
    idx.update(d, start + idx[d] * by)
}

/// The complaint about an index out of range along a dimension.
pub open spec fn index_error(index: int, dim: int, len: int) -> ErrorText {
    ErrorText::OutOfBounds(
        "index "@ + int_text(index) + " out of range for dim "@ + nat_text(dim as nat)
            + " of size "@ + nat_text(len as nat),
    )
}

/// Why an index cannot be selected, if it cannot.
pub open spec fn select_error(dims: Seq<usize>, dim: int, index: int) -> Option<ErrorText> {
    let ndim = dims.len() as int;
    let d = resolve_dim(dim, ndim);
    if !(0 <= d < ndim) {
        Some(dim_error(dim, ndim))
    } else if !(0 <= resolve_dim(index, dims[d] as int) < dims[d]) {
        Some(index_error(resolve_dim(index, dims[d] as int), d, dims[d] as int))
    } else {
        None
    }
}

pub(crate) fn out_of_range(index: i64, dim: usize, len: usize) -> (r: OxitorchError)
    ensures
        r@ == index_error(index as int, dim as int, len as int),
{
    let mut m = join4(
        "index ",
        i64_string(index).as_str(),
        " out of range for dim ",
        usize_string(dim).as_str(),
    );
    m.append(" of size ");
    m.append(usize_string(len).as_str());
    OxitorchError::OutOfBounds(m)
}

// ---- reshape ------------------------------------------------------------------

/// How many dimensions are left to infer.
pub open spec fn inferred_count(new_shape: Seq<i64>) -> nat
    decreases new_shape.len(),
{
    if new_shape.len() == 0 {
        0
    } else {
        inferred_count(new_shape.drop_last()) + if new_shape.last() == -1 {
            1nat
        } else {
            0nat
        }
    }
}

/// The first dimension below -1, if there is one.
pub open spec fn first_invalid(new_shape: Seq<i64>) -> Option<i64>
    decreases new_shape.len(),
{
    if new_shape.len() == 0 {
        None
    } else if first_invalid(new_shape.drop_last()) is Some {
        first_invalid(new_shape.drop_last())
    } else if new_shape.last() < -1 {
        Some(new_shape.last())
    } else {
        None
    }
}

/// The requested dimensions, with 1 in place of an inferred one.
pub open spec fn known_dims(new_shape: Seq<i64>) -> Seq<usize> {
    Seq::new(
        new_shape.len(),
        |i: int|
            if new_shape[i] == -1 {
                1
            } else {
                new_shape[i] as usize
            },
    )
}

/// Every dimension is a machine size.
pub open spec fn sizes_representable(new_shape: Seq<i64>) -> bool {
    forall|i: int| 0 <= i < new_shape.len() ==> #[trigger] new_shape[i] <= usize::MAX
}

/// The place of an inferred dimension.
pub open spec fn inferred_place(new_shape: Seq<i64>) -> int {
    choose|i: int| 0 <= i < new_shape.len() && new_shape[i] == -1
}

/// The dimensions that `numel` elements take in a requested shape, if the
/// shape can hold exactly that many.
pub open spec fn reshape_dims(numel: nat, new_shape: Seq<i64>) -> Option<Seq<usize>> {
    let known = known_dims(new_shape);
    let n = product(known);
    if !sizes_representable(new_shape) {
        None
    } else if inferred_count(new_shape) == 0 {
        if n == numel {
            Some(known)
        } else {
            None
        }
    } else if n > 0 && numel % n == 0 {
        Some(known.update(inferred_place(new_shape), (numel / n) as usize))
    } else {
        None
    }
}

/// Why `numel` elements cannot take a requested shape, if they cannot.
pub open spec fn reshape_error(numel: nat, new_shape: Seq<i64>) -> Option<ErrorText> {
    if inferred_count(new_shape) > 1 {
        Some(ErrorText::InvalidArgument("can only infer one dimension with -1"@))
    } else if first_invalid(new_shape) is Some {
        Some(
            ErrorText::InvalidArgument(
                "invalid dimension "@ + int_text(first_invalid(new_shape)->0 as int)
                    + " in reshape"@,
            ),
        )
    } else if reshape_dims(numel, new_shape) is None {
        Some(
            ErrorText::InvalidArgument(
                "cannot reshape "@ + nat_text(numel) + " elements into shape "@ + list_text(
                    signed_ints(new_shape),
                ),
            ),
        )
    } else {
        None
    }
}

/// `t` holds the elements of `src` in the requested shape.
pub open spec fn reshape_result<E>(src: Tensor<E>, new_shape: Seq<i64>, t: Tensor<E>) -> bool {
    &&& reshape_dims(src.count(), new_shape) == Some(t.dims())
    &&& t.contiguous_layout()
    &&& t.data() == src.data()
}

pub(crate) proof fn lemma_inferred_none(new_shape: Seq<i64>)
    ensures
        inferred_count(new_shape) == 0 <==> (forall|i: int|
            0 <= i < new_shape.len() ==> #[trigger] new_shape[i] != -1),
    decreases new_shape.len(),
{
    if new_shape.len() > 0 {
        let init = new_shape.drop_last();
        lemma_inferred_none(init);
        assert(forall|i: int| 0 <= i < init.len() ==> init[i] == new_shape[i]);
        if inferred_count(new_shape) == 0 {
            assert forall|i: int| 0 <= i < new_shape.len() implies #[trigger] new_shape[i] != -1 by {
                if i < init.len() {
                    assert(init[i] != -1);
                }
            }
        }
        if forall|i: int| 0 <= i < new_shape.len() ==> #[trigger] new_shape[i] != -1 {
            assert forall|i: int| 0 <= i < init.len() implies #[trigger] init[i] != -1 by {
                assert(new_shape[i] != -1);
            }
            assert(new_shape[new_shape.len() - 1] != -1);
        }
    }
}

/// A shape without negative dimensions has nothing to infer or reject.
pub proof fn lemma_no_inferred(new_shape: Seq<i64>)
    requires
        forall|i: int| 0 <= i < new_shape.len() ==> 0 <= #[trigger] new_shape[i],
    ensures
        inferred_count(new_shape) == 0,
        first_invalid(new_shape) is None,
    decreases new_shape.len(),
{
    if new_shape.len() > 0 {
        let init = new_shape.drop_last();
        assert forall|i: int| 0 <= i < init.len() implies 0 <= #[trigger] init[i] by {
            assert(0 <= new_shape[i]);
        }
        lemma_no_inferred(init);
        assert(0 <= new_shape[new_shape.len() - 1]);
    }
}

proof fn lemma_inferred_single(new_shape: Seq<i64>, i: int, j: int)
    requires
        inferred_count(new_shape) <= 1,
        0 <= i < new_shape.len(),
        0 <= j < new_shape.len(),
        new_shape[i] == -1,
        new_shape[j] == -1,
    ensures
        i == j,
    decreases new_shape.len(),
{
    let init = new_shape.drop_last();
    lemma_inferred_none(init);
    if i < init.len() {
        assert(init[i] == -1);
    }
    if j < init.len() {
        assert(init[j] == -1);
    }
    if i < init.len() && j < init.len() {
        lemma_inferred_single(init, i, j);
    }
}

/// What a first look at the requested dimensions gives: how many are
/// inferred, and the first that is invalid.
fn scan_request(new_shape: &[i64]) -> (r: (usize, Option<i64>))
    ensures
        r.0 == inferred_count(new_shape@),
        r.1 == first_invalid(new_shape@),
{
    let mut count: usize = 0;
    let mut invalid: Option<i64> = None;
    let mut i: usize = 0;
    while i < new_shape.len()
        invariant
            0 <= i <= new_shape.len(),
            count <= i,
            count == inferred_count(new_shape@.take(i as int)),
            invalid == first_invalid(new_shape@.take(i as int)),
        decreases new_shape.len() - i,
    {
        let d: i64 = new_shape[i];
        if d == -1 {
            count = count + 1;
        } else if d < -1 && invalid.is_none() {
            invalid = Some(d);
        }
        i = i + 1;
        assert(new_shape@.take(i as int).drop_last() =~= new_shape@.take(i - 1));
    }
    assert(new_shape@.take(i as int) =~= new_shape@);
    (count, invalid)
}

/// The requested dimensions with 1 for an inferred one, the place of the
/// inferred one, and whether all are machine sizes.
fn known_request(new_shape: &[i64]) -> (r: (Vec<usize>, Option<usize>, bool))
    requires
        inferred_count(new_shape@) <= 1,
        first_invalid(new_shape@) is None,
    ensures
        r.0@ == known_dims(new_shape@),
        r.2 == sizes_representable(new_shape@),
        match r.1 {
            Some(i) => inferred_count(new_shape@) == 1 && i == inferred_place(new_shape@) && i
                < new_shape.len() && new_shape@[i as int] == -1,
            None => inferred_count(new_shape@) == 0,
        },
{
    let mut dims: Vec<usize> = Vec::with_capacity(new_shape.len());
    let mut place: Option<usize> = None;
    let mut fits = true;
    let mut i: usize = 0;
    while i < new_shape.len()
        invariant
            0 <= i <= new_shape.len(),
            dims@ == known_dims(new_shape@).take(i as int),
            fits == (forall|j: int| 0 <= j < i ==> #[trigger] new_shape@[j] <= usize::MAX),
            match place {
                Some(p) => p < i && new_shape@[p as int] == -1,
                None => forall|j: int| 0 <= j < i ==> #[trigger] new_shape@[j] != -1,
            },
        decreases new_shape.len() - i,
    {
        let d: i64 = new_shape[i];
        if d == -1 {
            place = Some(i);
            dims.push(1);
        } else {
            if d >= 0 && d as u64 > usize::MAX as u64 {
                fits = false;
            }
            dims.push(#[verifier::truncate] (d as usize));
        }
        i = i + 1;
        let ghost all = known_dims(new_shape@);
        assert(all.take(i as int) =~= all.take(i - 1).push(all[i - 1]));
    }
    assert(dims@ =~= known_dims(new_shape@));
    proof {
        lemma_inferred_none(new_shape@);
        if place is Some {
            let p = place->0 as int;
            assert(new_shape@[p] == -1);
            let q = inferred_place(new_shape@);
            lemma_inferred_single(new_shape@, p, q);
        }
    }
    (dims, place, fits)
}

// ---- permute ------------------------------------------------------------------

/// A dimension order with negative entries counted from the end.
pub open spec fn resolved_order(order: Seq<i64>) -> Seq<int> {
    Seq::new(order.len(), |i: int| resolve_dim(order[i] as int, order.len() as int))
}

/// The first complaint about a dimension order, from entry `k` on.
pub open spec fn order_error(order: Seq<i64>, k: int) -> Option<ErrorText>
    decreases order.len() - k,
{
    let n = order.len() as int;
    if k < 0 || k >= n {
        None
    } else if !(0 <= resolved_order(order)[k] < n) {
        Some(dim_error(order[k] as int, n))
    } else if exists|j: int| 0 <= j < k && resolved_order(order)[j] == resolved_order(order)[k] {
        Some(
            ErrorText::InvalidArgument(
                "repeated dim "@ + int_text(order[k] as int) + " in permute"@,
            ),
        )
    } else {
        order_error(order, k + 1)
    }
}

/// Why the dimensions cannot be put in an order, if they cannot.
pub open spec fn permute_error(ndim: int, order: Seq<i64>) -> Option<ErrorText> {
    if order.len() != ndim {
        Some(
            ErrorText::InvalidArgument(
                "permute expects "@ + nat_text(ndim as nat) + " dims, got "@ + nat_text(
                    order.len(),
                ),
            ),
        )
    } else {
        order_error(order, 0)
    }
}

/// `t` is `src` with its dimensions in the order `perm`.
pub open spec fn permute_result<E>(src: Tensor<E>, perm: Seq<int>, t: Tensor<E>) -> bool {
    &&& perm.len() == src.dims().len()
    &&& is_permutation(perm)
    &&& t.dims() == permuted(src.dims(), perm)
    &&& t.steps() == permuted(src.steps(), perm)
    &&& forall|idx: Seq<int>|
        #![trigger t.at(idx)]
        #![trigger in_shape(idx, t.dims())]
        in_shape(idx, t.dims()) ==> in_shape(permuted(idx, inverse(perm)), src.dims()) && t.at(idx)
            == src.at(permuted(idx, inverse(perm)))
}

/// The element at `idx` moves to the permuted index.
pub proof fn lemma_permute_moves<E>(src: Tensor<E>, perm: Seq<int>, t: Tensor<E>, idx: Seq<int>)
    requires
        permute_result(src, perm, t),
        in_shape(idx, src.dims()),
    ensures
        in_shape(permuted(idx, perm), t.dims()),
        t.at(permuted(idx, perm)) == src.at(idx),
{
    lemma_inverse(perm);
    let out = permuted(idx, perm);
    let inv = inverse(perm);
    assert forall|k: int| 0 <= k < perm.len() implies 0 <= #[trigger] out[k] < t.dims()[k] by {
        assert(0 <= idx[perm[k]] < src.dims()[perm[k]]);
    }
    assert forall|v: int| 0 <= v < perm.len() implies permuted(out, inv)[v] == #[trigger] idx[v] by {
        assert(perm[inv[v]] == v);
    }
    assert(permuted(out, inv) =~= idx);
    assert(t.at(out) == src.at(permuted(out, inv)));
}

/// `t` is the transpose of the matrix `src`.
pub open spec fn transpose_result<E>(src: Tensor<E>, t: Tensor<E>) -> bool {
    &&& src.dims().len() == 2
    &&& t.dims() == seq![src.dims()[1], src.dims()[0]]
    &&& t.steps() == seq![src.steps()[1], src.steps()[0]]
    &&& forall|i: int, j: int|
        0 <= i < src.dims()[1] && 0 <= j < src.dims()[0] ==> #[trigger] t.at(index2(i, j))
            == src.at(index2(j, i))
}

/// `t` is the slice `start`, `start + by`, ... of `src` along dimension `d`,
/// `len` long.
pub open spec fn narrow_result<E>(
    src: Tensor<E>,
    d: int,
    start: int,
    by: int,
    len: int,
    t: Tensor<E>,
) -> bool {
    &&& t.dims() == src.dims().update(d, len as usize)
    &&& t.dims()[d] == len
    &&& forall|idx: Seq<int>|
        #![trigger t.at(idx)]
        #![trigger in_shape(idx, t.dims())]
        in_shape(idx, t.dims()) ==> in_shape(narrow_source(idx, d, start, by), src.dims())
            && t.at(idx) == src.at(narrow_source(idx, d, start, by))
}

// ---- broadcast ----------------------------------------------------------------

/// Why a tensor cannot be expanded, if it cannot.
pub open spec fn expand_error(dims: Seq<usize>, out: Seq<usize>) -> Option<ErrorText> {
    if !expands_to(dims, out) {
        Some(mismatch_error(dims, out))
    } else if product(out) > usize::MAX {
        Some(overflow_error(ints(out)))
    } else {
        None
    }
}

/// `t` shows entry `x` of dimension `d`, without that dimension.
pub open spec fn select_result<E>(src: Tensor<E>, d: int, x: int, t: Tensor<E>) -> bool {
    &&& t.dims() == src.dims().remove(d)
    &&& t.steps() == src.steps().remove(d)
    &&& forall|idx: Seq<int>|
        #![trigger t.at(idx)]
        #![trigger in_shape(idx, t.dims())]
        in_shape(idx, t.dims()) ==> in_shape(idx.insert(d, x), src.dims()) && t.at(idx) == src.at(
            idx.insert(d, x),
        )
}

/// The complaint about a tensor that has no transpose.
pub open spec fn transpose_error() -> ErrorText {
    ErrorText::InvalidArgument("transpose() expects a 2-D tensor; use permute for other ranks"@)
}

impl<E> Tensor<E> {
    /// Narrows one dim: `lo`, `hi`, `by` follow Python slice rules
    /// (negative values count from the end). Always returns a view.
    ///
    /// Fails with [`OxitorchError::InvalidArgument`] for `by <= 0` or a bad
    /// dim.
    pub fn narrow(&self, dim: i64, lo: i64, hi: i64, by: i64) -> (r: OxitorchResult<Self>)
        ensures
            match r {
                Ok(t) => {
                    let ndim = self.dims().len() as int;
                    let d = resolve_dim(dim as int, ndim);
                    let len = self.dims()[d] as int;
                    let start = resolve_bound(len, lo as int);
                    &&& narrow_error(ndim, dim as int, by as int) is None
                    &&& narrow_result(
                        *self,
                        d,
                        start,
                        by as int,
                        narrow_len(len, lo as int, hi as int, by as int),
                        t,
                    )
                    &&& t.buffer() == self.buffer()
                },
                Err(e) => narrow_error(self.dims().len() as int, dim as int, by as int) == Some(
                    e@,
                ),
            },
    {
        proof {
            use_type_invariant(self);
        }
        let d: usize = match normalize_dim(dim, self.ndim()) {
            Ok(d) => d,
            Err(e) => {
                return Err(e);
            },
        };
        if by <= 0 {
            return Err(
                OxitorchError::InvalidArgument(
                    "negative slice steps are not supported yet".to_string(),
                ),
            );
        }
        let len: usize = self.shape[d];
        let (low, stop, step) = match normalize_slice(len, lo, hi, by) {
            Ok(v) => v,
            Err(e) => {
                return Err(e);
            },
        };
        let new_len: usize = slice_len(low, stop, step);
        let mut shape = copy_dims(self.shape.as_slice());
        let mut strides = copy_dims(self.strides.as_slice());
        shape[d] = new_len;
        strides[d] = wrapping_product(strides[d], step);
        let skipped: usize = wrapping_product(low, self.strides[d]);
        let offset: usize = self.offset.wrapping_add(skipped);
        proof {
            assert(shape@ =~= self.shape@.update(d as int, new_len));
            lemma_span_step(low as int, stop as int, by as int, step as int);
            if new_len > 0 {
                law_slice_selects_range(low as int, stop as int, by as int, 0);
            }
            assert(new_len <= len) by {
                if new_len > 0 {
                    law_slice_selects_range(low as int, stop as int, by as int, new_len - 1);
                    assert((new_len - 1) * by >= new_len - 1) by (nonlinear_arith)
                        requires
                            by >= 1,
                            new_len >= 1,
                    ;
                }
            }
            lemma_product_update(self.shape@, d as int, new_len);
            assert forall|idx: Seq<int>| #[trigger] in_shape(idx, shape@) implies offset + dot(
                idx,
                strides@,
            ) < self.storage.len() && in_shape(
                narrow_source(idx, d as int, low as int, by as int),
                self.shape@,
            ) && offset + dot(idx, strides@) == self.offset + dot(
                narrow_source(idx, d as int, low as int, by as int),
                self.strides@,
            ) by {
                let src = narrow_source(idx, d as int, low as int, by as int);
                let di = d as int;
                let x = idx[di];
                assert(0 <= x < new_len);
                law_slice_selects_range(low as int, stop as int, by as int, x);
                lemma_mul_nonnegative(x, by as int);
                assert forall|i: int| 0 <= i < self.shape@.len() implies 0 <= #[trigger] src[i]
                    < self.shape@[i] by {
                    assert(0 <= idx[i] < shape@[i]);
                }
                lemma_dot_remove(idx, strides@, di);
                lemma_dot_remove(src, self.strides@, di);
                assert(src.remove(di) =~= idx.remove(di));
                assert(strides@.remove(di) =~= self.strides@.remove(di));
                let s = self.strides@[di] as int;
                assert forall|i: int| 0 <= i < src.remove(di).len() implies 0
                    <= #[trigger] src.remove(di)[i] by {
                    let j = if i < di {
                        i
                    } else {
                        i + 1
                    };
                    assert(0 <= src[j]);
                }
                lemma_dot_nonnegative(src.remove(di), self.strides@.remove(di));
                assert(in_shape(src, self.shape@));
                // The element exists, so neither offset nor stride wrapped.
                let rest = dot(src.remove(di), self.strides@.remove(di));
                assert(self.offset + rest + (low + x * by) * s < self.storage.len());
                assert((low + x * by) * s == low * s + x * by * s) by (nonlinear_arith);
                lemma_mul_nonnegative(low as int, s);
                lemma_mul_nonnegative(x * by, s);
                assert(low * s <= usize::MAX);
                assert(skipped == low * s);
                assert(offset == self.offset + low * s);
                if x > 0 {
                    assert(by * s <= x * by * s) by (nonlinear_arith)
                        requires
                            x >= 1,
                            by >= 1,
                            s >= 0,
                    ;
                    assert(x * (s * by) == x * by * s) by (nonlinear_arith);
                    assert(step == by) by {
                        assert(by <= x * by) by (nonlinear_arith)
                            requires
                                x >= 1,
                                by >= 1,
                        ;
                    }
                    assert(s * step == by * s) by (nonlinear_arith)
                        requires
                            step == by,
                    ;
                    assert(s * step <= usize::MAX);
                    assert(strides@[di] == s * by);
                } else {
                    assert(x * strides@[di] == 0 && x * by * s == 0) by (nonlinear_arith)
                        requires
                            x == 0,
                    ;
                }
                assert(idx[di] * strides@[di] == x * by * s);
            }
        }
        Ok(
            Tensor {
                storage: Arc::clone(&self.storage),
                offset,
                shape: Arc::new(shape),
                strides: Arc::new(strides),
            },
        )
    }

    /// Selects one index along `dim`, dropping the dim (a view).
    ///
    /// Fails with [`OxitorchError::OutOfBounds`] if the index is out of
    /// range.
    pub fn select(&self, dim: i64, index: i64) -> (r: OxitorchResult<Self>)
        ensures
            match r {
                Ok(t) => {
                    let d = resolve_dim(dim as int, self.dims().len() as int);
                    let x = resolve_dim(index as int, self.dims()[d] as int);
                    &&& select_error(self.dims(), dim as int, index as int) is None
                    &&& select_result(*self, d, x, t)
                    &&& t.buffer() == self.buffer()
                },
                Err(e) => select_error(self.dims(), dim as int, index as int) == Some(e@),
            },
    {
        proof {
            use_type_invariant(self);
        }
        let d: usize = match normalize_dim(dim, self.ndim()) {
            Ok(d) => d,
            Err(e) => {
                return Err(e);
            },
        };
        let len: usize = self.shape[d];
        let at: i128 = if index < 0 {
            len as i128 + index as i128
        } else {
            index as i128
        };
        if at < 0 || at >= len as i128 {
            return Err(out_of_range(at as i64, d, len));
        }
        let x: usize = at as usize;
        let mut shape = copy_dims(self.shape.as_slice());
        let mut strides = copy_dims(self.strides.as_slice());
        let _ = shape.remove(d);
        let _ = strides.remove(d);
        let skipped: usize = wrapping_product(x, self.strides[d]);
        let offset: usize = self.offset.wrapping_add(skipped);
        proof {
            let di = d as int;
            assert(shape@ =~= self.shape@.remove(di));
            assert(strides@ =~= self.strides@.remove(di));
            lemma_product_remove(self.shape@, di);
            assert(product(shape@) <= product(self.shape@)) by (nonlinear_arith)
                requires
                    product(self.shape@) == product(shape@) * len,
                    len >= 1,
            ;
            assert forall|idx: Seq<int>| #[trigger] in_shape(idx, shape@) implies offset + dot(
                idx,
                strides@,
            ) < self.storage.len() && in_shape(idx.insert(di, x as int), self.shape@) && offset
                + dot(idx, strides@) == self.offset + dot(
                idx.insert(di, x as int),
                self.strides@,
            ) by {
                let src = idx.insert(di, x as int);
                lemma_in_shape_insert(idx, self.shape@, di, x as int);
                lemma_dot_remove(src, self.strides@, di);
                assert forall|i: int| 0 <= i < idx.len() implies 0 <= #[trigger] idx[i] by {
                    assert(idx[i] < shape@[i]);
                }
                lemma_dot_nonnegative(idx, strides@);
                lemma_mul_nonnegative(x as int, self.strides@[di] as int);
                assert(src[di] == x);
                assert(self.offset + dot(idx, strides@) + x * self.strides@[di]
                    < self.storage.len());
                assert(skipped == x * self.strides@[di]);
            }
        }
        Ok(
            Tensor {
                storage: Arc::clone(&self.storage),
                offset,
                shape: Arc::new(shape),
                strides: Arc::new(strides),
            },
        )
    }

    /// Permutes dims according to `order` (a view, never a copy).
    ///
    /// Fails with [`OxitorchError::InvalidArgument`] if `order` is not a
    /// permutation of the tensor's dims.
    pub fn permute(&self, order: &[i64]) -> (r: OxitorchResult<Self>)
        ensures
            match r {
                Ok(t) => permute_error(self.dims().len() as int, order@) is None
                    && permute_result(*self, resolved_order(order@), t) && t.buffer()
                    == self.buffer(),
                Err(e) => permute_error(self.dims().len() as int, order@) == Some(e@),
            },
    {
        proof {
            use_type_invariant(self);
        }
        let n: usize = self.ndim();
        if order.len() != n {
            return Err(
                OxitorchError::InvalidArgument(
                    join4(
                        "permute expects ",
                        usize_string(n).as_str(),
                        " dims, got ",
                        usize_string(order.len()).as_str(),
                    ),
                ),
            );
        }
        let ghost perm = resolved_order(order@);
        let mut seen: Vec<bool> = vec![false; n];
        let mut shape: Vec<usize> = Vec::with_capacity(n);
        let mut strides: Vec<usize> = Vec::with_capacity(n);
        let mut i: usize = 0;
        while i < n
            invariant
                0 <= i <= n,
                n == order.len(),
                n == self.shape.len(),
                n == self.strides.len(),
                seen.len() == n,
                perm == resolved_order(order@),
                order_error(order@, 0) == order_error(order@, i as int),
                forall|j: int| 0 <= j < i ==> 0 <= #[trigger] perm[j] < n,
                forall|j: int, k: int| 0 <= j < k < i ==> #[trigger] perm[j] != #[trigger] perm[k],
                forall|v: int|
                    0 <= v < n ==> (#[trigger] seen@[v] <==> exists|j: int|
                        0 <= j < i && perm[j] == v),
                shape@ == permuted(self.shape@, perm).take(i as int),
                strides@ == permuted(self.strides@, perm).take(i as int),
            decreases n - i,
        {
            let d: usize = match normalize_dim(order[i], n) {
                Ok(d) => d,
                Err(e) => {
                    return Err(e);
                },
            };
            assert(perm[i as int] == d);
            if seen[d] {
                assert(exists|j: int| 0 <= j < i && perm[j] == d);
                return Err(
                    OxitorchError::InvalidArgument(
                        join3("repeated dim ", i64_string(order[i]).as_str(), " in permute"),
                    ),
                );
            }
            let ghost seen_before = seen@;
            seen[d] = true;
            shape.push(self.shape[d]);
            strides.push(self.strides[d]);
            i = i + 1;
            proof {
                assert forall|v: int| 0 <= v < n implies (#[trigger] seen@[v] <==> exists|j: int|
                    0 <= j < i && perm[j] == v) by {
                    if v == d {
                        assert(perm[i - 1] == v);
                    } else {
                        assert(seen@[v] == seen_before[v]);
                    }
                }
                let ps = permuted(self.shape@, perm);
                let pt = permuted(self.strides@, perm);
                assert(ps.take(i as int) =~= ps.take(i - 1).push(ps[i - 1]));
                assert(pt.take(i as int) =~= pt.take(i - 1).push(pt[i - 1]));
            }
        }
        proof {
            assert(shape@ =~= permuted(self.shape@, perm));
            assert(strides@ =~= permuted(self.strides@, perm));
            assert(is_permutation(perm));
            lemma_permuted(index_of(self.shape@), self.shape@, perm);
            lemma_inverse(perm);
            let inv = inverse(perm);
            assert forall|idx: Seq<int>| #[trigger] in_shape(idx, shape@) implies in_shape(
                permuted(idx, inv),
                self.shape@,
            ) && dot(idx, strides@) == dot(permuted(idx, inv), self.strides@) by {
                let src = permuted(idx, inv);
                assert forall|v: int| 0 <= v < n implies 0 <= #[trigger] src[v] < self.shape@[v] by {
                    assert(perm[inv[v]] == v);
                    assert(0 <= idx[inv[v]] < shape@[inv[v]]);
                }
                assert forall|k: int| 0 <= k < n implies permuted(src, perm)[k] == #[trigger] idx[k] by {
                    assert(inv[perm[k]] == k);
                }
                assert(permuted(src, perm) =~= idx);
                lemma_permuted(src, self.strides@, perm);
            }
        }
        Ok(
            Tensor {
                storage: Arc::clone(&self.storage),
                offset: self.offset,
                shape: Arc::new(shape),
                strides: Arc::new(strides),
            },
        )
    }

    /// 2-D transpose (a view).
    ///
    /// Fails with [`OxitorchError::InvalidArgument`] if the tensor is not
    /// 2-D.
    pub fn transpose(&self) -> (r: OxitorchResult<Self>)
        ensures
            match r {
                Ok(t) => transpose_result(*self, t) && t.buffer() == self.buffer(),
                Err(e) => self.dims().len() != 2 && e@ == transpose_error(),
            },
    {
        if self.ndim() != 2 {
            return Err(
                OxitorchError::InvalidArgument(
                    "transpose() expects a 2-D tensor; use permute for other ranks".to_string(),
                ),
            );
        }
        let order: Vec<i64> = vec![1, 0];
        let r = self.permute(order.as_slice());
        proof {
            let perm = resolved_order(order@);
            assert(perm =~= seq![1int, 0int]);
            assert(order_error(order@, 0) is None) by {
                reveal_with_fuel(order_error, 3);
            }
            let t = r->Ok_0;
            assert(t.dims() =~= seq![self.dims()[1], self.dims()[0]]);
            assert(t.steps() =~= seq![self.steps()[1], self.steps()[0]]);
            assert forall|i: int, j: int|
                0 <= i < self.dims()[1] && 0 <= j < self.dims()[0] implies #[trigger] t.at(
                index2(i, j),
            ) == self.at(index2(j, i)) by {
                lemma_rank2(self.dims(), j, i);
                assert(in_shape(index2(j, i), self.dims()));
                assert(permuted(index2(j, i), perm) =~= index2(i, j));
                lemma_permute_moves(*self, perm, t, index2(j, i));
            }
        }
        r
    }

    /// Expands the tensor to `out_shape` following broadcast rules. Returns a
    /// view with zero strides where broadcasting occurs.
    ///
    /// Fails with [`OxitorchError::ShapeMismatch`] if the current shape cannot
    /// broadcast to `out_shape`.
    pub fn broadcast_to(&self, out_shape: &[usize]) -> (r: OxitorchResult<Self>)
        ensures
            match r {
                Ok(t) => {
                    &&& expand_error(self.dims(), out_shape@) is None
                    &&& t.dims() == out_shape@
                    &&& t.steps() == expanded_strides(self.dims(), self.steps(), out_shape@)
                    &&& t.buffer() == self.buffer()
                    &&& forall|idx: Seq<int>|
                        #![trigger t.at(idx)]
                        #![trigger in_shape(idx, out_shape@)]
                        in_shape(idx, out_shape@) ==> in_shape(
                            broadcast_index(idx, self.dims()),
                            self.dims(),
                        ) && t.at(idx) == self.at(broadcast_index(idx, self.dims()))
                },
                Err(e) => expand_error(self.dims(), out_shape@) == Some(e@),
            },
    {
        proof {
            use_type_invariant(self);
        }
        let strides = match broadcast_strides(
            self.shape.as_slice(),
            self.strides.as_slice(),
            out_shape,
        ) {
            Ok(s) => s,
            Err(e) => {
                return Err(e);
            },
        };
        if !has_count(out_shape) {
            return Err(overflow(dims_string(out_shape)));
        }
        proof {
            assert forall|idx: Seq<int>| #[trigger] in_shape(idx, out_shape@) implies in_shape(
                broadcast_index(idx, self.shape@),
                self.shape@,
            ) && self.offset + dot(idx, strides@) < self.storage.len() && dot(idx, strides@)
                == dot(broadcast_index(idx, self.shape@), self.strides@) by {
                lemma_broadcast_index(idx, self.shape@, self.strides@, out_shape@);
            }
        }
        Ok(
            Tensor {
                storage: Arc::clone(&self.storage),
                offset: self.offset,
                shape: Arc::new(copy_dims(out_shape)),
                strides: Arc::new(strides),
            },
        )
    }
}

impl<E: Elem> Tensor<E> {
    /// Reshapes to `new_shape` (`-1` infers the missing dim). Returns a view
    /// of a contiguous tensor, otherwise a contiguous copy.
    ///
    /// Fails with [`OxitorchError::InvalidArgument`] if the element counts
    /// disagree or more than one `-1` is given.
    pub fn reshape(&self, new_shape: &[i64]) -> (r: OxitorchResult<Self>)
        ensures
            match r {
                Ok(t) => {
                    &&& reshape_error(self.count(), new_shape@) is None
                    &&& reshape_result(*self, new_shape@, t)
                    &&& self.contiguous_layout() ==> t.buffer() == self.buffer()
                },
                Err(e) => reshape_error(self.count(), new_shape@) == Some(e@),
            },
    {
        proof {
            use_type_invariant(self);
        }
        let (inferred, invalid) = scan_request(new_shape);
        if inferred > 1 {
            return Err(
                OxitorchError::InvalidArgument("can only infer one dimension with -1".to_string()),
            );
        }
        if let Some(d) = invalid {
            return Err(
                OxitorchError::InvalidArgument(
                    join3("invalid dimension ", i64_string(d).as_str(), " in reshape"),
                ),
            );
        }
        let numel: usize = self.numel();
        let (mut dims, place, fits) = known_request(new_shape);
        let ghost known_seq = dims@;
        let mut ok = false;
        if fits {
            match place {
                None => {
                    ok = has_count(dims.as_slice()) && element_count(dims.as_slice()) == numel;
                },
                Some(i) => {
                    if has_count(dims.as_slice()) {
                        let known: usize = element_count(dims.as_slice());
                        if known > 0 && numel % known == 0 {
                            dims[i] = numel / known;
                            ok = true;
                            proof {
                                let pl = i as int;
                                assert(dims@ =~= known_seq.update(pl, (numel / known) as usize));
                                lemma_product_remove(known_seq, pl);
                                assert(known_seq[pl] == 1);
                                lemma_product_update(known_seq, pl, (numel / known) as usize);
                                lemma_fundamental_div_mod(numel as int, known as int);
                                lemma_mul_is_commutative(known as int, numel as int / known as int);
                                assert(product(known_seq) == product(known_seq.remove(pl)) * 1);
                                assert(product(dims@) == numel);
                            }
                        }
                    } else if numel == 0 {
                        dims[i] = 0;
                        ok = true;
                        proof {
                            let pl = i as int;
                            let n = product(known_seq);
                            assert(numel as nat % n == 0 && numel as nat / n == 0) by {
                                lemma_small_mod(0, n);
                                lemma_basic_div(0, n as int);
                            }
                            assert(dims@ =~= known_seq.update(pl, 0));
                            lemma_product_update(known_seq, pl, 0);
                        }
                    } else {
                        proof {
                            lemma_small_mod(numel as nat, product(known_seq));
                        }
                    }
                },
            }
        }
        if !ok {
            return Err(
                OxitorchError::InvalidArgument(
                    join4(
                        "cannot reshape ",
                        usize_string(numel).as_str(),
                        " elements into shape ",
                        signed_dims_string(new_shape).as_str(),
                    ),
                ),
            );
        }
        if self.is_contiguous() {
            let strides = row_major_strides(dims.as_slice());
            proof {
                assert forall|idx: Seq<int>| #[trigger] in_shape(idx, dims@) implies self.offset
                    + dot(idx, strides@) < self.storage.len() by {
                    lemma_rows_offset(dims@, idx);
                    self.lemma_contiguous_data();
                }
            }
            let t = Tensor {
                storage: Arc::clone(&self.storage),
                offset: self.offset,
                shape: Arc::new(dims),
                strides: Arc::new(strides),
            };
            proof {
                if numel > 0 {
                    self.lemma_contiguous_data();
                    t.lemma_contiguous_data();
                }
                assert(t.data() =~= self.data());
            }
            return Ok(t);
        }
        Ok(Self::from_results(dims.as_slice(), self.to_vec()))
    }
}

/// Holding a step at the largest machine size selects the same positions.
proof fn lemma_span_step(lo: int, hi: int, by: int, step: int)
    requires
        by > 0,
        hi <= usize::MAX,
        0 <= lo,
        step == if by <= usize::MAX {
            by
        } else {
            usize::MAX as int
        },
    ensures
        span_len(lo, hi, by) == span_len(lo, hi, step),
{
    if by > usize::MAX && lo < hi {
        let w = hi - lo;
        lemma_fundamental_div_mod_converse(w + by - 1, by, 1, w - 1);
        lemma_fundamental_div_mod_converse(w + step - 1, step, 1, w - 1);
    }
}

} // verus!
