//! Dense, reference-counted, strided tensors.

pub mod access;
pub mod elementwise;
pub mod indexing;
pub mod laws;
pub mod matmul;
pub mod reduce;
pub mod show;
pub mod views;

use std::sync::Arc;
use vstd::prelude::*;
use vstd::arithmetic::div_mod::*;
use vstd::string::*;
use crate::elem::{Elem, copy_elems, is_one, is_zero};
use crate::error::{ErrorText, OxitorchError, OxitorchResult};
use crate::index::{
    dot, in_shape, index2, lemma_dot_nonnegative, lemma_dot_rows, lemma_product_tail, lemma_rank2,
    lemma_ravel, lemma_unravel, product, ravel, unravel,
};
use crate::iterate::{Operand, gathered, map_n, mapped};
use crate::layout::{
    broadcast_index, broadcast_of, broadcast_strides, broadcastable, copy_dims, element_count,
    expanded_strides, expands_to, is_contiguous, lemma_broadcast_index, mismatch_error, overflow,
    overflow_error, row_major_strides, shape_error, signed_dims, sizes_of, strides_of, to_signed,
    validate_shape,
};
use crate::text::{
    dims_string, ints, join4, list_text, nat_text, signed_dims_string, signed_ints, usize_string,
};
use crate::types::{DType, Device, DeviceType};

verus! {

/// A dense, reference-counted, strided tensor.
///
/// Storage is shared; clones and views refer to the same buffer.
pub struct Tensor<E> {
    storage: Arc<Vec<E>>,
    /// Offset of element (0, 0, ...) into the storage, in elements.
    offset: usize,
    shape: Arc<Vec<usize>>,
    strides: Arc<Vec<usize>>,
}

/// The complaint about a buffer whose length does not match its shape.
pub open spec fn buffer_error(shape: Seq<i64>, len: int) -> ErrorText {
    ErrorText::InvalidArgument(
        "shape "@ + list_text(signed_ints(shape)) + " implies "@ + nat_text(
            product(sizes_of(shape)),
        ) + " elements but the buffer holds "@ + nat_text(len as nat),
    )
}

/// Why `shape` and a buffer of `len` elements make no tensor, if they do not.
pub open spec fn from_buffer_error(shape: Seq<i64>, len: int) -> Option<ErrorText> {
    if shape_error(shape) is Some {
        shape_error(shape)
    } else if product(sizes_of(shape)) != len {
        Some(buffer_error(shape, len))
    } else {
        None
    }
}

/// Why two shapes cannot be combined elementwise, if they cannot.
pub open spec fn broadcast_error(a: Seq<usize>, b: Seq<usize>) -> Option<ErrorText> {
    if !broadcastable(a, b) {
        Some(mismatch_error(a, b))
    } else if product(broadcast_of(a, b)) > usize::MAX {
        Some(overflow_error(ints(broadcast_of(a, b))))
    } else {
        None
    }
}

/// Row-major strides place every element at its row-major position.
pub(crate) proof fn lemma_rows_offset(shape: Seq<usize>, idx: Seq<int>)
    requires
        in_shape(idx, shape),
        product(shape) <= usize::MAX,
    ensures
        dot(idx, strides_of(shape)) == ravel(idx, shape),
        0 <= ravel(idx, shape) < product(shape),
{
    lemma_ravel(idx, shape);
    let strides = strides_of(shape);
    assert forall|i: int| 0 <= i < shape.len() implies shape[i] == 1 || #[trigger] strides[i]
        == product(shape.skip(i + 1)) by {
        lemma_product_tail(shape, i + 1);
    }
    lemma_dot_rows(idx, shape, strides);
}

impl<E> Tensor<E> {
    /// The dimensions.
    pub closed spec fn dims(&self) -> Seq<usize> {
        self.shape@
    }

    /// The strides, in elements.
    pub closed spec fn steps(&self) -> Seq<usize> {
        self.strides@
    }

    /// The shared buffer behind the tensor.
    pub closed spec fn buffer(&self) -> Seq<E> {
        self.storage@
    }

    /// The element at a multi-index.
    pub closed spec fn at(&self, idx: Seq<int>) -> E {
        self.storage@[self.offset + dot(idx, self.strides@)]
    }

    /// The number of elements.
    pub open spec fn count(&self) -> nat {
        product(self.dims())
    }

    /// The elements in row-major order.
    pub open spec fn data(&self) -> Seq<E> {
        Seq::new(self.count(), |p: int| self.at(unravel(p, self.dims())))
    }

    /// Every index of the shape addresses an element of the buffer.
    #[verifier::type_invariant]
    pub closed spec fn wf(&self) -> bool {
        &&& self.shape.len() == self.strides.len()
        &&& product(self.shape@) <= usize::MAX
        &&& forall|idx: Seq<int>| #[trigger]
            in_shape(idx, self.shape@) ==> self.offset + dot(idx, self.strides@)
                < self.storage.len()
    }

    /// What every tensor satisfies, as seen from outside.
    pub proof fn lemma_wf(&self)
        requires
            self.wf(),
        ensures
            self.dims().len() == self.steps().len(),
            self.count() <= usize::MAX,
    {
    }

    /// An element by its row-major position.
    pub proof fn lemma_at(&self, idx: Seq<int>)
        requires
            in_shape(idx, self.dims()),
        ensures
            0 <= ravel(idx, self.dims()) < self.data().len(),
            self.at(idx) == self.data()[ravel(idx, self.dims())],
    {
        lemma_ravel(idx, self.dims());
    }

    /// The strides are the canonical row-major ones.
    pub open spec fn contiguous_layout(&self) -> bool {
        self.steps() == strides_of(self.dims())
    }

    proof fn lemma_contiguous_data(&self)
        requires
            self.wf(),
            self.contiguous_layout(),
            self.count() > 0,
        ensures
            self.offset + self.count() <= self.storage.len(),
            self.data() == self.storage@.subrange(
                self.offset as int,
                self.offset + self.count(),
            ),
    {
        let n = self.count() as int;
        lemma_unravel(n - 1, self.shape@);
        lemma_rows_offset(self.shape@, unravel(n - 1, self.shape@));
        assert(self.offset + (n - 1) < self.storage.len());
        assert forall|p: int| 0 <= p < n implies #[trigger] self.data()[p] == self.storage@[
        self.offset + p] by {
            lemma_unravel(p, self.shape@);
            lemma_rows_offset(self.shape@, unravel(p, self.shape@));
        }
        assert(self.data() =~= self.storage@.subrange(self.offset as int, self.offset + n));
    }

    // ---- layout accessors ------------------------------------------------

    /// The tensor's shape.
    #[must_use]
    pub fn shape(&self) -> (r: &[usize])
        ensures
            r@ == self.dims(),
    {
        self.shape.as_slice()
    }

    /// The tensor's strides, in elements.
    #[must_use]
    pub fn strides(&self) -> (r: &[usize])
        ensures
            r@ == self.steps(),
    {
        self.strides.as_slice()
    }

    /// The shared buffer; views of one tensor hold the same buffer.
    #[must_use]
    pub fn storage(&self) -> (r: &Arc<Vec<E>>)
        ensures
            r@ == self.buffer(),
    {
        &self.storage
    }

    /// The shape as `i64` dims.
    #[must_use]
    pub fn shape_i64(&self) -> (r: Vec<i64>)
        ensures
            r@ == signed_dims(self.dims()),
    {
        to_signed(self.shape.as_slice())
    }

    /// Number of dimensions (0 for scalars).
    #[must_use]
    pub fn ndim(&self) -> (r: usize)
        ensures
            r == self.dims().len(),
    {
        self.shape.len()
    }

    /// Total number of elements.
    #[must_use]
    pub fn numel(&self) -> (r: usize)
        ensures
            r == self.count(),
    {
        proof {
            use_type_invariant(self);
        }
        element_count(self.shape.as_slice())
    }

    /// The dtype of this tensor.
    #[must_use]
    pub fn dtype(&self) -> (r: DType)
        ensures
            r == DType::F32,
    {
        DType::F32
    }

    /// The device this tensor lives on.
    #[must_use]
    pub fn device(&self) -> (r: Device)
        ensures
            r == (Device { device_type: DeviceType::Cpu, index: 0 }),
    {
        Device::cpu()
    }

    /// Whether the tensor is stored contiguously in row-major order.
    #[must_use]
    pub fn is_contiguous(&self) -> (r: bool)
        ensures
            r == self.contiguous_layout(),
    {
        is_contiguous(self.shape.as_slice(), self.strides.as_slice())
    }

    /// Flat contiguous view of the elements, row-major.
    ///
    /// Fails with [`OxitorchError::InvalidArgument`] if the tensor is not
    /// contiguous (call [`Tensor::contiguous`] first).
    pub fn as_slice(&self) -> (r: OxitorchResult<&[E]>)
        ensures
            match r {
                Ok(s) => self.contiguous_layout() && s@ == self.data(),
                Err(e) => !self.contiguous_layout() && e@ == ErrorText::InvalidArgument(
                    "as_slice requires a contiguous tensor; call .contiguous() first"@,
                ),
            },
    {
        if !self.is_contiguous() {
            return Err(
                OxitorchError::InvalidArgument(
                    "as_slice requires a contiguous tensor; call .contiguous() first".to_string(),
                ),
            );
        }
        Ok(self.flat())
    }

    /// The elements of a contiguous tensor.
    fn flat(&self) -> (r: &[E])
        requires
            self.contiguous_layout(),
        ensures
            r@ == self.data(),
    {
        proof {
            use_type_invariant(self);
        }
        let n: usize = self.numel();
        if n == 0 {
            let none = vstd::slice::slice_subrange(self.storage.as_slice(), 0, 0);
            assert(none@ =~= self.data());
            return none;
        }
        proof {
            self.lemma_contiguous_data();
        }
        vstd::slice::slice_subrange(self.storage.as_slice(), self.offset, self.offset + n)
    }

    /// Another handle on the same elements.
    fn share(&self) -> (r: Self)
        ensures
            r == *self,
    {
        proof {
            use_type_invariant(self);
        }
        Tensor {
            storage: Arc::clone(&self.storage),
            offset: self.offset,
            shape: Arc::clone(&self.shape),
            strides: Arc::clone(&self.strides),
        }
    }

    /// A contiguous tensor over a buffer of matching length.
    pub(crate) fn from_results(shape: &[usize], results: Vec<E>) -> (r: Self)
        requires
            results.len() == product(shape@),
        ensures
            r.dims() == shape@,
            r.data() == results@,
            r.contiguous_layout(),
    {
        Self::over(copy_dims(shape), Arc::new(results))
    }

    /// A contiguous tensor over a shared buffer of matching length.
    fn over(shape: Vec<usize>, storage: Arc<Vec<E>>) -> (r: Self)
        requires
            storage.len() == product(shape@),
        ensures
            r.dims() == shape@,
            r.data() == storage@,
            r.buffer() == storage@,
            r.contiguous_layout(),
    {
        let strides = row_major_strides(shape.as_slice());
        proof {
            assert forall|idx: Seq<int>| #[trigger] in_shape(idx, shape@) implies 0 + dot(
                idx,
                strides@,
            ) < storage.len() by {
                lemma_rows_offset(shape@, idx);
            }
        }
        let r = Tensor { storage, offset: 0, shape: Arc::new(shape), strides: Arc::new(strides) };
        proof {
            assert(r.data() =~= storage@) by {
                if r.count() > 0 {
                    r.lemma_contiguous_data();
                    assert(storage@.subrange(0, storage@.len() as int) =~= storage@);
                }
            }
        }
        r
    }
}

impl<E: Elem> Tensor<E> {
    // ---- constructors ---------------------------------------------------

    /// A tensor of known dimensions filled with `value`.
    pub(crate) fn filled(dims: &[usize], value: E) -> (r: Self)
        requires
            product(dims@) <= usize::MAX,
        ensures
            r.dims() == dims@,
            r.contiguous_layout(),
            forall|p: int| 0 <= p < r.count() ==> #[trigger] r.data()[p] == value,
    {
        let n: usize = element_count(dims);
        Self::from_results(dims, repeat(value, n))
    }

    /// The same elements in another shape of equal element count.
    pub(crate) fn redimensioned(&self, dims: &[usize]) -> (r: Self)
        requires
            product(dims@) == self.count(),
        ensures
            r.dims() == dims@,
            r.contiguous_layout(),
            r.data() == self.data(),
    {
        Self::from_results(dims, self.to_vec())
    }

    /// Allocates a zero-filled tensor of the given shape.
    ///
    /// Fails with [`OxitorchError::InvalidArgument`] for negative dims or
    /// overflow.
    pub fn zeros(shape: &[i64]) -> (r: OxitorchResult<Self>)
        ensures
            match r {
                Ok(t) => shape_error(shape@) is None && t.dims() == sizes_of(shape@)
                    && t.contiguous_layout() && forall|p: int|
                    0 <= p < t.count() ==> is_zero(#[trigger] t.data()[p]),
                Err(e) => shape_error(shape@) == Some(e@),
            },
    {
        Self::full(shape, E::zero())
    }

    /// Allocates a tensor filled with `value`.
    ///
    /// Fails as [`Tensor::zeros`] does.
    pub fn full(shape: &[i64], value: E) -> (r: OxitorchResult<Self>)
        ensures
            match r {
                Ok(t) => shape_error(shape@) is None && t.dims() == sizes_of(shape@)
                    && t.contiguous_layout() && forall|p: int|
                    0 <= p < t.count() ==> #[trigger] t.data()[p] == value,
                Err(e) => shape_error(shape@) == Some(e@),
            },
    {
        match validate_shape(shape) {
            Ok(dims) => {
                proof {
                    assert(dims@.take(dims@.len() as int) =~= dims@);
                }
                let n: usize = element_count(dims.as_slice());
                Ok(Self::from_results(dims.as_slice(), repeat(value, n)))
            },
            Err(e) => Err(e),
        }
    }

    /// Builds a tensor from a flat row-major buffer (no copy beyond moving
    /// into shared storage).
    ///
    /// Fails with [`OxitorchError::InvalidArgument`] if the buffer length
    /// does not match the shape.
    pub fn from_vec(shape: &[i64], data: Vec<E>) -> (r: OxitorchResult<Self>)
        ensures
            match r {
                Ok(t) => from_buffer_error(shape@, data@.len() as int) is None && t.dims()
                    == sizes_of(shape@) && t.contiguous_layout() && t.data() == data@,
                Err(e) => from_buffer_error(shape@, data@.len() as int) == Some(e@),
            },
    {
        Self::from_shared(shape, Arc::new(data))
    }

    /// Wraps an existing shared buffer with the given shape without copying.
    ///
    /// Fails as [`Tensor::from_vec`] does.
    pub fn from_shared(shape: &[i64], data: Arc<Vec<E>>) -> (r: OxitorchResult<Self>)
        ensures
            match r {
                Ok(t) => from_buffer_error(shape@, data@.len() as int) is None && t.dims()
                    == sizes_of(shape@) && t.contiguous_layout() && t.data() == data@ && t.buffer()
                    == data@,
                Err(e) => from_buffer_error(shape@, data@.len() as int) == Some(e@),
            },
    {
        let dims = match validate_shape(shape) {
            Ok(dims) => dims,
            Err(e) => {
                return Err(e);
            },
        };
        proof {
            assert(dims@.take(dims@.len() as int) =~= dims@);
        }
        let count: usize = element_count(dims.as_slice());
        if count != data.len() {
            let mut m = join4(
                "shape ",
                signed_dims_string(shape).as_str(),
                " implies ",
                usize_string(count).as_str(),
            );
            m.append(" elements but the buffer holds ");
            m.append(usize_string(data.len()).as_str());
            return Err(OxitorchError::InvalidArgument(m));
        }
        Ok(Self::over(dims, data))
    }

    /// Allocates a tensor of ones with the same shape as `other`.
    ///
    /// Fails as [`Tensor::full`] does.
    pub fn ones_like(other: &Self) -> (r: OxitorchResult<Self>)
        ensures
            match r {
                Ok(t) => shape_error(signed_dims(other.dims())) is None && t.dims() == sizes_of(
                    signed_dims(other.dims()),
                ) && t.contiguous_layout() && forall|p: int|
                    0 <= p < t.count() ==> is_one(#[trigger] t.data()[p]),
                Err(e) => shape_error(signed_dims(other.dims())) == Some(e@),
            },
    {
        Self::full(other.shape_i64().as_slice(), E::one())
    }

    /// The identity matrix of size `n` (useful in tests and examples).
    ///
    /// Fails when `n * n` elements are too many.
    pub fn eye(n: usize) -> (r: OxitorchResult<Self>)
        ensures
            match r {
                Ok(t) => n * n <= usize::MAX && t.dims() == seq![n, n] && t.contiguous_layout()
                    && forall|i: int, j: int|
                    0 <= i < n && 0 <= j < n ==> if i == j {
                        is_one(#[trigger] t.at(index2(i, j)))
                    } else {
                        is_zero(t.at(index2(i, j)))
                    },
                Err(e) => n * n > usize::MAX && e@ == overflow_error(seq![n as int, n as int]),
            },
    {
        let dims: Vec<usize> = vec![n, n];
        proof {
            assert(dims@ =~= seq![n, n]);
            lemma_rank2(dims@, 0, 0);
        }
        let count: usize = match n.checked_mul(n) {
            Some(c) => c,
            None => {
                assert(ints(dims@) =~= seq![n as int, n as int]);
                return Err(overflow(dims_string(dims.as_slice())));
            },
        };
        let mut data: Vec<E> = Vec::with_capacity(count);
        let mut p: usize = 0;
        while p < count
            invariant
                0 <= p <= count,
                count == n * n,
                data.len() == p,
                forall|q: int|
                    0 <= q < p ==> if q / n as int == q % n as int {
                        is_one(#[trigger] data@[q])
                    } else {
                        is_zero(data@[q])
                    },
            decreases count - p,
        {
            assert(n > 0) by (nonlinear_arith)
                requires
                    p < n * n,
                    p >= 0,
                    n >= 0,
            ;
            if p / n == p % n {
                data.push(E::one());
            } else {
                data.push(E::zero());
            }
            p = p + 1;
        }
        let r = Self::from_results(dims.as_slice(), data);
        proof {
            assert forall|i: int, j: int| 0 <= i < n && 0 <= j < n implies if i == j {
                is_one(#[trigger] r.at(index2(i, j)))
            } else {
                is_zero(r.at(index2(i, j)))
            } by {
                lemma_rank2(dims@, i, j);
                r.lemma_at(index2(i, j));
                lemma_fundamental_div_mod_converse(i * n + j, n as int, i, j);
            }
        }
        Ok(r)
    }

}

impl<E: Copy> Tensor<E> {
    // ---- materialization --------------------------------------------------

    /// Materializes elements in row-major order, regardless of layout.
    #[must_use]
    pub fn to_vec(&self) -> (r: Vec<E>)
        ensures
            r@ == self.data(),
    {
        if self.is_contiguous() {
            copy_elems(self.flat())
        } else {
            self.read_grid()
        }
    }

    /// Returns a contiguous copy if needed; otherwise a cheap clone.
    #[must_use]
    pub fn contiguous(&self) -> (r: Self)
        ensures
            r.contiguous_layout(),
            r.dims() == self.dims(),
            r.data() == self.data(),
            self.contiguous_layout() ==> r == *self,
    {
        if self.is_contiguous() {
            self.share()
        } else {
            Self::from_results(self.shape.as_slice(), self.to_vec())
        }
    }

    /// Reads elements in row-major logical order through the strides.
    fn read_grid(&self) -> (r: Vec<E>)
        ensures
            r@ == self.data(),
    {
        proof {
            use_type_invariant(self);
        }
        if self.numel() == 0 {
            let none: Vec<E> = Vec::new();
            assert(none@ =~= self.data());
            return none;
        }
        let op = self.operand(self.strides.as_slice(), Ghost(self.shape@));
        let ops = vec![op];
        let take_first = |v: &[E]| -> (x: E)
            requires
                v.len() == 1,
            ensures
                x == v@[0],
            { v[0] };
        let r = map_n(self.shape.as_slice(), ops.as_slice(), take_first);
        proof {
            assert forall|p: int| 0 <= p < self.count() implies r@[p] == #[trigger] self.data()[p] by {
                lemma_unravel(p, self.shape@);
                assert(mapped(take_first, gathered(ops@, unravel(p, self.shape@)), r@[p]));
            }
            assert(r@ =~= self.data());
        }
        r
    }

    /// The tensor as an operand of an elementwise walk over `grid`, reading
    /// through `strides`.
    fn operand<'a>(&'a self, strides: &'a [usize], Ghost(grid): Ghost<Seq<usize>>) -> (r: Operand<
        'a,
        E,
    >)
        requires
            product(grid) > 0,
            strides.len() == grid.len(),
            forall|idx: Seq<int>| #[trigger]
                in_shape(idx, grid) ==> self.offset + dot(idx, strides@) < self.storage.len(),
        ensures
            r.covers(grid),
            forall|idx: Seq<int>| #[trigger]
                in_shape(idx, grid) ==> r.at(idx) == self.storage@[self.offset + dot(
                    idx,
                    strides@,
                )],
    {
        proof {
            lemma_unravel(0, grid);
            let first = unravel(0, grid);
            assert(in_shape(first, grid));
            lemma_dot_nonnegative(first, strides@);
        }
        let data = vstd::slice::slice_subrange(
            self.storage.as_slice(),
            self.offset,
            self.storage.len(),
        );
        let r = Operand { data, strides };
        proof {
            assert forall|idx: Seq<int>| #[trigger] in_shape(idx, grid) implies dot(idx, strides@)
                < data.len() && r.at(idx) == self.storage@[self.offset + dot(idx, strides@)] by {
                lemma_dot_nonnegative(idx, strides@);
            }
        }
        r
    }

    /// The elements of both tensors, paired over their broadcast shape.
    ///
    /// `f` sees each pair once, in row-major order of the broadcast shape.
    fn zip_with<R, F: Fn(&[E]) -> R>(&self, rhs: &Self, out_shape: &[usize], f: F) -> (r: Vec<R>)
        requires
            expands_to(self.dims(), out_shape@),
            expands_to(rhs.dims(), out_shape@),
            product(out_shape@) <= usize::MAX,
            forall|v: &[E]| v.len() == 2 ==> #[trigger] call_requires(f, (v,)),
        ensures
            r.len() == product(out_shape@),
            forall|p: int|
                #![trigger r@[p]]
                0 <= p < product(out_shape@) ==> mapped(
                    f,
                    seq![
                        self.at(broadcast_index(unravel(p, out_shape@), self.dims())),
                        rhs.at(broadcast_index(unravel(p, out_shape@), rhs.dims())),
                    ],
                    r@[p],
                ),
    {
        if element_count(out_shape) == 0 {
            return Vec::new();
        }
        proof {
            use_type_invariant(self);
            use_type_invariant(rhs);
            assert forall|idx: Seq<int>| #[trigger] in_shape(idx, out_shape@) implies self.offset
                + dot(idx, expanded_strides(self.shape@, self.strides@, out_shape@))
                < self.storage.len() by {
                lemma_broadcast_index(idx, self.shape@, self.strides@, out_shape@);
                assert(in_shape(broadcast_index(idx, self.shape@), self.shape@));
            }
            assert forall|idx: Seq<int>| #[trigger] in_shape(idx, out_shape@) implies rhs.offset
                + dot(idx, expanded_strides(rhs.shape@, rhs.strides@, out_shape@))
                < rhs.storage.len() by {
                lemma_broadcast_index(idx, rhs.shape@, rhs.strides@, out_shape@);
                assert(in_shape(broadcast_index(idx, rhs.shape@), rhs.shape@));
            }
        }
        let a_strides = spread(self.shape.as_slice(), self.strides.as_slice(), out_shape);
        let b_strides = spread(rhs.shape.as_slice(), rhs.strides.as_slice(), out_shape);
        let a = self.operand(a_strides.as_slice(), Ghost(out_shape@));
        let b = rhs.operand(b_strides.as_slice(), Ghost(out_shape@));
        let ops = vec![a, b];
        let r = map_n(out_shape, ops.as_slice(), f);
        proof {
            assert forall|p: int| 0 <= p < product(out_shape@) implies mapped(
                f,
                seq![
                    self.at(broadcast_index(unravel(p, out_shape@), self.dims())),
                    rhs.at(broadcast_index(unravel(p, out_shape@), rhs.dims())),
                ],
                #[trigger] r@[p],
            ) by {
                let idx = unravel(p, out_shape@);
                lemma_unravel(p, out_shape@);
                lemma_broadcast_index(idx, self.shape@, self.strides@, out_shape@);
                lemma_broadcast_index(idx, rhs.shape@, rhs.strides@, out_shape@);
                assert(gathered(ops@, idx) =~= seq![
                    self.at(broadcast_index(idx, self.dims())),
                    rhs.at(broadcast_index(idx, rhs.dims())),
                ]);
            }
        }
        r
    }
}

/// `n` copies of `value`.
pub(crate) fn repeat<E: Copy>(value: E, n: usize) -> (r: Vec<E>)
    ensures
        r.len() == n,
        forall|i: int| 0 <= i < n ==> #[trigger] r@[i] == value,
{
    let mut out: Vec<E> = Vec::with_capacity(n);
    let mut i: usize = 0;
    while i < n
        invariant
            0 <= i <= n,
            out.len() == i,
            forall|j: int| 0 <= j < i ==> #[trigger] out@[j] == value,
        decreases n - i,
    {
        out.push(value);
        i = i + 1;
    }
    out
}

/// The strides of an operand that is known to broadcast.
fn spread(shape: &[usize], strides: &[usize], out_shape: &[usize]) -> (r: Vec<usize>)
    requires
        shape.len() == strides.len(),
        expands_to(shape@, out_shape@),
    ensures
        r@ == expanded_strides(shape@, strides@, out_shape@),
{
    match broadcast_strides(shape, strides, out_shape) {
        Ok(v) => v,
        Err(_) => Vec::new(),
    }
}

impl<E> Clone for Tensor<E> {
    fn clone(&self) -> (r: Self)
        ensures
            r == *self,
    {
        self.share()
    }
}

} // verus!
