//! Validated shape handling: dimension checks plus row-major stride math.

use vstd::prelude::*;
use crate::error::OxitorchResult;
use crate::index::product;
use crate::layout::{
    copy_dims, count_fits, element_count, row_major_strides, shape_error, signed_dims, sizes_of,
    strides_of, to_signed, validate_shape,
};

verus! {

/// A validated tensor shape with row-major strides.
#[derive(Debug, PartialEq, Eq)]
pub struct Shape {
    dims: Vec<usize>,
}

impl Shape {
    /// The dims.
    pub closed spec fn view(&self) -> Seq<usize> {
        self.dims@
    }

    #[verifier::type_invariant]
    spec fn valid(&self) -> bool {
        count_fits(self.dims@)
    }

    /// Validates a shape given as `i64` dims (negative dims are user errors,
    /// not Python-style negatives).
    pub fn new(dims: &[i64]) -> (r: OxitorchResult<Self>)
        ensures
            match r {
                Ok(s) => shape_error(dims@) is None && s@ == sizes_of(dims@),
                Err(e) => shape_error(dims@) == Some(e@),
            },
    {
        match validate_shape(dims) {
            Ok(sizes) => Ok(Shape { dims: sizes }),
            Err(e) => Err(e),
        }
    }

    /// Row-major strides in elements (C-contiguous), `1` for the last dim.
    ///
    /// For 0-d shapes this returns an empty list.
    pub fn row_major_strides(&self) -> (r: Vec<usize>)
        ensures
            r@ == strides_of(self@),
    {
        row_major_strides(self.dims.as_slice())
    }

    /// Total element count (0-d shapes hold exactly one element).
    pub fn element_count(&self) -> (r: usize)
        ensures
            r == product(self@),
    {
        proof {
            use_type_invariant(self);
            assert(self.dims@.take(self.dims@.len() as int) =~= self.dims@);
        }
        element_count(self.dims.as_slice())
    }

    /// Number of dimensions.
    pub fn ndim(&self) -> (r: usize)
        ensures
            r == self@.len(),
    {
        self.dims.len()
    }

    /// Borrowed view of the dims.
    pub fn as_slice(&self) -> (r: &[usize])
        ensures
            r@ == self@,
    {
        self.dims.as_slice()
    }

    /// Dims as `i64`, for handing to a frontend.
    pub fn as_i64(&self) -> (r: Vec<i64>)
        ensures
            r@ == signed_dims(self@),
    {
        to_signed(self.dims.as_slice())
    }
}

impl Clone for Shape {
    fn clone(&self) -> (r: Self)
        ensures
            r@ == self@,
    {
        proof {
            use_type_invariant(self);
        }
        Shape { dims: copy_dims(self.dims.as_slice()) }
    }
}

} // verus!
