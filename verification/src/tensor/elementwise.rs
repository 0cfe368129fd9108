//! Elementwise operations with broadcasting.

use vstd::prelude::*;
use vstd::string::*;
use crate::elem::{Elem, is_one, is_zero};
use crate::error::{ErrorText, OxitorchError, OxitorchResult};
use crate::index::{in_shape, lemma_rank0, lemma_ravel, lemma_unravel, ravel, unravel};
use crate::layout::{
    broadcast_index, broadcast_of, broadcast_shapes, has_count, law_broadcast_covers_operands,
    law_broadcast_identity, overflow,
};
use crate::ops::{BinaryOp, ComparisonOp, UnaryOp, find_binary_op, find_cmp_op, find_unary_op};
use crate::tensor::{Tensor, broadcast_error};
use crate::text::{debug_string, debug_text, dims_string, join4};

verus! {

/// `r` is the result of `op` on `a` and `b`, element by element over their
/// broadcast shape.
pub open spec fn binary_result<E: Elem>(
    op: BinaryOp,
    a: Tensor<E>,
    b: Tensor<E>,
    r: Tensor<E>,
) -> bool {
    &&& r.dims() == broadcast_of(a.dims(), b.dims())
    &&& r.contiguous_layout()
    &&& forall|idx: Seq<int>|
        in_shape(idx, r.dims()) ==> op.gives(
            a.at(broadcast_index(idx, a.dims())),
            b.at(broadcast_index(idx, b.dims())),
            #[trigger] r.at(idx),
        )
}

/// `r` is `op` on `x` and `y`, as 1 for true and 0 for false.
pub open spec fn comparison_gives<E: Elem>(op: ComparisonOp, x: E, y: E, r: E) -> bool {
    (op.says(x, y, true) && is_one(r)) || (op.says(x, y, false) && is_zero(r))
}

/// `r` is the result of comparing `a` and `b`, element by element over their
/// broadcast shape, as ones and zeros.
pub open spec fn comparison_result<E: Elem>(
    op: ComparisonOp,
    a: Tensor<E>,
    b: Tensor<E>,
    r: Tensor<E>,
) -> bool {
    &&& r.dims() == broadcast_of(a.dims(), b.dims())
    &&& r.contiguous_layout()
    &&& forall|idx: Seq<int>|
        in_shape(idx, r.dims()) ==> comparison_gives(
            op,
            a.at(broadcast_index(idx, a.dims())),
            b.at(broadcast_index(idx, b.dims())),
            #[trigger] r.at(idx),
        )
}

/// `r` is the result of `op` on every element of `a`.
pub open spec fn unary_result<E: Elem>(op: UnaryOp, a: Tensor<E>, r: Tensor<E>) -> bool {
    &&& r.dims() == a.dims()
    &&& r.contiguous_layout()
    &&& forall|p: int| 0 <= p < a.count() ==> op.gives(a.data()[p], #[trigger] r.data()[p])
}

/// The complaint about an op that the registry does not hold.
pub open spec fn unknown_op_error(kind: Seq<char>, name: Seq<char>) -> ErrorText {
    ErrorText::InvalidArgument("unknown "@ + kind + " op "@ + debug_text(name))
}

/// A broadcast index of a tensor's own shape reads the same element.
pub proof fn lemma_broadcast_own<E>(t: Tensor<E>, idx: Seq<int>)
    requires
        in_shape(idx, t.dims()),
    ensures
        broadcast_index(idx, t.dims()) == idx,
{
    assert forall|i: int| 0 <= i < idx.len() implies broadcast_index(idx, t.dims())[i]
        == #[trigger] idx[i] by {
        assert(0 <= idx[i] < t.dims()[i]);
    }
    assert(broadcast_index(idx, t.dims()) =~= idx);
}

fn unknown_op(kind: &str, name: &str) -> (r: OxitorchError)
    ensures
        r@ == unknown_op_error(kind@, name@),
{
    OxitorchError::InvalidArgument(join4("unknown ", kind, " op ", debug_string(name).as_str()))
}

/// The shape of an elementwise result.
pub(crate) fn joint_shape(a: &[usize], b: &[usize]) -> (r: OxitorchResult<Vec<usize>>)
    ensures
        match r {
            Ok(v) => broadcast_error(a@, b@) is None && v@ == broadcast_of(a@, b@),
            Err(e) => broadcast_error(a@, b@) == Some(e@),
        },
{
    match broadcast_shapes(a, b) {
        Ok(out) => {
            if has_count(out.as_slice()) {
                Ok(out)
            } else {
                Err(overflow(dims_string(out.as_slice())))
            }
        },
        Err(e) => Err(e),
    }
}

impl<E: Elem> Tensor<E> {
    /// The op on every pair of elements.
    pub(crate) fn binary(&self, op: BinaryOp, rhs: &Self) -> (r: OxitorchResult<Self>)
        ensures
            match r {
                Ok(t) => broadcast_error(self.dims(), rhs.dims()) is None && binary_result(
                    op,
                    *self,
                    *rhs,
                    t,
                ),
                Err(e) => broadcast_error(self.dims(), rhs.dims()) == Some(e@),
            },
    {
        let out_shape = match joint_shape(self.shape(), rhs.shape()) {
            Ok(s) => s,
            Err(e) => {
                return Err(e);
            },
        };
        proof {
            law_broadcast_covers_operands(self.dims(), rhs.dims());
        }
        let kernel = |v: &[E]| -> (x: E)
            requires
                v.len() == 2,
            ensures
                op.gives(v@[0], v@[1], x),
            { op.apply(v[0], v[1]) };
        let results = self.zip_with(rhs, out_shape.as_slice(), kernel);
        let ghost values = results@;
        let t = Self::from_results(out_shape.as_slice(), results);
        proof {
            assert forall|idx: Seq<int>| in_shape(idx, t.dims()) implies op.gives(
                self.at(broadcast_index(idx, self.dims())),
                rhs.at(broadcast_index(idx, rhs.dims())),
                #[trigger] t.at(idx),
            ) by {
                t.lemma_at(idx);
                lemma_ravel(idx, out_shape@);
                let p = ravel(idx, out_shape@);
                assert(values[p] == t.at(idx));
            }
        }
        Ok(t)
    }

    /// The comparison of every pair of elements.
    pub(crate) fn compare(&self, op: ComparisonOp, rhs: &Self) -> (r: OxitorchResult<Self>)
        ensures
            match r {
                Ok(t) => broadcast_error(self.dims(), rhs.dims()) is None && comparison_result(
                    op,
                    *self,
                    *rhs,
                    t,
                ),
                Err(e) => broadcast_error(self.dims(), rhs.dims()) == Some(e@),
            },
    {
        let out_shape = match joint_shape(self.shape(), rhs.shape()) {
            Ok(s) => s,
            Err(e) => {
                return Err(e);
            },
        };
        proof {
            law_broadcast_covers_operands(self.dims(), rhs.dims());
        }
        let kernel = |v: &[E]| -> (x: E)
            requires
                v.len() == 2,
            ensures
                comparison_gives(op, v@[0], v@[1], x),
            {
                if op.apply(v[0], v[1]) {
                    E::one()
                } else {
                    E::zero()
                }
            };
        let results = self.zip_with(rhs, out_shape.as_slice(), kernel);
        let ghost values = results@;
        let t = Self::from_results(out_shape.as_slice(), results);
        proof {
            assert forall|idx: Seq<int>| in_shape(idx, t.dims()) implies comparison_gives(
                op,
                self.at(broadcast_index(idx, self.dims())),
                rhs.at(broadcast_index(idx, rhs.dims())),
                #[trigger] t.at(idx),
            ) by {
                t.lemma_at(idx);
                lemma_ravel(idx, out_shape@);
                let p = ravel(idx, out_shape@);
                assert(values[p] == t.at(idx));
            }
        }
        Ok(t)
    }

    /// The op on every element.
    pub(crate) fn unary(&self, op: UnaryOp) -> (r: Self)
        ensures
            unary_result(op, *self, r),
    {
        let flat = self.contiguous();
        let data = flat.flat();
        let mut out: Vec<E> = Vec::with_capacity(data.len());
        let mut i: usize = 0;
        while i < data.len()
            invariant
                0 <= i <= data.len(),
                data@ == self.data(),
                out.len() == i,
                forall|p: int| 0 <= p < i ==> op.gives(self.data()[p], #[trigger] out@[p]),
            decreases data.len() - i,
        {
            out.push(op.apply(data[i]));
            i = i + 1;
        }
        Self::from_results(self.shape(), out)
    }

    /// Dispatches a named binary op through the registry.
    ///
    /// Fails with [`OxitorchError::InvalidArgument`] for unknown op names,
    /// and where the shapes cannot broadcast.
    pub fn binary_op(&self, name: &str, rhs: &Self) -> (r: OxitorchResult<Self>)
        ensures
            match r {
                Ok(t) => exists|op: BinaryOp|
                    #![trigger op.label()]
                    op.label() == name@ && broadcast_error(self.dims(), rhs.dims()) is None
                        && binary_result(op, *self, *rhs, t),
                Err(e) => if exists|op: BinaryOp| #[trigger] op.label() == name@ {
                    broadcast_error(self.dims(), rhs.dims()) == Some(e@)
                } else {
                    e@ == unknown_op_error("binary"@, name@)
                },
            },
    {
        match find_binary_op(name) {
            Some(spec_entry) => self.binary(spec_entry.op, rhs),
            None => Err(unknown_op("binary", name)),
        }
    }

    /// Dispatches a named comparison op (ones and zeros).
    ///
    /// Fails as [`Tensor::binary_op`] does.
    pub fn cmp_op(&self, name: &str, rhs: &Self) -> (r: OxitorchResult<Self>)
        ensures
            match r {
                Ok(t) => exists|op: ComparisonOp|
                    #![trigger op.label()]
                    op.label() == name@ && broadcast_error(self.dims(), rhs.dims()) is None
                        && comparison_result(op, *self, *rhs, t),
                Err(e) => if exists|op: ComparisonOp| #[trigger] op.label() == name@ {
                    broadcast_error(self.dims(), rhs.dims()) == Some(e@)
                } else {
                    e@ == unknown_op_error("comparison"@, name@)
                },
            },
    {
        match find_cmp_op(name) {
            Some(spec_entry) => self.compare(spec_entry.op, rhs),
            None => Err(unknown_op("comparison", name)),
        }
    }

    /// Dispatches a named unary op through the registry.
    ///
    /// Fails with [`OxitorchError::InvalidArgument`] for unknown op names.
    pub fn unary_op(&self, name: &str) -> (r: OxitorchResult<Self>)
        ensures
            match r {
                Ok(t) => exists|op: UnaryOp|
                    #![trigger op.label()]
                    op.label() == name@ && unary_result(op, *self, t),
                Err(e) => (forall|op: UnaryOp| #[trigger] op.label() != name@) && e@
                    == unknown_op_error("unary"@, name@),
            },
    {
        match find_unary_op(name) {
            Some(spec_entry) => Ok(self.unary(spec_entry.op)),
            None => Err(unknown_op("unary", name)),
        }
    }

    /// Applies a named unary op.
    ///
    /// Fails for an unknown op name.
    pub fn apply_unary(&self, name: &str) -> (r: OxitorchResult<Self>)
        ensures
            match r {
                Ok(t) => exists|op: UnaryOp|
                    #![trigger op.label()]
                    op.label() == name@ && unary_result(op, *self, t),
                Err(e) => (forall|op: UnaryOp| #[trigger] op.label() != name@) && e@
                    == unknown_op_error("unary"@, name@),
            },
    {
        self.unary_op(name)
    }

    /// Elementwise `(a + b)` with broadcasting.
    ///
    /// Fails where the shapes cannot broadcast.
    pub fn add(&self, rhs: &Self) -> (r: OxitorchResult<Self>)
        ensures
            match r {
                Ok(t) => broadcast_error(self.dims(), rhs.dims()) is None && binary_result(
                    BinaryOp::Add,
                    *self,
                    *rhs,
                    t,
                ),
                Err(e) => broadcast_error(self.dims(), rhs.dims()) == Some(e@),
            },
    {
        self.binary(BinaryOp::Add, rhs)
    }

    /// Elementwise `(a - b)` with broadcasting.
    ///
    /// Fails where the shapes cannot broadcast.
    pub fn sub(&self, rhs: &Self) -> (r: OxitorchResult<Self>)
        ensures
            match r {
                Ok(t) => broadcast_error(self.dims(), rhs.dims()) is None && binary_result(
                    BinaryOp::Sub,
                    *self,
                    *rhs,
                    t,
                ),
                Err(e) => broadcast_error(self.dims(), rhs.dims()) == Some(e@),
            },
    {
        self.binary(BinaryOp::Sub, rhs)
    }

    /// Elementwise `(a * b)` with broadcasting.
    ///
    /// Fails where the shapes cannot broadcast.
    pub fn mul(&self, rhs: &Self) -> (r: OxitorchResult<Self>)
        ensures
            match r {
                Ok(t) => broadcast_error(self.dims(), rhs.dims()) is None && binary_result(
                    BinaryOp::Mul,
                    *self,
                    *rhs,
                    t,
                ),
                Err(e) => broadcast_error(self.dims(), rhs.dims()) == Some(e@),
            },
    {
        self.binary(BinaryOp::Mul, rhs)
    }

    /// Elementwise `(a / b)` with broadcasting.
    ///
    /// Fails where the shapes cannot broadcast.
    pub fn div(&self, rhs: &Self) -> (r: OxitorchResult<Self>)
        ensures
            match r {
                Ok(t) => broadcast_error(self.dims(), rhs.dims()) is None && binary_result(
                    BinaryOp::Div,
                    *self,
                    *rhs,
                    t,
                ),
                Err(e) => broadcast_error(self.dims(), rhs.dims()) == Some(e@),
            },
    {
        self.binary(BinaryOp::Div, rhs)
    }

    /// Elementwise `a^b` with broadcasting.
    ///
    /// Fails where the shapes cannot broadcast.
    pub fn pow(&self, rhs: &Self) -> (r: OxitorchResult<Self>)
        ensures
            match r {
                Ok(t) => broadcast_error(self.dims(), rhs.dims()) is None && binary_result(
                    BinaryOp::Pow,
                    *self,
                    *rhs,
                    t,
                ),
                Err(e) => broadcast_error(self.dims(), rhs.dims()) == Some(e@),
            },
    {
        self.binary(BinaryOp::Pow, rhs)
    }

    /// Elementwise equality (ones and zeros, broadcast).
    ///
    /// Fails where the shapes cannot broadcast.
    pub fn eq(&self, rhs: &Self) -> (r: OxitorchResult<Self>)
        ensures
            match r {
                Ok(t) => broadcast_error(self.dims(), rhs.dims()) is None && comparison_result(
                    ComparisonOp::Eq,
                    *self,
                    *rhs,
                    t,
                ),
                Err(e) => broadcast_error(self.dims(), rhs.dims()) == Some(e@),
            },
    {
        self.compare(ComparisonOp::Eq, rhs)
    }

    /// Elementwise `<` (ones and zeros, broadcast).
    ///
    /// Fails where the shapes cannot broadcast.
    pub fn lt(&self, rhs: &Self) -> (r: OxitorchResult<Self>)
        ensures
            match r {
                Ok(t) => broadcast_error(self.dims(), rhs.dims()) is None && comparison_result(
                    ComparisonOp::Lt,
                    *self,
                    *rhs,
                    t,
                ),
                Err(e) => broadcast_error(self.dims(), rhs.dims()) == Some(e@),
            },
    {
        self.compare(ComparisonOp::Lt, rhs)
    }

    /// Elementwise `<=` (ones and zeros, broadcast).
    ///
    /// Fails where the shapes cannot broadcast.
    pub fn le(&self, rhs: &Self) -> (r: OxitorchResult<Self>)
        ensures
            match r {
                Ok(t) => broadcast_error(self.dims(), rhs.dims()) is None && comparison_result(
                    ComparisonOp::Le,
                    *self,
                    *rhs,
                    t,
                ),
                Err(e) => broadcast_error(self.dims(), rhs.dims()) == Some(e@),
            },
    {
        self.compare(ComparisonOp::Le, rhs)
    }

    /// Elementwise `>` (ones and zeros, broadcast).
    ///
    /// Fails where the shapes cannot broadcast.
    pub fn gt(&self, rhs: &Self) -> (r: OxitorchResult<Self>)
        ensures
            match r {
                Ok(t) => broadcast_error(self.dims(), rhs.dims()) is None && comparison_result(
                    ComparisonOp::Gt,
                    *self,
                    *rhs,
                    t,
                ),
                Err(e) => broadcast_error(self.dims(), rhs.dims()) == Some(e@),
            },
    {
        self.compare(ComparisonOp::Gt, rhs)
    }

    /// Elementwise `>=` (ones and zeros, broadcast).
    ///
    /// Fails where the shapes cannot broadcast.
    pub fn ge(&self, rhs: &Self) -> (r: OxitorchResult<Self>)
        ensures
            match r {
                Ok(t) => broadcast_error(self.dims(), rhs.dims()) is None && comparison_result(
                    ComparisonOp::Ge,
                    *self,
                    *rhs,
                    t,
                ),
                Err(e) => broadcast_error(self.dims(), rhs.dims()) == Some(e@),
            },
    {
        self.compare(ComparisonOp::Ge, rhs)
    }

    /// Elementwise `!=` (ones and zeros, broadcast).
    ///
    /// Fails where the shapes cannot broadcast.
    pub fn ne(&self, rhs: &Self) -> (r: OxitorchResult<Self>)
        ensures
            match r {
                Ok(t) => broadcast_error(self.dims(), rhs.dims()) is None && comparison_result(
                    ComparisonOp::Ne,
                    *self,
                    *rhs,
                    t,
                ),
                Err(e) => broadcast_error(self.dims(), rhs.dims()) == Some(e@),
            },
    {
        self.compare(ComparisonOp::Ne, rhs)
    }

    /// The op with a 0-d right operand.
    fn with_scalar(&self, op: BinaryOp, scalar: E) -> (r: OxitorchResult<Self>)
        ensures
            match r {
                Ok(t) => t.dims() == self.dims() && t.contiguous_layout() && forall|p: int|
                    0 <= p < self.count() ==> op.gives(
                        self.data()[p],
                        scalar,
                        #[trigger] t.data()[p],
                    ),
                Err(_) => false,
            },
    {
        let dims: Vec<usize> = Vec::new();
        let values: Vec<E> = vec![scalar];
        proof {
            lemma_rank0(dims@);
            use_type_invariant(self);
            self.lemma_wf();
            law_broadcast_identity(self.dims());
            assert(dims@ =~= Seq::<usize>::empty());
        }
        let s = Self::from_results(dims.as_slice(), values);
        let r = self.binary(op, &s);
        proof {
            if r is Ok {
                let t = r->Ok_0;
                assert forall|p: int| 0 <= p < self.count() implies op.gives(
                    self.data()[p],
                    scalar,
                    #[trigger] t.data()[p],
                ) by {
                    let idx = unravel(p, self.dims());
                    lemma_unravel(p, self.dims());
                    lemma_broadcast_own(*self, idx);
                    let none = broadcast_index(idx, s.dims());
                    assert(in_shape(none, s.dims()));
                    s.lemma_at(none);
                    assert(t.data()[p] == t.at(idx));
                }
            }
        }
        r
    }

    /// Scalar add: `self + scalar` (broadcast of a 0-d right operand); never fails.
    pub fn add_scalar(&self, scalar: E) -> (r: OxitorchResult<Self>)
        ensures
            match r {
                Ok(t) => t.dims() == self.dims() && t.contiguous_layout() && forall|p: int|
                    0 <= p < self.count() ==> BinaryOp::Add.gives(
                        self.data()[p],
                        scalar,
                        #[trigger] t.data()[p],
                    ),
                Err(_) => false,
            },
    {
        self.with_scalar(BinaryOp::Add, scalar)
    }

    /// Scalar multiplication: `self * scalar` (broadcast of a 0-d right operand); never fails.
    pub fn mul_scalar(&self, scalar: E) -> (r: OxitorchResult<Self>)
        ensures
            match r {
                Ok(t) => t.dims() == self.dims() && t.contiguous_layout() && forall|p: int|
                    0 <= p < self.count() ==> BinaryOp::Mul.gives(
                        self.data()[p],
                        scalar,
                        #[trigger] t.data()[p],
                    ),
                Err(_) => false,
            },
    {
        self.with_scalar(BinaryOp::Mul, scalar)
    }

}

} // verus!
