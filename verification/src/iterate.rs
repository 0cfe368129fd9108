//! Stride-aware iteration over one or more buffers.
//!
//! One generic walk drives every elementwise op: each input contributes a
//! buffer and its strides over the output grid. When *all* operands are
//! contiguous the walk collapses to a flat pass over the buffers.

use vstd::prelude::*;
use crate::index::{
    advance, dot, in_shape, index_of, lemma_dot_nonnegative, lemma_dot_prefix, lemma_dot_rows,
    lemma_product_positive, lemma_product_tail, lemma_ravel, lemma_ravel_zero, lemma_unravel,
    offset_of, product, ravel, unravel, walks_rows,
};
use crate::layout::element_count;

verus! {

/// One operand: the buffer to read and its stride in elements.
pub struct Operand<'a, T> {
    /// Flattened storage of the operand.
    pub data: &'a [T],
    /// Stride in elements along each output dim.
    pub strides: &'a [usize],
}

impl<'a, T> Operand<'a, T> {
    /// The element this operand contributes at `idx`.
    pub open spec fn at(self, idx: Seq<int>) -> T {
        self.data@[dot(idx, self.strides@)]
    }

    /// The operand has an element for every index of `shape`.
    pub open spec fn covers(self, shape: Seq<usize>) -> bool {
        &&& self.strides.len() >= shape.len()
        &&& forall|idx: Seq<int>| #[trigger]
            in_shape(idx, shape) ==> dot(idx, self.strides@) < self.data.len()
    }

    /// Whether the buffer lists the elements of `shape` in row-major order: the
    /// strides are the row-major ones wherever a dim has more than one entry,
    /// and the buffer is as long as the grid.
    fn is_flat(&self, shape: &[usize]) -> (r: bool)
        requires
            self.covers(shape@),
            0 < product(shape@) <= usize::MAX,
        ensures
            r == (walks_rows(shape@, self.strides@.take(shape.len() as int)) && product(shape@)
                <= self.data.len()),
    {
        let ghost strides = self.strides@.take(shape.len() as int);
        let mut i: usize = shape.len();
        while i > 0
            invariant
                0 <= i <= shape.len() <= self.strides.len(),
                0 < product(shape@) <= usize::MAX,
                strides == self.strides@.take(shape.len() as int),
                forall|j: int|
                    i <= j < shape.len() ==> shape@[j] == 1 || #[trigger] strides[j] == product(
                        shape@.skip(j + 1),
                    ),
            decreases i,
        {
            i = i - 1;
            assert(strides[i as int] == self.strides@[i as int]);
            if shape[i] != 1 && self.strides[i] != row_stride(shape, i) {
                return false;
            }
        }
        element_count(shape) <= self.data.len()
    }
}

/// The elements that all operands contribute at `idx`, in operand order.
pub open spec fn gathered<T>(operands: Seq<Operand<'_, T>>, idx: Seq<int>) -> Seq<T> {
    Seq::new(operands.len(), |k: int| operands[k].at(idx))
}

/// `r` is what `f` gives for the values `vals`.
pub open spec fn mapped<T, R, F: Fn(&[T]) -> R>(f: F, vals: Seq<T>, r: R) -> bool {
    exists|v: &[T]| v@ == vals && #[trigger] call_ensures(f, (v,), r)
}

/// Stride that makes dimension `i` contiguous within the output grid: the
/// product of the dims after `i`.
fn row_stride(shape: &[usize], i: usize) -> (r: usize)
    requires
        i < shape.len(),
        0 < product(shape@) <= usize::MAX,
    ensures
        r == product(shape@.skip(i + 1)),
{
    proof {
        lemma_product_tail(shape@, i + 1);
        assert(shape@.subrange(i + 1, shape@.len() as int) =~= shape@.skip(i + 1));
    }
    element_count(vstd::slice::slice_subrange(shape, i + 1, shape.len()))
}

/// The operands' elements at one index.
fn gather<T: Copy>(operands: &[Operand<'_, T>], idx: &[usize], Ghost(shape): Ghost<Seq<usize>>) -> (r:
    Vec<T>)
    requires
        in_shape(index_of(idx@), shape),
        forall|k: int| 0 <= k < operands.len() ==> #[trigger] operands@[k].covers(shape),
    ensures
        r@ == gathered(operands@, index_of(idx@)),
{
    let mut vals: Vec<T> = Vec::with_capacity(operands.len());
    let mut k: usize = 0;
    while k < operands.len()
        invariant
            0 <= k <= operands.len(),
            in_shape(index_of(idx@), shape),
            forall|j: int| 0 <= j < operands.len() ==> #[trigger] operands@[j].covers(shape),
            vals@ == gathered(operands@, index_of(idx@)).take(k as int),
        decreases operands.len() - k,
    {
        let op = &operands[k];
        proof {
            assert(operands@[k as int].covers(shape));
            lemma_dot_nonnegative(index_of(idx@), op.strides@);
        }
        let at: usize = offset_of(idx, op.strides);
        vals.push(op.data[at]);
        k = k + 1;
        let ghost all = gathered(operands@, index_of(idx@));
        assert(all.take(k as int) =~= all.take(k - 1).push(all[k - 1]));
    }
    assert(vals@ =~= gathered(operands@, index_of(idx@)));
    vals
}

/// The operands' elements at one flat position.
fn gather_flat<T: Copy>(operands: &[Operand<'_, T>], pos: usize) -> (r: Vec<T>)
    requires
        forall|k: int| 0 <= k < operands.len() ==> pos < #[trigger] operands@[k].data.len(),
    ensures
        r.len() == operands.len(),
        forall|k: int| 0 <= k < operands.len() ==> r@[k] == operands@[k].data@[pos as int],
{
    let mut vals: Vec<T> = Vec::with_capacity(operands.len());
    let mut k: usize = 0;
    while k < operands.len()
        invariant
            0 <= k <= operands.len(),
            vals.len() == k,
            forall|j: int| 0 <= j < operands.len() ==> pos < #[trigger] operands@[j].data.len(),
            forall|j: int| 0 <= j < k ==> vals@[j] == operands@[j].data@[pos as int],
        decreases operands.len() - k,
    {
        assert(pos < operands@[k as int].data.len());
        vals.push(operands[k].data[pos]);
        k = k + 1;
    }
    vals
}

/// Visits every element of the output grid `shape`, resolving each operand
/// through its strides and feeding the operand values to `f`.
///
/// Returns the collected results in row-major order.
pub fn map_n<T: Copy, R, F: Fn(&[T]) -> R>(
    shape: &[usize],
    operands: &[Operand<'_, T>],
    f: F,
) -> (r: Vec<R>)
    requires
        product(shape@) <= usize::MAX,
        product(shape@) > 0 ==> forall|k: int|
            0 <= k < operands.len() ==> #[trigger] operands@[k].covers(shape@),
        forall|idx: Seq<int>, v: &[T]| #[trigger]
            in_shape(idx, shape@) && v@ == gathered(operands@, idx) ==> #[trigger] call_requires(
                f,
                (v,),
            ),
    ensures
        r.len() == product(shape@),
        forall|p: int|
            0 <= p < product(shape@) ==> mapped(
                f,
                gathered(operands@, unravel(p, shape@)),
                #[trigger] r@[p],
            ),
{
    let count: usize = element_count(shape);
    let mut out: Vec<R> = Vec::with_capacity(count);
    if count == 0 {
        return out;
    }
    let mut flat = shape.len() > 0;
    let mut k: usize = 0;
    while k < operands.len()
        invariant
            0 <= k <= operands.len(),
            0 < product(shape@) <= usize::MAX,
            forall|j: int| 0 <= j < operands.len() ==> #[trigger] operands@[j].covers(shape@),
            flat ==> forall|j: int|
                0 <= j < k ==> walks_rows(
                    shape@,
                    (#[trigger] operands@[j]).strides@.take(shape.len() as int),
                ) && product(shape@) <= operands@[j].data.len(),
        decreases operands.len() - k,
    {
        assert(operands@[k as int].covers(shape@));
        if flat && !operands[k].is_flat(shape) {
            flat = false;
        }
        k = k + 1;
    }
    if flat {
        let mut pos: usize = 0;
        while pos < count
            invariant
                0 <= pos <= count,
                count == product(shape@),
                out.len() == pos,
                forall|j: int| 0 <= j < operands.len() ==> #[trigger] operands@[j].covers(shape@),
                forall|j: int|
                    0 <= j < operands.len() ==> walks_rows(
                        shape@,
                        (#[trigger] operands@[j]).strides@.take(shape.len() as int),
                    ) && product(shape@) <= operands@[j].data.len(),
                forall|idx: Seq<int>, v: &[T]| #[trigger]
                    in_shape(idx, shape@) && v@ == gathered(operands@, idx) ==> #[trigger]
                    call_requires(f, (v,)),
                forall|p: int|
                    0 <= p < pos ==> mapped(
                        f,
                        gathered(operands@, unravel(p, shape@)),
                        #[trigger] out@[p],
                    ),
            decreases count - pos,
        {
            let vals = gather_flat(operands, pos);
            proof {
                let idx = unravel(pos as int, shape@);
                lemma_unravel(pos as int, shape@);
                assert forall|j: int| 0 <= j < operands.len() implies vals@[j]
                    == #[trigger] operands@[j].at(idx) by {
                    assert(operands@[j].covers(shape@));
                    lemma_dot_prefix(idx, operands@[j].strides@);
                    lemma_dot_rows(
                        idx,
                        shape@,
                        operands@[j].strides@.take(shape.len() as int),
                    );
                }
                assert(vals@ =~= gathered(operands@, idx));
            }
            let vals_slice = vals.as_slice();
            let r = f(vals_slice);
            assert(mapped(f, gathered(operands@, unravel(pos as int, shape@)), r));
            out.push(r);
            pos = pos + 1;
        }
        return out;
    }
    let mut idx: Vec<usize> = vec![0usize; shape.len()];
    proof {
        lemma_product_positive(shape@);
        assert(in_shape(index_of(idx@), shape@));
        lemma_ravel_zero(index_of(idx@), shape@);
    }
    let mut pos: usize = 0;
    while pos < count
        invariant
            0 <= pos <= count,
            count == product(shape@),
            out.len() == pos,
            in_shape(index_of(idx@), shape@),
            pos < count ==> ravel(index_of(idx@), shape@) == pos,
            forall|j: int| 0 <= j < operands.len() ==> #[trigger] operands@[j].covers(shape@),
            forall|ix: Seq<int>, v: &[T]| #[trigger]
                in_shape(ix, shape@) && v@ == gathered(operands@, ix) ==> #[trigger]
                call_requires(f, (v,)),
            forall|p: int|
                0 <= p < pos ==> mapped(
                    f,
                    gathered(operands@, unravel(p, shape@)),
                    #[trigger] out@[p],
                ),
        decreases count - pos,
    {
        proof {
            lemma_ravel(index_of(idx@), shape@);
        }
        let vals = gather(operands, idx.as_slice(), Ghost(shape@));
        let vals_slice = vals.as_slice();
        let r = f(vals_slice);
        assert(mapped(f, gathered(operands@, unravel(pos as int, shape@)), r));
        out.push(r);
        advance(&mut idx, shape);
        pos = pos + 1;
    }
    out
}

} // verus!
