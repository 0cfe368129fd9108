//! Shape and stride algebra.
//!
//! All functions are pure arithmetic over dimension lists;
//! [`crate::tensor::Tensor`] owns the state.

pub mod laws;

use vstd::prelude::*;
use vstd::arithmetic::div_mod::*;
use vstd::arithmetic::mul::*;
use vstd::string::*;
use crate::error::{ErrorText, OxitorchError, OxitorchResult};
use crate::index::{
    dot, in_shape, lemma_product_concat, lemma_product_positive, lemma_product_tail, product,
};
use crate::text::{
    dims_string, dims_text, i64_string, int_text, ints, join2, join3, join5, list_text, nat_text,
    signed_dims_string, signed_ints, usize_string,
};

verus! {

// ---- element counts and strides ------------------------------------------

/// The row-major stride of dimension `i`: the product of the later
/// dimensions, held at the largest machine value when it exceeds that.
pub open spec fn row_stride_of(shape: Seq<usize>, i: int) -> usize {
    if product(shape.skip(i + 1)) <= usize::MAX {
        product(shape.skip(i + 1)) as usize
    } else {
        usize::MAX
    }
}

/// The row-major strides of `shape`.
pub open spec fn strides_of(shape: Seq<usize>) -> Seq<usize> {
    Seq::new(shape.len(), |i: int| row_stride_of(shape, i))
}

/// Multiplying the dimensions from left to right never leaves `usize`.
pub open spec fn count_fits(shape: Seq<usize>) -> bool {
    forall|k: int| 0 <= k <= shape.len() ==> product(#[trigger] shape.take(k)) <= usize::MAX
}

/// The complaint about a shape with too many elements.
pub open spec fn overflow_error(dims: Seq<int>) -> ErrorText {
    ErrorText::InvalidArgument(
        "number of elements for shape "@ + list_text(dims) + " overflows usize"@,
    )
}

/// Some dimension is negative.
pub open spec fn has_negative(dims: Seq<i64>) -> bool {
    exists|i: int| 0 <= i < dims.len() && #[trigger] dims[i] < 0
}

/// Signed dimensions as machine sizes.
pub open spec fn sizes_of(dims: Seq<i64>) -> Seq<usize> {
    Seq::new(dims.len(), |i: int| dims[i] as usize)
}

/// Every dimension is a machine size and the element count fits.
pub open spec fn sizes_fit(dims: Seq<i64>) -> bool {
    &&& forall|i: int| 0 <= i < dims.len() ==> #[trigger] dims[i] <= usize::MAX
    &&& count_fits(sizes_of(dims))
}

/// Why `dims` is not a shape, if it is not.
pub open spec fn shape_error(dims: Seq<i64>) -> Option<ErrorText> {
    if has_negative(dims) {
        Some(
            ErrorText::InvalidArgument(
                "dimensions must be non-negative, got "@ + list_text(signed_ints(dims)),
            ),
        )
    } else if !sizes_fit(dims) {
        Some(overflow_error(signed_ints(dims)))
    } else {
        None
    }
}

/// Row-major (C-contiguous) strides in elements for `shape`.
///
/// A 0-d shape has no strides; all sizes (including 0) are legal.
#[must_use]
pub fn row_major_strides(shape: &[usize]) -> (r: Vec<usize>)
    ensures
        r@ == strides_of(shape@),
{
    let mut strides: Vec<usize> = vec![0usize; shape.len()];
    let mut acc: usize = 1;
    let mut i: usize = shape.len();
    while i > 0
        invariant
            0 <= i <= shape.len(),
            strides.len() == shape.len(),
            acc == row_stride_of(shape@, i - 1),
            forall|j: int| i <= j < shape.len() ==> strides@[j] == row_stride_of(shape@, j),
        decreases i,
    {
        i = i - 1;
        strides[i] = acc;
        proof {
            let later = product(shape@.skip(i + 1));
            assert(shape@.skip(i as int).skip(1) =~= shape@.skip(i + 1));
            assert(product(shape@.skip(i as int)) == shape@[i as int] * later);
            let d = shape@[i as int] as int;
            if later <= usize::MAX {
                lemma_mul_is_commutative(d, later as int);
            } else if d == 0 {
                assert(d * later == 0 && usize::MAX * d == 0) by (nonlinear_arith)
                    requires
                        d == 0,
                ;
            } else {
                assert(d * later >= later && usize::MAX * d >= usize::MAX) by (nonlinear_arith)
                    requires
                        d >= 1,
                        later >= 0,
                ;
            }
        }
        acc = match acc.checked_mul(shape[i]) {
            Some(v) => v,
            None => usize::MAX,
        };
    }
    assert(strides@ =~= strides_of(shape@));
    strides
}

/// Total element count (`1` for 0-d shapes).
#[must_use]
pub fn element_count(shape: &[usize]) -> (r: usize)
    requires
        product(shape@) <= usize::MAX,
    ensures
        r == product(shape@),
{
    let mut acc: usize = 1;
    let mut i: usize = shape.len();
    let ghost base = usize::MAX + 1;
    proof {
        lemma_small_mod(1, base as nat);
    }
    while i > 0
        invariant
            0 <= i <= shape.len(),
            base == usize::MAX + 1,
            acc == product(shape@.skip(i as int)) % base as nat,
        decreases i,
    {
        i = i - 1;
        proof {
            let later = product(shape@.skip(i + 1));
            let d = shape@[i as int] as int;
            assert(shape@.skip(i as int).skip(1) =~= shape@.skip(i + 1));
            lemma_mul_mod_noop_right(d, later as int, base);
            lemma_mul_is_commutative(d, later as int % base);
        }
        acc = acc.wrapping_mul(shape[i]);
    }
    proof {
        assert(shape@.skip(0) =~= shape@);
        lemma_small_mod(product(shape@), base as nat);
    }
    acc
}

/// Whether `strides` is exactly the canonical row-major layout for `shape`.
///
/// This is the definition of "contiguous" used throughout: a tensor is
/// contiguous iff `strides == row_major_strides(shape)`. (An offset into a
/// shared storage does not affect contiguity.)
#[must_use]
pub fn is_contiguous(shape: &[usize], strides: &[usize]) -> (r: bool)
    ensures
        r == (strides@ == strides_of(shape@)),
{
    shape.len() == strides.len() && same_dims(strides, row_major_strides(shape).as_slice())
}

/// Whether two dimension lists are equal.
pub fn same_dims(a: &[usize], b: &[usize]) -> (r: bool)
    ensures
        r == (a@ == b@),
{
    if a.len() != b.len() {
        return false;
    }
    let mut i: usize = 0;
    while i < a.len()
        invariant
            0 <= i <= a.len(),
            a.len() == b.len(),
            forall|j: int| 0 <= j < i ==> a@[j] == b@[j],
        decreases a.len() - i,
    {
        if a[i] != b[i] {
            return false;
        }
        i = i + 1;
    }
    assert(a@ =~= b@);
    true
}

/// Dimensions as signed 64-bit numbers.
pub open spec fn signed_dims(dims: Seq<usize>) -> Seq<i64> {
    Seq::new(dims.len(), |i: int| dims[i] as i64)
}

/// Dimensions as signed 64-bit numbers.
pub fn to_signed(dims: &[usize]) -> (r: Vec<i64>)
    ensures
        r@ == signed_dims(dims@),
{
    let mut out: Vec<i64> = Vec::with_capacity(dims.len());
    let mut i: usize = 0;
    while i < dims.len()
        invariant
            0 <= i <= dims.len(),
            out@ == signed_dims(dims@).take(i as int),
        decreases dims.len() - i,
    {
        out.push(#[verifier::truncate] (dims[i] as i64));
        i = i + 1;
        let ghost all = signed_dims(dims@);
        assert(all.take(i as int) =~= all.take(i - 1).push(all[i - 1]));
    }
    assert(out@ =~= signed_dims(dims@));
    out
}

/// A copy of a dimension list.
pub fn copy_dims(dims: &[usize]) -> (r: Vec<usize>)
    ensures
        r@ == dims@,
{
    let mut out: Vec<usize> = Vec::with_capacity(dims.len());
    let mut i: usize = 0;
    while i < dims.len()
        invariant
            0 <= i <= dims.len(),
            out@ == dims@.take(i as int),
        decreases dims.len() - i,
    {
        out.push(dims[i]);
        i = i + 1;
        assert(dims@.take(i as int) =~= dims@.take(i - 1).push(dims@[i - 1]));
    }
    assert(dims@.take(i as int) =~= dims@);
    out
}

proof fn lemma_take_step(shape: Seq<usize>, k: int)
    requires
        0 <= k < shape.len(),
    ensures
        product(shape.take(k + 1)) == product(shape.take(k)) * shape[k],
{
    assert(shape.take(k + 1) =~= shape.take(k) + seq![shape[k]]);
    lemma_product_concat(shape.take(k), seq![shape[k]]);
    assert(seq![shape[k]].skip(1) =~= Seq::<usize>::empty());
    reveal_with_fuel(product, 2);
}

/// The number of elements, when multiplying left to right stays in range.
fn checked_count(shape: &[usize]) -> (r: Option<usize>)
    ensures
        r matches Some(n) ==> count_fits(shape@) && n == product(shape@),
        r is None ==> !count_fits(shape@),
{
    let mut acc: usize = 1;
    let mut i: usize = 0;
    while i < shape.len()
        invariant
            0 <= i <= shape.len(),
            acc == product(shape@.take(i as int)),
            forall|k: int| 0 <= k <= i ==> product(#[trigger] shape@.take(k)) <= usize::MAX,
        decreases shape.len() - i,
    {
        proof {
            lemma_take_step(shape@, i as int);
        }
        match acc.checked_mul(shape[i]) {
            Some(v) => {
                acc = v;
            },
            None => {
                assert(product(shape@.take(i + 1)) > usize::MAX);
                return None;
            },
        }
        i = i + 1;
    }
    assert(shape@.take(i as int) =~= shape@);
    Some(acc)
}

/// Validates non-negative dims and that the element count fits in `usize`.
pub fn validate_shape(dims: &[i64]) -> (r: OxitorchResult<Vec<usize>>)
    ensures
        match r {
            Ok(v) => shape_error(dims@) is None && v@ == sizes_of(dims@),
            Err(e) => shape_error(dims@) == Some(e@),
        },
{
    let mut i: usize = 0;
    while i < dims.len()
        invariant
            0 <= i <= dims.len(),
            forall|j: int| 0 <= j < i ==> #[trigger] dims@[j] >= 0,
        decreases dims.len() - i,
    {
        if dims[i] < 0 {
            assert(has_negative(dims@));
            return Err(
                OxitorchError::InvalidArgument(
                    join2(
                        "dimensions must be non-negative, got ",
                        signed_dims_string(dims).as_str(),
                    ),
                ),
            );
        }
        i = i + 1;
    }
    let mut sizes: Vec<usize> = Vec::with_capacity(dims.len());
    let mut fits = true;
    let mut k: usize = 0;
    while k < dims.len()
        invariant
            0 <= k <= dims.len(),
            forall|j: int| 0 <= j < dims.len() ==> #[trigger] dims@[j] >= 0,
            sizes@ == sizes_of(dims@).take(k as int),
            fits == (forall|j: int| 0 <= j < k ==> #[trigger] dims@[j] <= usize::MAX),
        decreases dims.len() - k,
    {
        if dims[k] as u64 > usize::MAX as u64 {
            fits = false;
        }
        sizes.push(#[verifier::truncate] (dims[k] as usize));
        k = k + 1;
        assert(sizes_of(dims@).take(k as int) =~= sizes_of(dims@).take(k - 1).push(
            sizes_of(dims@)[k - 1],
        ));
    }
    assert(sizes@ =~= sizes_of(dims@));
    if fits {
        if let Some(_n) = checked_count(sizes.as_slice()) {
            return Ok(sizes);
        }
    }
    Err(overflow(signed_dims_string(dims)))
}

/// The complaint about a shape with too many elements.
pub(crate) fn overflow(dims: String) -> (r: OxitorchError)
    ensures
        r@ == ErrorText::InvalidArgument(
            "number of elements for shape "@ + dims@ + " overflows usize"@,
        ),
{
    OxitorchError::InvalidArgument(
        join3("number of elements for shape ", dims.as_str(), " overflows usize"),
    )
}

/// Element count, erroring on `usize` overflow instead of wrapping.
pub fn element_count_checked(shape: &[usize]) -> (r: OxitorchResult<usize>)
    ensures
        match r {
            Ok(n) => count_fits(shape@) && n == product(shape@),
            Err(e) => !count_fits(shape@) && e@ == overflow_error(ints(shape@)),
        },
{
    match checked_count(shape) {
        Some(n) => Ok(n),
        None => Err(overflow(dims_string(shape))),
    }
}

/// Whether a shape's element count is a machine size, whatever the order of
/// its dimensions.
pub(crate) fn has_count(shape: &[usize]) -> (r: bool)
    ensures
        r == (product(shape@) <= usize::MAX),
{
    let mut i: usize = 0;
    while i < shape.len()
        invariant
            0 <= i <= shape.len(),
            forall|j: int| 0 <= j < i ==> #[trigger] shape@[j] > 0,
        decreases shape.len() - i,
    {
        if shape[i] == 0 {
            proof {
                lemma_product_positive(shape@);
            }
            return true;
        }
        i = i + 1;
    }
    proof {
        lemma_product_positive(shape@);
    }
    let r = checked_count(shape);
    proof {
        if r is None {
            let k = choose|k: int|
                0 <= k <= shape@.len() && product(#[trigger] shape@.take(k)) > usize::MAX;
            assert(shape@ =~= shape@.take(k) + shape@.skip(k));
            lemma_product_concat(shape@.take(k), shape@.skip(k));
            lemma_product_tail(shape@, k);
            assert(product(shape@) >= product(shape@.take(k))) by (nonlinear_arith)
                requires
                    product(shape@) == product(shape@.take(k)) * product(shape@.skip(k)),
                    product(shape@.skip(k)) > 0,
            ;
        } else {
            assert(shape@.take(shape@.len() as int) =~= shape@);
        }
    }
    r.is_some()
}

// ---- broadcasting ---------------------------------------------------------

/// Dimension `i` of `shape` when its dimensions are aligned to the right of
/// `rank` dimensions and padded with ones.
pub open spec fn aligned_dim(shape: Seq<usize>, rank: nat, i: int) -> usize {
    if i >= rank - shape.len() {
        shape[i - (rank - shape.len())]
    } else {
        1
    }
}

/// The larger rank.
pub open spec fn joint_rank(a: Seq<usize>, b: Seq<usize>) -> nat {
    if a.len() >= b.len() {
        a.len()
    } else {
        b.len()
    }
}

/// Two dimensions can be broadcast together: equal, or one of them 1.
pub open spec fn dims_agree(x: usize, y: usize) -> bool {
    x == y || x == 1 || y == 1
}

/// Every pair of right-aligned dimensions can be broadcast together.
pub open spec fn broadcastable(a: Seq<usize>, b: Seq<usize>) -> bool {
    forall|i: int|
        0 <= i < joint_rank(a, b) ==> dims_agree(
            #[trigger] aligned_dim(a, joint_rank(a, b), i),
            aligned_dim(b, joint_rank(a, b), i),
        )
}

/// The broadcast shape: of each pair the dimension that is not 1.
pub open spec fn broadcast_of(a: Seq<usize>, b: Seq<usize>) -> Seq<usize> {
    Seq::new(
        joint_rank(a, b),
        |i: int|
            if aligned_dim(a, joint_rank(a, b), i) == 1 {
                aligned_dim(b, joint_rank(a, b), i)
            } else {
                aligned_dim(a, joint_rank(a, b), i)
            },
    )
}

/// The complaint about two shapes that do not agree.
pub open spec fn mismatch_error(a: Seq<usize>, b: Seq<usize>) -> ErrorText {
    ErrorText::ShapeMismatch { lhs: dims_text(a), rhs: dims_text(b) }
}

/// `shape` can be broadcast to exactly `out`.
pub open spec fn expands_to(shape: Seq<usize>, out: Seq<usize>) -> bool {
    &&& shape.len() <= out.len()
    &&& forall|j: int|
        0 <= j < shape.len() ==> #[trigger] shape[j] == 1 || shape[j] == out[j + out.len()
            - shape.len()]
}

/// The strides that walk a tensor of `shape` and `strides` over `out`.
pub open spec fn expanded_strides(
    shape: Seq<usize>,
    strides: Seq<usize>,
    out: Seq<usize>,
) -> Seq<usize> {
    Seq::new(
        out.len(),
        |i: int|
            if i >= out.len() - shape.len() && shape[i - (out.len() - shape.len())] != 1 {
                strides[i - (out.len() - shape.len())]
            } else {
                0
            },
    )
}

/// The element of a tensor of `shape` that broadcasting places at `idx`.
pub open spec fn broadcast_index(idx: Seq<int>, shape: Seq<usize>) -> Seq<int> {
    Seq::new(
        shape.len(),
        |j: int|
            if shape[j] == 1 {
                0
            } else {
                idx[j + idx.len() - shape.len()]
            },
    )
}

/// The complaint about two shapes that do not agree.
pub(crate) fn mismatch(a: &[usize], b: &[usize]) -> (r: OxitorchError)
    ensures
        r@ == mismatch_error(a@, b@),
{
    OxitorchError::ShapeMismatch { lhs: dims_string(a), rhs: dims_string(b) }
}

fn aligned(shape: &[usize], rank: usize, i: usize) -> (r: usize)
    requires
        shape.len() <= rank,
        i < rank,
    ensures
        r == aligned_dim(shape@, rank as nat, i as int),
{
    let lead: usize = rank - shape.len();
    if i >= lead {
        shape[i - lead]
    } else {
        1
    }
}

/// NumPy/PyTorch broadcasting: dims align right; each pair must be equal or
/// one of them 1. Returns the broadcast shape.
pub fn broadcast_shapes(a: &[usize], b: &[usize]) -> (r: OxitorchResult<Vec<usize>>)
    ensures
        match r {
            Ok(v) => broadcastable(a@, b@) && v@ == broadcast_of(a@, b@),
            Err(e) => !broadcastable(a@, b@) && e@ == mismatch_error(a@, b@),
        },
{
    let rank: usize = if a.len() >= b.len() {
        a.len()
    } else {
        b.len()
    };
    let mut out: Vec<usize> = Vec::with_capacity(rank);
    let mut i: usize = 0;
    while i < rank
        invariant
            0 <= i <= rank,
            rank == joint_rank(a@, b@),
            out@ == broadcast_of(a@, b@).take(i as int),
            forall|j: int|
                0 <= j < i ==> dims_agree(
                    #[trigger] aligned_dim(a@, rank as nat, j),
                    aligned_dim(b@, rank as nat, j),
                ),
        decreases rank - i,
    {
        let da: usize = aligned(a, rank, i);
        let db: usize = aligned(b, rank, i);
        if da != db && da != 1 && db != 1 {
            assert(!dims_agree(
                aligned_dim(a@, rank as nat, i as int),
                aligned_dim(b@, rank as nat, i as int),
            ));
            return Err(mismatch(a, b));
        }
        if da == 1 {
            out.push(db);
        } else {
            out.push(da);
        }
        i = i + 1;
        assert(broadcast_of(a@, b@).take(i as int) =~= broadcast_of(a@, b@).take(i - 1).push(
            broadcast_of(a@, b@)[i - 1],
        ));
    }
    assert(out@ =~= broadcast_of(a@, b@));
    Ok(out)
}

/// Maps `strides` of a tensor with `shape` onto `out_shape` for broadcasting:
/// leading missing dims get stride 0, and any dim where the tensor is 1 gets
/// stride 0.
///
/// Fails with [`OxitorchError::ShapeMismatch`] if `shape` cannot broadcast to
/// `out_shape`.
pub fn broadcast_strides(shape: &[usize], strides: &[usize], out_shape: &[usize]) -> (r:
    OxitorchResult<Vec<usize>>)
    requires
        strides.len() >= shape.len(),
    ensures
        match r {
            Ok(v) => expands_to(shape@, out_shape@) && v@ == expanded_strides(
                shape@,
                strides@,
                out_shape@,
            ),
            Err(e) => !expands_to(shape@, out_shape@) && e@ == mismatch_error(
                shape@,
                out_shape@,
            ),
        },
{
    if shape.len() > out_shape.len() {
        return Err(mismatch(shape, out_shape));
    }
    let lead: usize = out_shape.len() - shape.len();
    let mut out: Vec<usize> = Vec::with_capacity(out_shape.len());
    let mut i: usize = 0;
    while i < out_shape.len()
        invariant
            0 <= i <= out_shape.len(),
            lead == out_shape.len() - shape.len(),
            strides.len() >= shape.len(),
            out@ == expanded_strides(shape@, strides@, out_shape@).take(i as int),
            forall|j: int|
                0 <= j < i - lead ==> #[trigger] shape@[j] == 1 || shape@[j] == out_shape@[j
                    + lead],
        decreases out_shape.len() - i,
    {
        let ghost full = expanded_strides(shape@, strides@, out_shape@);
        if i < lead {
            out.push(0);
        } else {
            let j: usize = i - lead;
            if shape[j] == 1 {
                out.push(0);
            } else if shape[j] == out_shape[i] {
                out.push(strides[j]);
            } else {
                assert(!(shape@[j as int] == 1 || shape@[j as int] == out_shape@[j + lead]));
                return Err(mismatch(shape, out_shape));
            }
        }
        i = i + 1;
        assert(full.take(i as int) =~= full.take(i - 1).push(full[i - 1]));
    }
    assert(out@ =~= expanded_strides(shape@, strides@, out_shape@));
    Ok(out)
}

/// Broadcasting reads an element that exists, at the place the expanded
/// strides point to.
pub proof fn lemma_broadcast_index(
    idx: Seq<int>,
    shape: Seq<usize>,
    strides: Seq<usize>,
    out: Seq<usize>,
)
    requires
        expands_to(shape, out),
        in_shape(idx, out),
        strides.len() == shape.len(),
    ensures
        in_shape(broadcast_index(idx, shape), shape),
        dot(idx, expanded_strides(shape, strides, out)) == dot(
            broadcast_index(idx, shape),
            strides,
        ),
    decreases out.len(),
{
    let from = broadcast_index(idx, shape);
    let lead = out.len() - shape.len();
    assert forall|j: int| 0 <= j < shape.len() implies 0 <= #[trigger] from[j] < shape[j] by {
        assert(0 <= idx[j + lead] < out[j + lead]);
        assert(shape[j] == 1 || shape[j] == out[j + lead]);
    }
    if out.len() > 0 {
        let wide = expanded_strides(shape, strides, out);
        let rest = out.skip(1);
        let tail = idx.skip(1);
        assert(dot(idx, wide) == idx[0] * wide[0] + dot(tail, wide.skip(1)));
        assert(in_shape(tail, rest)) by {
            assert forall|i: int| 0 <= i < rest.len() implies 0 <= #[trigger] tail[i] < rest[i] by {
                assert(0 <= idx[i + 1] < out[i + 1]);
            }
        }
        if lead > 0 {
            assert(expands_to(shape, rest)) by {
                assert forall|j: int| 0 <= j < shape.len() implies #[trigger] shape[j] == 1
                    || shape[j] == rest[j + rest.len() - shape.len()] by {
                    assert(shape[j] == 1 || shape[j] == out[j + lead]);
                }
            }
            lemma_broadcast_index(tail, shape, strides, rest);
            assert(wide.skip(1) =~= expanded_strides(shape, strides, rest));
            assert(broadcast_index(tail, shape) =~= from);
            assert(idx[0] * wide[0] == 0);
        } else {
            let inner = shape.skip(1);
            assert(expands_to(inner, rest)) by {
                assert forall|j: int| 0 <= j < inner.len() implies #[trigger] inner[j] == 1
                    || inner[j] == rest[j + rest.len() - inner.len()] by {
                    assert(shape[j + 1] == 1 || shape[j + 1] == out[j + 1]);
                }
            }
            lemma_broadcast_index(tail, inner, strides.skip(1), rest);
            assert(wide.skip(1) =~= expanded_strides(inner, strides.skip(1), rest));
            assert(broadcast_index(tail, inner) =~= from.skip(1));
            assert(dot(from, strides) == from[0] * strides[0] + dot(from.skip(1), strides.skip(1)));
            if shape[0] == 1 {
                assert(idx[0] * wide[0] == 0 && from[0] * strides[0] == 0);
            } else {
                assert(wide[0] == strides[0] && from[0] == idx[0]);
            }
        }
    }
}

/// Broadcasting does not depend on the order of its operands.
pub proof fn law_broadcast_symmetric(a: Seq<usize>, b: Seq<usize>)
    ensures
        broadcastable(a, b) <==> broadcastable(b, a),
        broadcastable(a, b) ==> broadcast_of(a, b) == broadcast_of(b, a),
{
    let n = joint_rank(a, b);
    assert(joint_rank(b, a) == n);
    if broadcastable(a, b) {
        assert forall|i: int| 0 <= i < n implies dims_agree(
            #[trigger] aligned_dim(b, n, i),
            aligned_dim(a, n, i),
        ) by {
            assert(dims_agree(aligned_dim(a, n, i), aligned_dim(b, n, i)));
        }
        assert forall|i: int| 0 <= i < n implies broadcast_of(a, b)[i] == broadcast_of(b, a)[i] by {
            assert(dims_agree(aligned_dim(a, n, i), aligned_dim(b, n, i)));
        }
        assert(broadcast_of(a, b) =~= broadcast_of(b, a));
    }
    if broadcastable(b, a) {
        assert forall|i: int| 0 <= i < n implies dims_agree(
            #[trigger] aligned_dim(a, n, i),
            aligned_dim(b, n, i),
        ) by {
            assert(dims_agree(aligned_dim(b, n, i), aligned_dim(a, n, i)));
        }
    }
}

/// A shape broadcast with itself, or with a 0-d shape, is unchanged.
pub proof fn law_broadcast_identity(a: Seq<usize>)
    ensures
        broadcastable(a, a) && broadcast_of(a, a) == a,
        broadcastable(a, Seq::<usize>::empty()) && broadcast_of(a, Seq::<usize>::empty()) == a,
{
    let none = Seq::<usize>::empty();
    assert(broadcast_of(a, a) =~= a);
    assert(broadcast_of(a, none) =~= a);
}

/// Both operands of a broadcast expand to the broadcast shape.
pub proof fn law_broadcast_covers_operands(a: Seq<usize>, b: Seq<usize>)
    requires
        broadcastable(a, b),
    ensures
        expands_to(a, broadcast_of(a, b)),
        expands_to(b, broadcast_of(a, b)),
{
    let n = joint_rank(a, b);
    let out = broadcast_of(a, b);
    assert forall|j: int| 0 <= j < a.len() implies #[trigger] a[j] == 1 || a[j] == out[j + n
        - a.len()] by {
        let i = j + n - a.len();
        assert(dims_agree(aligned_dim(a, n, i), aligned_dim(b, n, i)));
    }
    assert forall|j: int| 0 <= j < b.len() implies #[trigger] b[j] == 1 || b[j] == out[j + n
        - b.len()] by {
        let i = j + n - b.len();
        assert(dims_agree(aligned_dim(a, n, i), aligned_dim(b, n, i)));
    }
}

/// A shape expands to another exactly when broadcasting the two gives the
/// other.
pub proof fn law_expands_iff_broadcast_keeps(shape: Seq<usize>, out: Seq<usize>)
    ensures
        expands_to(shape, out) <==> broadcastable(shape, out) && broadcast_of(shape, out) == out,
{
    let n = joint_rank(shape, out);
    if expands_to(shape, out) {
        assert forall|i: int| 0 <= i < n implies dims_agree(
            #[trigger] aligned_dim(shape, n, i),
            aligned_dim(out, n, i),
        ) by {
            if i >= n - shape.len() {
                let j = i - (n - shape.len());
                assert(shape[j] == 1 || shape[j] == out[j + out.len() - shape.len()]);
            }
        }
        assert forall|i: int| 0 <= i < n implies broadcast_of(shape, out)[i] == out[i] by {
            if i >= n - shape.len() {
                let j = i - (n - shape.len());
                assert(shape[j] == 1 || shape[j] == out[j + out.len() - shape.len()]);
            }
        }
        assert(broadcast_of(shape, out) =~= out);
    }
    if broadcastable(shape, out) && broadcast_of(shape, out) == out {
        assert(out.len() == n);
        assert forall|j: int| 0 <= j < shape.len() implies #[trigger] shape[j] == 1 || shape[j]
            == out[j + out.len() - shape.len()] by {
            let i = j + n - shape.len();
            assert(aligned_dim(shape, n, i) == shape[j]);
            assert(broadcast_of(shape, out)[i] == out[i]);
        }
    }
}

// ---- slices and dimensions -------------------------------------------------

/// A slice bound resolved against a dimension of length `len`: negative
/// bounds count from the end, and the result stays within `0..=len`.
pub open spec fn resolve_bound(len: int, v: int) -> int {
    if v < 0 {
        if len + v < 0 {
            0
        } else {
            len + v
        }
    } else if v < len {
        v
    } else {
        len
    }
}

/// How many of `lo`, `lo + by`, `lo + 2 * by`, ... lie below `hi`.
pub open spec fn span_len(lo: int, hi: int, by: int) -> int {
    if hi <= lo {
        0
    } else {
        (hi - lo + by - 1) / by
    }
}

/// A dimension index with negative values counted from the end.
pub open spec fn resolve_dim(dim: int, ndim: int) -> int {
    if dim < 0 {
        dim + ndim
    } else {
        dim
    }
}

/// The complaint about a dimension index out of range.
pub open spec fn dim_error(dim: int, ndim: int) -> ErrorText {
    ErrorText::InvalidArgument(
        "dim "@ + int_text(dim) + " out of range for "@ + nat_text(ndim as nat) + "-D tensor"@,
    )
}

/// The distance of a negative number from zero.
fn magnitude(v: i64) -> (r: u64)
    requires
        v < 0,
    ensures
        r == -v,
{
    if v == i64::MIN {
        9_223_372_036_854_775_808
    } else {
        (0 - v) as u64
    }
}

/// A slice bound resolved against a dimension of length `len`.
pub(crate) fn resolved_bound(len: usize, v: i64) -> (r: usize)
    ensures
        r == resolve_bound(len as int, v as int),
{
    if v < 0 {
        let back: u64 = magnitude(v);
        if back > len as u64 {
            0
        } else {
            len - back as usize
        }
    } else if (v as u64) < len as u64 {
        v as usize
    } else {
        len
    }
}

/// Normalized slice bounds for one dim: `(lo, hi, by)` with negative
/// bounds resolved against `len`, `hi` clamped, matching Python's `range`
/// semantics. `by` must be positive.
///
/// A step beyond the largest machine size is held at that size: like any step
/// of at least `len`, it selects the first element alone.
pub fn normalize_slice(len: usize, lo: i64, hi: i64, by: i64) -> (r: OxitorchResult<
    (usize, usize, usize),
>)
    ensures
        match r {
            Ok((l, h, s)) => {
                let low = resolve_bound(len as int, lo as int);
                let high = resolve_bound(len as int, hi as int);
                &&& by > 0
                &&& l == low
                &&& h == if high < low {
                    low
                } else {
                    high
                }
                &&& s == if by <= usize::MAX {
                    by as int
                } else {
                    usize::MAX as int
                }
            },
            Err(e) => by <= 0 && e@ == ErrorText::NotImplemented(
                "negative slice steps are not supported yet"@,
            ),
        },
{
    if by <= 0 {
        return Err(
            OxitorchError::NotImplemented("negative slice steps are not supported yet".to_string()),
        );
    }
    let low: usize = resolved_bound(len, lo);
    let high: usize = resolved_bound(len, hi);
    let stop: usize = if high < low {
        low
    } else {
        high
    };
    let step: usize = if by as u64 <= usize::MAX as u64 {
        by as usize
    } else {
        usize::MAX
    };
    Ok((low, stop, step))
}

/// Output dim length for a normalized `(lo, hi, by)` range.
#[must_use]
pub fn slice_len(lo: usize, hi: usize, by: usize) -> (r: usize)
    requires
        hi <= lo || by > 0,
    ensures
        r == span_len(lo as int, hi as int, by as int),
{
    if hi <= lo {
        0
    } else {
        let width: usize = hi - lo;
        let whole: usize = width / by;
        let rest: usize = width % by;
        proof {
            let w = width as int;
            let b = by as int;
            lemma_fundamental_div_mod(w, b);
            lemma_mul_is_commutative(b, w / b);
            if rest == 0 {
                assert(w + b - 1 == b * (w / b) + (b - 1));
                lemma_fundamental_div_mod_converse(w + b - 1, b, w / b, b - 1);
            } else {
                assert((w / b + 1) * b == b * (w / b) + b) by (nonlinear_arith);
                lemma_fundamental_div_mod_converse(w + b - 1, b, w / b + 1, rest - 1);
                assert(w / b < w) by (nonlinear_arith)
                    requires
                        w == b * (w / b) + rest,
                        rest > 0,
                        b > 0,
                        w / b >= 0,
                ;
            }
        }
        if rest == 0 {
            whole
        } else {
            whole + 1
        }
    }
}

/// A slice selects exactly the positions of its range: the first
/// `span_len(lo, hi, by)` multiples of the step lie below `hi`, the next does
/// not.
pub proof fn law_slice_selects_range(lo: int, hi: int, by: int, k: int)
    requires
        by > 0,
        0 <= k,
    ensures
        k < span_len(lo, hi, by) <==> lo + k * by < hi,
{
    if hi <= lo {
        lemma_mul_nonnegative(k, by);
    } else {
        let w = hi - lo;
        let n = span_len(lo, hi, by);
        lemma_fundamental_div_mod(w + by - 1, by);
        lemma_mod_bound(w + by - 1, by);
        if k < n {
            assert(k * by <= by * n - by) by (nonlinear_arith)
                requires
                    k <= n - 1,
                    by > 0,
            ;
        } else {
            assert(k * by >= by * n) by (nonlinear_arith)
                requires
                    k >= n,
                    by > 0,
            ;
        }
    }
}

/// Normalizes a dim index against `ndim`, accepting negatives
/// (e.g. `-1` = last dim).
pub fn normalize_dim(dim: i64, ndim: usize) -> (r: OxitorchResult<usize>)
    ensures
        match r {
            Ok(d) => 0 <= resolve_dim(dim as int, ndim as int) < ndim && d == resolve_dim(
                dim as int,
                ndim as int,
            ),
            Err(e) => !(0 <= resolve_dim(dim as int, ndim as int) < ndim) && e@ == dim_error(
                dim as int,
                ndim as int,
            ),
        },
{
    if dim < 0 {
        let back: u64 = magnitude(dim);
        if back <= ndim as u64 {
            return Ok(ndim - back as usize);
        }
    } else if (dim as u64) < ndim as u64 {
        return Ok(dim as usize);
    }
    Err(
        OxitorchError::InvalidArgument(
            join5(
                "dim ",
                i64_string(dim).as_str(),
                " out of range for ",
                usize_string(ndim).as_str(),
                "-D tensor",
            ),
        ),
    )
}

} // verus!
