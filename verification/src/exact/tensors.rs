//! What the methods of tensors compute.

use vstd::prelude::*;
use crate::elem::{Elem, is_one, is_zero};
use crate::exact::{Exact, lemma_total_equal};
use crate::exact::broadcasting::shown_at;
use crate::exact::derivatives::lemma_shown;
use crate::exact::operators::lemma_binary_value;
use crate::exact::products::law_matmul;
use crate::exact::reductions::{law_mean, law_sum};
use crate::exact::totals::lemma_total_single;
use crate::frontend::Arithmetic;
use crate::index::{index2, lemma_unravel, product, unravel};
use crate::layout::{
    broadcast_index, broadcast_of, broadcastable, law_broadcast_covers_operands, normalize_slice,
};
use crate::ops::{BinaryOp, BinaryOpSpec, ComparisonOp};
use crate::tensor::Tensor;
use crate::tensor::access::{
    law_first_out_of_range, law_mask_flags, law_mask_keeps_flagged, set_before,
};
use crate::tensor::elementwise::{comparison_gives, comparison_result};
use crate::tensor::indexing::{flags_nonzero, kept, mask_result, spread_data};
use crate::tensor::matmul::matmul_result;
use crate::types::DType;

verus! {

/// The arithmetic methods combine the numbers that broadcasting shows.
pub proof fn law_arithmetic_methods<E: Elem>(
    m: Exact<E>,
    a: &Tensor<E>,
    b: &Tensor<E>,
    r: Tensor<E>,
    p: int,
)
    requires
        m.arithmetic(),
        m.functions(),
        0 <= p < r.count(),
    ensures
        ({
            let x = m.shown(*a, r.dims(), p);
            let y = m.shown(*b, r.dims(), p);
            let r_is = m.num(r, p);
            &&& call_ensures(Tensor::<E>::add, (a, b), Ok(r)) ==> (r_is == x + y)
            &&& call_ensures(Tensor::<E>::sub, (a, b), Ok(r)) ==> (r_is == x - y)
            &&& call_ensures(Tensor::<E>::mul, (a, b), Ok(r)) ==> (r_is == x * y)
            &&& call_ensures(Tensor::<E>::div, (a, b), Ok(r)) ==> (y != 0real ==> r_is * y == x)
            &&& call_ensures(Tensor::<E>::pow, (a, b), Ok(r)) ==> (r_is == (m.pow)(x, y))
        }),
{
    if call_ensures(Tensor::<E>::add, (a, b), Ok(r)) {
        lemma_binary_value(m, BinaryOp::Add, Arithmetic::Add, *a, *b, r, p);
    }
    if call_ensures(Tensor::<E>::sub, (a, b), Ok(r)) {
        lemma_binary_value(m, BinaryOp::Sub, Arithmetic::Sub, *a, *b, r, p);
    }
    if call_ensures(Tensor::<E>::mul, (a, b), Ok(r)) {
        lemma_binary_value(m, BinaryOp::Mul, Arithmetic::Mul, *a, *b, r, p);
    }
    if call_ensures(Tensor::<E>::div, (a, b), Ok(r)) {
        lemma_binary_value(m, BinaryOp::Div, Arithmetic::Div, *a, *b, r, p);
    }
    if call_ensures(Tensor::<E>::pow, (a, b), Ok(r)) {
        lemma_binary_value(m, BinaryOp::Pow, Arithmetic::Pow, *a, *b, r, p);
    }
}

proof fn lemma_compared<E: Elem>(
    m: Exact<E>,
    op: ComparisonOp,
    a: Tensor<E>,
    b: Tensor<E>,
    r: Tensor<E>,
    p: int,
) -> (yes: bool)
    requires
        m.arithmetic(),
        m.ordered(),
        broadcastable(a.dims(), b.dims()),
        comparison_result(op, a, b, r),
        0 <= p < r.count(),
    ensures
        m.num(r, p) == if yes {
            1real
        } else {
            0real
        },
        op.says(
            a.data()[shown_at(p, r.dims(), a.dims())],
            b.data()[shown_at(p, r.dims(), b.dims())],
            yes,
        ),
{
    law_broadcast_covers_operands(a.dims(), b.dims());
    lemma_shown(a, r.dims(), p);
    lemma_shown(b, r.dims(), p);
    lemma_unravel(p, r.dims());
    let idx = unravel(p, r.dims());
    let x = a.at(broadcast_index(idx, a.dims()));
    let y = b.at(broadcast_index(idx, b.dims()));
    assert(comparison_gives(op, x, y, r.at(idx)));
    op.says(x, y, true) && is_one(r.at(idx))
}

/// The comparison methods hold 1 where the comparison of the numbers that
/// broadcasting shows is true, and 0 where it is not.
pub proof fn law_comparison_methods<E: Elem>(
    m: Exact<E>,
    a: &Tensor<E>,
    b: &Tensor<E>,
    r: Tensor<E>,
    p: int,
)
    requires
        m.arithmetic(),
        m.ordered(),
        0 <= p < r.count(),
    ensures
        ({
            let x = m.shown(*a, r.dims(), p);
            let y = m.shown(*b, r.dims(), p);
            let r_is = m.num(r, p);
            &&& call_ensures(Tensor::<E>::eq, (a, b), Ok(r)) ==> r_is == truth(x == y)
            &&& call_ensures(Tensor::<E>::ne, (a, b), Ok(r)) ==> r_is == truth(x != y)
            &&& call_ensures(Tensor::<E>::lt, (a, b), Ok(r)) ==> r_is == truth(x < y)
            &&& call_ensures(Tensor::<E>::le, (a, b), Ok(r)) ==> r_is == truth(x <= y)
            &&& call_ensures(Tensor::<E>::gt, (a, b), Ok(r)) ==> r_is == truth(x > y)
            &&& call_ensures(Tensor::<E>::ge, (a, b), Ok(r)) ==> r_is == truth(x >= y)
        }),
{
    if call_ensures(Tensor::<E>::eq, (a, b), Ok(r)) {
        let yes = lemma_compared(m, ComparisonOp::Eq, *a, *b, r, p);
    }
    if call_ensures(Tensor::<E>::ne, (a, b), Ok(r)) {
        let yes = lemma_compared(m, ComparisonOp::Ne, *a, *b, r, p);
    }
    if call_ensures(Tensor::<E>::lt, (a, b), Ok(r)) {
        let yes = lemma_compared(m, ComparisonOp::Lt, *a, *b, r, p);
    }
    if call_ensures(Tensor::<E>::le, (a, b), Ok(r)) {
        let yes = lemma_compared(m, ComparisonOp::Le, *a, *b, r, p);
    }
    if call_ensures(Tensor::<E>::gt, (a, b), Ok(r)) {
        let yes = lemma_compared(m, ComparisonOp::Gt, *a, *b, r, p);
    }
    if call_ensures(Tensor::<E>::ge, (a, b), Ok(r)) {
        let yes = lemma_compared(m, ComparisonOp::Ge, *a, *b, r, p);
    }
}

/// 1 for true and 0 for false.
pub open spec fn truth(yes: bool) -> real {
    if yes {
        1real
    } else {
        0real
    }
}

/// The methods with a number add it to every element, or multiply every element
/// by it.
pub proof fn law_number_methods<E: Elem>(
    m: Exact<E>,
    t: &Tensor<E>,
    c: E,
    r: Tensor<E>,
    p: int,
)
    requires
        m.arithmetic(),
        0 <= p < t.count(),
    ensures
        call_ensures(Tensor::<E>::add_scalar, (t, c), Ok(r)) ==> r.dims() == t.dims() && m.num(r, p)
            == m.num(*t, p) + (m.val)(c),
        call_ensures(Tensor::<E>::mul_scalar, (t, c), Ok(r)) ==> r.dims() == t.dims() && m.num(r, p)
            == m.num(*t, p) * (m.val)(c),
{
    if call_ensures(Tensor::<E>::add_scalar, (t, c), Ok(r)) {
        assert(BinaryOp::Add.gives(t.data()[p], c, r.data()[p]));
    }
    if call_ensures(Tensor::<E>::mul_scalar, (t, c), Ok(r)) {
        assert(BinaryOp::Mul.gives(t.data()[p], c, r.data()[p]));
    }
}

/// The methods on a whole tensor give the sum of all its numbers, and their
/// mean.
pub proof fn law_whole_methods<E: Elem>(m: Exact<E>, t: &Tensor<E>, r: Tensor<E>)
    requires
        m.arithmetic(),
        0 < t.count() <= usize::MAX,
    ensures
        call_ensures(Tensor::<E>::sum_all, (t,), Ok(r)) ==> r.dims().len() == 0 && m.num(r, 0)
            == m.whole_sum(*t),
        call_ensures(Tensor::<E>::mean_all, (t,), Ok(r)) ==> r.dims().len() == 0 && m.num(r, 0) * (
        t.count() as int as real) == m.whole_sum(*t),
{
    let s = t.data();
    lemma_total_equal(|i: int| m.vals(s)[i], |p: int| m.num(*t, p), t.count());
    if call_ensures(Tensor::<E>::sum_all, (t,), Ok(r)) {
        law_sum(m, s, r.data()[0]);
    }
    if call_ensures(Tensor::<E>::mean_all, (t,), Ok(r)) {
        law_mean(m, s, r.data()[0]);
    }
}

/// The sum of an empty tensor is zero.
pub proof fn law_empty_sum<E: Elem>(m: Exact<E>, t: &Tensor<E>, r: Tensor<E>)
    requires
        m.arithmetic(),
        t.count() == 0,
        call_ensures(Tensor::<E>::sum_all, (t,), Ok(r)),
    ensures
        m.num(r, 0) == 0real,
{
    law_sum(m, t.data(), r.data()[0]);
}

/// New tensors hold zeros, ones or the number given, everywhere.
pub proof fn law_filled_tensors<E: Elem>(
    m: Exact<E>,
    shape: &[i64],
    c: E,
    other: &Tensor<E>,
    r: Tensor<E>,
    p: int,
)
    requires
        m.arithmetic(),
        0 <= p < r.count(),
    ensures
        call_ensures(Tensor::<E>::zeros, (shape,), Ok(r)) ==> m.num(r, p) == 0real,
        call_ensures(Tensor::<E>::full, (shape, c), Ok(r)) ==> m.num(r, p) == (m.val)(c),
        call_ensures(Tensor::<E>::ones_like, (other,), Ok(r)) ==> m.num(r, p) == 1real,
{
    if call_ensures(Tensor::<E>::zeros, (shape,), Ok(r)) {
        assert(is_zero(r.data()[p]));
    }
    if call_ensures(Tensor::<E>::full, (shape, c), Ok(r)) {
        assert(r.data()[p] == c);
    }
    if call_ensures(Tensor::<E>::ones_like, (other,), Ok(r)) {
        assert(is_one(r.data()[p]));
    }
}

/// What was put into a tensor comes out of it, in the same order.
pub proof fn law_values_come_back<E: Elem>(
    shape: &[i64],
    data: Vec<E>,
    t: &Tensor<E>,
    out: Vec<E>,
)
    requires
        call_ensures(Tensor::<E>::from_vec, (shape, data), Ok(*t)),
        call_ensures(Tensor::<E>::to_vec, (t,), out),
    ensures
        out@ == data@,
{
}

/// Multiplying by the identity matrix, on either side, changes nothing.
pub proof fn law_identity_matrix<E: Elem>(
    m: Exact<E>,
    n: usize,
    one: Tensor<E>,
    a: Tensor<E>,
    left: Tensor<E>,
    right: Tensor<E>,
    i: int,
    j: int,
)
    requires
        m.arithmetic(),
        m.products(),
        call_ensures(Tensor::<E>::eye, (n,), Ok(one)),
        a.dims() == seq![n, n],
        matmul_result(one, a, left),
        matmul_result(a, one, right),
        0 <= i < n,
        0 <= j < n,
    ensures
        (m.val)(left.at(index2(i, j))) == (m.val)(a.at(index2(i, j))),
        (m.val)(right.at(index2(i, j))) == (m.val)(a.at(index2(i, j))),
{
    law_matmul(m, one, a, left, i, j);
    law_matmul(m, a, one, right, i, j);
    let x = (m.val)(a.at(index2(i, j)));
    let f = |c: int| (m.val)(one.at(index2(i, c))) * (m.val)(a.at(index2(c, j)));
    assert forall|c: int| 0 <= c < n && c != i implies #[trigger] f(c) == 0real by {
        assert(is_zero(one.at(index2(i, c))));
        let y = (m.val)(a.at(index2(c, j)));
        assert(0real * y == 0real) by (nonlinear_arith);
    }
    lemma_total_single(f, n as nat, i);
    assert(is_one(one.at(index2(i, i))));
    let h = |c: int| (m.val)(a.at(index2(i, c))) * (m.val)(one.at(index2(c, j)));
    assert forall|c: int| 0 <= c < n && c != j implies #[trigger] h(c) == 0real by {
        assert(is_zero(one.at(index2(c, j))));
        let y = (m.val)(a.at(index2(i, c)));
        assert(y * 0real == 0real) by (nonlinear_arith);
    }
    lemma_total_single(h, n as nat, j);
    assert(is_one(one.at(index2(j, j))));
    assert(1real * x == x && x * 1real == x) by (nonlinear_arith);
}

/// Combining a number with the identity of an op gives the number.
pub proof fn law_identities<E: Elem>(m: Exact<E>, entry: BinaryOpSpec, a: E, e: E, r: E)
    requires
        m.arithmetic(),
        m.ordered(),
        m.functions(),
        forall|x: real| #[trigger] (m.pow)(x, 1real) == x,
        entry.is_identity(e),
        entry.op.gives(a, e, r),
    ensures
        (m.val)(r) == (m.val)(a),
{
    let x = (m.val)(a);
    assert(x * 1real == x && x / 1real == x) by (nonlinear_arith);
}

/// Gathering by position reads the elements in the order of the indices; an
/// index below zero counts from the end.
pub proof fn law_gather_flat<E: Elem>(t: &Tensor<E>, indices: &[i64], r: Tensor<E>, k: int)
    requires
        call_ensures(Tensor::<E>::gather_flat, (t, indices), Ok(r)),
        0 <= k < indices@.len(),
    ensures
        r.data().len() == indices@.len(),
        -(t.count() as int) <= indices@[k] < t.count(),
        indices@[k] >= 0 ==> r.data()[k] == t.data()[indices@[k] as int],
        indices@[k] < 0 ==> r.data()[k] == t.data()[t.count() + indices@[k]],
{
    law_first_out_of_range(indices@, t.count() as int);
}

/// Bounds of a slice with a positive step are brought into range, the end no
/// earlier than the start.
pub proof fn law_slices_are_normalized(
    len: usize,
    lo: i64,
    hi: i64,
    by: i64,
    l: usize,
    h: usize,
    s: usize,
)
    requires
        call_ensures(normalize_slice, (len, lo, hi, by), Ok((l, h, s))),
    ensures
        by > 0,
        l <= h <= len,
        0 <= lo <= len ==> l == lo,
        lo < 0 && lo + len >= 0 ==> l == lo + len,
        0 <= hi <= len && l <= hi ==> h == hi,
        hi < 0 && hi + len >= l ==> h == hi + len,
        by <= usize::MAX ==> s == by,
{
}

/// A dtype is floating-point, an integer or boolean, and only one of these; an
/// unsigned integer takes as many bytes as a signed one.
pub proof fn law_dtype_kinds(d: DType, floating: bool, integer: bool)
    requires
        call_ensures(DType::is_floating_point, (d,), floating),
        call_ensures(DType::is_integer, (d,), integer),
    ensures
        !(floating && integer),
        !floating && !integer <==> d == DType::Bool,
        d.bytes() == 1 || d.bytes() == 2 || d.bytes() == 4 || d.bytes() == 8,
        floating ==> d.bytes() >= 2,
{
}

/// Selecting by a mask keeps, in row-major order of the broadcast shape, the
/// elements that broadcasting shows where it shows a mask other than zero: a
/// kept element comes after as many others as positions are kept before its own.
pub proof fn law_masked_select<E: Elem>(
    m: Exact<E>,
    t: Tensor<E>,
    mask: Tensor<E>,
    r: Tensor<E>,
) -> (keep: Seq<bool>)
    requires
        m.arithmetic(),
        m.ordered(),
        broadcastable(t.dims(), mask.dims()),
        mask_result(t, mask, r),
    ensures
        ({
            let wide = broadcast_of(t.dims(), mask.dims());
            &&& keep.len() == product(wide)
            &&& r.data().len() == set_before(keep, keep.len() as int)
            &&& forall|p: int|
                0 <= p < keep.len() ==> (#[trigger] keep[p] <==> m.shown(mask, wide, p) != 0real)
            &&& forall|p: int|
                0 <= p < keep.len() && #[trigger] keep[p] ==> 0 <= set_before(keep, p)
                    < r.data().len() && r.data()[set_before(keep, p)] == t.data()[shown_at(
                    p,
                    wide,
                    t.dims(),
                )]
        }),
{
    let wide = broadcast_of(t.dims(), mask.dims());
    let keep = choose|keep: Seq<bool>| #[trigger]
        flags_nonzero(spread_data(mask, wide), keep) && r.data() == kept(
            spread_data(t, wide),
            keep,
        ) && r.dims() == seq![r.data().len() as usize];
    law_broadcast_covers_operands(t.dims(), mask.dims());
    law_mask_keeps_flagged(spread_data(t, wide), keep);
    assert forall|p: int| 0 <= p < keep.len() implies (#[trigger] keep[p] <==> m.shown(
        mask,
        wide,
        p,
    ) != 0real) by {
        law_mask_flags(m, spread_data(mask, wide), keep, p);
        lemma_shown(mask, wide, p);
    }
    assert forall|p: int| 0 <= p < keep.len() && #[trigger] keep[p] implies 0 <= set_before(keep, p)
        < r.data().len() && r.data()[set_before(keep, p)] == t.data()[shown_at(
        p,
        wide,
        t.dims(),
    )] by {
        lemma_shown(t, wide, p);
    }
    keep
}

} // verus!
