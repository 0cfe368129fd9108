//! What reductions compute.

use vstd::prelude::*;
use crate::elem::{
    Elem, are_squares, is_argmax, is_argmin, is_max, is_mean, is_min, is_norm, is_sum, is_zero,
    max_from, mean_of, min_from, norm_of, sum_from,
};
use crate::exact::{Exact, lemma_total_equal, sum_of_all, total};
use crate::index::in_shape;
use crate::ops::ReduceKind;
use crate::tensor::Tensor;
use crate::tensor::reduce::{reduce_result, rest_of, strip};

verus! {

proof fn lemma_sum_from<E: Elem>(m: Exact<E>, start: E, s: Seq<E>, r: E)
    requires
        m.arithmetic(),
        sum_from(start, s, r),
    ensures
        (m.val)(r) == (m.val)(start) + sum_of_all(m.vals(s)),
    decreases s.len(),
{
    let f = |i: int| m.vals(s)[i];
    if s.len() > 0 {
        let x = choose|x: E|
            sum_from(start, s.drop_last(), x) && #[trigger] call_ensures(E::plus, (x, s.last()), r);
        lemma_sum_from(m, start, s.drop_last(), x);
        let g = |i: int| m.vals(s.drop_last())[i];
        lemma_total_equal(f, g, (s.len() - 1) as nat);
        assert(f(s.len() - 1) == (m.val)(s.last()));
    }
}

/// A sum is the sum of the numbers: each counts once.
pub proof fn law_sum<E: Elem>(m: Exact<E>, s: Seq<E>, r: E)
    requires
        m.arithmetic(),
        is_sum(s, r),
    ensures
        (m.val)(r) == sum_of_all(m.vals(s)),
{
    let z = choose|z: E| is_zero(z) && #[trigger] sum_from(z, s, r);
    lemma_sum_from(m, z, s, r);
}

/// A mean, times the number of elements, is their sum.
pub proof fn law_mean<E: Elem>(m: Exact<E>, s: Seq<E>, r: E)
    requires
        m.arithmetic(),
        0 < s.len() <= usize::MAX,
        is_mean(s, r),
    ensures
        (m.val)(r) * (s.len() as int as real) == sum_of_all(m.vals(s)),
{
    let (t, n) = choose|t: E, n: E|
        #![trigger call_ensures(E::divide, (t, n), r)]
        is_sum(s, t) && call_ensures(E::from_count, (s.len() as usize,), n) && call_ensures(
            E::divide,
            (t, n),
            r,
        );
    law_sum(m, s, t);
    let c = s.len() as int as real;
    assert((m.val)(n) == c);
    assert(c != 0real);
    assert((m.val)(t) / c * c == (m.val)(t)) by (nonlinear_arith)
        requires
            c != 0real,
    ;
}

/// A norm is not negative, and its square is the sum of the squares.
pub proof fn law_norm<E: Elem>(m: Exact<E>, s: Seq<E>, r: E)
    requires
        m.arithmetic(),
        m.functions(),
        is_norm(s, r),
    ensures
        (m.val)(r) >= 0real,
        (m.val)(r) * (m.val)(r) == total(|i: int| (m.val)(s[i]) * (m.val)(s[i]), s.len()),
{
    let (sq, t) = choose|sq: Seq<E>, t: E| #[trigger]
        are_squares(s, sq) && #[trigger] is_sum(sq, t) && call_ensures(E::sqrt, (t,), r);
    law_sum(m, sq, t);
    let f = |i: int| (m.val)(s[i]) * (m.val)(s[i]);
    lemma_total_equal(|i: int| m.vals(sq)[i], f, s.len());
    lemma_total_of_squares(m, s, s.len());
    assert((m.val)(t) == total(f, s.len()));
}

proof fn lemma_total_of_squares<E: Elem>(m: Exact<E>, s: Seq<E>, n: nat)
    ensures
        total(|i: int| (m.val)(s[i]) * (m.val)(s[i]), n) >= 0real,
    decreases n,
{
    let f = |i: int| (m.val)(s[i]) * (m.val)(s[i]);
    if n > 0 {
        lemma_total_of_squares(m, s, (n - 1) as nat);
        let x = (m.val)(s[n - 1]);
        assert(x * x >= 0real) by (nonlinear_arith);
        assert(f(n - 1) == x * x);
    }
}

proof fn lemma_max_from<E: Elem>(m: Exact<E>, start: E, s: Seq<E>, r: E)
    requires
        m.ordered(),
        max_from(start, s, r),
    ensures
        (m.val)(start) <= (m.val)(r),
        forall|i: int| 0 <= i < s.len() ==> (m.val)(#[trigger] s[i]) <= (m.val)(r),
        (m.val)(r) == (m.val)(start) || exists|i: int|
            0 <= i < s.len() && (m.val)(#[trigger] s[i]) == (m.val)(r),
    decreases s.len(),
{
    if s.len() > 0 {
        let x = choose|x: E|
            max_from(start, s.drop_last(), x) && #[trigger] call_ensures(
                E::larger,
                (x, s.last()),
                r,
            );
        let rest = s.drop_last();
        lemma_max_from(m, start, rest, x);
        assert forall|i: int| 0 <= i < s.len() implies (m.val)(#[trigger] s[i]) <= (m.val)(r) by {
            if i < rest.len() {
                assert(rest[i] == s[i]);
            }
        }
        if (m.val)(x) < (m.val)(s.last()) {
            assert((m.val)(s[s.len() - 1]) == (m.val)(r));
        } else if (m.val)(r) != (m.val)(start) {
            let i = choose|i: int| 0 <= i < rest.len() && (m.val)(#[trigger] rest[i]) == (m.val)(x);
            assert((m.val)(s[i]) == (m.val)(r));
        }
    }
}

/// A maximum is one of the elements, and none is above it.
pub proof fn law_max<E: Elem>(m: Exact<E>, s: Seq<E>, r: E)
    requires
        m.ordered(),
        s.len() > 0,
        is_max(s, r),
    ensures
        forall|i: int| 0 <= i < s.len() ==> (m.val)(#[trigger] s[i]) <= (m.val)(r),
        exists|i: int| 0 <= i < s.len() && (m.val)(#[trigger] s[i]) == (m.val)(r),
{
    let z = choose|z: E| call_ensures(E::neg_infinity, (), z) && #[trigger] max_from(z, s, r);
    lemma_max_from(m, z, s, r);
    assert((m.val)(z) <= (m.val)(s[0]));
    if (m.val)(r) == (m.val)(z) {
        assert((m.val)(s[0]) == (m.val)(r));
    }
}

proof fn lemma_min_from<E: Elem>(m: Exact<E>, start: E, s: Seq<E>, r: E)
    requires
        m.ordered(),
        min_from(start, s, r),
    ensures
        (m.val)(r) <= (m.val)(start),
        forall|i: int| 0 <= i < s.len() ==> (m.val)(r) <= (m.val)(#[trigger] s[i]),
        (m.val)(r) == (m.val)(start) || exists|i: int|
            0 <= i < s.len() && (m.val)(#[trigger] s[i]) == (m.val)(r),
    decreases s.len(),
{
    if s.len() > 0 {
        let x = choose|x: E|
            min_from(start, s.drop_last(), x) && #[trigger] call_ensures(
                E::smaller,
                (x, s.last()),
                r,
            );
        let rest = s.drop_last();
        lemma_min_from(m, start, rest, x);
        assert forall|i: int| 0 <= i < s.len() implies (m.val)(r) <= (m.val)(#[trigger] s[i]) by {
            if i < rest.len() {
                assert(rest[i] == s[i]);
            }
        }
        if (m.val)(s.last()) < (m.val)(x) {
            assert((m.val)(s[s.len() - 1]) == (m.val)(r));
        } else if (m.val)(r) != (m.val)(start) {
            let i = choose|i: int| 0 <= i < rest.len() && (m.val)(#[trigger] rest[i]) == (m.val)(x);
            assert((m.val)(s[i]) == (m.val)(r));
        }
    }
}

/// A minimum is one of the elements, and none is below it.
pub proof fn law_min<E: Elem>(m: Exact<E>, s: Seq<E>, r: E)
    requires
        m.ordered(),
        s.len() > 0,
        is_min(s, r),
    ensures
        forall|i: int| 0 <= i < s.len() ==> (m.val)(r) <= (m.val)(#[trigger] s[i]),
        exists|i: int| 0 <= i < s.len() && (m.val)(#[trigger] s[i]) == (m.val)(r),
{
    let z = choose|z: E| call_ensures(E::infinity, (), z) && #[trigger] min_from(z, s, r);
    lemma_min_from(m, z, s, r);
    assert((m.val)(s[0]) <= (m.val)(z));
    if (m.val)(r) == (m.val)(z) {
        assert((m.val)(s[0]) == (m.val)(r));
    }
}

/// The place of a maximum holds an element that none is above, and every
/// element before it is below.
pub proof fn law_argmax<E: Elem>(m: Exact<E>, s: Seq<E>, best: int)
    requires
        m.ordered(),
        s.len() > 0,
        is_argmax(s, best),
    ensures
        0 <= best < s.len(),
        forall|i: int| 0 <= i < s.len() ==> (m.val)(#[trigger] s[i]) <= (m.val)(s[best]),
        forall|i: int| 0 <= i < best ==> (m.val)(#[trigger] s[i]) < (m.val)(s[best]),
    decreases s.len(),
{
    if s.len() > 1 {
        let rest = s.drop_last();
        let (b, above) = choose|b: int, above: bool|
            #![trigger call_ensures(E::less, (s[b], s.last()), above)]
            is_argmax(rest, b) && call_ensures(E::less, (s[b], s.last()), above) && best
                == if above {
                s.len() - 1
            } else {
                b
            };
        law_argmax(m, rest, b);
        assert(rest[b] == s[b]);
        assert forall|i: int| 0 <= i < s.len() implies (m.val)(#[trigger] s[i]) <= (m.val)(
            s[best],
        ) by {
            if i < rest.len() {
                assert(rest[i] == s[i]);
            }
        }
        assert forall|i: int| 0 <= i < best implies (m.val)(#[trigger] s[i]) < (m.val)(s[best]) by {
            assert(rest[i] == s[i]);
        }
    }
}

/// The place of a minimum holds an element that none is below, and every
/// element before it is above.
pub proof fn law_argmin<E: Elem>(m: Exact<E>, s: Seq<E>, best: int)
    requires
        m.ordered(),
        s.len() > 0,
        is_argmin(s, best),
    ensures
        0 <= best < s.len(),
        forall|i: int| 0 <= i < s.len() ==> (m.val)(s[best]) <= (m.val)(#[trigger] s[i]),
        forall|i: int| 0 <= i < best ==> (m.val)(s[best]) < (m.val)(#[trigger] s[i]),
    decreases s.len(),
{
    if s.len() > 1 {
        let rest = s.drop_last();
        let (b, below) = choose|b: int, below: bool|
            #![trigger call_ensures(E::less, (s.last(), s[b]), below)]
            is_argmin(rest, b) && call_ensures(E::less, (s.last(), s[b]), below) && best
                == if below {
                s.len() - 1
            } else {
                b
            };
        law_argmin(m, rest, b);
        assert(rest[b] == s[b]);
        assert forall|i: int| 0 <= i < s.len() implies (m.val)(s[best]) <= (m.val)(
            #[trigger] s[i],
        ) by {
            if i < rest.len() {
                assert(rest[i] == s[i]);
            }
        }
        assert forall|i: int| 0 <= i < best implies (m.val)(s[best]) < (m.val)(#[trigger] s[i]) by {
            assert(rest[i] == s[i]);
        }
    }
}

// ---- along a dimension of a tensor -----------------------------------------------------

/// Where the result of reducing dimension `d` stands for the strip through
/// `idx`: at the index without that dimension, or with 0 in it.
pub open spec fn place_after(idx: Seq<int>, d: int, keepdim: bool) -> Seq<int> {
    if keepdim {
        idx.update(d, 0)
    } else {
        idx.remove(d)
    }
}

/// The strip through `idx`, read off the tensor.
proof fn lemma_reduced_strip<E: Elem>(
    t: Tensor<E>,
    kind: ReduceKind,
    d: int,
    keepdim: bool,
    r: Tensor<E>,
    idx: Seq<int>,
) -> (s: Seq<E>)
    requires
        0 <= d < t.dims().len(),
        in_shape(idx, t.dims()),
        reduce_result(t, kind, d, keepdim, r),
    ensures
        in_shape(place_after(idx, d, keepdim), r.dims()),
        s.len() == t.dims()[d],
        s.len() > 0,
        forall|k: int| 0 <= k < s.len() ==> #[trigger] s[k] == t.at(idx.update(d, k)),
        kind.gives(s, r.at(place_after(idx, d, keepdim))),
{
    let at = place_after(idx, d, keepdim);
    assert(0 <= idx[d] < t.dims()[d]);
    assert(in_shape(at, r.dims())) by {
        assert forall|i: int| 0 <= i < r.dims().len() implies 0 <= #[trigger] at[i]
            < r.dims()[i] by {
            if keepdim {
                assert(i == d || at[i] == idx[i]);
            } else if i < d {
                assert(at[i] == idx[i]);
            } else {
                assert(at[i] == idx[i + 1]);
            }
        }
    }
    let s = strip(t, d, rest_of(at, d, keepdim));
    assert forall|k: int| 0 <= k < s.len() implies #[trigger] s[k] == t.at(idx.update(d, k)) by {
        assert(rest_of(at, d, keepdim).insert(d, k) =~= idx.update(d, k));
    }
    assert(kind.gives(s, r.at(at)));
    s
}

/// Every element of a sum along a dimension is the sum over that dimension.
pub proof fn law_reduce_sum<E: Elem>(
    m: Exact<E>,
    t: Tensor<E>,
    d: int,
    keepdim: bool,
    r: Tensor<E>,
    idx: Seq<int>,
)
    requires
        m.arithmetic(),
        0 <= d < t.dims().len(),
        in_shape(idx, t.dims()),
        reduce_result(t, ReduceKind::Sum, d, keepdim, r),
    ensures
        in_shape(place_after(idx, d, keepdim), r.dims()),
        (m.val)(r.at(place_after(idx, d, keepdim))) == total(
            |k: int| (m.val)(t.at(idx.update(d, k))),
            t.dims()[d] as nat,
        ),
{
    let s = lemma_reduced_strip(t, ReduceKind::Sum, d, keepdim, r, idx);
    let y = r.at(place_after(idx, d, keepdim));
    law_sum(m, s, y);
    lemma_total_equal(
        |k: int| m.vals(s)[k],
        |k: int| (m.val)(t.at(idx.update(d, k))),
        s.len(),
    );
}

/// Every element of a mean along a dimension, times the length of that
/// dimension, is the sum over it.
pub proof fn law_reduce_mean<E: Elem>(
    m: Exact<E>,
    t: Tensor<E>,
    d: int,
    keepdim: bool,
    r: Tensor<E>,
    idx: Seq<int>,
)
    requires
        m.arithmetic(),
        0 <= d < t.dims().len(),
        in_shape(idx, t.dims()),
        reduce_result(t, ReduceKind::Mean, d, keepdim, r),
    ensures
        in_shape(place_after(idx, d, keepdim), r.dims()),
        (m.val)(r.at(place_after(idx, d, keepdim))) * (t.dims()[d] as int as real) == total(
            |k: int| (m.val)(t.at(idx.update(d, k))),
            t.dims()[d] as nat,
        ),
{
    let s = lemma_reduced_strip(t, ReduceKind::Mean, d, keepdim, r, idx);
    let y = r.at(place_after(idx, d, keepdim));
    law_mean(m, s, y);
    lemma_total_equal(
        |k: int| m.vals(s)[k],
        |k: int| (m.val)(t.at(idx.update(d, k))),
        s.len(),
    );
}

/// Every element of a norm along a dimension is not negative, and its square is
/// the sum of the squares over it.
pub proof fn law_reduce_norm<E: Elem>(
    m: Exact<E>,
    t: Tensor<E>,
    d: int,
    keepdim: bool,
    r: Tensor<E>,
    idx: Seq<int>,
)
    requires
        m.arithmetic(),
        m.functions(),
        0 <= d < t.dims().len(),
        in_shape(idx, t.dims()),
        reduce_result(t, ReduceKind::Norm, d, keepdim, r),
    ensures
        in_shape(place_after(idx, d, keepdim), r.dims()),
        (m.val)(r.at(place_after(idx, d, keepdim))) >= 0real,
        (m.val)(r.at(place_after(idx, d, keepdim))) * (m.val)(r.at(place_after(idx, d, keepdim)))
            == total(
            |k: int| (m.val)(t.at(idx.update(d, k))) * (m.val)(t.at(idx.update(d, k))),
            t.dims()[d] as nat,
        ),
{
    let s = lemma_reduced_strip(t, ReduceKind::Norm, d, keepdim, r, idx);
    let y = r.at(place_after(idx, d, keepdim));
    law_norm(m, s, y);
    lemma_total_equal(
        |k: int| (m.val)(s[k]) * (m.val)(s[k]),
        |k: int| (m.val)(t.at(idx.update(d, k))) * (m.val)(t.at(idx.update(d, k))),
        s.len(),
    );
}

/// A maximum along a dimension is an element of it that none is above.
pub proof fn law_reduce_max<E: Elem>(
    m: Exact<E>,
    t: Tensor<E>,
    d: int,
    keepdim: bool,
    r: Tensor<E>,
    idx: Seq<int>,
)
    requires
        m.ordered(),
        0 <= d < t.dims().len(),
        in_shape(idx, t.dims()),
        reduce_result(t, ReduceKind::Max, d, keepdim, r),
    ensures
        in_shape(place_after(idx, d, keepdim), r.dims()),
        forall|k: int|
            0 <= k < t.dims()[d] ==> (m.val)(#[trigger] t.at(idx.update(d, k)))
                <= (m.val)(r.at(place_after(idx, d, keepdim))),
        exists|k: int|
            0 <= k < t.dims()[d] && (m.val)(#[trigger] t.at(idx.update(d, k))) == (m.val)(
                r.at(place_after(idx, d, keepdim)),
            ),
{
    let s = lemma_reduced_strip(t, ReduceKind::Max, d, keepdim, r, idx);
    let y = r.at(place_after(idx, d, keepdim));
    law_max(m, s, y);
    let k = choose|k: int| 0 <= k < s.len() && (m.val)(#[trigger] s[k]) == (m.val)(y);
    assert((m.val)(t.at(idx.update(d, k))) == (m.val)(y));
    assert forall|k: int| 0 <= k < t.dims()[d] implies (m.val)(#[trigger] t.at(idx.update(d, k)))
        <= (m.val)(y) by {
        assert(s[k] == t.at(idx.update(d, k)));
    }
}

/// A minimum along a dimension is an element of it that none is below.
pub proof fn law_reduce_min<E: Elem>(
    m: Exact<E>,
    t: Tensor<E>,
    d: int,
    keepdim: bool,
    r: Tensor<E>,
    idx: Seq<int>,
)
    requires
        m.ordered(),
        0 <= d < t.dims().len(),
        in_shape(idx, t.dims()),
        reduce_result(t, ReduceKind::Min, d, keepdim, r),
    ensures
        in_shape(place_after(idx, d, keepdim), r.dims()),
        forall|k: int|
            0 <= k < t.dims()[d] ==> (m.val)(r.at(place_after(idx, d, keepdim)))
                <= (m.val)(#[trigger] t.at(idx.update(d, k))),
        exists|k: int|
            0 <= k < t.dims()[d] && (m.val)(#[trigger] t.at(idx.update(d, k))) == (m.val)(
                r.at(place_after(idx, d, keepdim)),
            ),
{
    let s = lemma_reduced_strip(t, ReduceKind::Min, d, keepdim, r, idx);
    let y = r.at(place_after(idx, d, keepdim));
    law_min(m, s, y);
    let k = choose|k: int| 0 <= k < s.len() && (m.val)(#[trigger] s[k]) == (m.val)(y);
    assert((m.val)(t.at(idx.update(d, k))) == (m.val)(y));
    assert forall|k: int| 0 <= k < t.dims()[d] implies (m.val)(y)
        <= (m.val)(#[trigger] t.at(idx.update(d, k))) by {
        assert(s[k] == t.at(idx.update(d, k)));
    }
}

/// The place of the largest element along a dimension: what it holds is an
/// extreme of that dimension, and the first of its kind.
pub proof fn law_reduce_argmax<E: Elem>(
    m: Exact<E>,
    t: Tensor<E>,
    d: int,
    keepdim: bool,
    r: Tensor<E>,
    idx: Seq<int>,
) -> (best: int)
    requires
        m.arithmetic(),
        m.ordered(),
        0 <= d < t.dims().len(),
        in_shape(idx, t.dims()),
        reduce_result(t, ReduceKind::ArgMax, d, keepdim, r),
    ensures
        in_shape(place_after(idx, d, keepdim), r.dims()),
        0 <= best < t.dims()[d],
        (m.val)(r.at(place_after(idx, d, keepdim))) == best as real,
        forall|k: int| 0 <= k < t.dims()[d] ==> (m.val)(#[trigger] t.at(idx.update(d, k)))
            <= (m.val)(t.at(idx.update(d, best))),
        forall|k: int| 0 <= k < best ==> (m.val)(#[trigger] t.at(idx.update(d, k)))
            < (m.val)(t.at(idx.update(d, best))),
{
    let s = lemma_reduced_strip(t, ReduceKind::ArgMax, d, keepdim, r, idx);
    let y = r.at(place_after(idx, d, keepdim));
    let i = choose|i: usize|
        #![trigger call_ensures(E::from_count, (i,), y)]
        i < s.len() && is_argmax(s, i as int) && call_ensures(E::from_count, (i,), y);
    law_argmax(m, s, i as int);
    let best = i as int;
    assert(s[best] == t.at(idx.update(d, best)));
    assert forall|k: int| 0 <= k < t.dims()[d] implies (m.val)(#[trigger] t.at(idx.update(d, k)))
        <= (m.val)(t.at(idx.update(d, best))) by {
        assert(s[k] == t.at(idx.update(d, k)));
    }
    assert forall|k: int| 0 <= k < best implies (m.val)(#[trigger] t.at(idx.update(d, k)))
        < (m.val)(t.at(idx.update(d, best))) by {
        assert(s[k] == t.at(idx.update(d, k)));
    }
    best
}

/// The place of the smallest element along a dimension: what it holds is an
/// extreme of that dimension, and the first of its kind.
pub proof fn law_reduce_argmin<E: Elem>(
    m: Exact<E>,
    t: Tensor<E>,
    d: int,
    keepdim: bool,
    r: Tensor<E>,
    idx: Seq<int>,
) -> (best: int)
    requires
        m.arithmetic(),
        m.ordered(),
        0 <= d < t.dims().len(),
        in_shape(idx, t.dims()),
        reduce_result(t, ReduceKind::ArgMin, d, keepdim, r),
    ensures
        in_shape(place_after(idx, d, keepdim), r.dims()),
        0 <= best < t.dims()[d],
        (m.val)(r.at(place_after(idx, d, keepdim))) == best as real,
        forall|k: int| 0 <= k < t.dims()[d] ==> (m.val)(t.at(idx.update(d, best)))
            <= (m.val)(#[trigger] t.at(idx.update(d, k))),
        forall|k: int| 0 <= k < best ==> (m.val)(t.at(idx.update(d, best)))
            < (m.val)(#[trigger] t.at(idx.update(d, k))),
{
    let s = lemma_reduced_strip(t, ReduceKind::ArgMin, d, keepdim, r, idx);
    let y = r.at(place_after(idx, d, keepdim));
    let i = choose|i: usize|
        #![trigger call_ensures(E::from_count, (i,), y)]
        i < s.len() && is_argmin(s, i as int) && call_ensures(E::from_count, (i,), y);
    law_argmin(m, s, i as int);
    let best = i as int;
    assert(s[best] == t.at(idx.update(d, best)));
    assert forall|k: int| 0 <= k < t.dims()[d] implies (m.val)(t.at(idx.update(d, best)))
        <= (m.val)(#[trigger] t.at(idx.update(d, k))) by {
        assert(s[k] == t.at(idx.update(d, k)));
    }
    assert forall|k: int| 0 <= k < best implies (m.val)(t.at(idx.update(d, best)))
        < (m.val)(#[trigger] t.at(idx.update(d, k))) by {
        assert(s[k] == t.at(idx.update(d, k)));
    }
    best
}

/// A sum is taken from left to right: summing on from the sum of the first
/// part gives the sum of both parts.
pub proof fn law_sum_continues<E: Elem>(start: E, a: Seq<E>, b: Seq<E>, mid: E, r: E)
    requires
        sum_from(start, a, mid),
        sum_from(mid, b, r),
    ensures
        sum_from(start, a + b, r),
    decreases b.len(),
{
    if b.len() == 0 {
        assert(a + b =~= a);
    } else {
        let x = choose|x: E|
            sum_from(mid, b.drop_last(), x) && #[trigger] call_ensures(E::plus, (x, b.last()), r);
        law_sum_continues(start, a, b.drop_last(), mid, x);
        assert((a + b).drop_last() =~= a + b.drop_last());
        assert((a + b).last() == b.last());
    }
}

/// A sum starts from what it is given and adds every element on its right.
pub proof fn law_sum_starts<E: Elem>(start: E, x: E, r: E)
    ensures
        sum_from(start, Seq::<E>::empty(), r) <==> r == start,
        sum_from(start, seq![x], r) <==> call_ensures(E::plus, (start, x), r),
{
    assert(seq![x].drop_last() =~= Seq::<E>::empty());
    if sum_from(start, seq![x], r) {
        let y = choose|y: E|
            sum_from(start, seq![x].drop_last(), y) && #[trigger] call_ensures(
                E::plus,
                (y, seq![x].last()),
                r,
            );
        assert(y == start);
    }
    if call_ensures(E::plus, (start, x), r) {
        assert(sum_from(start, seq![x].drop_last(), start));
        assert(call_ensures(E::plus, (start, seq![x].last()), r));
    }
}

/// A mean divides a sum of the same elements by their number, and a norm is
/// the root of a sum of their squares.
pub proof fn law_mean_and_norm_use_the_sum<E: Elem>(data: &[E], mean: E, norm: E)
    requires
        data@.len() > 0,
        call_ensures(mean_of::<E>, (data,), mean),
        call_ensures(norm_of::<E>, (data,), norm),
    ensures
        exists|sum: E, n: E|
            is_sum(data@, sum) && call_ensures(E::from_count, (data@.len() as usize,), n)
                && #[trigger] call_ensures(E::divide, (sum, n), mean),
        exists|sq: Seq<E>, sum: E|
            sq.len() == data@.len() && (forall|i: int|
                0 <= i < sq.len()
                    ==> call_ensures(E::times, (data@[i], data@[i]), #[trigger] sq[i]))
                && #[trigger] is_sum(sq, sum) && call_ensures(E::sqrt, (sum,), norm),
{
    let (sq, sum) = choose|sq: Seq<E>, sum: E|
        #![trigger is_sum(sq, sum)]
        are_squares(data@, sq) && is_sum(sq, sum) && call_ensures(E::sqrt, (sum,), norm);
    assert(is_sum(sq, sum));
}

/// Reductions of no elements at all, where there are any, are zero.
pub proof fn law_empty_reductions<E: Elem>(m: Exact<E>, kind: ReduceKind, r: E)
    requires
        m.arithmetic(),
        kind.gives(Seq::<E>::empty(), r),
    ensures
        (m.val)(r) == 0real,
        kind == ReduceKind::Sum || kind == ReduceKind::Mean || kind == ReduceKind::Norm,
{
}

/// Whatever the order of the elements is, no element after the place found as
/// the largest was found to come before it, and the element there was found to
/// come before some earlier one, unless it is the first.
pub proof fn law_argmax_scan<E: Elem>(s: Seq<E>, best: int)
    requires
        s.len() > 0,
        is_argmax(s, best),
    ensures
        0 <= best < s.len(),
        forall|i: int|
            best < i < s.len() ==> call_ensures(E::less, (s[best], #[trigger] s[i]), false),
        best > 0 ==> exists|before: int|
            0 <= before < best && #[trigger] call_ensures(E::less, (s[before], s[best]), true),
    decreases s.len(),
{
    if s.len() > 1 {
        let rest = s.drop_last();
        let (b, above) = choose|b: int, above: bool|
            #![trigger call_ensures(E::less, (s[b], s.last()), above)]
            is_argmax(rest, b) && call_ensures(E::less, (s[b], s.last()), above) && best
                == if above {
                s.len() - 1
            } else {
                b
            };
        law_argmax_scan(rest, b);
        assert(rest[b] == s[b]);
        if above {
            let before = b;
            assert(call_ensures(E::less, (s[before], s[best]), true));
        } else {
            assert forall|i: int| best < i < s.len() implies call_ensures(
                E::less,
                (s[best], #[trigger] s[i]),
                false,
            ) by {
                if i < s.len() - 1 {
                    assert(rest[i] == s[i]);
                }
            }
            if best > 0 {
                let before = choose|before: int|
                    0 <= before < best
                        && #[trigger] call_ensures(E::less, (rest[before], rest[best]), true);
                assert(rest[before] == s[before]);
                assert(call_ensures(E::less, (s[before], s[best]), true));
            }
        }
    }
}

/// Whatever the order of the elements is, no element after the place found as
/// the smallest was found to come before it, and the element there was found to
/// come before some earlier one, unless it is the first.
pub proof fn law_argmin_scan<E: Elem>(s: Seq<E>, best: int)
    requires
        s.len() > 0,
        is_argmin(s, best),
    ensures
        0 <= best < s.len(),
        forall|i: int|
            best < i < s.len() ==> call_ensures(E::less, (#[trigger] s[i], s[best]), false),
        best > 0 ==> exists|before: int|
            0 <= before < best && #[trigger] call_ensures(E::less, (s[best], s[before]), true),
    decreases s.len(),
{
    if s.len() > 1 {
        let rest = s.drop_last();
        let (b, below) = choose|b: int, below: bool|
            #![trigger call_ensures(E::less, (s.last(), s[b]), below)]
            is_argmin(rest, b) && call_ensures(E::less, (s.last(), s[b]), below) && best
                == if below {
                s.len() - 1
            } else {
                b
            };
        law_argmin_scan(rest, b);
        assert(rest[b] == s[b]);
        if below {
            let before = b;
            assert(call_ensures(E::less, (s[best], s[before]), true));
        } else {
            assert forall|i: int| best < i < s.len() implies call_ensures(
                E::less,
                (#[trigger] s[i], s[best]),
                false,
            ) by {
                if i < s.len() - 1 {
                    assert(rest[i] == s[i]);
                }
            }
            if best > 0 {
                let before = choose|before: int|
                    0 <= before < best
                        && #[trigger] call_ensures(E::less, (rest[best], rest[before]), true);
                assert(rest[before] == s[before]);
                assert(call_ensures(E::less, (s[best], s[before]), true));
            }
        }
    }
}

} // verus!
