//! The element type of tensors and the relations its arithmetic defines.
//!
//! The engine is generic over its scalar. [`Elem`] lists the scalar
//! operations that the kernels call and promises nothing about them, so a
//! kernel's contract names exactly the operations it performs, on which
//! values and in which order: `call_ensures(E::plus, (a, b), r)` reads "`r`
//! is what `E::plus(a, b)` returned".

use vstd::prelude::*;

verus! {

/// A scalar that tensors can hold.
pub trait Elem: Copy + Send + Sync {
    /// `0`.
    fn zero() -> Self;

    /// `1`.
    fn one() -> Self;

    /// `2`.
    fn two() -> Self;

    /// A number close to zero (`1e-12`) that keeps denominators away from it.
    fn tiny() -> Self;

    /// The step of numeric differences (`1e-2`).
    fn difference_step() -> Self;

    /// `1 / 2`.
    fn half() -> Self;

    /// The circle constant `2 * pi`.
    fn tau() -> Self;

    /// The smallest positive number.
    fn min_positive() -> Self;

    /// The identity of [`Elem::smaller`].
    fn infinity() -> Self;

    /// The identity of [`Elem::larger`].
    fn neg_infinity() -> Self;

    /// `a + b`.
    fn plus(a: Self, b: Self) -> Self;

    /// `a - b`.
    fn minus(a: Self, b: Self) -> Self;

    /// `a * b`.
    fn times(a: Self, b: Self) -> Self;

    /// `a / b`.
    fn divide(a: Self, b: Self) -> Self;

    /// `a` raised to the power `b`.
    fn power(a: Self, b: Self) -> Self;

    /// The smaller of `a` and `b`.
    fn smaller(a: Self, b: Self) -> Self;

    /// The larger of `a` and `b`.
    fn larger(a: Self, b: Self) -> Self;

    /// `-a`.
    fn negate(a: Self) -> Self;

    /// The absolute value of `a`.
    fn magnitude(a: Self) -> Self;

    /// The square root of `a`.
    fn sqrt(a: Self) -> Self;

    /// `e` raised to the power `a`.
    fn exp(a: Self) -> Self;

    /// The natural logarithm of `a`.
    fn ln(a: Self) -> Self;

    /// The base-2 logarithm of `a`.
    fn log2(a: Self) -> Self;

    /// The base-10 logarithm of `a`.
    fn log10(a: Self) -> Self;

    /// The sine of `a`.
    fn sin(a: Self) -> Self;

    /// The cosine of `a`.
    fn cos(a: Self) -> Self;

    /// The hyperbolic tangent of `a`.
    fn tanh(a: Self) -> Self;

    /// The largest whole number not above `a`.
    fn floor(a: Self) -> Self;

    /// The smallest whole number not below `a`.
    fn ceil(a: Self) -> Self;

    /// The nearest whole number.
    fn round(a: Self) -> Self;

    /// The sign of `a`.
    fn signum(a: Self) -> Self;

    /// Whether `a` equals `b`.
    fn equal(a: Self, b: Self) -> bool;

    /// Whether `a` is below `b`.
    fn less(a: Self, b: Self) -> bool;

    /// Whether `a` is at most `b`.
    fn less_equal(a: Self, b: Self) -> bool;

    /// A count or an index as a scalar.
    fn from_count(n: usize) -> Self;

    /// The whole part of `a` as a count, for `a` not below zero.
    fn to_count(a: Self) -> usize;

    /// A byte as a scalar.
    fn from_byte(b: u8) -> Self;

    /// `n / 2^53`, for `n` below `2^53`: the nearest number that is at least 0
    /// and below 1.
    fn from_53_bits(n: u64) -> Self;

    /// The row-major product of an `m` by `k` and a `k` by `n` matrix, both
    /// given row by row; `m * n` values.
    fn gemm(m: usize, k: usize, n: usize, a: &[Self], b: &[Self]) -> Vec<Self>;

    /// `a` as shown to a user.
    fn shown(a: Self) -> String;

    /// `a` as shown inside a list.
    fn listed(a: Self) -> String;
}

/// `r` is the 0 of the element type.
pub open spec fn is_zero<E: Elem>(r: E) -> bool {
    call_ensures(E::zero, (), r)
}

/// `r` is the 1 of the element type.
pub open spec fn is_one<E: Elem>(r: E) -> bool {
    call_ensures(E::one, (), r)
}

/// `r` is what adding the values of `s` to `start`, one after the other,
/// gives.
pub open spec fn sum_from<E: Elem>(start: E, s: Seq<E>, r: E) -> bool
    decreases s.len(),
{
    if s.len() == 0 {
        r == start
    } else {
        exists|m: E|
            sum_from(start, s.drop_last(), m) && #[trigger] call_ensures(E::plus, (m, s.last()), r)
    }
}

/// `r` is the sum of `s`, added up from zero in order.
pub open spec fn is_sum<E: Elem>(s: Seq<E>, r: E) -> bool {
    exists|z: E| is_zero(z) && #[trigger] sum_from(z, s, r)
}

/// `r` is the mean of `s`.
pub open spec fn is_mean<E: Elem>(s: Seq<E>, r: E) -> bool {
    exists|t: E, n: E|
        #![trigger call_ensures(E::divide, (t, n), r)]
        is_sum(s, t) && call_ensures(E::from_count, (s.len() as usize,), n) && call_ensures(
            E::divide,
            (t, n),
            r,
        )
}

/// `sq` holds the squares of `s`.
pub open spec fn are_squares<E: Elem>(s: Seq<E>, sq: Seq<E>) -> bool {
    &&& sq.len() == s.len()
    &&& forall|i: int| 0 <= i < s.len() ==> call_ensures(E::times, (s[i], s[i]), #[trigger] sq[i])
}

/// `r` is the Euclidean norm of `s`.
pub open spec fn is_norm<E: Elem>(s: Seq<E>, r: E) -> bool {
    exists|sq: Seq<E>, t: E| #[trigger]
        are_squares(s, sq) && #[trigger] is_sum(sq, t) && call_ensures(E::sqrt, (t,), r)
}

/// `r` is the largest value met when scanning `s` from `start`.
pub open spec fn max_from<E: Elem>(start: E, s: Seq<E>, r: E) -> bool
    decreases s.len(),
{
    if s.len() == 0 {
        r == start
    } else {
        exists|m: E|
            max_from(start, s.drop_last(), m) && #[trigger] call_ensures(E::larger, (m, s.last()), r)
    }
}

/// `r` is the largest value of `s`.
pub open spec fn is_max<E: Elem>(s: Seq<E>, r: E) -> bool {
    exists|z: E| call_ensures(E::neg_infinity, (), z) && #[trigger] max_from(z, s, r)
}

/// `r` is the smallest value met when scanning `s` from `start`.
pub open spec fn min_from<E: Elem>(start: E, s: Seq<E>, r: E) -> bool
    decreases s.len(),
{
    if s.len() == 0 {
        r == start
    } else {
        exists|m: E|
            min_from(start, s.drop_last(), m) && #[trigger] call_ensures(E::smaller, (m, s.last()), r)
    }
}

/// `r` is the smallest value of `s`.
pub open spec fn is_min<E: Elem>(s: Seq<E>, r: E) -> bool {
    exists|z: E| call_ensures(E::infinity, (), z) && #[trigger] min_from(z, s, r)
}

/// `best` is the place of the largest value of `s`, the first of equals.
pub open spec fn is_argmax<E: Elem>(s: Seq<E>, best: int) -> bool
    decreases s.len(),
{
    if s.len() <= 1 {
        best == 0
    } else {
        exists|b: int, above: bool|
            #![trigger call_ensures(E::less, (s[b], s.last()), above)]
            is_argmax(s.drop_last(), b) && call_ensures(E::less, (s[b], s.last()), above) && best
                == if above {
                s.len() - 1
            } else {
                b
            }
    }
}

/// `best` is the place of the smallest value of `s`, the first of equals.
pub open spec fn is_argmin<E: Elem>(s: Seq<E>, best: int) -> bool
    decreases s.len(),
{
    if s.len() <= 1 {
        best == 0
    } else {
        exists|b: int, below: bool|
            #![trigger call_ensures(E::less, (s.last(), s[b]), below)]
            is_argmin(s.drop_last(), b) && call_ensures(E::less, (s.last(), s[b]), below) && best
                == if below {
                s.len() - 1
            } else {
                b
            }
    }
}

/// Adds the values of `data` to `start`, one after the other.
pub fn sum_onto<E: Elem>(start: E, data: &[E]) -> (r: E)
    ensures
        sum_from(start, data@, r),
{
    let mut acc = start;
    let mut i: usize = 0;
    while i < data.len()
        invariant
            0 <= i <= data.len(),
            sum_from(start, data@.take(i as int), acc),
        decreases data.len() - i,
    {
        let ghost before = acc;
        acc = E::plus(acc, data[i]);
        i = i + 1;
        proof {
            let now = data@.take(i as int);
            assert(now.drop_last() =~= data@.take(i - 1));
            assert(call_ensures(E::plus, (before, now.last()), acc));
        }
    }
    assert(data@.take(i as int) =~= data@);
    acc
}

/// The sum of `data`, added up from zero in order.
pub fn sum_of<E: Elem>(data: &[E]) -> (r: E)
    ensures
        is_sum(data@, r),
{
    let z = E::zero();
    sum_onto(z, data)
}

/// The mean of `data`.
pub fn mean_of<E: Elem>(data: &[E]) -> (r: E)
    ensures
        is_mean(data@, r),
{
    let t = sum_of(data);
    let n = E::from_count(data.len());
    E::divide(t, n)
}

/// The Euclidean norm of `data`.
pub fn norm_of<E: Elem>(data: &[E]) -> (r: E)
    ensures
        is_norm(data@, r),
{
    let mut squares: Vec<E> = Vec::with_capacity(data.len());
    let mut i: usize = 0;
    while i < data.len()
        invariant
            0 <= i <= data.len(),
            squares.len() == i,
            forall|j: int|
                0 <= j < i ==> call_ensures(
                    E::times,
                    (data@[j], data@[j]),
                    #[trigger] squares@[j],
                ),
        decreases data.len() - i,
    {
        squares.push(E::times(data[i], data[i]));
        i = i + 1;
    }
    let t = sum_of(squares.as_slice());
    proof {
        assert(are_squares(data@, squares@));
        assert(is_sum(squares@, t));
    }
    E::sqrt(t)
}

/// The largest value of `data`.
pub fn max_of<E: Elem>(data: &[E]) -> (r: E)
    ensures
        is_max(data@, r),
{
    let start = E::neg_infinity();
    let mut acc = start;
    let mut i: usize = 0;
    while i < data.len()
        invariant
            0 <= i <= data.len(),
            max_from(start, data@.take(i as int), acc),
        decreases data.len() - i,
    {
        let ghost before = acc;
        acc = E::larger(acc, data[i]);
        i = i + 1;
        proof {
            let now = data@.take(i as int);
            assert(now.drop_last() =~= data@.take(i - 1));
            assert(call_ensures(E::larger, (before, now.last()), acc));
        }
    }
    assert(data@.take(i as int) =~= data@);
    acc
}

/// The smallest value of `data`.
pub fn min_of<E: Elem>(data: &[E]) -> (r: E)
    ensures
        is_min(data@, r),
{
    let start = E::infinity();
    let mut acc = start;
    let mut i: usize = 0;
    while i < data.len()
        invariant
            0 <= i <= data.len(),
            min_from(start, data@.take(i as int), acc),
        decreases data.len() - i,
    {
        let ghost before = acc;
        acc = E::smaller(acc, data[i]);
        i = i + 1;
        proof {
            let now = data@.take(i as int);
            assert(now.drop_last() =~= data@.take(i - 1));
            assert(call_ensures(E::smaller, (before, now.last()), acc));
        }
    }
    assert(data@.take(i as int) =~= data@);
    acc
}

/// The place of the largest value of `data`; ties go to the first.
pub fn argmax_of<E: Elem>(data: &[E]) -> (r: usize)
    requires
        data.len() > 0,
    ensures
        r < data.len(),
        is_argmax(data@, r as int),
{
    let mut best: usize = 0;
    let mut i: usize = 1;
    while i < data.len()
        invariant
            1 <= i <= data.len(),
            best < i,
            is_argmax(data@.take(i as int), best as int),
        decreases data.len() - i,
    {
        let ghost before = best as int;
        let above = E::less(data[best], data[i]);
        if above {
            best = i;
        }
        i = i + 1;
        proof {
            let now = data@.take(i as int);
            assert(now.drop_last() =~= data@.take(i - 1));
            assert(is_argmax(now.drop_last(), before));
            assert(call_ensures(E::less, (now[before], now.last()), above));
        }
    }
    assert(data@.take(i as int) =~= data@);
    best
}

/// The place of the smallest value of `data`; ties go to the first.
pub fn argmin_of<E: Elem>(data: &[E]) -> (r: usize)
    requires
        data.len() > 0,
    ensures
        r < data.len(),
        is_argmin(data@, r as int),
{
    let mut best: usize = 0;
    let mut i: usize = 1;
    while i < data.len()
        invariant
            1 <= i <= data.len(),
            best < i,
            is_argmin(data@.take(i as int), best as int),
        decreases data.len() - i,
    {
        let ghost before = best as int;
        let below = E::less(data[i], data[best]);
        if below {
            best = i;
        }
        i = i + 1;
        proof {
            let now = data@.take(i as int);
            assert(now.drop_last() =~= data@.take(i - 1));
            assert(is_argmin(now.drop_last(), before));
            assert(call_ensures(E::less, (now.last(), now[before]), below));
        }
    }
    assert(data@.take(i as int) =~= data@);
    best
}

/// A copy of a run of elements.
pub fn copy_elems<E: Copy>(data: &[E]) -> (r: Vec<E>)
    ensures
        r@ == data@,
{
    vstd::slice::slice_to_vec(data)
}

} // verus!
