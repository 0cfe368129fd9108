//! The rules of the built-in ops: what each hands back to its inputs.

use vstd::prelude::*;
use vstd::arithmetic::div_mod::*;
use vstd::arithmetic::mul::*;
use crate::autograd::unbroadcast::{unbroadcast_error, unbroadcast_result};
use crate::elem::{Elem, is_one, is_zero};
use crate::error::ErrorText;
use crate::index::{in_shape, index3, index_of, permuted, product};
use crate::layout::{broadcast_index, broadcast_of, broadcastable, expands_to, signed_dims};
use crate::ops::{BinaryOp, ReduceKind, UnaryOp, is_reciprocal};
use crate::tensor::{Tensor, broadcast_error};
use crate::tensor::elementwise::{binary_result, unary_result};
use crate::tensor::indexing::{last_place, pick_source};
use crate::tensor::matmul::{
    bmm_error, bmm_result, kernel_error, kernel_misfits, matmul_error, matmul_result,
};
use crate::tensor::reduce::{reduce_error, reduce_result, reduced_dims};
use crate::tensor::views::{
    expand_error, permute_error, permute_result, reshape_error, resolved_order, transpose_error,
    transpose_result,
};

verus! {

/// Unary ops whose gradient is the output gradient times a slope.
#[derive(Debug, Clone, Copy, PartialEq, Eq, Structural)]
pub enum Sloped {
    /// `|x|`, slope `sign(x)`.
    Abs,
    /// `exp(x)`, slope `exp(x)`.
    Exp,
    /// `log(x)`, slope `1 / x`.
    Log,
    /// `sqrt(x)`, slope `1 / (2 sqrt(x))`.
    Sqrt,
    /// `tanh(x)`, slope `1 - tanh(x)^2`.
    Tanh,
    /// `sigmoid(x)`, slope `s (1 - s)`.
    Sigmoid,
}

/// The rule of a built-in op, with what it captured of its inputs.
pub enum OpGrad<E> {
    /// `a + b`.
    Add { a_dims: Vec<usize>, b_dims: Vec<usize> },
    /// `a - b`.
    Sub { a_dims: Vec<usize>, b_dims: Vec<usize> },
    /// `a * b`.
    Mul { a: Tensor<E>, b: Tensor<E> },
    /// `a / b`.
    Div { a: Tensor<E>, b: Tensor<E> },
    /// `a^b`.
    Pow { a: Tensor<E>, b: Tensor<E> },
    /// `x * c`.
    MulScalar { c: E },
    /// `-x`.
    Neg { dims: Vec<usize> },
    /// A unary op with a slope.
    Slope { kind: Sloped, x: Tensor<E> },
    /// `max(x, 0)`, with ones where `x > 0`.
    Relu { mask: Tensor<E>, dims: Vec<usize> },
    /// `a @ b`.
    Matmul { a: Tensor<E>, b: Tensor<E> },
    /// `a @ b` for every batch.
    Bmm { a: Tensor<E>, b: Tensor<E> },
    /// Sum along a dimension.
    Sum { dims: Vec<usize>, dim: usize },
    /// Mean along a dimension.
    Mean { dims: Vec<usize>, dim: usize },
    /// Maximum or minimum along a dimension, with the place of each winner.
    Winner { dims: Vec<usize>, dim: usize, places: Vec<usize> },
    /// Euclidean norm along a dimension.
    Norm { x: Tensor<E>, dim: usize },
    /// Matrix transpose.
    Transpose { dims: Vec<usize> },
    /// A change of shape.
    Reshape { dims: Vec<usize> },
    /// Consecutive rows from `start` on.
    Narrow { dims: Vec<usize>, start: usize },
    /// A reordering of dimensions, with the order that undoes it.
    Permute { dims: Vec<usize>, undo: Vec<i64> },
    /// A broadcast.
    BroadcastTo { dims: Vec<usize> },
    /// Slices along a dimension.
    IndexSelect { dims: Vec<usize>, dim: usize, picks: Vec<usize> },
    /// Rows written over a base.
    ScatterDim0 { base: Vec<usize>, values: Vec<usize>, picks: Vec<usize> },
    /// Single elements, by their row-major position.
    Elements { dims: Vec<usize>, places: Vec<usize> },
}

// ---- pieces of rules ------------------------------------------------------------

/// `t` has dims `dims` and holds ones only.
pub open spec fn all_ones<E: Elem>(t: Tensor<E>, dims: Seq<usize>) -> bool {
    &&& t.dims() == dims
    &&& forall|p: int| 0 <= p < t.count() ==> is_one(#[trigger] t.data()[p])
}

/// `t` has dims `dims` and holds twos only.
pub open spec fn all_twos<E: Elem>(t: Tensor<E>, dims: Seq<usize>) -> bool {
    &&& t.dims() == dims
    &&& forall|p: int| 0 <= p < t.count() ==> call_ensures(E::two, (), #[trigger] t.data()[p])
}

/// `r` is `op` on `a` and `b`, which broadcast.
pub open spec fn combines<E: Elem>(
    op: BinaryOp,
    a: Tensor<E>,
    b: Tensor<E>,
    r: Tensor<E>,
) -> bool {
    broadcast_error(a.dims(), b.dims()) is None && binary_result(op, a, b, r)
}

impl Sloped {
    /// `d` is the slope at `x`.
    pub open spec fn slope<E: Elem>(self, x: Tensor<E>, d: Tensor<E>) -> bool {
        match self {
            Sloped::Abs => unary_result(UnaryOp::Sign, x, d),
            Sloped::Exp => unary_result(UnaryOp::Exp, x, d),
            Sloped::Log => exists|one: Tensor<E>| #[trigger]
                all_ones(one, x.dims()) && combines(BinaryOp::Div, one, x, d),
            Sloped::Sqrt => exists|root: Tensor<E>, two: Tensor<E>, low: Tensor<E>, one: Tensor<E>|
                #[trigger]
                unary_result(UnaryOp::Sqrt, x, root) && #[trigger] all_twos(two, x.dims())
                    && #[trigger] combines(BinaryOp::Mul, root, two, low) && #[trigger] all_ones(
                    one,
                    x.dims(),
                ) && combines(BinaryOp::Div, one, low, d),
            Sloped::Tanh => exists|th: Tensor<E>, sq: Tensor<E>, one: Tensor<E>|
                #[trigger]
                unary_result(UnaryOp::Tanh, x, th) && #[trigger] combines(
                    BinaryOp::Mul,
                    th,
                    th,
                    sq,
                ) && #[trigger] all_ones(one, x.dims()) && combines(BinaryOp::Sub, one, sq, d),
            Sloped::Sigmoid => exists|s: Tensor<E>, one: Tensor<E>, rest: Tensor<E>|
                #[trigger]
                unary_result(UnaryOp::Sigmoid, x, s) && #[trigger] all_ones(one, x.dims())
                    && #[trigger] combines(BinaryOp::Sub, one, s, rest) && combines(
                    BinaryOp::Mul,
                    s,
                    rest,
                    d,
                ),
        }
    }
}

/// The dims of a reduction's output gradient in keepdim form: unchanged when
/// it has the input's shape or rank already, otherwise with a 1 put back at
/// `dim`.
pub open spec fn keepdim_dims(g: Seq<usize>, dims: Seq<usize>, dim: int) -> Seq<usize> {
    if g != dims && g.len() + 1 == dims.len() && 0 <= dim <= g.len() {
        g.insert(dim, 1)
    } else {
        g
    }
}

/// `up` is a reduction's output gradient `g`, spread back over the input's
/// shape.
pub open spec fn spreads_back<E: Elem>(
    g: Tensor<E>,
    dims: Seq<usize>,
    dim: int,
    up: Tensor<E>,
) -> bool {
    exists|k: Tensor<E>| #[trigger] in_keepdim_form(g, dims, dim, k) && expands_over(k, dims, up)
}

/// `k` is a reduction's output gradient `g` in keepdim form.
pub open spec fn in_keepdim_form<E: Elem>(
    g: Tensor<E>,
    dims: Seq<usize>,
    dim: int,
    k: Tensor<E>,
) -> bool {
    k.dims() == keepdim_dims(g.dims(), dims, dim) && k.data() == g.data()
}

/// `up` is `t` broadcast to `dims`.
pub open spec fn expands_over<E: Elem>(t: Tensor<E>, dims: Seq<usize>, up: Tensor<E>) -> bool {
    &&& up.dims() == dims
    &&& expands_to(t.dims(), dims)
    &&& forall|idx: Seq<int>|
        in_shape(idx, dims) ==> #[trigger] up.at(idx) == t.at(broadcast_index(idx, t.dims()))
}

/// `r` holds `1 / n`, for a count `n`.
pub open spec fn is_share<E: Elem>(n: usize, r: E) -> bool {
    exists|c: E|
        #![trigger call_ensures(E::from_count, (n,), c)]
        call_ensures(E::from_count, (n,), c) && is_reciprocal(c, r)
}

/// `r` is `t` times the number `c`, element by element.
pub open spec fn scales<E: Elem>(t: Tensor<E>, c: E, r: Tensor<E>) -> bool {
    &&& r.dims() == t.dims()
    &&& forall|p: int|
        0 <= p < t.count() ==> call_ensures(E::times, (t.data()[p], c), #[trigger] r.data()[p])
}

/// The plane-and-column number of flat position `p` in planes of `len` rows
/// of `inner` columns.
pub open spec fn column_of(p: int, len: int, inner: int) -> int {
    ((p / inner) / len) * inner + p % inner
}

/// `r` holds `up` at each column's winning row and zeros elsewhere.
pub open spec fn to_winners<E: Elem>(
    up: Seq<E>,
    places: Seq<int>,
    dims: Seq<usize>,
    dim: int,
    r: Tensor<E>,
) -> bool {
    let inner = product(dims.skip(dim + 1)) as int;
    let len = dims[dim] as int;
    &&& r.dims() == dims
    &&& exists|z: E| #[trigger]
        is_zero(z) && forall|p: int|
            0 <= p < r.count() ==> #[trigger] r.data()[p] == if places[column_of(p, len, inner)]
                == (p / inner) % len {
                up[column_of(p, len, inner)]
            } else {
                z
            }
}

/// `r` holds `g` from row-major position `from` on, and zeros elsewhere.
pub open spec fn padded<E: Elem>(
    g: Seq<E>,
    from: int,
    dims: Seq<usize>,
    r: Tensor<E>,
) -> bool {
    &&& r.dims() == dims
    &&& exists|z: E| #[trigger]
        is_zero(z) && forall|p: int|
            0 <= p < r.count() ==> #[trigger] r.data()[p] == if from <= p < from + g.len() {
                g[p - from]
            } else {
                z
            }
}

/// `r` is what adding, onto `z`, those of the first `n` values of `g` whose
/// place is `q` gives, in order.
pub open spec fn added_at<E: Elem>(
    places: Seq<int>,
    g: Seq<E>,
    q: int,
    n: int,
    z: E,
    r: E,
) -> bool
    decreases n,
{
    if n <= 0 {
        r == z
    } else if places[n - 1] == q {
        exists|m: E|
            added_at(places, g, q, n - 1, z, m) && #[trigger] call_ensures(
                E::plus,
                (m, g[n - 1]),
                r,
            )
    } else {
        added_at(places, g, q, n - 1, z, r)
    }
}

/// `r` holds, at every row-major position, the sum of the values of `g` whose
/// place it is, added onto zero in order.
pub open spec fn adds_back<E: Elem>(
    places: Seq<int>,
    g: Seq<E>,
    dims: Seq<usize>,
    r: Tensor<E>,
) -> bool {
    &&& r.dims() == dims
    &&& exists|z: E| #[trigger]
        is_zero(z) && forall|q: int|
            0 <= q < r.count() ==> added_at(
                places,
                g,
                q,
                g.len() as int,
                z,
                #[trigger] r.data()[q],
            )
}

/// The row-major positions that a selection along `dim` read, in order.
pub open spec fn selected_places(dims: Seq<usize>, dim: int, picks: Seq<int>, n: nat) -> Seq<int> {
    Seq::new(
        n,
        |p: int| pick_source(p, picks, dims[dim] as int, product(dims.skip(dim + 1)) as int),
    )
}

/// `mask` holds zeros in the rows `picks` and ones elsewhere.
pub open spec fn masks_rows<E: Elem>(dims: Seq<usize>, picks: Seq<int>, mask: Tensor<E>) -> bool {
    let inner = product(dims.skip(1)) as int;
    &&& mask.dims() == dims
    &&& forall|p: int|
        0 <= p < mask.count() ==> if last_place(picks, p / inner) is Some {
            is_zero(#[trigger] mask.data()[p])
        } else {
            is_one(mask.data()[p])
        }
}

/// `r` holds, for every row written, the gradient of the row it went to if it
/// was the last one written there, and zeros otherwise.
pub open spec fn to_last_writers<E: Elem>(
    g: Seq<E>,
    picks: Seq<int>,
    inner: int,
    values: Seq<usize>,
    r: Tensor<E>,
) -> bool {
    &&& r.dims() == values
    &&& exists|z: E| #[trigger]
        is_zero(z) && forall|p: int|
            0 <= p < r.count() ==> #[trigger] r.data()[p] == if last_place(picks, picks[p / inner])
                == Some(p / inner) {
                g[picks[p / inner] * inner + p % inner]
            } else {
                z
            }
}

impl<E: Elem> OpGrad<E> {
    /// `r` holds the gradients of the inputs for the output gradient `g`.
    pub open spec fn gives(self, g: Tensor<E>, r: Seq<Tensor<E>>) -> bool {
        match self {
            OpGrad::Add { a_dims, b_dims } => {
                &&& r.len() == 2
                &&& unbroadcast_result(g, a_dims@, r[0])
                &&& unbroadcast_result(g, b_dims@, r[1])
            },
            OpGrad::Sub { a_dims, b_dims } => {
                &&& r.len() == 2
                &&& unbroadcast_result(g, a_dims@, r[0])
                &&& exists|n: Tensor<E>| #[trigger]
                    unary_result(UnaryOp::Neg, g, n) && unbroadcast_result(n, b_dims@, r[1])
            },
            OpGrad::Mul { a, b } => {
                &&& r.len() == 2
                &&& exists|ga: Tensor<E>| #[trigger]
                    combines(BinaryOp::Mul, g, b, ga) && unbroadcast_result(ga, a.dims(), r[0])
                &&& exists|gb: Tensor<E>| #[trigger]
                    combines(BinaryOp::Mul, g, a, gb) && unbroadcast_result(gb, b.dims(), r[1])
            },
            OpGrad::Div { a, b } => {
                &&& r.len() == 2
                &&& exists|ga: Tensor<E>| #[trigger]
                    combines(BinaryOp::Div, g, b, ga) && unbroadcast_result(ga, a.dims(), r[0])
                &&& exists|b2: Tensor<E>, up: Tensor<E>, q: Tensor<E>, gb: Tensor<E>| #[trigger]
                    combines(BinaryOp::Mul, b, b, b2) && #[trigger] combines(
                        BinaryOp::Mul,
                        g,
                        a,
                        up,
                    ) && #[trigger] combines(BinaryOp::Div, up, b2, q) && #[trigger] unary_result(
                        UnaryOp::Neg,
                        q,
                        gb,
                    ) && unbroadcast_result(gb, b.dims(), r[1])
            },
            OpGrad::Pow { a, b } => {
                &&& r.len() == 2
                &&& exists|less: Tensor<E>, power: Tensor<E>, up: Tensor<E>, ga: Tensor<E>|
                    #[trigger]
                    minus_one(b, less) && #[trigger] combines(BinaryOp::Pow, a, less, power)
                        && #[trigger] combines(BinaryOp::Mul, g, b, up) && #[trigger] combines(
                        BinaryOp::Mul,
                        up,
                        power,
                        ga,
                    ) && unbroadcast_result(ga, a.dims(), r[0])
                &&& exists|out: Tensor<E>, ln: Tensor<E>, up: Tensor<E>, gb: Tensor<E>| #[trigger]
                    combines(BinaryOp::Pow, a, b, out) && #[trigger] unary_result(
                        UnaryOp::Log,
                        a,
                        ln,
                    ) && #[trigger] combines(BinaryOp::Mul, g, out, up) && #[trigger] combines(
                        BinaryOp::Mul,
                        up,
                        ln,
                        gb,
                    ) && unbroadcast_result(gb, b.dims(), r[1])
            },
            OpGrad::MulScalar { c } => r.len() == 1 && scales(g, c, r[0]),
            OpGrad::Neg { dims } => {
                &&& r.len() == 1
                &&& exists|n: Tensor<E>| #[trigger]
                    unary_result(UnaryOp::Neg, g, n) && unbroadcast_result(n, dims@, r[0])
            },
            OpGrad::Slope { kind, x } => {
                &&& r.len() == 1
                &&& exists|d: Tensor<E>, gx: Tensor<E>| #[trigger]
                    kind.slope(x, d) && #[trigger] combines(BinaryOp::Mul, g, d, gx)
                        && unbroadcast_result(gx, x.dims(), r[0])
            },
            OpGrad::Relu { mask, dims } => {
                &&& r.len() == 1
                &&& exists|gx: Tensor<E>| #[trigger]
                    combines(BinaryOp::Mul, g, mask, gx) && unbroadcast_result(gx, dims@, r[0])
            },
            OpGrad::Matmul { a, b } => {
                &&& r.len() == 2
                &&& exists|bt: Tensor<E>, ga: Tensor<E>| #[trigger]
                    transpose_result(b, bt) && #[trigger] matmul_result(g, bt, ga)
                        && unbroadcast_result(ga, a.dims(), r[0])
                &&& exists|at: Tensor<E>, gb: Tensor<E>| #[trigger]
                    transpose_result(a, at) && #[trigger] matmul_result(at, g, gb)
                        && unbroadcast_result(gb, b.dims(), r[1])
            },
            OpGrad::Bmm { a, b } => {
                &&& r.len() == 2
                &&& exists|bt: Tensor<E>, ga: Tensor<E>| #[trigger]
                    permute_result(b, index3(0, 2, 1), bt) && #[trigger] bmm_result(
                        g,
                        bt,
                        ga,
                    ) && unbroadcast_result(ga, a.dims(), r[0])
                &&& exists|at: Tensor<E>, gb: Tensor<E>| #[trigger]
                    permute_result(a, index3(0, 2, 1), at) && #[trigger] bmm_result(
                        at,
                        g,
                        gb,
                    ) && unbroadcast_result(gb, b.dims(), r[1])
            },
            OpGrad::Sum { dims, dim } => {
                &&& r.len() == 1
                &&& exists|up: Tensor<E>| #[trigger]
                    spreads_back(g, dims@, dim as int, up) && unbroadcast_result(up, dims@, r[0])
            },
            OpGrad::Mean { dims, dim } => {
                &&& r.len() == 1
                &&& exists|up: Tensor<E>, share: E, gx: Tensor<E>| #[trigger]
                    spreads_back(g, dims@, dim as int, up) && is_share(dims@[dim as int], share)
                        && #[trigger] scales(up, share, gx) && unbroadcast_result(gx, dims@, r[0])
            },
            OpGrad::Winner { dims, dim, places } => {
                &&& r.len() == 1
                &&& exists|gx: Tensor<E>| #[trigger]
                    to_winners(g.data(), index_of(places@), dims@, dim as int, gx)
                        && unbroadcast_result(gx, dims@, r[0])
            },
            OpGrad::Norm { x, dim } => {
                &&& r.len() == 1
                &&& exists|
                    up: Tensor<E>,
                    n: Tensor<E>,
                    safe: Tensor<E>,
                    ratio: Tensor<E>,
                    gx: Tensor<E>,
                | #[trigger]
                    spreads_back(g, x.dims(), dim as int, up) && #[trigger] reduce_result(
                        x,
                        ReduceKind::Norm,
                        dim as int,
                        true,
                        n,
                    ) && #[trigger] lifted(n, safe) && #[trigger] combines(
                        BinaryOp::Div,
                        x,
                        safe,
                        ratio,
                    ) && #[trigger] combines(BinaryOp::Mul, up, ratio, gx) && unbroadcast_result(
                        gx,
                        x.dims(),
                        r[0],
                    )
            },
            OpGrad::Transpose { dims } => {
                &&& r.len() == 1
                &&& exists|gx: Tensor<E>| #[trigger]
                    transpose_result(g, gx) && unbroadcast_result(gx, dims@, r[0])
            },
            OpGrad::Reshape { dims } => {
                &&& r.len() == 1
                &&& r[0].dims() == dims@
                &&& r[0].data() == g.data()
            },
            OpGrad::Narrow { dims, start } => {
                &&& r.len() == 1
                &&& padded(
                    g.data(),
                    start * product(dims@.skip(1)),
                    dims@,
                    r[0],
                )
            },
            OpGrad::Permute { dims, undo } => {
                &&& r.len() == 1
                &&& exists|gx: Tensor<E>| #[trigger]
                    permute_result(g, resolved_order(undo@), gx) && unbroadcast_result(
                        gx,
                        dims@,
                        r[0],
                    )
            },
            OpGrad::BroadcastTo { dims } => r.len() == 1 && unbroadcast_result(g, dims@, r[0]),
            OpGrad::IndexSelect { dims, dim, picks } => {
                &&& r.len() == 1
                &&& adds_back(
                    selected_places(dims@, dim as int, index_of(picks@), g.data().len()),
                    g.data(),
                    dims@,
                    r[0],
                )
            },
            OpGrad::ScatterDim0 { base, values, picks } => {
                &&& r.len() == 2
                &&& exists|mask: Tensor<E>, gb: Tensor<E>| #[trigger]
                    masks_rows(base@, index_of(picks@), mask) && #[trigger] combines(
                        BinaryOp::Mul,
                        g,
                        mask,
                        gb,
                    ) && unbroadcast_result(gb, base@, r[0])
                &&& to_last_writers(
                    g.data(),
                    index_of(picks@),
                    product(base@.skip(1)) as int,
                    values@,
                    r[1],
                )
            },
            OpGrad::Elements { dims, places } => {
                &&& r.len() == 1
                &&& adds_back(index_of(places@), g.data(), dims@, r[0])
            },
        }
    }
}

impl<E: Elem> OpGrad<E> {
    /// The shapes of the inputs of the op, for an output of dims `d`.
    pub open spec fn input_dims(self, d: Seq<usize>) -> Seq<Seq<usize>> {
        match self {
            OpGrad::Add { a_dims, b_dims } => seq![a_dims@, b_dims@],
            OpGrad::Sub { a_dims, b_dims } => seq![a_dims@, b_dims@],
            OpGrad::Mul { a, b } => seq![a.dims(), b.dims()],
            OpGrad::Div { a, b } => seq![a.dims(), b.dims()],
            OpGrad::Pow { a, b } => seq![a.dims(), b.dims()],
            OpGrad::MulScalar { c } => seq![d],
            OpGrad::Neg { dims } => seq![dims@],
            OpGrad::Slope { kind, x } => seq![x.dims()],
            OpGrad::Relu { mask, dims } => seq![dims@],
            OpGrad::Matmul { a, b } => seq![a.dims(), b.dims()],
            OpGrad::Bmm { a, b } => seq![a.dims(), b.dims()],
            OpGrad::Sum { dims, dim } => seq![dims@],
            OpGrad::Mean { dims, dim } => seq![dims@],
            OpGrad::Winner { dims, dim, places } => seq![dims@],
            OpGrad::Norm { x, dim } => seq![x.dims()],
            OpGrad::Transpose { dims } => seq![dims@],
            OpGrad::Reshape { dims } => seq![dims@],
            OpGrad::Narrow { dims, start } => seq![dims@],
            OpGrad::Permute { dims, undo } => seq![dims@],
            OpGrad::BroadcastTo { dims } => seq![dims@],
            OpGrad::IndexSelect { dims, dim, picks } => seq![dims@],
            OpGrad::ScatterDim0 { base, values, picks } => seq![base@, values@],
            OpGrad::Elements { dims, places } => seq![dims@],
        }
    }
}

/// A rule gives one gradient per input, of the input's shape.
pub proof fn law_rules_give_input_shapes<E: Elem>(
    rule: OpGrad<E>,
    g: Tensor<E>,
    r: Seq<Tensor<E>>,
)
    requires
        rule.gives(g, r),
    ensures
        r.len() == rule.input_dims(g.dims()).len(),
        forall|k: int|
            0 <= k < r.len() ==> (#[trigger] r[k]).dims() == rule.input_dims(g.dims())[k],
{
}

/// `out` is what `a` and `b` broadcast to.
pub open spec fn joins(a: Seq<usize>, b: Seq<usize>, out: Seq<usize>) -> bool {
    broadcastable(a, b) && out == broadcast_of(a, b)
}

/// A gradient of dims `g` can be summed down to dims `to`.
pub open spec fn sums_to(g: Seq<usize>, to: Seq<usize>) -> bool {
    unbroadcast_error(g, to) is None
}

/// `g` are the dims that reducing dimension `dim` of `dims` leaves.
pub open spec fn reduced_from(g: Seq<usize>, dims: Seq<usize>, dim: int) -> bool {
    &&& 0 <= dim < dims.len()
    &&& product(dims) <= usize::MAX
    &&& g == reduced_dims(dims, dim, true) || g == reduced_dims(dims, dim, false)
}

/// Every entry is below `n`.
pub open spec fn all_below(s: Seq<usize>, n: int) -> bool {
    forall|k: int| 0 <= k < s.len() ==> #[trigger] s[k] < n
}

/// The first of two errors.
pub open spec fn first_error(a: Option<ErrorText>, b: Option<ErrorText>) -> Option<ErrorText> {
    if a is Some {
        a
    } else {
        b
    }
}

/// The complaint about a gradient that cannot belong to the op.
pub open spec fn misfit_error() -> ErrorText {
    ErrorText::InvalidArgument("internal: gradient does not fit the recorded op"@)
}

/// Summing a gradient of dims `g` down to both operands fails with `e`.
pub open spec fn add_fails(g: Seq<usize>, a: Seq<usize>, b: Seq<usize>, e: ErrorText) -> bool {
    first_error(unbroadcast_error(g, a), unbroadcast_error(g, b)) == Some(e)
}

/// The rule of a product fails with `e` for a gradient of dims `g`.
pub open spec fn mul_fails(g: Seq<usize>, a: Seq<usize>, b: Seq<usize>, e: ErrorText) -> bool {
    first_error(
        first_error(broadcast_error(g, b), broadcast_error(g, a)),
        first_error(
            unbroadcast_error(broadcast_of(g, b), a),
            unbroadcast_error(broadcast_of(g, a), b),
        ),
    ) == Some(e)
}

/// The rule of a quotient fails with `e` for a gradient of dims `g`.
pub open spec fn div_fails(g: Seq<usize>, a: Seq<usize>, b: Seq<usize>, e: ErrorText) -> bool {
    let up = broadcast_of(g, a);
    first_error(
        first_error(
            first_error(broadcast_error(g, b), broadcast_error(g, a)),
            broadcast_error(up, b),
        ),
        first_error(
            unbroadcast_error(broadcast_of(g, b), a),
            unbroadcast_error(broadcast_of(up, b), b),
        ),
    ) == Some(e)
}

/// The rule of a power fails with `e` for a gradient of dims `g`.
pub open spec fn pow_fails(g: Seq<usize>, a: Seq<usize>, b: Seq<usize>, e: ErrorText) -> bool {
    let out = broadcast_of(a, b);
    let ga = broadcast_of(broadcast_of(g, b), out);
    let gb = broadcast_of(broadcast_of(g, out), a);
    first_error(
        first_error(
            first_error(broadcast_error(a, b), broadcast_error(g, b)),
            broadcast_error(broadcast_of(g, b), out),
        ),
        first_error(
            first_error(broadcast_error(g, out), broadcast_error(broadcast_of(g, out), a)),
            first_error(unbroadcast_error(ga, a), unbroadcast_error(gb, b)),
        ),
    ) == Some(e)
}

/// Scaling a gradient of dims `g` by a factor of dims `by`, for an input of
/// dims `to`, fails with `e`.
pub open spec fn scaled_fails(
    g: Seq<usize>,
    by: Seq<usize>,
    to: Seq<usize>,
    e: ErrorText,
) -> bool {
    first_error(broadcast_error(g, by), unbroadcast_error(broadcast_of(g, by), to)) == Some(e)
}

/// Multiplying matrices of dims `x` and `y` fails with `e`.
pub open spec fn product_fails<E: Elem>(x: Seq<usize>, y: Seq<usize>, e: ErrorText) -> bool {
    match matmul_error(x, y) {
        Some(m) => e == m,
        None => e == kernel_error() && kernel_misfits::<E>(x[1] as int, y[1] as int),
    }
}

/// The rule of a matrix product fails with `e` for a gradient of dims `g`.
pub open spec fn matmul_fails<E: Elem>(
    g: Seq<usize>,
    a: Seq<usize>,
    b: Seq<usize>,
    e: ErrorText,
) -> bool {
    if a.len() != 2 || b.len() != 2 {
        e == transpose_error()
    } else {
        let at = seq![a[1], a[0]];
        let bt = seq![b[1], b[0]];
        ||| product_fails::<E>(g, bt, e)
        ||| matmul_error(g, bt) is None && product_fails::<E>(at, g, e)
        ||| matmul_error(g, bt) is None && matmul_error(at, g) is None && first_error(
            unbroadcast_error(seq![g[0], b[0]], a),
            unbroadcast_error(seq![a[1], g[1]], b),
        ) == Some(e)
    }
}

/// Multiplying stacks of matrices of dims `x` and `y` fails with `e`.
pub open spec fn products_fail<E: Elem>(x: Seq<usize>, y: Seq<usize>, e: ErrorText) -> bool {
    match bmm_error(x, y) {
        Some(m) => e == m,
        None => e == kernel_error() && kernel_misfits::<E>(x[2] as int, y[2] as int),
    }
}

/// The rule of a batched product fails with `e` for a gradient of dims `g`.
pub open spec fn bmm_fails<E: Elem>(
    g: Seq<usize>,
    a: Seq<usize>,
    b: Seq<usize>,
    e: ErrorText,
) -> bool {
    if b.len() != 3 {
        permute_error(b.len() as int, swap_last_order()) == Some(e)
    } else if a.len() != 3 {
        permute_error(a.len() as int, swap_last_order()) == Some(e)
    } else {
        let at = seq![a[0], a[2], a[1]];
        let bt = seq![b[0], b[2], b[1]];
        ||| products_fail::<E>(g, bt, e)
        ||| bmm_error(g, bt) is None && products_fail::<E>(at, g, e)
        ||| bmm_error(g, bt) is None && bmm_error(at, g) is None && first_error(
            unbroadcast_error(seq![g[0], g[1], b[1]], a),
            unbroadcast_error(seq![a[0], a[2], g[2]], b),
        ) == Some(e)
    }
}

/// The order of dims that swaps the last two of three.
pub open spec fn swap_last_order() -> Seq<i64> {
    seq![0i64, 2, 1]
}

/// Why a gradient of dims `g` cannot be spread back over `dims`, if it cannot.
pub open spec fn spread_error(g: Seq<usize>, dims: Seq<usize>, dim: int) -> Option<ErrorText> {
    expand_error(keepdim_dims(g, dims, dim), dims)
}

impl<E: Elem> OpGrad<E> {
    /// The rule fails with `e` for the output gradient `g`.
    pub open spec fn fails(self, g: Tensor<E>, e: ErrorText) -> bool {
        let gd = g.dims();
        match self {
            OpGrad::Add { a_dims, b_dims } => add_fails(gd, a_dims@, b_dims@, e),
            OpGrad::Sub { a_dims, b_dims } => add_fails(gd, a_dims@, b_dims@, e),
            OpGrad::Mul { a, b } => mul_fails(gd, a.dims(), b.dims(), e),
            OpGrad::Div { a, b } => div_fails(gd, a.dims(), b.dims(), e),
            OpGrad::Pow { a, b } => pow_fails(gd, a.dims(), b.dims(), e),
            OpGrad::MulScalar { c } => false,
            OpGrad::Neg { dims } => unbroadcast_error(gd, dims@) == Some(e),
            OpGrad::Slope { kind, x } => scaled_fails(gd, x.dims(), x.dims(), e),
            OpGrad::Relu { mask, dims } => scaled_fails(gd, mask.dims(), dims@, e),
            OpGrad::Matmul { a, b } => matmul_fails::<E>(gd, a.dims(), b.dims(), e),
            OpGrad::Bmm { a, b } => bmm_fails::<E>(gd, a.dims(), b.dims(), e),
            OpGrad::Sum { dims, dim } => spread_error(gd, dims@, dim as int) == Some(e),
            OpGrad::Mean { dims, dim } => if dim >= dims@.len() {
                e == misfit_error()
            } else {
                spread_error(gd, dims@, dim as int) == Some(e)
            },
            OpGrad::Norm { x, dim } => if dim >= x.dims().len() {
                e == misfit_error()
            } else {
                first_error(
                    spread_error(gd, x.dims(), dim as int),
                    reduce_error(x.dims(), ReduceKind::Norm, dim as int, true),
                ) == Some(e)
            },
            OpGrad::Transpose { dims } => if gd.len() != 2 {
                e == transpose_error()
            } else {
                unbroadcast_error(seq![gd[1], gd[0]], dims@) == Some(e)
            },
            OpGrad::Reshape { dims } => g.count() != product(dims@) && first_error(
                reshape_error(g.count(), signed_dims(dims@)),
                Some(misfit_error()),
            ) == Some(e),
            OpGrad::Permute { dims, undo } => first_error(
                permute_error(gd.len() as int, undo@),
                unbroadcast_error(permuted(gd, resolved_order(undo@)), dims@),
            ) == Some(e),
            OpGrad::BroadcastTo { dims } => unbroadcast_error(gd, dims@) == Some(e),
            _ => !self.accepts(g) && e == misfit_error(),
        }
    }

    /// The rule is owed an answer for the output gradient `g`: `g` has the
    /// shape of the op's output, and the kernel behind a matrix product keeps
    /// to its lengths.
    pub open spec fn accepts(self, g: Tensor<E>) -> bool {
        let gd = g.dims();
        match self {
            OpGrad::Add { a_dims, b_dims } => joins(a_dims@, b_dims@, gd) && sums_to(gd, a_dims@)
                && sums_to(gd, b_dims@),
            OpGrad::Sub { a_dims, b_dims } => joins(a_dims@, b_dims@, gd) && sums_to(gd, a_dims@)
                && sums_to(gd, b_dims@),
            OpGrad::Mul { a, b } => joins(a.dims(), b.dims(), gd) && sums_to(gd, a.dims()) && sums_to(
                gd,
                b.dims(),
            ),
            OpGrad::Div { a, b } => joins(a.dims(), b.dims(), gd) && sums_to(gd, a.dims()) && sums_to(
                gd,
                b.dims(),
            ),
            OpGrad::Pow { a, b } => joins(a.dims(), b.dims(), gd) && sums_to(gd, a.dims()) && sums_to(
                gd,
                b.dims(),
            ),
            OpGrad::MulScalar { c } => true,
            OpGrad::Neg { dims } => gd == dims@,
            OpGrad::Slope { kind, x } => gd == x.dims(),
            OpGrad::Relu { mask, dims } => gd == dims@ && mask.dims() == dims@,
            OpGrad::Matmul { a, b } => {
                &&& matmul_error(a.dims(), b.dims()) is None
                &&& gd == seq![a.dims()[0], b.dims()[1]]
                &&& !kernel_misfits::<E>(b.dims()[1] as int, b.dims()[0] as int)
                &&& !kernel_misfits::<E>(a.dims()[0] as int, b.dims()[1] as int)
            },
            OpGrad::Bmm { a, b } => {
                &&& bmm_error(a.dims(), b.dims()) is None
                &&& gd == seq![a.dims()[0], a.dims()[1], b.dims()[2]]
                &&& !kernel_misfits::<E>(b.dims()[2] as int, b.dims()[1] as int)
                &&& !kernel_misfits::<E>(a.dims()[1] as int, b.dims()[2] as int)
            },
            OpGrad::Sum { dims, dim } => reduced_from(gd, dims@, dim as int),
            OpGrad::Mean { dims, dim } => reduced_from(gd, dims@, dim as int),
            OpGrad::Winner { dims, dim, places } => {
                &&& reduced_from(gd, dims@, dim as int)
                &&& g.count() == places@.len()
                &&& all_below(places@, dims@[dim as int] as int)
            },
            OpGrad::Norm { x, dim } => reduced_from(gd, x.dims(), dim as int),
            OpGrad::Transpose { dims } => dims@.len() == 2 && gd == seq![dims@[1], dims@[0]],
            OpGrad::Reshape { dims } => g.count() == product(dims@),
            OpGrad::Narrow { dims, start } => {
                &&& dims@.len() > 0
                &&& product(dims@) <= usize::MAX
                &&& start * product(dims@.skip(1)) + g.count() <= product(dims@)
            },
            OpGrad::Permute { dims, undo } => {
                &&& permute_error(gd.len() as int, undo@) is None
                &&& dims@ == permuted(gd, resolved_order(undo@))
            },
            OpGrad::BroadcastTo { dims } => sums_to(gd, dims@),
            OpGrad::IndexSelect { dims, dim, picks } => {
                &&& dim < dims@.len()
                &&& product(dims@) <= usize::MAX
                &&& gd == dims@.update(dim as int, picks@.len() as usize)
                &&& all_below(picks@, dims@[dim as int] as int)
            },
            OpGrad::ScatterDim0 { base, values, picks } => {
                &&& base@.len() > 0
                &&& gd == base@
                &&& values@ == base@.update(0, picks@.len() as usize)
                &&& product(values@) <= usize::MAX
                &&& all_below(picks@, base@[0] as int)
            },
            OpGrad::Elements { dims, places } => {
                &&& product(dims@) <= usize::MAX
                &&& g.count() == places@.len()
                &&& all_below(places@, product(dims@) as int)
            },
        }
    }
}

/// `r` is `t` plus minus one, element by element.
pub open spec fn minus_one<E: Elem>(t: Tensor<E>, r: Tensor<E>) -> bool {
    &&& r.dims() == t.dims()
    &&& exists|o: E, m: E|
        #![trigger is_one(o), call_ensures(E::negate, (o,), m)]
        is_one(o) && call_ensures(E::negate, (o,), m) && forall|p: int|
            0 <= p < t.count() ==> call_ensures(E::plus, (t.data()[p], m), #[trigger] r.data()[p])
}

/// `r` is `t` lifted off zero by a tiny amount, element by element.
pub open spec fn lifted<E: Elem>(t: Tensor<E>, r: Tensor<E>) -> bool {
    &&& r.dims() == t.dims()
    &&& exists|c: E| #[trigger]
        call_ensures(E::tiny, (), c) && forall|p: int|
            0 <= p < t.count() ==> call_ensures(E::plus, (t.data()[p], c), #[trigger] r.data()[p])
}

} // verus!
