//! Finite-difference check of gradients, in the spirit of
//! `torch.autograd.gradcheck`.
//!
//! Central differences: for scalar outputs `(f(x+h) - f(x-h)) / 2h` must
//! match the analytic gradient within tolerance. Nonsmooth ops (relu at 0)
//! are to be checked away from their kinks.
//!
//! A check runs on a graph of the caller, so that `f` may use nodes of it,
//! and frees the nodes it made.

use vstd::prelude::*;
use crate::autograd::graph::{Graph, Var, VjpRule, is_leaf_node};
use crate::autograd::graph::pass::{backward, backward_fails, backward_result};
use crate::autograd::ops::{mul_outcome, reduce_outcome, unchanged};
use crate::elem::{Elem, is_one};
use crate::error::{OxitorchError, OxitorchResult};
use crate::layout::{signed_dims, sizes_of};
use crate::ops::ReduceKind;
use crate::tensor::{Tensor, from_buffer_error};

verus! {

/// Adding a leaf leads from `before` to `after`, with `v` the new node.
pub open spec fn leaf_added<E, V>(
    before: Graph<E, V>,
    value: Tensor<E>,
    requires_grad: bool,
    v: Var,
    after: Graph<E, V>,
) -> bool {
    &&& after.recording() == before.recording()
    &&& after.nodes().len() == before.nodes().len() + 1
    &&& after.nodes().drop_last() == before.nodes()
    &&& is_leaf_node(after.nodes().last(), value, requires_grad)
    &&& v.id() == before.nodes().len()
}

/// `after` holds what `before` held, as far as its first `len` nodes.
pub open spec fn wound_back<E, V>(before: Graph<E, V>, len: nat, after: Graph<E, V>) -> bool {
    &&& before.nodes().len() >= len
    &&& after.nodes() == before.nodes().take(len as int)
    &&& after.recording() == before.recording()
}

/// `f` can be called on every graph that grew from one of `len` nodes, and
/// hands back a valid graph that grew from it.
pub open spec fn probes<E, V, F: Fn(Graph<E, V>, Var) -> (Graph<E, V>, OxitorchResult<Var>)>(
    f: F,
    len: nat,
) -> bool {
    &&& forall|x: Graph<E, V>, v: Var|
        #![trigger call_requires(f, (x, v))]
        x.wf() && x.has(v) && x.nodes().len() >= len ==> call_requires(f, (x, v))
    &&& forall|x: Graph<E, V>, v: Var, y: Graph<E, V>, r: OxitorchResult<Var>|
        #![trigger call_ensures(f, (x, v), (y, r))]
        x.wf() && x.has(v) && x.nodes().len() >= len && call_ensures(f, (x, v), (y, r)) ==> {
            &&& y.wf()
            &&& y.nodes().len() >= x.nodes().len()
            &&& r is Ok ==> y.has(r->Ok_0)
        }
}

/// Summing away the leading dims of `v`, `n` of them, gives `r` and leads
/// from `before` to `after`.
pub open spec fn summed<E: Elem, V: VjpRule<E>>(
    before: Graph<E, V>,
    v: Var,
    n: nat,
    r: OxitorchResult<Var>,
    after: Graph<E, V>,
) -> bool
    decreases n,
{
    if n == 0 {
        r == Ok::<Var, OxitorchError>(v) && unchanged(before, after)
    } else {
        exists|q: OxitorchResult<Var>, mid: Graph<E, V>| #[trigger]
            reduce_outcome(before, v, ReduceKind::Sum, 0, false, q, mid) && match q {
                Ok(u) => summed(mid, u, (n - 1) as nat, r, after),
                Err(_) => r == q && unchanged(mid, after),
            }
    }
}

/// Reduces any tensor to a true 0-d scalar via repeated sum reductions.
fn sum_to_scalar<E: Elem, V: VjpRule<E>>(g: &mut Graph<E, V>, v: Var) -> (r: OxitorchResult<Var>)
    requires
        old(g).wf(),
        old(g).has(v),
    ensures
        final(g).wf(),
        final(g).nodes().len() >= old(g).nodes().len(),
        r matches Ok(s) ==> final(g).has(s) && final(g).node(s).value.dims().len() == 0,
        summed(*old(g), v, old(g).node(v).value.dims().len(), r, *final(g)),
    decreases old(g).node(v).value.dims().len(),
{
    if v.value(g).ndim() == 0 {
        return Ok(v);
    }
    let q = crate::autograd::ops::reduce(g, v, ReduceKind::Sum, 0, false);
    let ghost mid = *g;
    assert(reduce_outcome(*old(g), v, ReduceKind::Sum, 0, false, q, mid));
    match q {
        Ok(u) => {
            assert(g.node(u).value.dims().len() + 1 == old(g).node(v).value.dims().len());
            sum_to_scalar(g, u)
        },
        Err(e) => Err(e),
    }
}

/// Weighing the output `q` of a probed function gives `r` and leads from
/// `before` to `after`: without weights the output stays, and with weights
/// the products of its elements with them are summed to a scalar.
pub open spec fn weighed<E: Elem, V: VjpRule<E>>(
    before: Graph<E, V>,
    q: OxitorchResult<Var>,
    weights: Option<Tensor<E>>,
    r: OxitorchResult<Var>,
    after: Graph<E, V>,
) -> bool {
    if q is Err || weights is None {
        r == q && unchanged(before, after)
    } else {
        exists|c: Var, held: Graph<E, V>, p: OxitorchResult<Var>, mid: Graph<E, V>| #[trigger]
            leaf_added(before, weights->0, false, c, held) && #[trigger] mul_outcome(
                held,
                q->Ok_0,
                c,
                p,
                mid,
            ) && match p {
                Ok(d) => summed(mid, d, mid.node(d).value.dims().len(), r, after),
                Err(_) => r == p && unchanged(mid, after),
            }
    }
}

/// The weights, if there are any.
pub open spec fn given<E>(weights: Option<&Tensor<E>>) -> Option<Tensor<E>> {
    match weights {
        Some(w) => Some(*w),
        None => None,
    }
}

/// Probing `f` at `point` gives `r` and leads from `before` to `after`.
pub open spec fn probed<
    E: Elem,
    V: VjpRule<E>,
    F: Fn(Graph<E, V>, Var) -> (Graph<E, V>, OxitorchResult<Var>),
>(
    before: Graph<E, V>,
    f: F,
    weights: Option<Tensor<E>>,
    point: Tensor<E>,
    requires_grad: bool,
    r: OxitorchResult<Var>,
    after: Graph<E, V>,
) -> bool {
    exists|v: Var, x: Graph<E, V>, y: Graph<E, V>, q: OxitorchResult<Var>| #[trigger]
        leaf_added(before, point, requires_grad, v, x) && #[trigger] call_ensures(
            f,
            (x, v),
            (y, q),
        ) && weighed(y, q, weights, r, after)
}

/// Runs `f` at `point` and weighs its output. The first handle is that of the
/// point.
fn probe<
    E: Elem,
    V: VjpRule<E>,
    F: Fn(Graph<E, V>, Var) -> (Graph<E, V>, OxitorchResult<Var>),
>(
    g: &mut Graph<E, V>,
    f: &F,
    weights: Option<&Tensor<E>>,
    point: Tensor<E>,
    requires_grad: bool,
) -> (r: (Var, OxitorchResult<Var>))
    requires
        old(g).wf(),
        probes(*f, old(g).nodes().len()),
    ensures
        final(g).wf(),
        final(g).nodes().len() > old(g).nodes().len(),
        r.0.id() == old(g).nodes().len(),
        r.1 matches Ok(o) ==> final(g).has(o),
        probed(
            *old(g),
            *f,
            given(weights),
            point,
            requires_grad,
            r.1,
            *final(g),
        ),
{
    let ghost at = point;
    let v = Var::leaf(g, point, requires_grad);
    let ghost x = *g;
    assert(leaf_added(*old(g), at, requires_grad, v, x));
    let mut own: Graph<E, V> = Graph::new();
    std::mem::swap(&mut own, g);
    let (y, q) = f(own, v);
    assert(call_ensures(*f, (x, v), (y, q)));
    let ghost chosen = given(weights);
    *g = y;
    let o = match q {
        Ok(o) => o,
        Err(e) => {
            return (v, Err(e));
        },
    };
    let r = match weights {
        None => Ok(o),
        Some(w) => {
            let c = Var::leaf(g, w.clone(), false);
            let ghost held = *g;
            assert(leaf_added(y, *w, false, c, held));
            let p = crate::autograd::ops::mul(g, o, c);
            let ghost mid = *g;
            assert(mul_outcome(held, o, c, p, mid));
            let s = match p {
                Ok(d) => {
                    let s = sum_to_scalar(g, d);
                    assert(summed(mid, d, mid.node(d).value.dims().len(), s, *g));
                    s
                },
                Err(e) => Err(e),
            };
            assert(leaf_added(y, chosen->0, false, c, held));
            assert(mul_outcome(held, q->Ok_0, c, p, mid));
            assert(weighed(y, q, chosen, s, *g));
            s
        },
    };
    assert(weighed(y, q, chosen, r, *g));
    (v, r)
}

/// `r` is the slope between the values `up` and `down`, `h` to either side.
pub open spec fn is_slope<E: Elem>(up: E, down: E, h: E, r: E) -> bool {
    exists|rise: E, two: E, run: E| #[trigger]
        call_ensures(E::minus, (up, down), rise) && #[trigger] call_ensures(E::two, (), two)
            && #[trigger] call_ensures(E::times, (two, h), run) && call_ensures(
            E::divide,
            (rise, run),
            r,
        )
}

/// `scale` is what a gradient `a` may be off by: `tol * max(1, |a|)`.
pub open spec fn is_allowance<E: Elem>(a: E, tol: E, scale: E) -> bool {
    exists|size: E, one: E, larger: E| #[trigger]
        call_ensures(E::magnitude, (a,), size) && #[trigger] is_one(one) && #[trigger] call_ensures(
            E::larger,
            (size, one),
            larger,
        ) && call_ensures(E::times, (tol, larger), scale)
}

/// `yes` says whether the gradient `a` is no further than its allowance from
/// the slope between `up` and `down`.
pub open spec fn agrees<E: Elem>(a: E, up: E, down: E, h: E, tol: E, yes: bool) -> bool {
    exists|slope: E, scale: E, gap: E, size: E, off: bool| #[trigger]
        is_slope(up, down, h, slope) && #[trigger] is_allowance(a, tol, scale) && #[trigger]
            call_ensures(E::minus, (a, slope), gap) && #[trigger] call_ensures(
            E::magnitude,
            (gap,),
            size,
        ) && #[trigger] call_ensures(E::less, (scale, size), off) && yes == !off
}

/// Compares a gradient with the slope between the values to either side.
fn agree<E: Elem>(a: E, up: E, down: E, h: E, tol: E) -> (r: bool)
    ensures
        agrees(a, up, down, h, tol, r),
{
    let rise = E::minus(up, down);
    let two = E::two();
    let run = E::times(two, h);
    let slope = E::divide(rise, run);
    assert(is_slope(up, down, h, slope));
    let size = E::magnitude(a);
    let one = E::one();
    let larger = E::larger(size, one);
    let scale = E::times(tol, larger);
    assert(is_one(one));
    assert(is_allowance(a, tol, scale));
    let gap = E::minus(a, slope);
    let off = E::less(scale, E::magnitude(gap));
    !off
}

/// `point` is `input` with element `i` replaced.
pub open spec fn moved_at<E>(input: Tensor<E>, i: int, x: E, point: Tensor<E>) -> bool {
    point.dims() == sizes_of(signed_dims(input.dims())) && point.data() == input.data().update(i, x)
}

/// The first element of a tensor, if it has any.
pub open spec fn first_of<E>(t: Tensor<E>) -> Option<E> {
    if t.count() > 0 {
        Some(t.data()[0])
    } else {
        None
    }
}

/// Reading `f` with element `i` of `input` at `x` gives `r` and leads from
/// `before` to `after`; the nodes made on the way are freed.
pub open spec fn reading<
    E: Elem,
    V: VjpRule<E>,
    F: Fn(Graph<E, V>, Var) -> (Graph<E, V>, OxitorchResult<Var>),
>(
    before: Graph<E, V>,
    f: F,
    weights: Option<Tensor<E>>,
    input: Tensor<E>,
    i: int,
    x: E,
    r: OxitorchResult<Option<E>>,
    after: Graph<E, V>,
) -> bool {
    exists|point: Tensor<E>, q: OxitorchResult<Var>, mid: Graph<E, V>| #[trigger]
        moved_at(input, i, x, point) && #[trigger] probed(
            before,
            f,
            weights,
            point,
            false,
            q,
            mid,
        ) && wound_back(mid, before.nodes().len(), after) && match q {
            Ok(o) => r == Ok::<Option<E>, OxitorchError>(first_of(mid.node(o).value)),
            Err(e) => r == Err::<Option<E>, OxitorchError>(e),
        }
}

/// Reads `f` with element `i` of `input` at `x`.
fn read_at<
    E: Elem,
    V: VjpRule<E>,
    F: Fn(Graph<E, V>, Var) -> (Graph<E, V>, OxitorchResult<Var>),
>(
    g: &mut Graph<E, V>,
    f: &F,
    weights: Option<&Tensor<E>>,
    input: &Tensor<E>,
    i: usize,
    x: E,
) -> (r: OxitorchResult<Option<E>>)
    requires
        old(g).wf(),
        probes(*f, old(g).nodes().len()),
        i < input.count(),
    ensures
        final(g).wf(),
        final(g).nodes().len() == old(g).nodes().len(),
        from_buffer_error(signed_dims(input.dims()), input.count() as int) is None ==> reading(
            *old(g),
            *f,
            given(weights),
            *input,
            i as int,
            x,
            r,
            *final(g),
        ),
        from_buffer_error(signed_dims(input.dims()), input.count() as int) matches Some(w) ==> (r matches Err(
            e,
        ) && e@ == w && unchanged(*old(g), *final(g))),
{
    let start: usize = g.len();
    let mut data = input.to_vec();
    data.set(i, x);
    let shape = input.shape_i64();
    let point = match Tensor::from_vec(shape.as_slice(), data) {
        Ok(t) => t,
        Err(e) => {
            return Err(e);
        },
    };
    assert(moved_at(*input, i as int, x, point));
    let ghost at = point;
    let (_, q) = probe(g, f, weights, point, false);
    let ghost mid = *g;
    let r = match q {
        Ok(o) => {
            let out = o.value(g).to_vec();
            if out.len() > 0 {
                Ok(Some(out[0]))
            } else {
                Ok(None)
            }
        },
        Err(e) => Err(e),
    };
    g.rewind(start);
    assert(wound_back(mid, old(g).nodes().len(), *g));
    r
}

/// What a check holds fixed: the function with its weights, the input, its
/// analytic gradient, the step and the tolerance.
pub struct Comparison<E, F> {
    /// The function.
    pub f: F,
    /// What its output is weighed with.
    pub weights: Option<Tensor<E>>,
    /// The point at which it is checked.
    pub input: Tensor<E>,
    /// The analytic gradient, element by element.
    pub gradient: Seq<E>,
    /// How far to either side the function is read.
    pub h: E,
    /// How far gradient and slope may be apart.
    pub tol: E,
}

/// `yes` says whether element `i` of the gradient agrees with what was read
/// to either side; an element that is missing, or whose slope cannot be
/// read, does not.
pub open spec fn element_agrees<E: Elem, F>(
    c: Comparison<E, F>,
    i: int,
    up: Option<E>,
    down: Option<E>,
    yes: bool,
) -> bool {
    if i < c.gradient.len() && up is Some && down is Some {
        agrees(c.gradient[i], up->0, down->0, c.h, c.tol, yes)
    } else {
        !yes
    }
}

/// Checking element `i` says `yes` and leads from `before` to `after`.
pub open spec fn element_checked<
    E: Elem,
    V: VjpRule<E>,
    F: Fn(Graph<E, V>, Var) -> (Graph<E, V>, OxitorchResult<Var>),
>(
    before: Graph<E, V>,
    c: Comparison<E, F>,
    i: int,
    yes: bool,
    after: Graph<E, V>,
) -> bool {
    exists|hi: E, lo: E, up: Option<E>, mid: Graph<E, V>, down: Option<E>|
        call_ensures(E::plus, (c.input.data()[i], c.h), hi) && call_ensures(
            E::minus,
            (c.input.data()[i], c.h),
            lo,
        ) && #[trigger] reading(before, c.f, c.weights, c.input, i, hi, Ok(up), mid)
            && #[trigger] reading(mid, c.f, c.weights, c.input, i, lo, Ok(down), after)
            && element_agrees(c, i, up, down, yes)
}

/// Checking element `i` fails with `e` and leads from `before` to `after`:
/// the function fails to either side.
pub open spec fn element_fails<
    E: Elem,
    V: VjpRule<E>,
    F: Fn(Graph<E, V>, Var) -> (Graph<E, V>, OxitorchResult<Var>),
>(
    before: Graph<E, V>,
    c: Comparison<E, F>,
    i: int,
    e: OxitorchError,
    after: Graph<E, V>,
) -> bool {
    ||| exists|hi: E|
        call_ensures(E::plus, (c.input.data()[i], c.h), hi) && #[trigger] reading(
            before,
            c.f,
            c.weights,
            c.input,
            i,
            hi,
            Err(e),
            after,
        )
    ||| exists|hi: E, lo: E, up: Option<E>, mid: Graph<E, V>|
        call_ensures(E::plus, (c.input.data()[i], c.h), hi) && call_ensures(
            E::minus,
            (c.input.data()[i], c.h),
            lo,
        ) && #[trigger] reading(before, c.f, c.weights, c.input, i, hi, Ok(up), mid)
            && #[trigger] reading(mid, c.f, c.weights, c.input, i, lo, Err(e), after)
}

/// Checking the first `k` elements says `yes`, if all of them agree, and
/// leads from `before` to `after`.
pub open spec fn elements_checked<
    E: Elem,
    V: VjpRule<E>,
    F: Fn(Graph<E, V>, Var) -> (Graph<E, V>, OxitorchResult<Var>),
>(
    before: Graph<E, V>,
    c: Comparison<E, F>,
    k: int,
    yes: bool,
    after: Graph<E, V>,
) -> bool
    decreases k,
{
    if k <= 0 {
        yes && unchanged(before, after)
    } else {
        exists|mid: Graph<E, V>, last: bool| #[trigger]
            element_checked(mid, c, k - 1, last, after) && {
                ||| elements_checked(before, c, k - 1, true, mid) && yes == last
                ||| elements_checked(before, c, k - 1, false, mid) && !yes
            }
    }
}

/// Checking the elements gives `r` and leads from `before` to `after`.
pub open spec fn comparison_outcome<
    E: Elem,
    V: VjpRule<E>,
    F: Fn(Graph<E, V>, Var) -> (Graph<E, V>, OxitorchResult<Var>),
>(
    before: Graph<E, V>,
    c: Comparison<E, F>,
    r: OxitorchResult<bool>,
    after: Graph<E, V>,
) -> bool {
    let n = c.input.count() as int;
    let unshaped = from_buffer_error(signed_dims(c.input.dims()), n);
    match r {
        Ok(yes) => (n == 0 || unshaped is None) && elements_checked(before, c, n, yes, after),
        Err(e) => {
            ||| n > 0 && unshaped == Some(e@) && unchanged(before, after)
            ||| unshaped is None && exists|k: int, so_far: bool, mid: Graph<E, V>|
                0 <= k < n && #[trigger] elements_checked(before, c, k, so_far, mid)
                    && element_fails(mid, c, k, e, after)
        },
    }
}

proof fn lemma_one_more<
    E: Elem,
    V: VjpRule<E>,
    F: Fn(Graph<E, V>, Var) -> (Graph<E, V>, OxitorchResult<Var>),
>(
    before: Graph<E, V>,
    c: Comparison<E, F>,
    k: int,
    so_far: bool,
    mid: Graph<E, V>,
    last: bool,
    after: Graph<E, V>,
)
    requires
        k > 0,
        elements_checked(before, c, k - 1, so_far, mid),
        element_checked(mid, c, k - 1, last, after),
    ensures
        elements_checked(before, c, k, so_far && last, after),
{
}

/// Checks every element of the gradient against the slope there.
fn check_elements<
    E: Elem,
    V: VjpRule<E>,
    F: Fn(Graph<E, V>, Var) -> (Graph<E, V>, OxitorchResult<Var>),
>(
    g: &mut Graph<E, V>,
    f: &F,
    weights: Option<&Tensor<E>>,
    input: &Tensor<E>,
    gradient: &[E],
    tol: E,
) -> (r: OxitorchResult<bool>)
    requires
        old(g).wf(),
        probes(*f, old(g).nodes().len()),
    ensures
        final(g).wf(),
        final(g).nodes().len() == old(g).nodes().len(),
        exists|h: E|
            call_ensures(E::difference_step, (), h) && #[trigger] comparison_outcome(
                *old(g),
                (Comparison {
                    f: *f,
                    weights: given(weights),
                    input: *input,
                    gradient: gradient@,
                    h,
                    tol,
                }),
                r,
                *final(g),
            ),
{
    let h = E::difference_step();
    let ghost start = *g;
    let ghost c = Comparison {
        f: *f,
        weights: given(weights),
        input: *input,
        gradient: gradient@,
        h,
        tol,
    };
    let base = input.to_vec();
    let mut yes = true;
    let mut i: usize = 0;
    while i < base.len()
        invariant
            0 <= i <= base.len(),
            base@ == input.data(),
            g.wf(),
            start == *old(g),
            g.nodes().len() == start.nodes().len(),
            probes(*f, start.nodes().len()),
            call_ensures(E::difference_step, (), h),
            c == (Comparison {
                f: *f,
                weights: given(weights),
                input: *input,
                gradient: gradient@,
                h,
                tol,
            }),
            i == 0 || from_buffer_error(signed_dims(input.dims()), input.count() as int) is None,
            i == 0 ==> *g == start && yes,
            elements_checked(start, c, i as int, yes, *g),
        decreases base.len() - i,
    {
        let ghost before = *g;
        let hi = E::plus(base[i], h);
        let lo = E::minus(base[i], h);
        let up = match read_at(g, f, weights, input, i, hi) {
            Ok(y) => y,
            Err(e) => {
                proof {
                    if from_buffer_error(signed_dims(input.dims()), input.count() as int) is None {
                        assert(elements_checked(start, c, i as int, yes, before));
                        assert(element_fails(before, c, i as int, e, *g));
                    }
                    assert(comparison_outcome(start, c, Err(e), *g));
                }
                return Err(e);
            },
        };
        let ghost mid = *g;
        let down = match read_at(g, f, weights, input, i, lo) {
            Ok(y) => y,
            Err(e) => {
                proof {
                    assert(elements_checked(start, c, i as int, yes, before));
                    assert(element_fails(before, c, i as int, e, *g));
                    assert(comparison_outcome(start, c, Err(e), *g));
                }
                return Err(e);
            },
        };
        let last = match (up, down) {
            (Some(u), Some(d)) => if i < gradient.len() {
                agree(gradient[i], u, d, h, tol)
            } else {
                false
            },
            _ => false,
        };
        assert(element_checked(before, c, i as int, last, *g));
        let ghost so_far = yes;
        yes = yes && last;
        i = i + 1;
        proof {
            lemma_one_more(start, c, i as int, so_far, before, last, *g);
        }
    }
    assert(comparison_outcome(start, c, Ok(yes), *g));
    Ok(yes)
}

/// Differentiating from `o` ends with `d` and leads from `before` to `after`.
pub open spec fn differentiated<E: Elem, V: VjpRule<E>>(
    before: Graph<E, V>,
    o: Var,
    d: OxitorchResult<()>,
    after: Graph<E, V>,
) -> bool {
    &&& after.recording() == before.recording()
    &&& match d {
        Ok(_) => backward_result(before.nodes(), o.id(), None, false, after.nodes()),
        Err(e) => backward_fails(before.nodes(), o.id(), None, false, e@, after.nodes()),
    }
}

/// The elements of a gradient, none where no gradient arrived.
pub open spec fn elements_of<E>(grad: Option<Tensor<E>>) -> Seq<E> {
    match grad {
        Some(t) => t.data(),
        None => Seq::empty(),
    }
}

/// Checking the gradient of `f` at `input`, its output weighed with
/// `weights`, gives `r` and leads from `before` to `after`: the function is
/// run and differentiated at the input, and the gradient that arrives there
/// is compared with the slopes. An output that is no scalar does not agree.
pub open spec fn check_outcome<
    E: Elem,
    V: VjpRule<E>,
    F: Fn(Graph<E, V>, Var) -> (Graph<E, V>, OxitorchResult<Var>),
>(
    before: Graph<E, V>,
    input: Tensor<E>,
    weights: Option<Tensor<E>>,
    f: F,
    tol: E,
    r: OxitorchResult<bool>,
    after: Graph<E, V>,
) -> bool {
    let len = before.nodes().len();
    exists|q: OxitorchResult<Var>, run: Graph<E, V>| #[trigger]
        probed(before, f, weights, input, true, q, run) && match q {
            Err(e) => r == Err::<bool, OxitorchError>(e) && wound_back(run, len, after),
            Ok(o) => if run.node(o).value.count() != 1 {
                r == Ok::<bool, OxitorchError>(false) && wound_back(run, len, after)
            } else {
                exists|d: OxitorchResult<()>, done: Graph<E, V>| #[trigger]
                    differentiated(run, o, d, done) && match d {
                        Err(e) => r == Err::<bool, OxitorchError>(e) && wound_back(
                            done,
                            len,
                            after,
                        ),
                        Ok(_) => exists|h: E, freed: Graph<E, V>|
                            call_ensures(E::difference_step, (), h) && #[trigger] wound_back(
                                done,
                                len,
                                freed,
                            ) && #[trigger] comparison_outcome(
                                freed,
                                (Comparison {
                                    f,
                                    weights,
                                    input,
                                    gradient: elements_of(done.nodes()[len as int].grad),
                                    h,
                                    tol,
                                }),
                                r,
                                after,
                            ),
                    }
            },
        }
}

/// Runs a check and frees the nodes it made.
fn check<
    E: Elem,
    V: VjpRule<E>,
    F: Fn(Graph<E, V>, Var) -> (Graph<E, V>, OxitorchResult<Var>),
>(
    g: &mut Graph<E, V>,
    input: &Tensor<E>,
    weights: Option<&Tensor<E>>,
    f: &F,
    tol: E,
) -> (r: OxitorchResult<bool>)
    requires
        old(g).wf(),
        probes(*f, old(g).nodes().len()),
    ensures
        final(g).wf(),
        final(g).nodes().len() == old(g).nodes().len(),
        check_outcome(*old(g), *input, given(weights), *f, tol, r, *final(g)),
{
    let ghost before = *g;
    let len: usize = g.len();
    let (x, q) = probe(g, f, weights, input.clone(), true);
    let ghost run = *g;
    assert(probed(before, *f, given(weights), *input, true, q, run));
    let o = match q {
        Ok(o) => o,
        Err(e) => {
            g.rewind(len);
            return Err(e);
        },
    };
    if o.value(g).numel() != 1 {
        g.rewind(len);
        return Ok(false);
    }
    let d = backward(g, o, None);
    let ghost done = *g;
    assert(differentiated(run, o, d, done));
    if let Err(e) = d {
        g.rewind(len);
        return Err(e);
    }
    let gradient: Vec<E> = match x.grad(g) {
        Some(t) => t.to_vec(),
        None => Vec::new(),
    };
    g.rewind(len);
    let ghost freed = *g;
    assert(wound_back(done, before.nodes().len(), freed));
    assert(gradient@ =~= elements_of(done.nodes()[len as int].grad));
    let r = check_elements(g, f, weights, input, gradient.as_slice(), tol);
    proof {
        let h = choose|h: E|
            call_ensures(E::difference_step, (), h) && #[trigger] comparison_outcome(
                freed,
                (Comparison {
                    f: *f,
                    weights: given(weights),
                    input: *input,
                    gradient: gradient@,
                    h,
                    tol,
                }),
                r,
                *g,
            );
        assert(wound_back(done, before.nodes().len(), freed));
        assert(comparison_outcome(
            freed,
            (Comparison {
                f: *f,
                weights: given(weights),
                input: *input,
                gradient: elements_of(done.nodes()[len as int].grad),
                h,
                tol,
            }),
            r,
            *g,
        ));
    }
    r
}

/// Checks `f`'s gradient at `input` by central differences on a scalar
/// output, returning `Ok(true)` when every element matches within
/// `tol * max(1, |analytic|)`.
///
/// Propagates any op error from the forward and backward runs.
pub fn check_scalar<
    E: Elem,
    V: VjpRule<E>,
    F: Fn(Graph<E, V>, Var) -> (Graph<E, V>, OxitorchResult<Var>),
>(g: &mut Graph<E, V>, input: &Tensor<E>, f: F, tol: E) -> (r: OxitorchResult<
    bool,
>)
    requires
        old(g).wf(),
        probes(f, old(g).nodes().len()),
    ensures
        final(g).wf(),
        final(g).nodes().len() == old(g).nodes().len(),
        check_outcome(*old(g), *input, None, f, tol, r, *final(g)),
{
    check(g, input, None, &f, tol)
}

/// Non-scalar variant: reduces `f(input)` with fixed weights (the sum of
/// `output * weights`) before checking.
///
/// Propagates any op error.
pub fn check_with_weights<
    E: Elem,
    V: VjpRule<E>,
    F: Fn(Graph<E, V>, Var) -> (Graph<E, V>, OxitorchResult<Var>),
>(
    g: &mut Graph<E, V>,
    input: &Tensor<E>,
    weights: &Tensor<E>,
    f: F,
    tol: E,
) -> (r: OxitorchResult<bool>)
    requires
        old(g).wf(),
        probes(f, old(g).nodes().len()),
    ensures
        final(g).wf(),
        final(g).nodes().len() == old(g).nodes().len(),
        check_outcome(*old(g), *input, Some(*weights), f, tol, r, *final(g)),
{
    check(g, input, Some(weights), &f, tol)
}

} // verus!
