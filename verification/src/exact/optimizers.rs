//! What optimizer steps compute.

use vstd::prelude::*;
use crate::autograd::graph::{Graph, Var};
use crate::autograd::optim::{
    AdamView, SgdView, adam_arrays, adam_element, adam_outcome, adam_update, add_product,
    is_adam_step, is_correction, is_decayed, is_descent, is_direction, is_effective, is_moment,
    is_sq_moment, is_velocity, lemma_adam_settings, multiply_add, rewrapped, sgd_outcome,
    sgd_update, slot_at, slot_set, starts_from, steps_at, subtract_product, uses_momentum,
};
use crate::elem::{Elem, is_zero};
use crate::exact::Exact;

verus! {

/// The number in a state buffer, 0 where none was made yet.
pub open spec fn held_at<E>(
    m: Exact<E>,
    slots: Seq<Option<Seq<E>>>,
    index: int,
    i: int,
) -> real {
    match slot_at(slots, index) {
        Some(b) => (m.val)(b[i]),
        None => 0real,
    }
}

proof fn lemma_started<E: Elem>(
    m: Exact<E>,
    slots: Seq<Option<Seq<E>>>,
    index: int,
    len: int,
    start: Seq<E>,
    i: int,
)
    requires
        m.arithmetic(),
        starts_from(slots, index, len, start),
        0 <= i < len,
    ensures
        (m.val)(start[i]) == held_at(m, slots, index, i),
{
    if slot_at(slots, index) is None {
        assert(is_zero(start[i]));
    }
}

// ---- SGD ------------------------------------------------------------------------------

/// The velocity after a step, and the direction that the step takes.
pub open spec fn momentum_step(
    momentum: real,
    nesterov: bool,
    velocity: real,
    gradient: real,
) -> (real, real) {
    let v = momentum * velocity + gradient;
    (
        v,
        if nesterov {
            gradient + momentum * v
        } else {
            v
        },
    )
}

/// An SGD step moves every element against its own gradient: without
/// momentum by `lr` times the gradient, with momentum by `lr` times the
/// direction that the element's own velocity and gradient give.
pub proof fn law_sgd_step<E: Elem, V>(
    m: Exact<E>,
    a: SgdView<E>,
    g: Graph<E, V>,
    index: int,
    param: Var,
    b: SgdView<E>,
    h: Graph<E, V>,
    new_param: Var,
    i: int,
)
    requires
        m.arithmetic(),
        m.ordered(),
        g.node(param).grad is Some,
        (g.node(param).grad->0).dims() == g.node(param).value.dims(),
        0 <= i < g.node(param).value.count(),
        sgd_outcome(a, g, index, param, Ok(()), b, h, new_param),
    ensures
        ({
            let x = (m.val)(g.node(param).value.data()[i]);
            let gradient = (m.val)((g.node(param).grad->0).data()[i]);
            let now = h.node(new_param).value.data();
            let (v, step) = momentum_step(
                (m.val)(a.momentum),
                a.nesterov,
                held_at(m, a.velocities, index, i),
                gradient,
            );
            &&& now.len() == g.node(param).value.count()
            &&& h.node(new_param).requires_grad
            &&& if (m.val)(a.momentum) > 0real {
                &&& slot_at(b.velocities, index) is Some
                &&& held_at(m, b.velocities, index, i) == v
                &&& (m.val)(now[i]) == x - (m.val)(a.lr) * step
            } else {
                &&& b.velocities == a.velocities
                &&& (m.val)(now[i]) == x - (m.val)(a.lr) * gradient
            }
        }),
{
    let value = g.node(param).value.data();
    let grad = (g.node(param).grad->0).data();
    let data = choose|data: Seq<E>| #[trigger]
        sgd_update(a, index, value, grad, b, data) && rewrapped(g, h, param, new_param, data);
    assert(h.node(new_param) == h.nodes().last());
    if uses_momentum(a, false) && b.velocities == a.velocities && is_descent(
        value,
        a.lr,
        grad,
        data,
    ) {
        assert(subtract_product(value[i], a.lr, grad[i], data[i]));
    } else {
        let (old, velocity, update) = choose|old: Seq<E>, velocity: Seq<E>, update: Seq<E>|
            #[trigger]
            starts_from(a.velocities, index, grad.len() as int, old) && #[trigger] is_velocity(
                a.momentum,
                old,
                grad,
                velocity,
            ) && slot_set(a.velocities, index, velocity, b.velocities) && #[trigger] is_direction(
                a,
                grad,
                velocity,
                update,
            ) && is_descent(value, a.lr, update, data);
        lemma_started(m, a.velocities, index, grad.len() as int, old, i);
        assert(multiply_add(a.momentum, old[i], grad[i], velocity[i]));
        assert(subtract_product(value[i], a.lr, update[i], data[i]));
        if a.nesterov {
            assert(add_product(grad[i], a.momentum, velocity[i], update[i]));
        }
    }
}

// ---- Adam -----------------------------------------------------------------------------

/// The numbers behind one element of an Adam step.
pub struct AdamNumbers {
    /// The value of the element.
    pub x: real,
    /// Its gradient.
    pub gradient: real,
    /// Its first moment.
    pub m: real,
    /// Its second moment.
    pub v: real,
    /// How many steps the parameter has made, this one included.
    pub t: int,
}

/// The gradient that enters the moments: classic decay is folded into it.
pub open spec fn effective<E>(m: Exact<E>, s: AdamView<E>, n: AdamNumbers) -> real {
    if s.decoupled {
        n.gradient
    } else {
        n.gradient + (m.val)(s.weight_decay) * n.x
    }
}

/// The first moment after a step.
pub open spec fn first_moment<E>(m: Exact<E>, s: AdamView<E>, n: AdamNumbers) -> real {
    (m.val)(s.beta1) * n.m + (1real - (m.val)(s.beta1)) * effective(m, s, n)
}

/// The second moment after a step.
pub open spec fn second_moment<E>(m: Exact<E>, s: AdamView<E>, n: AdamNumbers) -> real {
    (m.val)(s.beta2) * n.v + (1real - (m.val)(s.beta2)) * effective(m, s, n) * effective(m, s, n)
}

/// The share of a moment that a run of `t` steps has built up.
pub open spec fn built_up<E>(m: Exact<E>, beta: E, t: int) -> real {
    1real - (m.pow)((m.val)(beta), t as real)
}

/// The numbers behind element `i` of a step on parameter `index`.
pub open spec fn adam_numbers<E, V>(
    m: Exact<E>,
    a: AdamView<E>,
    g: Graph<E, V>,
    index: int,
    param: Var,
    i: int,
) -> AdamNumbers {
    AdamNumbers {
        x: (m.val)(g.node(param).value.data()[i]),
        gradient: (m.val)((g.node(param).grad->0).data()[i]),
        m: held_at(m, a.moments, index, i),
        v: held_at(m, a.sq_moments, index, i),
        t: steps_at(a.steps, index) + 1,
    }
}

/// An Adam step on one element uses that element's value, gradient and
/// moments alone: the moments decay towards the gradient and its square, and
/// the value moves by `lr` times the corrected first moment over the root of
/// the corrected second; decoupled decay shrinks the value by
/// `lr * weight_decay`.
pub proof fn law_adam_step<E: Elem, V>(
    m: Exact<E>,
    a: AdamView<E>,
    g: Graph<E, V>,
    index: int,
    param: Var,
    b: AdamView<E>,
    h: Graph<E, V>,
    new_param: Var,
    i: int,
) -> (root: real)
    requires
        m.arithmetic(),
        m.ordered(),
        m.functions(),
        g.node(param).grad is Some,
        (g.node(param).grad->0).dims() == g.node(param).value.dims(),
        0 <= i < g.node(param).value.count(),
        steps_at(a.steps, index) < usize::MAX,
        adam_outcome(a, g, index, param, Ok(()), b, h, new_param),
        ({
            let n = adam_numbers(m, a, g, index, param, i);
            &&& built_up(m, a.beta1, n.t) != 0real
            &&& built_up(m, a.beta2, n.t) > 0real
            &&& second_moment(m, a, n) >= 0real
            &&& (m.val)(a.eps) > 0real
        }),
    ensures
        ({
            let n = adam_numbers(m, a, g, index, param, i);
            let now = h.node(new_param).value.data();
            let lr = (m.val)(a.lr);
            &&& now.len() == g.node(param).value.count()
            &&& h.node(new_param).requires_grad
            &&& steps_at(b.steps, index) == n.t
            &&& slot_at(b.moments, index) is Some
            &&& slot_at(b.sq_moments, index) is Some
            &&& held_at(m, b.moments, index, i) == first_moment(m, a, n)
            &&& held_at(m, b.sq_moments, index, i) == second_moment(m, a, n)
            &&& root >= 0real
            &&& root * root == second_moment(m, a, n) / built_up(m, a.beta2, n.t)
            &&& (m.val)(now[i]) == n.x - lr * (first_moment(m, a, n) / built_up(m, a.beta1, n.t))
                / (root + (m.val)(a.eps)) - if a.decoupled {
                lr * (m.val)(a.weight_decay) * n.x
            } else {
                0real
            }
        }),
{
    let value = g.node(param).value.data();
    let grad = (g.node(param).grad->0).data();
    let n = adam_numbers(m, a, g, index, param, i);
    let data = choose|data: Seq<E>| #[trigger]
        adam_update(a, index, value, grad, b, data) && rewrapped(g, h, param, new_param, data);
    assert(h.node(new_param) == h.nodes().last());
    let (c1, c2, m0, v0, m1, v1) = choose|
        c1: E,
        c2: E,
        m0: Seq<E>,
        v0: Seq<E>,
        m1: Seq<E>,
        v1: Seq<E>,
    |
        #![trigger adam_arrays(a, c1, c2, value, grad, m0, v0, m1, v1, data)]
        is_correction(a.beta1, steps_at(b.steps, index) as usize, c1) && is_correction(
            a.beta2,
            steps_at(b.steps, index) as usize,
            c2,
        ) && starts_from(a.moments, index, grad.len() as int, m0) && starts_from(
            a.sq_moments,
            index,
            grad.len() as int,
            v0,
        ) && adam_arrays(a, c1, c2, value, grad, m0, v0, m1, v1, data) && slot_set(
            a.moments,
            index,
            m1,
            b.moments,
        ) && slot_set(a.sq_moments, index, v1, b.sq_moments);
    lemma_started(m, a.moments, index, grad.len() as int, m0, i);
    lemma_started(m, a.sq_moments, index, grad.len() as int, v0, i);
    lemma_correction(m, a.beta1, n.t, c1);
    lemma_correction(m, a.beta2, n.t, c2);
    assert(adam_element(a, c1, c2, value[i], grad[i], m0[i], v0[i], m1[i], v1[i], data[i]));
    lemma_adam_numbers(m, a, n, c1, c2, value[i], grad[i], m0[i], v0[i], m1[i], v1[i], data[i])
}

proof fn lemma_correction<E: Elem>(m: Exact<E>, beta: E, t: int, c: E)
    requires
        m.arithmetic(),
        m.functions(),
        0 <= t <= usize::MAX,
        is_correction(beta, t as usize, c),
    ensures
        (m.val)(c) == built_up(m, beta, t),
{
}

proof fn lemma_adam_numbers<E: Elem>(
    m: Exact<E>,
    a: AdamView<E>,
    n: AdamNumbers,
    c1: E,
    c2: E,
    x: E,
    g: E,
    m0: E,
    v0: E,
    m1: E,
    v1: E,
    out: E,
) -> (root: real)
    requires
        m.arithmetic(),
        m.ordered(),
        m.functions(),
        adam_element(a, c1, c2, x, g, m0, v0, m1, v1, out),
        n.x == (m.val)(x),
        n.gradient == (m.val)(g),
        n.m == (m.val)(m0),
        n.v == (m.val)(v0),
        (m.val)(c1) != 0real,
        (m.val)(c2) > 0real,
        second_moment(m, a, n) >= 0real,
        (m.val)(a.eps) > 0real,
    ensures
        (m.val)(m1) == first_moment(m, a, n),
        (m.val)(v1) == second_moment(m, a, n),
        root >= 0real,
        root * root == second_moment(m, a, n) / (m.val)(c2),
        (m.val)(out) == n.x - (m.val)(a.lr) * (first_moment(m, a, n) / (m.val)(c1)) / (root + (
        m.val)(a.eps)) - if a.decoupled {
            (m.val)(a.lr) * (m.val)(a.weight_decay) * n.x
        } else {
            0real
        },
{
    let (e, next) = choose|e: E, next: E| #[trigger]
        is_effective(a, x, g, e) && is_moment(a.beta1, m0, e, m1) && is_sq_moment(
            a.beta2,
            v0,
            e,
            v1,
        ) && #[trigger] is_adam_step(a, c1, c2, x, m1, v1, next) && is_decayed(a, x, next, out);
    let wd = (m.val)(a.weight_decay);
    let lr = (m.val)(a.lr);
    assert(0real * n.x == 0real) by (nonlinear_arith);
    assert(lr * 0real * n.x == 0real) by (nonlinear_arith);
    assert((m.val)(e) == effective(m, a, n));
    let (mh, vh, up, r, low, q) = choose|mh: E, vh: E, up: E, r: E, low: E, q: E|
        #![trigger call_ensures(E::divide, (m1, c1), mh), call_ensures(E::divide, (v1, c2), vh), call_ensures(E::times, (a.lr, mh), up), call_ensures(E::sqrt, (vh,), r), call_ensures(E::plus, (r, a.eps), low), call_ensures(E::divide, (up, low), q)]
        call_ensures(E::divide, (m1, c1), mh) && call_ensures(E::divide, (v1, c2), vh)
            && call_ensures(E::times, (a.lr, mh), up) && call_ensures(E::sqrt, (vh,), r)
            && call_ensures(E::plus, (r, a.eps), low) && call_ensures(E::divide, (up, low), q)
            && call_ensures(E::minus, (x, q), next);
    let s = second_moment(m, a, n);
    let c = (m.val)(c2);
    assert(s / c >= 0real) by (nonlinear_arith)
        requires
            s >= 0real,
            c > 0real,
    ;
    (m.val)(r)
}

// ---- element by element ---------------------------------------------------------------

/// State buffers with the one of parameter `index` cut to its element `i`.
pub open spec fn focused<E>(slots: Seq<Option<Seq<E>>>, index: int, i: int) -> Seq<
    Option<Seq<E>>,
> {
    Seq::new(
        slots.len(),
        |k: int|
            if k == index && slots[k] is Some {
                Some(seq![(slots[k]->0)[i]])
            } else {
                slots[k]
            },
    )
}

proof fn lemma_focused<E: Elem>(
    before: Seq<Option<Seq<E>>>,
    index: int,
    start: Seq<E>,
    now: Seq<E>,
    after: Seq<Option<Seq<E>>>,
    i: int,
)
    requires
        0 <= index,
        0 <= i < start.len(),
        starts_from(before, index, start.len() as int, start),
        slot_set(before, index, now, after),
    ensures
        starts_from(focused(before, index, i), index, 1, seq![start[i]]),
        slot_set(focused(before, index, i), index, seq![now[i]], focused(after, index, i)),
{
    let f = focused(before, index, i);
    let h = focused(after, index, i);
    assert forall|k: int| 0 <= k && k != index implies #[trigger] slot_at(h, k) == slot_at(
        f,
        k,
    ) by {
        assert(slot_at(after, k) == slot_at(before, k));
    }
    if slot_at(before, index) is Some {
        assert(slot_at(f, index) == Some(seq![start[i]]));
    } else {
        assert(is_zero(start[i]));
    }
}

/// Stepping a parameter of many elements is stepping each of its elements as
/// a parameter of one element.
pub proof fn law_adam_steps_elements_alone<E: Elem>(
    a: AdamView<E>,
    index: int,
    value: Seq<E>,
    g: Seq<E>,
    b: AdamView<E>,
    data: Seq<E>,
    i: int,
)
    requires
        adam_update(a, index, value, g, b, data),
        0 <= index,
        0 <= i < value.len(),
        i < g.len(),
    ensures
        data.len() == if value.len() < g.len() {
            value.len()
        } else {
            g.len()
        },
        adam_update(
            AdamView {
                moments: focused(a.moments, index, i),
                sq_moments: focused(a.sq_moments, index, i),
                ..a
            },
            index,
            seq![value[i]],
            seq![g[i]],
            AdamView {
                moments: focused(b.moments, index, i),
                sq_moments: focused(b.sq_moments, index, i),
                ..b
            },
            seq![data[i]],
        ),
{
    let (c1, c2, m0, v0, m1, v1) = choose|
        c1: E,
        c2: E,
        m0: Seq<E>,
        v0: Seq<E>,
        m1: Seq<E>,
        v1: Seq<E>,
    |
        #![trigger adam_arrays(a, c1, c2, value, g, m0, v0, m1, v1, data)]
        is_correction(a.beta1, steps_at(b.steps, index) as usize, c1) && is_correction(
            a.beta2,
            steps_at(b.steps, index) as usize,
            c2,
        ) && starts_from(a.moments, index, g.len() as int, m0) && starts_from(
            a.sq_moments,
            index,
            g.len() as int,
            v0,
        ) && adam_arrays(a, c1, c2, value, g, m0, v0, m1, v1, data) && slot_set(
            a.moments,
            index,
            m1,
            b.moments,
        ) && slot_set(a.sq_moments, index, v1, b.sq_moments);
    let fa = AdamView {
        moments: focused(a.moments, index, i),
        sq_moments: focused(a.sq_moments, index, i),
        ..a
    };
    lemma_focused(a.moments, index, m0, m1, b.moments, i);
    lemma_focused(a.sq_moments, index, v0, v1, b.sq_moments, i);
    assert(adam_element(a, c1, c2, value[i], g[i], m0[i], v0[i], m1[i], v1[i], data[i]));
    lemma_adam_settings(
        a,
        fa,
        c1,
        c2,
        value[i],
        g[i],
        m0[i],
        v0[i],
        m1[i],
        v1[i],
        data[i],
    );
    assert(adam_arrays(
        fa,
        c1,
        c2,
        seq![value[i]],
        seq![g[i]],
        seq![m0[i]],
        seq![v0[i]],
        seq![m1[i]],
        seq![v1[i]],
        seq![data[i]],
    ));
}

/// Stepping a parameter of many elements by SGD is stepping each of its
/// elements as a parameter of one element.
pub proof fn law_sgd_steps_elements_alone<E: Elem>(
    a: SgdView<E>,
    index: int,
    value: Seq<E>,
    g: Seq<E>,
    b: SgdView<E>,
    data: Seq<E>,
    i: int,
)
    requires
        sgd_update(a, index, value, g, b, data),
        0 <= index,
        0 <= i < value.len(),
        i < g.len(),
    ensures
        data.len() == if value.len() < g.len() {
            value.len()
        } else {
            g.len()
        },
        sgd_update(
            SgdView { velocities: focused(a.velocities, index, i), ..a },
            index,
            seq![value[i]],
            seq![g[i]],
            SgdView { velocities: focused(b.velocities, index, i), ..b },
            seq![data[i]],
        ),
{
    let fa = SgdView { velocities: focused(a.velocities, index, i), ..a };
    let fb = SgdView { velocities: focused(b.velocities, index, i), ..b };
    if uses_momentum(a, false) && b.velocities == a.velocities && is_descent(
        value,
        a.lr,
        g,
        data,
    ) {
        let z = choose|z: E| #[trigger] is_zero(z) && call_ensures(E::less, (z, a.momentum), false);
        assert(is_zero(z) && call_ensures(E::less, (z, fa.momentum), false));
        assert(subtract_product(value[i], a.lr, g[i], data[i]));
        assert(is_descent(seq![value[i]], fa.lr, seq![g[i]], seq![data[i]]));
    } else {
        let (old, velocity, update) = choose|old: Seq<E>, velocity: Seq<E>, update: Seq<E>|
            #[trigger]
            starts_from(a.velocities, index, g.len() as int, old) && #[trigger] is_velocity(
                a.momentum,
                old,
                g,
                velocity,
            ) && slot_set(a.velocities, index, velocity, b.velocities) && #[trigger] is_direction(
                a,
                g,
                velocity,
                update,
            ) && is_descent(value, a.lr, update, data);
        let z = choose|z: E| #[trigger] is_zero(z) && call_ensures(E::less, (z, a.momentum), true);
        assert(is_zero(z) && call_ensures(E::less, (z, fa.momentum), true));
        lemma_focused(a.velocities, index, old, velocity, b.velocities, i);
        assert(multiply_add(a.momentum, old[i], g[i], velocity[i]));
        assert(subtract_product(value[i], a.lr, update[i], data[i]));
        if a.nesterov {
            assert(add_product(g[i], a.momentum, velocity[i], update[i]));
        }
        let one = seq![velocity[i]];
        assert(is_velocity(fa.momentum, seq![old[i]], seq![g[i]], one));
        assert(seq![update[i]] =~= one || a.nesterov);
        assert(is_direction(fa, seq![g[i]], one, seq![update[i]]));
        assert(is_descent(seq![value[i]], fa.lr, seq![update[i]], seq![data[i]]));
        let alone = seq![g[i]];
        assert(alone.len() as int == 1);
        assert(starts_from(fa.velocities, index, alone.len() as int, seq![old[i]]));
        assert(slot_set(fa.velocities, index, one, fb.velocities));
        assert(sgd_update(fa, index, seq![value[i]], alone, fb, seq![data[i]]));
    }
}

} // verus!
