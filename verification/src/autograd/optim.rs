//! Optimizers over the autograd graph.
//!
//! The optimizers own **all** optimizer state (momentum buffers, Adam
//! moments, per-parameter step counters) and perform every update on flat
//! element runs.
//!
//! State is lazily allocated per **parameter index**, mirroring torch's
//! per-parameter `state`: a parameter that first produces a gradient on step
//! k initializes its buffers (and bias-correction counter) on that step, and
//! a parameter skipped on some step keeps its buffers untouched.

use vstd::prelude::*;
use vstd::string::*;
use crate::autograd::graph::{Graph, Node, Var, ids_of, is_leaf_node};
use crate::autograd::ops::unchanged;
use crate::elem::{Elem, copy_elems, is_one, is_zero};
use crate::error::{ErrorText, OxitorchError, OxitorchResult};
use crate::layout::{shape_error, signed_dims, sizes_of};
use crate::tensor::{Tensor, from_buffer_error, repeat};
use crate::text::{join4, nat_text, usize_string};

verus! {

// ---- lazy per-parameter state -------------------------------------------------------

/// The state buffers, as far as they were made.
pub open spec fn slots_view<E>(slots: Seq<Option<Vec<E>>>) -> Seq<Option<Seq<E>>> {
    Seq::new(
        slots.len(),
        |i: int|
            match slots[i] {
                Some(v) => Some(v@),
                None => None,
            },
    )
}

/// The buffer of parameter `index`, if it was made.
pub open spec fn slot_at<E>(slots: Seq<Option<Seq<E>>>, index: int) -> Option<Seq<E>> {
    if 0 <= index < slots.len() {
        slots[index]
    } else {
        None
    }
}

/// `after` is `before` with the buffer of parameter `index` set; every other
/// parameter's buffer stays.
pub open spec fn slot_set<E>(
    before: Seq<Option<Seq<E>>>,
    index: int,
    buffer: Seq<E>,
    after: Seq<Option<Seq<E>>>,
) -> bool {
    &&& slot_at(after, index) == Some(buffer)
    &&& forall|i: int|
        0 <= i && i != index ==> #[trigger] slot_at(after, i) == slot_at(before, i)
}

/// `old` is the buffer that a step on parameter `index` starts from: the one
/// it has, or zeros.
pub open spec fn starts_from<E: Elem>(
    slots: Seq<Option<Seq<E>>>,
    index: int,
    len: int,
    old: Seq<E>,
) -> bool {
    match slot_at(slots, index) {
        Some(b) => old == b && b.len() == len,
        None => old.len() == len && forall|i: int| 0 <= i < len ==> is_zero(#[trigger] old[i]),
    }
}

/// The complaint about a parameter whose size changed under its state.
pub open spec fn slot_error(index: int, have: int, len: int) -> ErrorText {
    ErrorText::InvalidArgument(
        "optimizer state for parameter "@ + nat_text(index as nat) + " has "@ + nat_text(
            have as nat,
        ) + " elements but the parameter now has "@ + nat_text(len as nat)
            + "; the parameter set changed mid-run"@,
    )
}

/// Why a step on parameter `index` cannot use its state, if it cannot.
pub open spec fn slot_misfit<E>(slots: Seq<Option<Seq<E>>>, index: int, len: int) -> Option<
    ErrorText,
> {
    match slot_at(slots, index) {
        Some(b) => if b.len() != len {
            Some(slot_error(index, b.len() as int, len))
        } else {
            None
        },
        None => None,
    }
}

/// Lazy per-index slot access: the buffer of parameter `index`, or zeros.
fn open_slot<E: Elem>(slots: &Vec<Option<Vec<E>>>, index: usize, len: usize) -> (r: OxitorchResult<
    Vec<E>,
>)
    ensures
        match r {
            Ok(b) => slot_misfit(slots_view(slots@), index as int, len as int) is None
                && starts_from(slots_view(slots@), index as int, len as int, b@),
            Err(e) => slot_misfit(slots_view(slots@), index as int, len as int) == Some(e@),
        },
{
    if index < slots.len() {
        if let Some(b) = &slots[index] {
            if b.len() != len {
                let mut m = join4(
                    "optimizer state for parameter ",
                    usize_string(index).as_str(),
                    " has ",
                    usize_string(b.len()).as_str(),
                );
                m.append(" elements but the parameter now has ");
                m.append(usize_string(len).as_str());
                m.append("; the parameter set changed mid-run");
                return Err(OxitorchError::InvalidArgument(m));
            }
            return Ok(copy_elems(b.as_slice()));
        }
    }
    Ok(repeat(E::zero(), len))
}

/// Stores the buffer of parameter `index`, growing the list to cover it.
fn close_slot<E: Elem>(slots: &mut Vec<Option<Vec<E>>>, index: usize, buffer: Vec<E>)
    requires
        index < usize::MAX,
    ensures
        slot_set(
            slots_view(old(slots)@),
            index as int,
            buffer@,
            slots_view(final(slots)@),
        ),
{
    let ghost before = slots_view(slots@);
    while slots.len() <= index
        invariant
            index < usize::MAX,
            before == slots_view(old(slots)@),
            slots.len() >= before.len(),
            forall|i: int|
                0 <= i ==> #[trigger] slot_at(slots_view(slots@), i) == slot_at(before, i),
        decreases index + 1 - slots.len(),
    {
        let ghost prev = slots_view(slots@);
        slots.push(None);
        proof {
            assert forall|i: int| 0 <= i implies #[trigger] slot_at(slots_view(slots@), i)
                == slot_at(before, i) by {
                assert(slot_at(prev, i) == slot_at(before, i));
            }
        }
    }
    let ghost prev = slots_view(slots@);
    let ghost held = buffer@;
    slots[index] = Some(buffer);
    proof {
        let now = slots_view(slots@);
        assert(now[index as int] == Some(held));
        assert forall|i: int| 0 <= i && i != index implies #[trigger] slot_at(now, i) == slot_at(
            before,
            i,
        ) by {
            assert(slot_at(prev, i) == slot_at(before, i));
        }
    }
}

/// Zeroes the gradients of `params` for the next iteration; a gradient that
/// cannot be zeroed stays.
fn zero_grads<E: Elem, V>(g: &mut Graph<E, V>, params: &[Var])
    requires
        old(g).wf(),
        forall|k: int| 0 <= k < params.len() ==> old(g).has(#[trigger] params@[k]),
    ensures
        final(g).wf(),
        final(g).recording() == old(g).recording(),
        grads_zeroed(old(g).nodes(), ids_of(params@), final(g).nodes()),
{
    let ghost start = g.nodes();
    let mut k: usize = 0;
    assert(ids_of(params@).take(0) =~= Seq::<int>::empty());
    while k < params.len()
        invariant
            0 <= k <= params.len(),
            g.wf(),
            start == old(g).nodes(),
            g.recording() == old(g).recording(),
            forall|j: int| 0 <= j < params.len() ==> old(g).has(#[trigger] params@[j]),
            grads_zeroed(start, ids_of(params@).take(k as int), g.nodes()),
        decreases params.len() - k,
    {
        let p = params[k];
        assert(old(g).has(params@[k as int]));
        let ghost mid = g.nodes();
        let outcome = p.zero_grad(g);
        k = k + 1;
        proof {
            let ids = ids_of(params@).take(k as int);
            let prev = ids_of(params@).take(k - 1);
            assert(ids =~= prev.push(p.id()));
            assert(ids[k - 1] == p.id());
            assert forall|i: int| 0 <= i < start.len() implies zeroed_or_kept(
                start[i],
                ids.contains(i),
                #[trigger] g.nodes()[i],
            ) by {
                assert(zeroed_or_kept(start[i], prev.contains(i), mid[i]));
                if prev.contains(i) {
                    let j = choose|j: int| 0 <= j < prev.len() && prev[j] == i;
                    assert(ids[j] == i);
                }
                if ids.contains(i) && i != p.id() {
                    let j = choose|j: int| 0 <= j < ids.len() && ids[j] == i;
                    assert(prev[j] == i);
                }
            }
        }
    }
    assert(ids_of(params@).take(k as int) =~= ids_of(params@));
}

/// Node `b` is node `a`, with its gradient zeroed if it is `chosen` and its
/// shape can be written down.
pub open spec fn zeroed_or_kept<E: Elem, V>(a: Node<E, V>, chosen: bool, b: Node<E, V>) -> bool {
    let shape = signed_dims(a.value.dims());
    &&& b.value == a.value
    &&& b.op == a.op
    &&& b.inputs == a.inputs
    &&& b.rule == a.rule
    &&& b.requires_grad == a.requires_grad
    &&& if chosen && shape_error(shape) is None {
        &&& b.grad is Some
        &&& (b.grad->0).dims() == sizes_of(shape)
        &&& forall|p: int|
            0 <= p < (b.grad->0).count() ==> is_zero(#[trigger] (b.grad->0).data()[p])
    } else {
        b.grad == a.grad
    }
}

/// The gradients of the nodes `ids` are zeroed; nothing else changes.
pub open spec fn grads_zeroed<E: Elem, V>(
    a: Seq<Node<E, V>>,
    ids: Seq<int>,
    b: Seq<Node<E, V>>,
) -> bool {
    &&& a.len() == b.len()
    &&& forall|i: int|
        0 <= i < a.len() ==> zeroed_or_kept(a[i], ids.contains(i), #[trigger] b[i])
}

/// The updated parameter is a fresh leaf that requires a gradient, of the old
/// shape.
pub open spec fn rewrapped<E: Elem, V>(
    before: Graph<E, V>,
    after: Graph<E, V>,
    old_param: Var,
    new_param: Var,
    data: Seq<E>,
) -> bool {
    let shape = signed_dims(before.node(old_param).value.dims());
    &&& from_buffer_error(shape, data.len() as int) is None
    &&& after.recording() == before.recording()
    &&& after.nodes().len() == before.nodes().len() + 1
    &&& after.nodes().drop_last() == before.nodes()
    &&& new_param.id() == before.nodes().len()
    &&& after.nodes().last().value.dims() == sizes_of(shape)
    &&& after.nodes().last().value.data() == data
    &&& is_leaf_node(after.nodes().last(), after.nodes().last().value, true)
}

/// Wraps updated values as a fresh leaf that requires a gradient, with the
/// same shape.
fn rewrap_leaf<E: Elem, V>(g: &mut Graph<E, V>, param: &mut Var, data: Vec<E>) -> (r:
    OxitorchResult<()>)
    requires
        old(g).wf(),
        old(g).has(*old(param)),
    ensures
        final(g).wf(),
        final(g).has(*final(param)),
        match r {
            Ok(_) => rewrapped(*old(g), *final(g), *old(param), *final(param), data@),
            Err(e) => from_buffer_error(
                signed_dims(old(g).node(*old(param)).value.dims()),
                data@.len() as int,
            ) == Some(e@) && *final(param) == *old(param) && unchanged(*old(g), *final(g)),
        },
{
    let shape = param.value(g).shape_i64();
    match Tensor::from_vec(shape.as_slice(), data) {
        Ok(t) => {
            *param = Var::leaf(g, t, true);
            Ok(())
        },
        Err(e) => Err(e),
    }
}

/// The shorter of two lengths.
pub open spec fn shorter(a: nat, b: nat) -> nat {
    if a <= b {
        a
    } else {
        b
    }
}

// ---- SGD ------------------------------------------------------------------------------

/// Vanilla stochastic gradient descent with optional (Nesterov) momentum.
///
/// Update (torch semantics, velocity initialized from the first gradient):
/// `buf = momentum * buf + g`; `p -= lr * (nesterov ? g + momentum * buf : buf)`.
pub struct Sgd<E> {
    lr: E,
    momentum: E,
    nesterov: bool,
    velocities: Vec<Option<Vec<E>>>,
}

/// What an SGD optimizer holds.
pub struct SgdView<E> {
    pub lr: E,
    pub momentum: E,
    pub nesterov: bool,
    pub velocities: Seq<Option<Seq<E>>>,
}

impl<E> View for Sgd<E> {
    type V = SgdView<E>;

    closed spec fn view(&self) -> SgdView<E> {
        SgdView {
            lr: self.lr,
            momentum: self.momentum,
            nesterov: self.nesterov,
            velocities: slots_view(self.velocities@),
        }
    }
}

/// `new` is the velocity `m * old + g`, element by element.
pub open spec fn is_velocity<E: Elem>(m: E, old: Seq<E>, g: Seq<E>, new: Seq<E>) -> bool {
    &&& new.len() == g.len()
    &&& forall|i: int|
        0 <= i < g.len() ==> multiply_add(m, old[i], g[i], #[trigger] new[i])
}

/// `r` is `a * b + c`.
pub open spec fn multiply_add<E: Elem>(a: E, b: E, c: E, r: E) -> bool {
    exists|p: E| #[trigger]
        call_ensures(E::times, (a, b), p) && call_ensures(E::plus, (p, c), r)
}

/// `r` is `a + b * c`.
pub open spec fn add_product<E: Elem>(a: E, b: E, c: E, r: E) -> bool {
    exists|p: E| #[trigger]
        call_ensures(E::times, (b, c), p) && call_ensures(E::plus, (a, p), r)
}

/// `r` is `a - b * c`.
pub open spec fn subtract_product<E: Elem>(a: E, b: E, c: E, r: E) -> bool {
    exists|p: E| #[trigger]
        call_ensures(E::times, (b, c), p) && call_ensures(E::minus, (a, p), r)
}

/// `update` is the direction of an SGD step: with momentum, the velocity, or
/// the look-ahead `g + m * velocity`.
pub open spec fn is_direction<E: Elem>(
    s: SgdView<E>,
    g: Seq<E>,
    velocity: Seq<E>,
    update: Seq<E>,
) -> bool {
    if s.nesterov {
        &&& update.len() == g.len()
        &&& forall|i: int|
            0 <= i < g.len() ==> add_product(g[i], s.momentum, velocity[i], #[trigger] update[i])
    } else {
        update == velocity
    }
}

/// `data` is `value - lr * update`, as far as both reach.
pub open spec fn is_descent<E: Elem>(value: Seq<E>, lr: E, update: Seq<E>, data: Seq<E>) -> bool {
    &&& data.len() == shorter(value.len(), update.len())
    &&& forall|i: int|
        0 <= i < data.len() ==> subtract_product(value[i], lr, update[i], #[trigger] data[i])
}

/// The momentum of an optimizer is positive, or not, as the element type
/// tells.
pub open spec fn uses_momentum<E: Elem>(s: SgdView<E>, yes: bool) -> bool {
    exists|z: E| #[trigger] is_zero(z) && call_ensures(E::less, (z, s.momentum), yes)
}

/// A step on parameter `index` with value `value` and gradient `g` takes the
/// optimizer from `a` to `b` and gives the new values `data`.
pub open spec fn sgd_update<E: Elem>(
    a: SgdView<E>,
    index: int,
    value: Seq<E>,
    g: Seq<E>,
    b: SgdView<E>,
    data: Seq<E>,
) -> bool {
    &&& b.lr == a.lr
    &&& b.momentum == a.momentum
    &&& b.nesterov == a.nesterov
    &&& {
        ||| uses_momentum(a, false) && b.velocities == a.velocities && is_descent(
            value,
            a.lr,
            g,
            data,
        )
        ||| uses_momentum(a, true) && exists|old: Seq<E>, velocity: Seq<E>, update: Seq<E>|
            #[trigger]
            starts_from(a.velocities, index, g.len() as int, old) && #[trigger] is_velocity(
                a.momentum,
                old,
                g,
                velocity,
            ) && slot_set(a.velocities, index, velocity, b.velocities) && #[trigger] is_direction(
                a,
                g,
                velocity,
                update,
            ) && is_descent(value, a.lr, update, data)
    }
}

/// `value - lr * update`, as far as both reach.
fn descend<E: Elem>(value: &[E], lr: E, update: &[E]) -> (r: Vec<E>)
    ensures
        is_descent(value@, lr, update@, r@),
{
    let mut out: Vec<E> = Vec::new();
    let mut i: usize = 0;
    while i < value.len() && i < update.len()
        invariant
            0 <= i <= value.len(),
            i <= update.len(),
            out.len() == i,
            forall|j: int|
                0 <= j < i ==> subtract_product(value@[j], lr, update@[j], #[trigger] out@[j]),
        decreases value.len() - i,
    {
        let p = E::times(lr, update[i]);
        let next = E::minus(value[i], p);
        assert(subtract_product(value@[i as int], lr, update@[i as int], next));
        out.push(next);
        i = i + 1;
    }
    out
}

impl<E: Elem> Sgd<E> {
    /// Creates an SGD optimizer.
    ///
    /// (Nesterov-without-momentum is rejected at the API boundary; the engine
    /// trusts its caller here.)
    #[must_use]
    pub fn new(lr: E, momentum: E, nesterov: bool) -> (r: Self)
        ensures
            r@ == (SgdView { lr, momentum, nesterov, velocities: Seq::empty() }),
    {
        let r = Sgd { lr, momentum, nesterov, velocities: Vec::new() };
        assert(slots_view(r.velocities@) =~= Seq::empty());
        r
    }

    /// Current learning rate.
    #[must_use]
    pub fn lr(&self) -> (r: E)
        ensures
            r == self@.lr,
    {
        self.lr
    }

    /// Sets the learning rate (schedulers mutate this between steps).
    pub fn set_lr(&mut self, lr: E)
        ensures
            final(self)@ == (SgdView { lr, ..old(self)@ }),
    {
        self.lr = lr;
    }

    /// Advances one parameter in place. No-op when the parameter has no
    /// gradient (its velocity buffer stays untouched for next time).
    ///
    /// Fails when the parameter's size no longer fits its state or its
    /// gradient.
    pub fn step_param<V>(&mut self, g: &mut Graph<E, V>, index: usize, param: &mut Var) -> (r:
        OxitorchResult<()>)
        requires
            old(g).wf(),
            old(g).has(*old(param)),
            index < usize::MAX,
        ensures
            final(g).wf(),
            final(g).has(*final(param)),
            sgd_outcome(
                old(self)@,
                *old(g),
                index as int,
                *old(param),
                r,
                final(self)@,
                *final(g),
                *final(param),
            ),
    {
        let grad = match param.grad(g) {
            Some(t) => t.to_vec(),
            None => {
                return Ok(());
            },
        };
        let ghost before = self@;
        let value = param.value(g).to_vec();
        let z = E::zero();
        let with_momentum = E::less(z, self.momentum);
        proof {
            assert(is_zero(z));
            assert(uses_momentum(self@, with_momentum));
        }
        let update = if with_momentum {
            let old_buf = match open_slot(&self.velocities, index, grad.len()) {
                Ok(b) => b,
                Err(e) => {
                    return Err(e);
                },
            };
            let mut buf: Vec<E> = Vec::with_capacity(grad.len());
            let mut ahead: Vec<E> = Vec::with_capacity(grad.len());
            let m = self.momentum;
            let mut i: usize = 0;
            while i < grad.len()
                invariant
                    0 <= i <= grad.len(),
                    old_buf.len() == grad.len(),
                    buf.len() == i,
                    ahead.len() == i,
                    forall|j: int|
                        0 <= j < i ==> multiply_add(m, old_buf@[j], grad@[j], #[trigger] buf@[j]),
                    forall|j: int|
                        0 <= j < i ==> add_product(grad@[j], m, buf@[j], #[trigger] ahead@[j]),
                decreases grad.len() - i,
            {
                let p = E::times(m, old_buf[i]);
                let v = E::plus(p, grad[i]);
                assert(multiply_add(m, old_buf@[i as int], grad@[i as int], v));
                let q = E::times(m, v);
                let a = E::plus(grad[i], q);
                assert(add_product(grad@[i as int], m, v, a));
                buf.push(v);
                ahead.push(a);
                i = i + 1;
            }
            let direction = if self.nesterov {
                ahead
            } else {
                copy_elems(buf.as_slice())
            };
            proof {
                assert(starts_from(before.velocities, index as int, grad.len() as int, old_buf@));
                assert(is_velocity(before.momentum, old_buf@, grad@, buf@));
                assert(is_direction(before, grad@, buf@, direction@));
            }
            close_slot(&mut self.velocities, index, buf);
            direction
        } else {
            copy_elems(grad.as_slice())
        };
        let updated = descend(value.as_slice(), self.lr, update.as_slice());
        proof {
            assert(sgd_update(
                before,
                index as int,
                value@,
                grad@,
                self@,
                updated@,
            ));
        }
        rewrap_leaf(g, param, updated)
    }

    /// Applies one step over a whole parameter list (index = list position).
    ///
    /// Stops at the first parameter whose step fails.
    pub fn step<V>(&mut self, g: &mut Graph<E, V>, params: &mut Vec<Var>) -> (r: OxitorchResult<()>)
        requires
            old(g).wf(),
            forall|k: int| 0 <= k < old(params).len() ==> old(g).has(#[trigger] old(params)@[k]),
        ensures
            final(g).wf(),
            final(params).len() == old(params).len(),
            forall|k: int|
                0 <= k < final(params).len() ==> final(g).has(#[trigger] final(params)@[k]),
            sgd_steps(
                old(self)@,
                *old(g),
                old(params)@,
                r,
                final(self)@,
                *final(g),
                final(params)@,
            ),
    {
        let ghost start = OptimState { optim: self@, graph: *g, params: params@ };
        let ghost mut trace: Seq<OptimState<SgdView<E>, E, V>> = seq![start];
        let mut k: usize = 0;
        while k < params.len()
            invariant
                0 <= k <= params.len(),
                params.len() == start.params.len(),
                g.wf(),
                forall|j: int| 0 <= j < params.len() ==> g.has(#[trigger] params@[j]),
                trace.len() == k + 1,
                trace[0] == start,
                trace[k as int] == (OptimState { optim: self@, graph: *g, params: params@ }),
                start == (OptimState { optim: old(self)@, graph: *old(g), params: old(params)@ }),
                forall|j: int| 0 <= j < k ==> #[trigger] sgd_step_at(trace, j),
            decreases params.len() - k,
        {
            let ghost before_params = params@;
            let ghost before_graph = *g;
            let mut p = params[k];
            assert(g.has(params@[k as int]));
            let outcome = self.step_param(g, k, &mut p);
            match outcome {
                Ok(_) => {},
                Err(e) => {
                    proof {
                        assert(trace[k as int].params == params@);
                        assert(sgd_steps_until(trace, k as int));
                        assert forall|j: int| 0 <= j < params.len() implies g.has(
                            #[trigger] params@[j],
                        ) by {
                            assert(before_graph.has(params@[j]));
                        }
                    }
                    return Err(e);
                },
            }
            params[k] = p;
            proof {
                let now = OptimState { optim: self@, graph: *g, params: params@ };
                let longer = trace.push(now);
                assert(params@ =~= before_params.update(k as int, p));
                assert forall|j: int| 0 <= j < k + 1 implies #[trigger] sgd_step_at(longer, j) by {
                    if j < k {
                        assert(sgd_step_at(trace, j));
                    }
                }
                assert forall|j: int| 0 <= j < params.len() implies g.has(
                    #[trigger] params@[j],
                ) by {
                    if j != k {
                        assert(before_graph.has(before_params[j]));
                    }
                }
                trace = longer;
            }
            k = k + 1;
        }
        assert(sgd_steps_until(trace, k as int));
        Ok(())
    }

    /// Zeroes gradients for the next iteration.
    pub fn zero_grad<V>(&self, g: &mut Graph<E, V>, params: &[Var])
        requires
            old(g).wf(),
            forall|k: int| 0 <= k < params.len() ==> old(g).has(#[trigger] params@[k]),
        ensures
            final(g).wf(),
            final(g).recording() == old(g).recording(),
            grads_zeroed(old(g).nodes(), ids_of(params@), final(g).nodes()),
    {
        zero_grads(g, params)
    }
}

/// Everything a step works on.
pub struct OptimState<S, E, V> {
    pub optim: S,
    pub graph: Graph<E, V>,
    pub params: Seq<Var>,
}

/// One SGD step on one parameter, with its result.
pub open spec fn sgd_outcome<E: Elem, V>(
    a: SgdView<E>,
    g: Graph<E, V>,
    index: int,
    param: Var,
    r: OxitorchResult<()>,
    b: SgdView<E>,
    h: Graph<E, V>,
    new_param: Var,
) -> bool {
    match g.node(param).grad {
        None => r is Ok && b == a && h == g && new_param == param,
        Some(grad) => match r {
            Ok(_) => exists|data: Seq<E>| #[trigger]
                sgd_update(a, index, g.node(param).value.data(), grad.data(), b, data)
                    && rewrapped(g, h, param, new_param, data),
            Err(e) => {
                &&& unchanged(g, h)
                &&& new_param == param
                &&& {
                    ||| uses_momentum(a, true) && slot_misfit(
                        a.velocities,
                        index,
                        grad.data().len() as int,
                    ) == Some(e@) && b == a
                    ||| exists|data: Seq<E>| #[trigger]
                        sgd_update(a, index, g.node(param).value.data(), grad.data(), b, data)
                            && from_buffer_error(
                            signed_dims(g.node(param).value.dims()),
                            data.len() as int,
                        ) == Some(e@)
                }
            },
        },
    }
}

/// Step `j` of a run over a parameter list leads from state `j` to `j + 1`.
pub open spec fn sgd_step_at<E: Elem, V>(
    trace: Seq<OptimState<SgdView<E>, E, V>>,
    j: int,
) -> bool {
    let a = trace[j];
    let b = trace[j + 1];
    &&& b.params.len() == a.params.len()
    &&& b.params == a.params.update(j, b.params[j])
    &&& sgd_outcome(
        a.optim,
        a.graph,
        j,
        a.params[j],
        Ok(()),
        b.optim,
        b.graph,
        b.params[j],
    )
}

/// The first `k` steps went well.
pub open spec fn sgd_steps_until<E: Elem, V>(
    trace: Seq<OptimState<SgdView<E>, E, V>>,
    k: int,
) -> bool {
    &&& trace.len() == k + 1
    &&& forall|j: int| 0 <= j < k ==> #[trigger] sgd_step_at(trace, j)
}

/// A run of SGD over a parameter list: one step per parameter in order, up to
/// the first that fails.
pub open spec fn sgd_steps<E: Elem, V>(
    a: SgdView<E>,
    g: Graph<E, V>,
    params: Seq<Var>,
    r: OxitorchResult<()>,
    b: SgdView<E>,
    h: Graph<E, V>,
    new_params: Seq<Var>,
) -> bool {
    exists|trace: Seq<OptimState<SgdView<E>, E, V>>, k: int| #[trigger]
        sgd_steps_until(trace, k) && 0 <= k <= params.len() && trace[0].optim == a
            && trace[0].graph == g && trace[0].params == params && match r {
            Ok(_) => k == params.len() && trace[k].optim == b && trace[k].graph == h
                && trace[k].params == new_params,
            Err(e) => k < params.len() && new_params == trace[k].params && sgd_outcome(
                trace[k].optim,
                trace[k].graph,
                k,
                trace[k].params[k],
                r,
                b,
                h,
                new_params[k],
            ),
        }
}

// ---- Adam -------------------------------------------------------------------------------

/// Adam with torch's two decay semantics, selected at construction: decoupled
/// decay on the parameter (**AdamW**, Loshchilov & Hutter 2019) or decay
/// folded into the gradient before the moments (classic **Adam**, Kingma & Ba
/// 2015).
///
/// Update (per parameter, with its own step counter `t`):
/// `m = b1 m + (1-b1) g_eff`; `v = b2 v + (1-b2) g_eff^2`;
/// `p -= lr * (m/(1-b1^t)) / (sqrt(v/(1-b2^t)) + eps)` plus, when decoupled,
/// `lr * weight_decay * p` applied directly to the parameter.
pub struct AdamW<E> {
    lr: E,
    beta1: E,
    beta2: E,
    eps: E,
    weight_decay: E,
    decoupled: bool,
    moments: Vec<Option<Vec<E>>>,
    sq_moments: Vec<Option<Vec<E>>>,
    steps: Vec<usize>,
}

/// What an Adam optimizer holds.
pub struct AdamView<E> {
    pub lr: E,
    pub beta1: E,
    pub beta2: E,
    pub eps: E,
    pub weight_decay: E,
    pub decoupled: bool,
    pub moments: Seq<Option<Seq<E>>>,
    pub sq_moments: Seq<Option<Seq<E>>>,
    pub steps: Seq<usize>,
}

impl<E> View for AdamW<E> {
    type V = AdamView<E>;

    closed spec fn view(&self) -> AdamView<E> {
        AdamView {
            lr: self.lr,
            beta1: self.beta1,
            beta2: self.beta2,
            eps: self.eps,
            weight_decay: self.weight_decay,
            decoupled: self.decoupled,
            moments: slots_view(self.moments@),
            sq_moments: slots_view(self.sq_moments@),
            steps: self.steps@,
        }
    }
}

/// How many steps parameter `index` has made.
pub open spec fn steps_at(steps: Seq<usize>, index: int) -> int {
    if 0 <= index < steps.len() {
        steps[index] as int
    } else {
        0
    }
}

/// `after` is `before` with one more step counted for parameter `index`, up
/// to the largest machine number.
pub open spec fn step_counted(before: Seq<usize>, index: int, after: Seq<usize>) -> bool {
    &&& steps_at(after, index) == if steps_at(before, index) < usize::MAX {
        steps_at(before, index) + 1
    } else {
        usize::MAX as int
    }
    &&& forall|i: int| 0 <= i && i != index ==> #[trigger] steps_at(after, i) == steps_at(before, i)
}

/// Lazy per-index step counter (torch's per-parameter `state["step"]`).
fn bump_step(steps: &mut Vec<usize>, index: usize) -> (r: usize)
    requires
        index < usize::MAX,
    ensures
        step_counted(old(steps)@, index as int, final(steps)@),
        r == steps_at(final(steps)@, index as int),
{
    let ghost before = steps@;
    while steps.len() <= index
        invariant
            index < usize::MAX,
            before == old(steps)@,
            forall|i: int| 0 <= i ==> #[trigger] steps_at(steps@, i) == steps_at(before, i),
        decreases index + 1 - steps.len(),
    {
        let ghost prev = steps@;
        steps.push(0);
        proof {
            assert forall|i: int| 0 <= i implies #[trigger] steps_at(steps@, i) == steps_at(
                before,
                i,
            ) by {
                assert(steps_at(prev, i) == steps_at(before, i));
            }
        }
    }
    let ghost prev = steps@;
    assert(steps_at(prev, index as int) == steps_at(before, index as int));
    let had: usize = steps[index];
    let now: usize = if had < usize::MAX {
        had + 1
    } else {
        had
    };
    steps[index] = now;
    proof {
        assert forall|i: int| 0 <= i && i != index implies #[trigger] steps_at(steps@, i)
            == steps_at(before, i) by {
            assert(steps_at(prev, i) == steps_at(before, i));
        }
    }
    now
}

/// `r` is `1 - beta^t`.
pub open spec fn is_correction<E: Elem>(beta: E, t: usize, r: E) -> bool {
    exists|c: E, p: E, o: E|
        #![trigger call_ensures(E::power, (beta, c), p), call_ensures(E::minus, (o, p), r)]
        call_ensures(E::from_count, (t,), c) && call_ensures(E::power, (beta, c), p) && is_one(o)
            && call_ensures(E::minus, (o, p), r)
}

fn correction<E: Elem>(beta: E, t: usize) -> (r: E)
    ensures
        is_correction(beta, t, r),
{
    let c = E::from_count(t);
    let p = E::power(beta, c);
    let o = E::one();
    E::minus(o, p)
}

/// `r` is `1 - beta`.
pub open spec fn is_complement<E: Elem>(beta: E, r: E) -> bool {
    exists|o: E| is_one(o) && #[trigger] call_ensures(E::minus, (o, beta), r)
}

fn complement<E: Elem>(beta: E) -> (r: E)
    ensures
        is_complement(beta, r),
{
    let o = E::one();
    E::minus(o, beta)
}

/// The weight decay differs from zero, or not, as the element type tells.
pub open spec fn decays<E: Elem>(wd: E, yes: bool) -> bool {
    exists|z: E| #[trigger] is_zero(z) && call_ensures(E::equal, (wd, z), !yes)
}

fn has_decay<E: Elem>(wd: E) -> (r: bool)
    ensures
        decays(wd, r),
{
    let z = E::zero();
    let same = E::equal(wd, z);
    assert(is_zero(z));
    !same
}

/// `e` is the effective gradient: with classic decay, `g + wd * val`.
pub open spec fn is_effective<E: Elem>(s: AdamView<E>, val: E, g: E, e: E) -> bool {
    if s.decoupled {
        e == g
    } else {
        ||| decays(s.weight_decay, true) && add_product(g, s.weight_decay, val, e)
        ||| decays(s.weight_decay, false) && e == g
    }
}

/// `m` is `beta * old + (1 - beta) * e`.
pub open spec fn is_moment<E: Elem>(beta: E, old: E, e: E, m: E) -> bool {
    exists|a: E, c: E, b: E|
        #![trigger call_ensures(E::times, (beta, old), a), call_ensures(E::times, (c, e), b)]
        call_ensures(E::times, (beta, old), a) && is_complement(beta, c) && call_ensures(
            E::times,
            (c, e),
            b,
        ) && call_ensures(E::plus, (a, b), m)
}

/// `v` is `beta * old + (1 - beta) * e * e`.
pub open spec fn is_sq_moment<E: Elem>(beta: E, old: E, e: E, v: E) -> bool {
    exists|a: E, c: E, b: E, d: E|
        #![trigger call_ensures(E::times, (beta, old), a), call_ensures(E::times, (c, e), b), call_ensures(E::times, (b, e), d)]
        call_ensures(E::times, (beta, old), a) && is_complement(beta, c) && call_ensures(
            E::times,
            (c, e),
            b,
        ) && call_ensures(E::times, (b, e), d) && call_ensures(E::plus, (a, d), v)
}

/// `next` is `val - lr * (m / c1) / (sqrt(v / c2) + eps)`.
pub open spec fn is_adam_step<E: Elem>(
    s: AdamView<E>,
    c1: E,
    c2: E,
    val: E,
    m: E,
    v: E,
    next: E,
) -> bool {
    exists|mh: E, vh: E, up: E, root: E, low: E, q: E|
        #![trigger call_ensures(E::divide, (m, c1), mh), call_ensures(E::divide, (v, c2), vh), call_ensures(E::times, (s.lr, mh), up), call_ensures(E::sqrt, (vh,), root), call_ensures(E::plus, (root, s.eps), low), call_ensures(E::divide, (up, low), q)]
        call_ensures(E::divide, (m, c1), mh) && call_ensures(E::divide, (v, c2), vh)
            && call_ensures(E::times, (s.lr, mh), up) && call_ensures(E::sqrt, (vh,), root)
            && call_ensures(E::plus, (root, s.eps), low) && call_ensures(E::divide, (up, low), q)
            && call_ensures(E::minus, (val, q), next)
}

/// `out` is the new value: `next`, less `lr * wd * val` when decay is
/// decoupled.
pub open spec fn is_decayed<E: Elem>(s: AdamView<E>, val: E, next: E, out: E) -> bool {
    if s.decoupled {
        ||| decays(s.weight_decay, false) && out == next
        ||| decays(s.weight_decay, true) && exists|w: E, d: E|
            #![trigger call_ensures(E::times, (s.lr, s.weight_decay), w), call_ensures(E::times, (w, val), d)]
            call_ensures(E::times, (s.lr, s.weight_decay), w) && call_ensures(
                E::times,
                (w, val),
                d,
            ) && call_ensures(E::minus, (next, d), out)
    } else {
        out == next
    }
}

/// One element of an Adam step: from the value, its gradient and its moments
/// to the new moments and the new value.
pub open spec fn adam_element<E: Elem>(
    s: AdamView<E>,
    c1: E,
    c2: E,
    val: E,
    g: E,
    m0: E,
    v0: E,
    m1: E,
    v1: E,
    out: E,
) -> bool {
    exists|e: E, next: E| #[trigger]
        is_effective(s, val, g, e) && is_moment(s.beta1, m0, e, m1) && is_sq_moment(
            s.beta2,
            v0,
            e,
            v1,
        ) && #[trigger] is_adam_step(s, c1, c2, val, m1, v1, next) && is_decayed(s, val, next, out)
}

/// The moments and values of an Adam step on values `value` with gradient
/// `g`; where the gradient is longer than the value, the moments beyond it
/// stay.
pub open spec fn adam_arrays<E: Elem>(
    s: AdamView<E>,
    c1: E,
    c2: E,
    value: Seq<E>,
    g: Seq<E>,
    m0: Seq<E>,
    v0: Seq<E>,
    m1: Seq<E>,
    v1: Seq<E>,
    data: Seq<E>,
) -> bool {
    &&& data.len() == shorter(value.len(), g.len())
    &&& m1.len() == m0.len()
    &&& v1.len() == v0.len()
    &&& forall|i: int|
        0 <= i < data.len() ==> adam_element(
            s,
            c1,
            c2,
            value[i],
            g[i],
            m0[i],
            v0[i],
            m1[i],
            v1[i],
            #[trigger] data[i],
        )
    &&& forall|i: int| data.len() <= i < m0.len() ==> #[trigger] m1[i] == m0[i]
    &&& forall|i: int| data.len() <= i < v0.len() ==> #[trigger] v1[i] == v0[i]
}

/// Nothing but the state of an Adam optimizer differs.
pub open spec fn adam_settings_kept<E>(a: AdamView<E>, b: AdamView<E>) -> bool {
    &&& b.lr == a.lr
    &&& b.beta1 == a.beta1
    &&& b.beta2 == a.beta2
    &&& b.eps == a.eps
    &&& b.weight_decay == a.weight_decay
    &&& b.decoupled == a.decoupled
}

/// A step on parameter `index` with value `value` and gradient `g` takes the
/// optimizer from `a` to `b` and gives the new values `data`.
pub open spec fn adam_update<E: Elem>(
    a: AdamView<E>,
    index: int,
    value: Seq<E>,
    g: Seq<E>,
    b: AdamView<E>,
    data: Seq<E>,
) -> bool {
    &&& adam_settings_kept(a, b)
    &&& step_counted(a.steps, index, b.steps)
    &&& exists|c1: E, c2: E, m0: Seq<E>, v0: Seq<E>, m1: Seq<E>, v1: Seq<E>|
        #![trigger adam_arrays(a, c1, c2, value, g, m0, v0, m1, v1, data)]
        is_correction(a.beta1, steps_at(b.steps, index) as usize, c1) && is_correction(
            a.beta2,
            steps_at(b.steps, index) as usize,
            c2,
        ) && starts_from(a.moments, index, g.len() as int, m0) && starts_from(
            a.sq_moments,
            index,
            g.len() as int,
            v0,
        ) && adam_arrays(a, c1, c2, value, g, m0, v0, m1, v1, data) && slot_set(
            a.moments,
            index,
            m1,
            b.moments,
        ) && slot_set(a.sq_moments, index, v1, b.sq_moments)
}

/// One Adam step on one parameter, with its result.
pub open spec fn adam_outcome<E: Elem, V>(
    a: AdamView<E>,
    g: Graph<E, V>,
    index: int,
    param: Var,
    r: OxitorchResult<()>,
    b: AdamView<E>,
    h: Graph<E, V>,
    new_param: Var,
) -> bool {
    match g.node(param).grad {
        None => r is Ok && b == a && h == g && new_param == param,
        Some(grad) => {
            let len = grad.data().len() as int;
            match r {
                Ok(_) => exists|data: Seq<E>| #[trigger]
                    adam_update(a, index, g.node(param).value.data(), grad.data(), b, data)
                        && rewrapped(g, h, param, new_param, data),
                Err(e) => {
                    &&& unchanged(g, h)
                    &&& new_param == param
                    &&& {
                        ||| adam_settings_kept(a, b) && step_counted(a.steps, index, b.steps)
                            && b.moments == a.moments && b.sq_moments == a.sq_moments && (
                        slot_misfit(a.moments, index, len) == Some(e@) || (slot_misfit(
                            a.moments,
                            index,
                            len,
                        ) is None && slot_misfit(a.sq_moments, index, len) == Some(e@)))
                        ||| exists|data: Seq<E>| #[trigger]
                            adam_update(
                                a,
                                index,
                                g.node(param).value.data(),
                                grad.data(),
                                b,
                                data,
                            ) && from_buffer_error(
                                signed_dims(g.node(param).value.dims()),
                                data.len() as int,
                            ) == Some(e@)
                    }
                },
            }
        },
    }
}

/// Step `j` of a run over a parameter list leads from state `j` to `j + 1`.
pub open spec fn adam_step_at<E: Elem, V>(
    trace: Seq<OptimState<AdamView<E>, E, V>>,
    j: int,
) -> bool {
    let a = trace[j];
    let b = trace[j + 1];
    &&& b.params.len() == a.params.len()
    &&& b.params == a.params.update(j, b.params[j])
    &&& adam_outcome(
        a.optim,
        a.graph,
        j,
        a.params[j],
        Ok(()),
        b.optim,
        b.graph,
        b.params[j],
    )
}

/// The first `k` steps went well.
pub open spec fn adam_steps_until<E: Elem, V>(
    trace: Seq<OptimState<AdamView<E>, E, V>>,
    k: int,
) -> bool {
    &&& trace.len() == k + 1
    &&& forall|j: int| 0 <= j < k ==> #[trigger] adam_step_at(trace, j)
}

/// A run of Adam over a parameter list: one step per parameter in order, up
/// to the first that fails.
pub open spec fn adam_steps<E: Elem, V>(
    a: AdamView<E>,
    g: Graph<E, V>,
    params: Seq<Var>,
    r: OxitorchResult<()>,
    b: AdamView<E>,
    h: Graph<E, V>,
    new_params: Seq<Var>,
) -> bool {
    exists|trace: Seq<OptimState<AdamView<E>, E, V>>, k: int| #[trigger]
        adam_steps_until(trace, k) && 0 <= k <= params.len() && trace[0].optim == a
            && trace[0].graph == g && trace[0].params == params && match r {
            Ok(_) => k == params.len() && trace[k].optim == b && trace[k].graph == h
                && trace[k].params == new_params,
            Err(e) => k < params.len() && new_params == trace[k].params && adam_outcome(
                trace[k].optim,
                trace[k].graph,
                k,
                trace[k].params[k],
                r,
                b,
                h,
                new_params[k],
            ),
        }
}

impl<E: Elem> AdamW<E> {
    /// Creates the optimizer.
    #[must_use]
    pub fn new(lr: E, beta1: E, beta2: E, eps: E, weight_decay: E, decoupled: bool) -> (r: Self)
        ensures
            r@ == (AdamView {
                lr,
                beta1,
                beta2,
                eps,
                weight_decay,
                decoupled,
                moments: Seq::empty(),
                sq_moments: Seq::empty(),
                steps: Seq::empty(),
            }),
    {
        let r = AdamW {
            lr,
            beta1,
            beta2,
            eps,
            weight_decay,
            decoupled,
            moments: Vec::new(),
            sq_moments: Vec::new(),
            steps: Vec::new(),
        };
        assert(slots_view(r.moments@) =~= Seq::empty());
        assert(slots_view(r.sq_moments@) =~= Seq::empty());
        assert(r.steps@ =~= Seq::empty());
        r
    }

    /// Current learning rate.
    #[must_use]
    pub fn lr(&self) -> (r: E)
        ensures
            r == self@.lr,
    {
        self.lr
    }

    /// Sets the learning rate (schedulers mutate this between steps).
    pub fn set_lr(&mut self, lr: E)
        ensures
            final(self)@ == (AdamView { lr, ..old(self)@ }),
    {
        self.lr = lr;
    }

    /// The new moments and value of one element.
    fn step_element(&self, c1: E, c2: E, val: E, g: E, m0: E, v0: E) -> (r: (E, E, E))
        ensures
            adam_element(self@, c1, c2, val, g, m0, v0, r.0, r.1, r.2),
    {
        let decay = has_decay(self.weight_decay);
        let e = if !self.decoupled && decay {
            let p = E::times(self.weight_decay, val);
            let e = E::plus(g, p);
            assert(add_product(g, self.weight_decay, val, e));
            e
        } else {
            g
        };
        assert(is_effective(self@, val, g, e));
        let a1 = E::times(self.beta1, m0);
        let k1 = complement(self.beta1);
        let b1 = E::times(k1, e);
        let m1 = E::plus(a1, b1);
        assert(is_moment(self.beta1, m0, e, m1));
        let a2 = E::times(self.beta2, v0);
        let k2 = complement(self.beta2);
        let b2 = E::times(k2, e);
        let d2 = E::times(b2, e);
        let v1 = E::plus(a2, d2);
        assert(is_sq_moment(self.beta2, v0, e, v1));
        let mh = E::divide(m1, c1);
        let vh = E::divide(v1, c2);
        let up = E::times(self.lr, mh);
        let root = E::sqrt(vh);
        let low = E::plus(root, self.eps);
        let q = E::divide(up, low);
        let next = E::minus(val, q);
        assert(call_ensures(E::times, (self@.lr, mh), up));
        assert(call_ensures(E::plus, (root, self@.eps), low));
        assert(is_adam_step(self@, c1, c2, val, m1, v1, next));
        let out = if self.decoupled && decay {
            let w = E::times(self.lr, self.weight_decay);
            let d = E::times(w, val);
            E::minus(next, d)
        } else {
            next
        };
        assert(is_decayed(self@, val, next, out));
        (m1, v1, out)
    }

    /// Advances one parameter in place. No-op when the parameter has no
    /// gradient (its moments and step counter stay untouched).
    ///
    /// Fails when the parameter's size no longer fits its state or its
    /// gradient.
    pub fn step_param<V>(&mut self, g: &mut Graph<E, V>, index: usize, param: &mut Var) -> (r:
        OxitorchResult<()>)
        requires
            old(g).wf(),
            old(g).has(*old(param)),
            index < usize::MAX,
        ensures
            final(g).wf(),
            final(g).has(*final(param)),
            adam_outcome(
                old(self)@,
                *old(g),
                index as int,
                *old(param),
                r,
                final(self)@,
                *final(g),
                *final(param),
            ),
    {
        let grad = match param.grad(g) {
            Some(t) => t.to_vec(),
            None => {
                return Ok(());
            },
        };
        let ghost before = self@;
        let value = param.value(g).to_vec();
        let t: usize = bump_step(&mut self.steps, index);
        let c1 = correction(self.beta1, t);
        let c2 = correction(self.beta2, t);
        let mut m = match open_slot(&self.moments, index, grad.len()) {
            Ok(b) => b,
            Err(e) => {
                return Err(e);
            },
        };
        let mut v = match open_slot(&self.sq_moments, index, grad.len()) {
            Ok(b) => b,
            Err(e) => {
                return Err(e);
            },
        };
        let ghost m0 = m@;
        let ghost v0 = v@;
        let ghost mid = self@;
        let mut updated: Vec<E> = Vec::new();
        let mut i: usize = 0;
        while i < value.len() && i < grad.len()
            invariant
                0 <= i <= value.len(),
                i <= grad.len(),
                m.len() == grad.len(),
                v.len() == grad.len(),
                m0.len() == grad.len(),
                v0.len() == grad.len(),
                self@ == mid,
                adam_settings_kept(before, mid),
                updated.len() == i,
                forall|j: int|
                    0 <= j < i ==> adam_element(
                        before,
                        c1,
                        c2,
                        value@[j],
                        grad@[j],
                        m0[j],
                        v0[j],
                        m@[j],
                        v@[j],
                        #[trigger] updated@[j],
                    ),
                forall|j: int| i <= j < m0.len() ==> #[trigger] m@[j] == m0[j],
                forall|j: int| i <= j < v0.len() ==> #[trigger] v@[j] == v0[j],
            decreases value.len() - i,
        {
            let (m1, v1, out) = self.step_element(c1, c2, value[i], grad[i], m[i], v[i]);
            proof {
                lemma_adam_settings(
                    self@,
                    before,
                    c1,
                    c2,
                    value@[i as int],
                    grad@[i as int],
                    m0[i as int],
                    v0[i as int],
                    m1,
                    v1,
                    out,
                );
            }
            let ghost m_before = m@;
            let ghost v_before = v@;
            let ghost u_before = updated@;
            m[i] = m1;
            v[i] = v1;
            updated.push(out);
            i = i + 1;
            proof {
                assert forall|j: int| 0 <= j < i implies adam_element(
                    before,
                    c1,
                    c2,
                    value@[j],
                    grad@[j],
                    m0[j],
                    v0[j],
                    m@[j],
                    v@[j],
                    #[trigger] updated@[j],
                ) by {
                    if j < i - 1 {
                        assert(updated@[j] == u_before[j]);
                        assert(m@[j] == m_before[j] && v@[j] == v_before[j]);
                    }
                }
                assert forall|j: int| i <= j < m0.len() implies #[trigger] m@[j] == m0[j] by {
                    assert(m_before[j] == m0[j]);
                }
                assert forall|j: int| i <= j < v0.len() implies #[trigger] v@[j] == v0[j] by {
                    assert(v_before[j] == v0[j]);
                }
            }
        }
        let ghost m1 = m@;
        let ghost v1 = v@;
        assert(adam_arrays(before, c1, c2, value@, grad@, m0, v0, m1, v1, updated@));
        close_slot(&mut self.moments, index, m);
        close_slot(&mut self.sq_moments, index, v);
        proof {
            assert(self@.steps == mid.steps);
            assert(adam_update(before, index as int, value@, grad@, self@, updated@));
        }
        rewrap_leaf(g, param, updated)
    }

    /// Applies one step over a whole parameter list (index = list position).
    ///
    /// Stops at the first parameter whose step fails.
    pub fn step<V>(&mut self, g: &mut Graph<E, V>, params: &mut Vec<Var>) -> (r: OxitorchResult<()>)
        requires
            old(g).wf(),
            forall|k: int| 0 <= k < old(params).len() ==> old(g).has(#[trigger] old(params)@[k]),
        ensures
            final(g).wf(),
            final(params).len() == old(params).len(),
            forall|k: int|
                0 <= k < final(params).len() ==> final(g).has(#[trigger] final(params)@[k]),
            adam_steps(
                old(self)@,
                *old(g),
                old(params)@,
                r,
                final(self)@,
                *final(g),
                final(params)@,
            ),
    {
        let ghost start = OptimState { optim: self@, graph: *g, params: params@ };
        let ghost mut trace: Seq<OptimState<AdamView<E>, E, V>> = seq![start];
        let mut k: usize = 0;
        while k < params.len()
            invariant
                0 <= k <= params.len(),
                params.len() == start.params.len(),
                g.wf(),
                forall|j: int| 0 <= j < params.len() ==> g.has(#[trigger] params@[j]),
                trace.len() == k + 1,
                trace[0] == start,
                trace[k as int] == (OptimState { optim: self@, graph: *g, params: params@ }),
                start == (OptimState { optim: old(self)@, graph: *old(g), params: old(params)@ }),
                forall|j: int| 0 <= j < k ==> #[trigger] adam_step_at(trace, j),
            decreases params.len() - k,
        {
            let ghost before_params = params@;
            let ghost before_graph = *g;
            let mut p = params[k];
            assert(g.has(params@[k as int]));
            let outcome = self.step_param(g, k, &mut p);
            match outcome {
                Ok(_) => {},
                Err(e) => {
                    proof {
                        assert(trace[k as int].params == params@);
                        assert(adam_steps_until(trace, k as int));
                        assert forall|j: int| 0 <= j < params.len() implies g.has(
                            #[trigger] params@[j],
                        ) by {
                            assert(before_graph.has(params@[j]));
                        }
                    }
                    return Err(e);
                },
            }
            params[k] = p;
            proof {
                let now = OptimState { optim: self@, graph: *g, params: params@ };
                let longer = trace.push(now);
                assert(params@ =~= before_params.update(k as int, p));
                assert forall|j: int| 0 <= j < k + 1 implies #[trigger] adam_step_at(longer, j) by {
                    if j < k {
                        assert(adam_step_at(trace, j));
                    }
                }
                assert forall|j: int| 0 <= j < params.len() implies g.has(
                    #[trigger] params@[j],
                ) by {
                    if j != k {
                        assert(before_graph.has(before_params[j]));
                    }
                }
                trace = longer;
            }
            k = k + 1;
        }
        assert(adam_steps_until(trace, k as int));
        Ok(())
    }

    /// Zeroes gradients for the next iteration.
    pub fn zero_grad<V>(&self, g: &mut Graph<E, V>, params: &[Var])
        requires
            old(g).wf(),
            forall|k: int| 0 <= k < params.len() ==> old(g).has(#[trigger] params@[k]),
        ensures
            final(g).wf(),
            final(g).recording() == old(g).recording(),
            grads_zeroed(old(g).nodes(), ids_of(params@), final(g).nodes()),
    {
        zero_grads(g, params)
    }
}

/// An element's step depends on the settings alone.
pub(crate) proof fn lemma_adam_settings<E: Elem>(
    a: AdamView<E>,
    b: AdamView<E>,
    c1: E,
    c2: E,
    val: E,
    g: E,
    m0: E,
    v0: E,
    m1: E,
    v1: E,
    out: E,
)
    requires
        adam_settings_kept(b, a),
        adam_element(a, c1, c2, val, g, m0, v0, m1, v1, out),
    ensures
        adam_element(b, c1, c2, val, g, m0, v0, m1, v1, out),
{
    let (e, next) = choose|e: E, next: E| #[trigger]
        is_effective(a, val, g, e) && is_moment(a.beta1, m0, e, m1) && is_sq_moment(
            a.beta2,
            v0,
            e,
            v1,
        ) && #[trigger] is_adam_step(a, c1, c2, val, m1, v1, next) && is_decayed(a, val, next, out);
    assert(is_effective(b, val, g, e));
    assert(is_adam_step(b, c1, c2, val, m1, v1, next));
    assert(is_decayed(b, val, next, out));
}

/// A step touches only its own parameter's momentum: the state of every other
/// parameter stays as it was.
pub proof fn law_sgd_state_is_per_parameter<E: Elem>(
    a: SgdView<E>,
    index: int,
    value: Seq<E>,
    g: Seq<E>,
    b: SgdView<E>,
    data: Seq<E>,
    other: int,
)
    requires
        sgd_update(a, index, value, g, b, data),
        0 <= other,
        other != index,
    ensures
        slot_at(b.velocities, other) == slot_at(a.velocities, other),
{
    if !(uses_momentum(a, false) && b.velocities == a.velocities && is_descent(
        value,
        a.lr,
        g,
        data,
    )) {
        let (old, velocity, update) = choose|old: Seq<E>, velocity: Seq<E>, update: Seq<E>|
            #[trigger]
            starts_from(a.velocities, index, g.len() as int, old) && #[trigger] is_velocity(
                a.momentum,
                old,
                g,
                velocity,
            ) && slot_set(a.velocities, index, velocity, b.velocities) && #[trigger] is_direction(
                a,
                g,
                velocity,
                update,
            ) && is_descent(value, a.lr, update, data);
        assert(slot_set(a.velocities, index, velocity, b.velocities));
    }
}

/// A step touches only its own parameter's moments and step count.
pub proof fn law_adam_state_is_per_parameter<E: Elem>(
    a: AdamView<E>,
    index: int,
    value: Seq<E>,
    g: Seq<E>,
    b: AdamView<E>,
    data: Seq<E>,
    other: int,
)
    requires
        adam_update(a, index, value, g, b, data),
        0 <= other,
        other != index,
    ensures
        slot_at(b.moments, other) == slot_at(a.moments, other),
        slot_at(b.sq_moments, other) == slot_at(a.sq_moments, other),
        steps_at(b.steps, other) == steps_at(a.steps, other),
{
}

} // verus!
