//! What the element-wise operations and random numbers compute.

use vstd::prelude::*;
use crate::data::rng::{
    MtState, advanced, is_normal, is_positive_part, is_radius, is_random, is_turn, is_uniform,
    law_random_bits_are_a_fraction, output, output53,
};
use crate::elem::{Elem, is_one};
use crate::exact::{Exact, absolute, whole};
use crate::ops::{BinaryOp, ComparisonOp, UnaryOp, is_reciprocal};

verus! {

/// A binary op found by its name computes what the name says.
pub proof fn law_binary_ops<E: Elem>(m: Exact<E>, op: BinaryOp, a: E, b: E, r: E)
    requires
        m.arithmetic(),
        m.ordered(),
        m.functions(),
        op.gives(a, b, r),
    ensures
        op.label() == "add"@ ==> (m.val)(r) == (m.val)(a) + (m.val)(b),
        op.label() == "sub"@ ==> (m.val)(r) == (m.val)(a) - (m.val)(b),
        op.label() == "mul"@ ==> (m.val)(r) == (m.val)(a) * (m.val)(b),
        op.label() == "div"@ && (m.val)(b) != 0real ==> (m.val)(r) == (m.val)(a) / (m.val)(b),
        op.label() == "pow"@ ==> (m.val)(r) == (m.pow)((m.val)(a), (m.val)(b)),
        op.label() == "min"@ ==> (m.val)(r) <= (m.val)(a) && (m.val)(r) <= (m.val)(b) && ((m.val)(r)
            == (m.val)(a) || (m.val)(r) == (m.val)(b)),
        op.label() == "max"@ ==> (m.val)(r) >= (m.val)(a) && (m.val)(r) >= (m.val)(b) && ((m.val)(r)
            == (m.val)(a) || (m.val)(r) == (m.val)(b)),
{
    reveal_strlit("add");
    reveal_strlit("sub");
    reveal_strlit("mul");
    reveal_strlit("div");
    reveal_strlit("pow");
    reveal_strlit("min");
    reveal_strlit("max");
    let l = op.label();
    assert(l[0] == 'a' || l[0] == 's' || l[0] == 'm' || l[0] == 'd' || l[0] == 'p');
    assert(l[1] == l[1] && l[2] == l[2]);
    assert("add"@[0] == 'a' && "sub"@[0] == 's' && "div"@[0] == 'd' && "pow"@[0] == 'p');
    assert("mul"@[0] == 'm' && "min"@[0] == 'm' && "max"@[0] == 'm');
    assert("mul"@[1] == 'u' && "min"@[1] == 'i' && "max"@[1] == 'a');
}

/// A comparison found by its name says what the name says.
pub proof fn law_comparisons<E: Elem>(m: Exact<E>, op: ComparisonOp, a: E, b: E, r: bool)
    requires
        m.ordered(),
        op.says(a, b, r),
    ensures
        op.label() == "eq"@ ==> r == ((m.val)(a) == (m.val)(b)),
        op.label() == "ne"@ ==> r == ((m.val)(a) != (m.val)(b)),
        op.label() == "lt"@ ==> r == ((m.val)(a) < (m.val)(b)),
        op.label() == "le"@ ==> r == ((m.val)(a) <= (m.val)(b)),
        op.label() == "gt"@ ==> r == ((m.val)(a) > (m.val)(b)),
        op.label() == "ge"@ ==> r == ((m.val)(a) >= (m.val)(b)),
{
    reveal_strlit("eq");
    reveal_strlit("ne");
    reveal_strlit("lt");
    reveal_strlit("le");
    reveal_strlit("gt");
    reveal_strlit("ge");
    assert("eq"@[0] == 'e' && "ne"@[0] == 'n' && "lt"@[0] == 'l' && "le"@[0] == 'l' && "gt"@[0]
        == 'g' && "ge"@[0] == 'g');
    assert("lt"@[1] == 't' && "le"@[1] == 'e' && "gt"@[1] == 't' && "ge"@[1] == 'e');
}

/// The unary ops compute what their names say.
pub proof fn law_unary_ops<E: Elem>(m: Exact<E>, op: UnaryOp, a: E, r: E)
    requires
        m.arithmetic(),
        m.ordered(),
        m.functions(),
        op.gives(a, r),
    ensures
        op == UnaryOp::Neg ==> (m.val)(r) == -(m.val)(a),
        op == UnaryOp::Abs ==> (m.val)(r) == absolute((m.val)(a)),
        op == UnaryOp::Sqrt && (m.val)(a) >= 0real ==> (m.val)(r) >= 0real && (m.val)(r) * (m.val)(r)
            == (m.val)(a),
        op == UnaryOp::Rsqrt && (m.val)(a) > 0real ==> (m.val)(r) * (m.val)(r) * (m.val)(a) == 1real
            && (m.val)(r) > 0real,
        op == UnaryOp::Exp ==> (m.val)(r) == (m.exp)((m.val)(a)),
        op == UnaryOp::Log ==> (m.val)(r) == (m.ln)((m.val)(a)),
        op == UnaryOp::Tanh ==> (m.val)(r) == (m.tanh)((m.val)(a)),
        op == UnaryOp::Cos ==> (m.val)(r) == (m.cos)((m.val)(a)),
        op == UnaryOp::Sin ==> (m.val)(r) == (m.sin)((m.val)(a)),
        op == UnaryOp::Log2 ==> (m.val)(r) == (m.log2)((m.val)(a)),
        op == UnaryOp::Log10 ==> (m.val)(r) == (m.log10)((m.val)(a)),
        op == UnaryOp::Floor ==> whole((m.val)(r)) && (m.val)(r) <= (m.val)(a) < (m.val)(r) + 1real,
        op == UnaryOp::Ceil ==> whole((m.val)(r)) && (m.val)(r) - 1real < (m.val)(a) <= (m.val)(r),
        op == UnaryOp::Round ==> whole((m.val)(r)) && 2real * absolute((m.val)(a) - (m.val)(r))
            <= 1real,
        op == UnaryOp::Sign && (m.val)(a) > 0real ==> (m.val)(r) == 1real,
        op == UnaryOp::Sign && (m.val)(a) < 0real ==> (m.val)(r) == -1real,
        op == UnaryOp::Relu ==> (m.val)(r) == if (m.val)(a) > 0real {
            (m.val)(a)
        } else {
            0real
        },
        op == UnaryOp::Sigmoid ==> (m.val)(r) * (1real + (m.exp)(-(m.val)(a))) == 1real,
        op == UnaryOp::Square ==> (m.val)(r) == (m.val)(a) * (m.val)(a),
        op == UnaryOp::Reciprocal && (m.val)(a) != 0real ==> (m.val)(r) * (m.val)(a) == 1real,
{
    let x = (m.val)(a);
    match op {
        UnaryOp::Rsqrt => {
            if x > 0real {
                let s = choose|s: E|
                    #![trigger call_ensures(E::sqrt, (a,), s)]
                    call_ensures(E::sqrt, (a,), s) && is_reciprocal(s, r);
                let y = (m.val)(s);
                assert(y != 0real) by (nonlinear_arith)
                    requires
                        y * y == x,
                        x > 0real,
                ;
                lemma_reciprocal(m, s, r);
                let z = (m.val)(r);
                assert(z * z * x == 1real && z > 0real) by (nonlinear_arith)
                    requires
                        z * y == 1real,
                        y * y == x,
                        y >= 0real,
                ;
            }
        },
        UnaryOp::Sigmoid => {
            let (n, e, o, d) = choose|n: E, e: E, o: E, d: E|
                #![trigger call_ensures(E::negate, (a,), n), call_ensures(E::exp, (n,), e), call_ensures(E::plus, (o, e), d)]
                call_ensures(E::negate, (a,), n) && call_ensures(E::exp, (n,), e) && is_one(o)
                    && call_ensures(E::plus, (o, e), d) && is_reciprocal(d, r);
            assert((m.exp)((m.val)(n)) > 0real);
            lemma_reciprocal(m, d, r);
        },
        UnaryOp::Sign => {
            let z = (m.val)(r);
            if x > 0real {
                assert(z == 1real) by (nonlinear_arith)
                    requires
                        z * x == x,
                        x > 0real,
                ;
            } else if x < 0real {
                let w = -x;
                assert(z == -1real) by (nonlinear_arith)
                    requires
                        z * w == -w,
                        w > 0real,
                ;
            }
        },
        UnaryOp::Reciprocal => {
            if x != 0real {
                lemma_reciprocal(m, a, r);
            }
        },
        _ => {},
    }
}

/// A reciprocal, times what it is taken of, is one.
pub proof fn lemma_reciprocal<E: Elem>(m: Exact<E>, a: E, r: E)
    requires
        m.arithmetic(),
        is_reciprocal(a, r),
        (m.val)(a) != 0real,
    ensures
        (m.val)(r) * (m.val)(a) == 1real,
{
    let x = (m.val)(a);
    assert(1real / x * x == 1real) by (nonlinear_arith)
        requires
            x != 0real,
    ;
}

/// The names of the unary ops.
pub proof fn law_unary_names(op: UnaryOp)
    ensures
        op.label() == match op {
            UnaryOp::Neg => "neg"@,
            UnaryOp::Abs => "abs"@,
            UnaryOp::Sqrt => "sqrt"@,
            UnaryOp::Rsqrt => "rsqrt"@,
            UnaryOp::Exp => "exp"@,
            UnaryOp::Log => "log"@,
            UnaryOp::Log2 => "log2"@,
            UnaryOp::Log10 => "log10"@,
            UnaryOp::Sin => "sin"@,
            UnaryOp::Cos => "cos"@,
            UnaryOp::Tanh => "tanh"@,
            UnaryOp::Relu => "relu"@,
            UnaryOp::Sigmoid => "sigmoid"@,
            UnaryOp::Floor => "floor"@,
            UnaryOp::Ceil => "ceil"@,
            UnaryOp::Round => "round"@,
            UnaryOp::Sign => "sign"@,
            UnaryOp::Square => "square"@,
            UnaryOp::Reciprocal => "reciprocal"@,
        },
{
}

// ---- random numbers --------------------------------------------------------------------

/// A uniform number is the fraction that 53 bits of the stream make: at least
/// 0 and below 1.
pub proof fn law_random<E: Elem>(m: Exact<E>, s: MtState, r: E)
    requires
        m.arithmetic(),
        is_random(s, r),
    ensures
        (m.val)(r) * (0x20_0000_0000_0000int as real) == ((output(s) >> 5) * 67_108_864 + (output(
            advanced(s),
        ) >> 6)) as real,
        0real <= (m.val)(r) < 1real,
{
    law_random_bits_are_a_fraction(s);
    let n = output53(s) as int as real;
    let c = 0x20_0000_0000_0000int as real;
    let x = (m.val)(r);
    assert(0real <= x < 1real) by (nonlinear_arith)
        requires
            x * c == n,
            0real <= n < c,
    ;
}

/// A uniform number of a range lies in it, as far from its lower end as the
/// fraction says.
pub proof fn law_uniform<E: Elem>(m: Exact<E>, s: MtState, low: E, high: E, r: E) -> (u: real)
    requires
        m.arithmetic(),
        is_uniform(s, low, high, r),
    ensures
        0real <= u < 1real,
        u * (0x20_0000_0000_0000int as real) == output53(s) as int as real,
        (m.val)(r) == (m.val)(low) + ((m.val)(high) - (m.val)(low)) * u,
        (m.val)(low) < (m.val)(high) ==> (m.val)(low) <= (m.val)(r) < (m.val)(high),
{
    let (span, f, part) = choose|span: E, f: E, part: E|
        #![trigger call_ensures(E::minus, (high, low), span), call_ensures(E::times, (span, f), part)]
        call_ensures(E::minus, (high, low), span) && is_random(s, f) && call_ensures(
            E::times,
            (span, f),
            part,
        ) && call_ensures(E::plus, (low, part), r);
    law_random(m, s, f);
    let u = (m.val)(f);
    let l = (m.val)(low);
    let h = (m.val)(high);
    if l < h {
        assert(0real <= (h - l) * u && (h - l) * u < h - l) by (nonlinear_arith)
            requires
                l < h,
                0real <= u < 1real,
        ;
    }
    u
}

/// A normal number is `sqrt(-2 ln u1) * cos(tau u2)` of two uniform numbers
/// in a row, the first kept away from 0.
pub proof fn law_normal<E: Elem>(m: Exact<E>, s: MtState, r: E) -> (n: (real, real, real))
    requires
        m.arithmetic(),
        m.ordered(),
        m.functions(),
        is_normal(s, r),
        forall|x: real| 0real < x <= 1real ==> #[trigger] (m.ln)(x) <= 0real,
        forall|p: E| #[trigger]
            call_ensures(E::min_positive, (), p) ==> 0real < (m.val)(p) <= 1real,
    ensures
        ({
            let (u1, u2, radius) = n;
            &&& 0real < u1 <= 1real
            &&& u1 * (0x20_0000_0000_0000int as real) >= output53(s) as int as real
            &&& u2 * (0x20_0000_0000_0000int as real) == output53(
                advanced(advanced(s)),
            ) as int as real
            &&& radius >= 0real
            &&& radius * radius == -2real * (m.ln)(u1)
            &&& (m.val)(r) == radius * (m.cos)(m.tau * u2)
        }),
{
    let (raw, u1, u2, radius, turn) = choose|raw: E, u1: E, u2: E, radius: E, turn: E| #[trigger]
        is_random(s, raw) && #[trigger] is_positive_part(raw, u1) && #[trigger] is_random(
            advanced(advanced(s)),
            u2,
        ) && #[trigger] is_radius(u1, radius) && #[trigger] is_turn(u2, turn) && call_ensures(
            E::times,
            (radius, turn),
            r,
        );
    law_random(m, s, raw);
    law_random(m, advanced(advanced(s)), u2);
    let c = 0x20_0000_0000_0000int as real;
    let a = (m.val)(raw);
    let b = (m.val)(u1);
    assert(a <= b);
    assert(a * c <= b * c) by (nonlinear_arith)
        requires
            a <= b,
            c > 0real,
    ;
    let l = (m.ln)(b);
    assert(l <= 0real);
    ((m.val)(u1), (m.val)(u2), (m.val)(radius))
}

} // verus!
