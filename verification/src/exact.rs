//! What the contracts come to when elements are computed without rounding.
//!
//! Contracts speak of the operations of an element type, whatever these do. An
//! [`Exact`] model reads elements as real numbers and says that the operations
//! are those of arithmetic; laws about it state what an operation computes.

pub mod broadcasting;
pub mod chain;
pub mod derivatives;
pub mod full_reductions;
pub mod gradients;
pub mod operators;
pub mod optimizers;
pub mod products;
pub mod rearranging;
pub mod reduction_gradients;
pub mod reductions;
pub mod runs;
pub mod tensors;
pub mod totals;
pub mod values;

use vstd::prelude::*;
use crate::elem::Elem;

verus! {

/// A reading of elements as real numbers, with the functions that their
/// operations stand for.
#[verifier::reject_recursive_types(E)]
pub struct Exact<E> {
    /// The number that an element stands for.
    pub val: spec_fn(E) -> real,
    /// The exponential function.
    pub exp: spec_fn(real) -> real,
    /// The natural logarithm.
    pub ln: spec_fn(real) -> real,
    /// The base-2 logarithm.
    pub log2: spec_fn(real) -> real,
    /// The base-10 logarithm.
    pub log10: spec_fn(real) -> real,
    /// Powers.
    pub pow: spec_fn(real, real) -> real,
    /// The hyperbolic tangent.
    pub tanh: spec_fn(real) -> real,
    /// The sine.
    pub sin: spec_fn(real) -> real,
    /// The cosine.
    pub cos: spec_fn(real) -> real,
    /// The circle constant `2 * pi`.
    pub tau: real,
    /// The small number that keeps denominators away from zero.
    pub tiny: real,
}

/// A whole number among the real ones.
pub open spec fn number(n: int) -> real {
    n as real
}

/// That `x` is a whole number.
pub open spec fn whole(x: real) -> bool {
    exists|n: int| x == #[trigger] number(n)
}

/// The absolute value of a number.
pub open spec fn absolute(x: real) -> real {
    if x < 0real {
        -x
    } else {
        x
    }
}

/// The sum of `f(0)`, `f(1)`, ..., `f(n - 1)`.
pub open spec fn total(f: spec_fn(int) -> real, n: nat) -> real
    decreases n,
{
    if n == 0 {
        0real
    } else {
        total(f, (n - 1) as nat) + f(n - 1)
    }
}

/// The sum of a run of numbers.
pub open spec fn sum_of_all(s: Seq<real>) -> real {
    total(|i: int| s[i], s.len())
}

/// Equal terms have equal sums.
pub proof fn lemma_total_equal(f: spec_fn(int) -> real, g: spec_fn(int) -> real, n: nat)
    requires
        forall|i: int| 0 <= i < n ==> #[trigger] f(i) == g(i),
    ensures
        total(f, n) == total(g, n),
    decreases n,
{
    if n > 0 {
        lemma_total_equal(f, g, (n - 1) as nat);
        assert(f(n - 1) == g(n - 1));
    }
}

impl<E: Elem> Exact<E> {
    /// The constants, sums, differences, products and quotients are exact.
    pub open spec fn arithmetic(self) -> bool {
        &&& forall|r: E| #[trigger] call_ensures(E::zero, (), r) ==> (self.val)(r) == 0real
        &&& forall|r: E| #[trigger] call_ensures(E::one, (), r) ==> (self.val)(r) == 1real
        &&& forall|r: E| #[trigger] call_ensures(E::two, (), r) ==> (self.val)(r) == 2real
        &&& forall|r: E| #[trigger] call_ensures(E::half, (), r) ==> (self.val)(r) * 2real == 1real
        &&& forall|a: E, b: E, r: E| #[trigger]
            call_ensures(E::plus, (a, b), r) ==> (self.val)(r) == (self.val)(a) + (self.val)(b)
        &&& forall|a: E, b: E, r: E| #[trigger]
            call_ensures(E::minus, (a, b), r) ==> (self.val)(r) == (self.val)(a) - (self.val)(b)
        &&& forall|a: E, b: E, r: E| #[trigger]
            call_ensures(E::times, (a, b), r) ==> (self.val)(r) == (self.val)(a) * (self.val)(b)
        &&& forall|a: E, b: E, r: E| #[trigger]
            call_ensures(E::divide, (a, b), r) && (self.val)(b) != 0real ==> (self.val)(r)
                == (self.val)(a) / (self.val)(b)
        &&& forall|a: E, r: E| #[trigger]
            call_ensures(E::negate, (a,), r) ==> (self.val)(r) == -(self.val)(a)
        &&& forall|n: usize, r: E| #[trigger]
            call_ensures(E::from_count, (n,), r) ==> (self.val)(r) == n as int as real
        &&& forall|n: u8, r: E| #[trigger]
            call_ensures(E::from_byte, (n,), r) ==> (self.val)(r) == n as int as real
        &&& forall|n: u64, r: E| #[trigger]
            call_ensures(E::from_53_bits, (n,), r) ==> (self.val)(r) * (0x20_0000_0000_0000int as real)
                == n as int as real
    }

    /// Comparisons go by the numbers, and the infinities bound them.
    pub open spec fn ordered(self) -> bool {
        &&& forall|a: E, b: E, r: bool| #[trigger]
            call_ensures(E::less, (a, b), r) ==> r == ((self.val)(a) < (self.val)(b))
        &&& forall|a: E, b: E, r: bool| #[trigger]
            call_ensures(E::less_equal, (a, b), r) ==> r == ((self.val)(a) <= (self.val)(b))
        &&& forall|a: E, b: E, r: bool| #[trigger]
            call_ensures(E::equal, (a, b), r) ==> r == ((self.val)(a) == (self.val)(b))
        &&& forall|a: E, b: E, r: E| #[trigger]
            call_ensures(E::larger, (a, b), r) ==> (self.val)(r) == if (self.val)(a) < (self.val)(b) {
                (self.val)(b)
            } else {
                (self.val)(a)
            }
        &&& forall|a: E, b: E, r: E| #[trigger]
            call_ensures(E::smaller, (a, b), r) ==> (self.val)(r) == if (self.val)(b) < (
            self.val)(a) {
                (self.val)(b)
            } else {
                (self.val)(a)
            }
        &&& forall|z: E, x: E| #[trigger]
            call_ensures(E::neg_infinity, (), z) ==> (self.val)(z) <= #[trigger] (self.val)(x)
        &&& forall|z: E, x: E| #[trigger]
            call_ensures(E::infinity, (), z) ==> #[trigger] (self.val)(x) <= (self.val)(z)
        &&& forall|a: E, r: E| #[trigger]
            call_ensures(E::magnitude, (a,), r) ==> (self.val)(r) == absolute((self.val)(a))
        &&& forall|a: E, r: E| #[trigger]
            call_ensures(E::floor, (a,), r) ==> whole((self.val)(r)) && (self.val)(r) <= (self.val)(
                a,
            ) < (self.val)(r) + 1real
        &&& forall|a: E, r: E| #[trigger]
            call_ensures(E::ceil, (a,), r) ==> whole((self.val)(r)) && (self.val)(r) - 1real < (
            self.val)(a) <= (self.val)(r)
        &&& forall|a: E, r: E| #[trigger]
            call_ensures(E::round, (a,), r) ==> whole((self.val)(r)) && 2real * absolute(
                (self.val)(a) - (self.val)(r),
            ) <= 1real
        &&& forall|a: E, r: E| #[trigger]
            call_ensures(E::signum, (a,), r) && (self.val)(a) != 0real ==> (self.val)(r) * absolute(
                (self.val)(a),
            ) == (self.val)(a)
    }

    /// Square roots, exponentials, logarithms, powers and the functions of
    /// angles are what they stand for.
    pub open spec fn functions(self) -> bool {
        &&& forall|a: E, r: E| #[trigger]
            call_ensures(E::sqrt, (a,), r) && (self.val)(a) >= 0real ==> (self.val)(r) >= 0real && (
            self.val)(r) * (self.val)(r) == (self.val)(a)
        &&& forall|a: E, r: E| #[trigger]
            call_ensures(E::exp, (a,), r) ==> (self.val)(r) == (self.exp)((self.val)(a))
        &&& forall|a: E, r: E| #[trigger]
            call_ensures(E::ln, (a,), r) ==> (self.val)(r) == (self.ln)((self.val)(a))
        &&& forall|a: E, r: E| #[trigger]
            call_ensures(E::log2, (a,), r) ==> (self.val)(r) == (self.log2)((self.val)(a))
        &&& forall|a: E, r: E| #[trigger]
            call_ensures(E::log10, (a,), r) ==> (self.val)(r) == (self.log10)((self.val)(a))
        &&& forall|a: E, b: E, r: E| #[trigger]
            call_ensures(E::power, (a, b), r) ==> (self.val)(r) == (self.pow)(
                (self.val)(a),
                (self.val)(b),
            )
        &&& forall|a: E, r: E| #[trigger]
            call_ensures(E::tanh, (a,), r) ==> (self.val)(r) == (self.tanh)((self.val)(a))
        &&& forall|a: E, r: E| #[trigger]
            call_ensures(E::sin, (a,), r) ==> (self.val)(r) == (self.sin)((self.val)(a))
        &&& forall|a: E, r: E| #[trigger]
            call_ensures(E::cos, (a,), r) ==> (self.val)(r) == (self.cos)((self.val)(a))
        &&& forall|r: E| #[trigger] call_ensures(E::tau, (), r) ==> (self.val)(r) == self.tau
        &&& forall|r: E| #[trigger] call_ensures(E::tiny, (), r) ==> (self.val)(r) == self.tiny
        &&& self.tiny > 0real
        &&& forall|x: real| #[trigger] (self.exp)(x) > 0real
    }

    /// The numbers that a run of elements stands for.
    pub open spec fn vals(self, s: Seq<E>) -> Seq<real> {
        Seq::new(s.len(), |i: int| (self.val)(s[i]))
    }
}

} // verus!
