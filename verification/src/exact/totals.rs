//! Sums of real numbers.

use vstd::prelude::*;
use crate::autograd::optim::shorter;
use crate::exact::total;

verus! {

/// A sum of zeros is zero.
pub proof fn lemma_total_zero(f: spec_fn(int) -> real, n: nat)
    requires
        forall|i: int| 0 <= i < n ==> #[trigger] f(i) == 0real,
    ensures
        total(f, n) == 0real,
    decreases n,
{
    if n > 0 {
        lemma_total_zero(f, (n - 1) as nat);
        assert(f(n - 1) == 0real);
    }
}

/// A sum of terms that are all zero but one is that one.
pub proof fn lemma_total_single(f: spec_fn(int) -> real, n: nat, at: int)
    requires
        0 <= at < n,
        forall|i: int| 0 <= i < n && i != at ==> #[trigger] f(i) == 0real,
    ensures
        total(f, n) == f(at),
    decreases n,
{
    if at == n - 1 {
        lemma_total_zero(f, (n - 1) as nat);
    } else {
        lemma_total_single(f, (n - 1) as nat, at);
        assert(f(n - 1) == 0real);
    }
}

/// The sum of sums of two terms.
pub proof fn lemma_total_plus(
    f: spec_fn(int) -> real,
    g: spec_fn(int) -> real,
    h: spec_fn(int) -> real,
    n: nat,
)
    requires
        forall|i: int| 0 <= i < n ==> #[trigger] h(i) == f(i) + g(i),
    ensures
        total(h, n) == total(f, n) + total(g, n),
    decreases n,
{
    if n > 0 {
        lemma_total_plus(f, g, h, (n - 1) as nat);
        assert(h(n - 1) == f(n - 1) + g(n - 1));
    }
}

/// A common factor stands outside a sum.
pub proof fn lemma_total_scaled(
    f: spec_fn(int) -> real,
    c: real,
    h: spec_fn(int) -> real,
    n: nat,
)
    requires
        forall|i: int| 0 <= i < n ==> #[trigger] h(i) == f(i) * c,
    ensures
        total(h, n) == total(f, n) * c,
    decreases n,
{
    if n > 0 {
        lemma_total_scaled(f, c, h, (n - 1) as nat);
        assert(h(n - 1) == f(n - 1) * c);
        let x = total(f, (n - 1) as nat);
        let y = f(n - 1);
        assert((x + y) * c == x * c + y * c) by (nonlinear_arith);
    } else {
        assert(0real * c == 0real) by (nonlinear_arith);
    }
}

/// A table can be summed by rows or by columns.
pub proof fn lemma_total_swap(f: spec_fn(int, int) -> real, n: nat, k: nat)
    ensures
        total(|i: int| total(|j: int| f(i, j), k), n) == total(
            |j: int| total(|i: int| f(i, j), n),
            k,
        ),
    decreases n,
{
    let rows = |i: int| total(|j: int| f(i, j), k);
    let columns = |j: int| total(|i: int| f(i, j), n);
    if n == 0 {
        assert forall|j: int| 0 <= j < k implies #[trigger] columns(j) == 0real by {}
        lemma_total_zero(columns, k);
    } else {
        lemma_total_swap(f, (n - 1) as nat, k);
        let shorter = |j: int| total(|i: int| f(i, j), (n - 1) as nat);
        let last = |j: int| f(n - 1, j);
        assert forall|j: int| 0 <= j < k implies #[trigger] columns(j) == shorter(j) + last(j) by {
            let c = |i: int| f(i, j);
            assert(total(c, n) == total(c, (n - 1) as nat) + c(n - 1));
        }
        lemma_total_plus(shorter, last, columns, k);
        assert(rows(n - 1) == total(last, k));
    }
}

} // verus!
