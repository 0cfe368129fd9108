//! The graph, backward passes, rules, gradient checks and optimizers.

use std::sync::{mpsc, Arc, Mutex};

use oxitorch::autograd::gradcheck::{check_scalar, check_with_weights};
use oxitorch::autograd::graph::pass::{backward, backward_ext};
use oxitorch::autograd::graph::{
    enable_grad, is_grad_enabled, no_grad, set_grad_enabled, GradGuard, Graph, Var, VjpRule,
};
use oxitorch::autograd::ops;
use oxitorch::autograd::optim::{AdamW, Sgd};
use oxitorch::autograd::rules::OpGrad;
use oxitorch::autograd::unbroadcast::unbroadcast;
use oxitorch::elem::Elem;
use oxitorch::error::{OxitorchError, OxitorchResult};
use oxitorch::io::save_safetensors;
use oxitorch::nn::linear;
use oxitorch::ops::ReduceKind;
use oxitorch::optim::sgd_step;
use oxitorch::tensor::Tensor;

/// 32-bit floats as tensor elements.
#[derive(Debug, Clone, Copy, PartialEq)]
struct F32(f32);

impl Elem for F32 {
    fn zero() -> Self {
        F32(0.0)
    }
    fn one() -> Self {
        F32(1.0)
    }
    fn two() -> Self {
        F32(2.0)
    }
    fn tiny() -> Self {
        F32(1e-12)
    }
    fn difference_step() -> Self {
        F32(1e-2)
    }
    fn half() -> Self {
        F32(0.5)
    }
    fn tau() -> Self {
        F32(std::f32::consts::TAU)
    }
    fn min_positive() -> Self {
        F32(f32::MIN_POSITIVE)
    }
    fn infinity() -> Self {
        F32(f32::INFINITY)
    }
    fn neg_infinity() -> Self {
        F32(f32::NEG_INFINITY)
    }
    fn plus(a: Self, b: Self) -> Self {
        F32(a.0 + b.0)
    }
    fn minus(a: Self, b: Self) -> Self {
        F32(a.0 - b.0)
    }
    fn times(a: Self, b: Self) -> Self {
        F32(a.0 * b.0)
    }
    fn divide(a: Self, b: Self) -> Self {
        F32(a.0 / b.0)
    }
    fn power(a: Self, b: Self) -> Self {
        F32(a.0.powf(b.0))
    }
    fn smaller(a: Self, b: Self) -> Self {
        F32(a.0.min(b.0))
    }
    fn larger(a: Self, b: Self) -> Self {
        F32(a.0.max(b.0))
    }
    fn negate(a: Self) -> Self {
        F32(-a.0)
    }
    fn magnitude(a: Self) -> Self {
        F32(a.0.abs())
    }
    fn sqrt(a: Self) -> Self {
        F32(a.0.sqrt())
    }
    fn exp(a: Self) -> Self {
        F32(a.0.exp())
    }
    fn ln(a: Self) -> Self {
        F32(a.0.ln())
    }
    fn log2(a: Self) -> Self {
        F32(a.0.log2())
    }
    fn log10(a: Self) -> Self {
        F32(a.0.log10())
    }
    fn sin(a: Self) -> Self {
        F32(a.0.sin())
    }
    fn cos(a: Self) -> Self {
        F32(a.0.cos())
    }
    fn tanh(a: Self) -> Self {
        F32(a.0.tanh())
    }
    fn floor(a: Self) -> Self {
        F32(a.0.floor())
    }
    fn ceil(a: Self) -> Self {
        F32(a.0.ceil())
    }
    fn round(a: Self) -> Self {
        F32(a.0.round())
    }
    fn signum(a: Self) -> Self {
        F32(a.0.signum())
    }
    fn equal(a: Self, b: Self) -> bool {
        a.0 == b.0
    }
    fn less(a: Self, b: Self) -> bool {
        a.0 < b.0
    }
    fn less_equal(a: Self, b: Self) -> bool {
        a.0 <= b.0
    }
    fn from_count(n: usize) -> Self {
        F32(n as f32)
    }
    fn to_count(a: Self) -> usize {
        a.0 as usize
    }
    fn from_byte(b: u8) -> Self {
        F32(f32::from(b))
    }
    fn from_53_bits(n: u64) -> Self {
        // Rounding must not reach 1.
        let below_one = 1.0 - f32::EPSILON / 2.0;
        F32(((n as f64 / 9_007_199_254_740_992.0) as f32).min(below_one))
    }
    fn gemm(m: usize, k: usize, n: usize, a: &[Self], b: &[Self]) -> Vec<Self> {
        let mut out = vec![F32(0.0); m * n];
        for i in 0..m {
            for p in 0..k {
                for j in 0..n {
                    out[i * n + j].0 += a[i * k + p].0 * b[p * n + j].0;
                }
            }
        }
        out
    }
    fn shown(a: Self) -> String {
        format!("{}", a.0)
    }
    fn listed(a: Self) -> String {
        format!("{:?}", a.0)
    }
}

/// The plain floats of a run of elements.
trait Floats {
    fn f32s(&self) -> Vec<f32>;
}

impl Floats for [F32] {
    fn f32s(&self) -> Vec<f32> {
        self.iter().map(|x| x.0).collect()
    }
}

/// Plain floats as elements.
fn elems(data: Vec<f32>) -> Vec<F32> {
    data.into_iter().map(F32).collect()
}

/// A tensor of plain floats.
fn from_vec(shape: &[i64], data: Vec<f32>) -> OxitorchResult<Tensor<F32>> {
    Tensor::from_vec(shape, elems(data))
}

type G = Graph<F32, OpGrad<F32>>;

fn tensor(g: &mut G, shape: &[i64], data: Vec<f32>) -> Var {
    Var::leaf(g, from_vec(shape, data).unwrap(), true)
}

fn constant(g: &mut G, shape: &[i64], data: Vec<f32>) -> Var {
    Var::leaf(g, from_vec(shape, data).unwrap(), false)
}

fn values(g: &G, v: Var) -> Vec<f32> {
    v.value(g).to_vec().f32s()
}

fn grads(g: &G, v: Var) -> Vec<f32> {
    v.grad(g).unwrap().to_vec().f32s()
}

/// Sums one dim away.
fn sum0(g: &mut G, v: Var) -> OxitorchResult<Var> {
    ops::reduce(g, v, ReduceKind::Sum, 0, false)
}

/// A function on a borrowed graph as one that hands the graph through.
fn lift<F: Fn(&mut G, Var) -> OxitorchResult<Var>>(
    f: F,
) -> impl Fn(G, Var) -> (G, OxitorchResult<Var>) {
    move |mut g, x| {
        let r = f(&mut g, x);
        (g, r)
    }
}

fn scalar_agrees<F: Fn(&mut G, Var) -> OxitorchResult<Var>>(
    input: &Tensor<F32>,
    f: F,
    tol: f32,
) -> bool {
    let mut g = G::new();
    check_scalar(&mut g, input, lift(f), F32(tol)).unwrap()
}

fn weighted_agrees<F: Fn(&mut G, Var) -> OxitorchResult<Var>>(
    input: &Tensor<F32>,
    weights: &Tensor<F32>,
    f: F,
    tol: f32,
) -> bool {
    let mut g = G::new();
    let ok = check_with_weights(&mut g, input, weights, lift(f), F32(tol)).unwrap();
    assert_eq!(g.len(), 0, "a check frees the nodes it made");
    ok
}

/// Weighted-sums the output down to a scalar.
fn weighted_scalar(g: &mut G, out: Var, w: &Tensor<F32>) -> OxitorchResult<Var> {
    let weights = Var::leaf(g, w.clone(), false);
    let mut s = ops::mul(g, out, weights)?;
    while s.value(g).ndim() > 0 {
        s = sum0(g, s)?;
    }
    Ok(s)
}

/// Two-input gradcheck: verifies the analytic gradients of *both* inputs
/// against central differences of `w · f(lhs, rhs)`.
fn check_two_inputs<F: Fn(&mut G, Var, Var) -> OxitorchResult<Var>>(
    lhs: &Tensor<F32>,
    rhs: &Tensor<F32>,
    w: &Tensor<F32>,
    f: &F,
    tol: f32,
) -> OxitorchResult<bool> {
    let run = |lhs_data: &[f32], rhs_data: &[f32]| -> OxitorchResult<f32> {
        let mut g = G::new();
        let lhs_var = Var::leaf(&mut g, from_vec(&lhs.shape_i64(), lhs_data.to_vec())?, false);
        let rhs_var = Var::leaf(&mut g, from_vec(&rhs.shape_i64(), rhs_data.to_vec())?, false);
        let out = f(&mut g, lhs_var, rhs_var)?;
        let scalar = weighted_scalar(&mut g, out, w)?;
        Ok(values(&g, scalar)[0])
    };
    let mut g = G::new();
    let lhs_var = Var::leaf(&mut g, lhs.clone(), true);
    let rhs_var = Var::leaf(&mut g, rhs.clone(), true);
    let out = f(&mut g, lhs_var, rhs_var)?;
    let loss = weighted_scalar(&mut g, out, w)?;
    backward(&mut g, loss, None)?;
    let grads = [grads(&g, lhs_var), grads(&g, rhs_var)];
    let bases = [lhs.to_vec().f32s(), rhs.to_vec().f32s()];
    let h = 1e-2_f32;
    let mut ok = true;
    for (input, analytic) in grads.iter().enumerate() {
        let base = &bases[input];
        for i in 0..base.len() {
            let mut plus = base.clone();
            plus[i] += h;
            let mut minus = base.clone();
            minus[i] -= h;
            let (fp, fm) = if input == 0 {
                (run(&plus, &bases[1])?, run(&minus, &bases[1])?)
            } else {
                (run(&bases[0], &plus)?, run(&bases[0], &minus)?)
            };
            let numeric = (fp - fm) / (2.0 * h);
            if (analytic[i] - numeric).abs() > tol * analytic[i].abs().max(1.0) {
                ok = false;
            }
        }
    }
    Ok(ok)
}

/// Deterministic pseudo-random data in [-1, 1).
fn rng_vec(n: usize, seed: u64) -> Vec<f32> {
    let mut state = seed | 1;
    (0..n)
        .map(|_| {
            state ^= state << 13;
            state ^= state >> 7;
            state ^= state << 17;
            (state % 2000) as f32 / 1000.0 - 1.0
        })
        .collect()
}

#[test]
fn add_sub_mul_div_pow_gradcheck() {
    let a = from_vec(&[2, 3], rng_vec(6, 1)).unwrap();
    let b = from_vec(&[2, 3], rng_vec(6, 2)).unwrap();
    let w = from_vec(&[2, 3], rng_vec(6, 3)).unwrap();
    let bb = from_vec(&[3], rng_vec(3, 4)).unwrap(); // broadcast

    let a_leaf = |g: &mut G| Var::leaf(g, a.clone(), false);
    let b_leaf = |g: &mut G| Var::leaf(g, b.clone(), false);

    assert!(weighted_agrees(
        &a,
        &w,
        |g, x| {
            let b = b_leaf(g);
            ops::add(g, x, b)
        },
        1e-3
    ));
    assert!(weighted_agrees(
        &b,
        &w,
        |g, y| {
            let a = a_leaf(g);
            ops::add(g, a, y)
        },
        1e-3
    ));
    // Broadcast: b is [3], broadcasts over [2, 3].
    assert!(weighted_agrees(
        &bb,
        &w,
        |g, y| {
            let a = a_leaf(g);
            ops::add(g, a, y)
        },
        1e-3
    ));

    assert!(weighted_agrees(
        &a,
        &w,
        |g, x| {
            let b = b_leaf(g);
            ops::sub(g, x, b)
        },
        1e-3
    ));
    assert!(weighted_agrees(
        &a,
        &w,
        |g, x| {
            let b = b_leaf(g);
            ops::mul(g, x, b)
        },
        1e-3
    ));
    // div: b kept away from 0 by construction (|b| > 0.1).
    assert!(weighted_agrees(
        &a,
        &w,
        |g, x| {
            let b = b_leaf(g);
            ops::div(g, x, b)
        },
        1e-3
    ));
    // pow: exponent fixed at 2 (a^2); a stays positive.
    let pos = from_vec(
        &[2, 3],
        a.to_vec().f32s().iter().map(|v| v.abs() + 0.5).collect(),
    )
    .unwrap();
    assert!(scalar_agrees(
        &pos,
        |g, x| {
            let sq = ops::mul(g, x, x)?;
            let r = ops::reduce(g, sq, ReduceKind::Sum, 0, false)?;
            ops::reduce(g, r, ReduceKind::Sum, 0, false)
        },
        1e-3
    ));
    // The power op itself, by a constant exponent.
    assert!(weighted_agrees(
        &pos,
        &w,
        |g, x| {
            let e = constant(g, &[2, 3], vec![2.0; 6]);
            ops::pow(g, x, e)
        },
        1e-3
    ));
}

#[test]
fn unaries_gradcheck() {
    let a = from_vec(
        &[2, 3],
        rng_vec(6, 5).iter().map(|v| v.abs() + 0.5).collect(),
    )
    .unwrap();
    let w = from_vec(&[2, 3], rng_vec(6, 6)).unwrap();

    assert!(weighted_agrees(&a, &w, |g, x| ops::exp(g, x), 1e-3));
    assert!(weighted_agrees(&a, &w, |g, x| ops::log(g, x), 1e-3));
    assert!(weighted_agrees(&a, &w, |g, x| ops::sqrt(g, x), 1e-3));
    assert!(weighted_agrees(&a, &w, |g, x| ops::tanh(g, x), 1e-3));
    assert!(weighted_agrees(&a, &w, |g, x| ops::sigmoid(g, x), 1e-3));
    assert!(weighted_agrees(&a, &w, |g, x| ops::neg(g, x), 1e-3));
    // relu: shift inputs away from the kink at 0.
    let shifted: Vec<f32> = a
        .to_vec()
        .f32s()
        .iter()
        .map(|v| if v.abs() < 0.2 { v + 0.3 } else { *v })
        .collect();
    let a2 = from_vec(&[2, 3], shifted).unwrap();
    assert!(weighted_agrees(&a2, &w, |g, x| ops::relu(g, x), 1e-3));
}

#[test]
fn matmul_gradcheck() {
    let a = from_vec(&[3, 4], rng_vec(12, 7)).unwrap();
    let b = from_vec(&[4, 2], rng_vec(8, 8)).unwrap();
    // Scalar loss via sum of the product.
    let run = |g: &mut G, x: Var| -> OxitorchResult<Var> {
        let b = Var::leaf(g, b.clone(), false);
        let y = ops::matmul(g, x, b)?;
        let r = ops::reduce(g, y, ReduceKind::Sum, 0, false)?;
        ops::reduce(g, r, ReduceKind::Sum, 0, false)
    };
    assert!(scalar_agrees(&a, run, 1e-3));
    let run_b = |g: &mut G, y: Var| -> OxitorchResult<Var> {
        let a = Var::leaf(g, a.clone(), false);
        let z = ops::matmul(g, a, y)?;
        let r = ops::reduce(g, z, ReduceKind::Sum, 0, false)?;
        ops::reduce(g, r, ReduceKind::Sum, 0, false)
    };
    assert!(scalar_agrees(&b, run_b, 1e-3));
}

#[test]
fn reductions_gradcheck() {
    let a = from_vec(&[3, 4], rng_vec(12, 9)).unwrap();
    // sum over dim 1, keepdim, weighted
    let w = from_vec(&[3, 1], rng_vec(3, 10)).unwrap();
    assert!(weighted_agrees(
        &a,
        &w,
        |g, x| ops::reduce(g, x, ReduceKind::Sum, 1, true),
        1e-3
    ));

    // mean over dim 0
    let w2 = from_vec(&[1, 4], rng_vec(4, 11)).unwrap();
    assert!(weighted_agrees(
        &a,
        &w2,
        |g, x| ops::reduce(g, x, ReduceKind::Mean, 0, true),
        1e-3
    ));

    // norm over last dim
    let w3 = from_vec(&[3, 1], rng_vec(3, 12)).unwrap();
    assert!(weighted_agrees(
        &a,
        &w3,
        |g, x| ops::reduce(g, x, ReduceKind::Norm, 1, true),
        1e-3
    ));
}

#[test]
fn views_gradcheck() {
    let a = from_vec(&[3, 4], rng_vec(12, 13)).unwrap();
    // Weights must match each view's OUTPUT shape.
    let w43 = from_vec(&[4, 3], rng_vec(12, 17)).unwrap(); // transpose
    let w24 = from_vec(&[2, 4], rng_vec(8, 18)).unwrap(); // narrow
    let w34 = from_vec(&[3, 4], rng_vec(12, 14)).unwrap(); // identity view

    assert!(weighted_agrees(&a, &w43, |g, x| ops::transpose(g, x), 1e-3));
    assert!(weighted_agrees(&a, &w43, |g, x| ops::reshape(g, x, &[4, 3]), 1e-3));
    assert!(weighted_agrees(&a, &w24, |g, x| ops::narrow_dim0(g, x, 1, 2), 1e-3));
    assert!(weighted_agrees(&a, &w34, |g, x| ops::broadcast_to(g, x, &[3, 4]), 1e-3));
}

#[test]
fn permute_gradcheck_and_backward() {
    let arr = from_vec(&[2, 3, 4], rng_vec(24, 19)).unwrap();
    let wgt = from_vec(&[4, 2, 3], rng_vec(24, 20)).unwrap();
    assert!(weighted_agrees(&arr, &wgt, |g, x| ops::permute(g, x, &[2, 0, 1]), 1e-3));

    // Round trip: permute then inverse-permute is the identity.
    let mut g = G::new();
    let x = tensor(&mut g, &[2, 3, 4], rng_vec(24, 21));
    let there = ops::permute(&mut g, x, &[2, 0, 1]).unwrap();
    let y = ops::permute(&mut g, there, &[1, 2, 0]).unwrap();
    assert_eq!(values(&g, y), values(&g, x));
    assert_eq!(y.value(&g).shape(), x.value(&g).shape());

    // Grad of sum(permute(x)) flows straight back.
    let loss = {
        let p = ops::permute(&mut g, x, &[2, 0, 1]).unwrap();
        let r = sum0(&mut g, p).unwrap();
        let r = sum0(&mut g, r).unwrap();
        sum0(&mut g, r).unwrap()
    };
    backward(&mut g, loss, None).unwrap();
    assert_eq!(grads(&g, x), vec![1.0; 24]);
}

#[test]
fn scatter_dim0_gradcheck_and_last_write_wins() {
    let base = from_vec(&[4, 3], rng_vec(12, 20)).unwrap();
    let vals = from_vec(&[3, 3], rng_vec(9, 21)).unwrap();
    let w = from_vec(&[4, 3], rng_vec(12, 22)).unwrap();
    // f(base, values) = w · scatter(base, values); central differences on
    // both inputs must match the analytic pair.
    let ok = check_two_inputs(
        &base,
        &vals,
        &w,
        &|g: &mut G, b, v| ops::scatter_dim0(g, b, &[1, 3, 1], v),
        1e-3,
    );
    assert!(ok.unwrap());

    // Direct VJP check: duplicates route the grad only to the last write,
    // and written rows of `base` get zero.
    let mut g = G::new();
    let b = tensor(&mut g, &[3, 2], vec![10.0, 11.0, 20.0, 21.0, 30.0, 31.0]);
    let v = tensor(&mut g, &[3, 2], vec![1.0, 2.0, 3.0, 4.0, 5.0, 6.0]);
    let out = ops::scatter_dim0(&mut g, b, &[2, 0, 2], v).unwrap();
    let ones = constant(&mut g, &[3, 2], vec![1.0, 1.0, 1.0, 1.0, 1.0, 1.0]);
    let dot = ops::mul(&mut g, out, ones).unwrap();
    let loss = sum0(&mut g, dot).unwrap();
    let loss = sum0(&mut g, loss).unwrap();
    backward(&mut g, loss, None).unwrap();
    // out = [[3,4],[20,21],[5,6]] -> d/dbase = [[0,0],[1,1],[0,0]];
    // slot 2 wins row 2, slot 0 loses -> d/dvalues = [[0,0],[1,1],[1,1]].
    assert_eq!(grads(&g, b), vec![0.0, 0.0, 1.0, 1.0, 0.0, 0.0]);
    assert_eq!(grads(&g, v), vec![0.0, 0.0, 1.0, 1.0, 1.0, 1.0]);
}

#[test]
fn masked_select_gradcheck_and_broadcast_accumulation() {
    // Gradcheck over the data input (the mask is a constant: it selects
    // which paths exist, so it is not differentiated — 0/1 boundaries).
    // Mask [1,0,1,0,1,0] picks (0,0), (0,2), (1,1) -> 3 elements.
    let data = from_vec(&[2, 3], rng_vec(6, 25)).unwrap();
    let weights = from_vec(&[3], vec![1.0, 2.0, 3.0]).unwrap();
    let mask = from_vec(&[2, 3], vec![1.0, 0.0, 1.0, 0.0, 1.0, 0.0]).unwrap();
    assert!(weighted_agrees(
        &data,
        &weights,
        |g, x| {
            let m = Var::leaf(g, mask.clone(), false);
            ops::masked_select(g, x, m)
        },
        1e-3,
    ));

    // Broadcast row mask [1, 0, 1]: picks (0,0), (0,2), (1,0), (1,2) in
    // grid order -> values [1, 3, 4, 6]; grads land exactly there.
    let mut g = G::new();
    let x = tensor(&mut g, &[2, 3], vec![1.0, 2.0, 3.0, 4.0, 5.0, 6.0]);
    let m = constant(&mut g, &[3], vec![1.0, 0.0, 1.0]);
    let out = ops::masked_select(&mut g, x, m).unwrap();
    let seed = constant(&mut g, &[4], vec![10.0, 20.0, 30.0, 40.0]);
    // `out` is 1-D: one sum reduction reaches the scalar loss.
    let dot = ops::mul(&mut g, out, seed).unwrap();
    let loss = sum0(&mut g, dot).unwrap();
    backward(&mut g, loss, None).unwrap();
    // Picks in grid order: (0,0) -> 1, (0,2) -> 3, (1,0) -> 4, (1,2) -> 6.
    assert_eq!(grads(&g, x), vec![10.0, 0.0, 20.0, 30.0, 0.0, 40.0]);

    // A broadcast mask that picks the same element twice must accumulate.
    let col = tensor(&mut g, &[2, 1], vec![7.0, 9.0]);
    let mc = constant(&mut g, &[2, 3], vec![1.0, 1.0, 0.0, 0.0, 1.0, 1.0]);
    let outc = ops::masked_select(&mut g, col, mc).unwrap();
    let gc = constant(&mut g, &[4], vec![1.0, 2.0, 3.0, 4.0]);
    let dotc = ops::mul(&mut g, outc, gc).unwrap();
    let lossc = sum0(&mut g, dotc).unwrap();
    backward(&mut g, lossc, None).unwrap();
    // Column 7.0 is picked by mask entries 1.0, 2.0; column 9.0 by 3.0, 4.0.
    assert_eq!(grads(&g, col), vec![3.0, 7.0]);
}

#[test]
fn index_select_gradcheck_and_duplicate_accumulation() {
    let a = from_vec(&[4, 3], rng_vec(12, 15)).unwrap();
    let w = from_vec(&[2, 3], rng_vec(6, 16)).unwrap();
    assert!(weighted_agrees(&a, &w, |g, x| ops::index_select(g, x, 0, &[2, 0]), 1e-3));

    // Duplicates accumulate: index_select([1,1]) rows must get g0+g1.
    let mut g = G::new();
    let seed = constant(&mut g, &[2, 3], vec![1.0, 2.0, 3.0, 4.0, 5.0, 6.0]);
    let x = tensor(&mut g, &[3, 3], vec![0.0; 9]);
    let picked = ops::index_select(&mut g, x, 0, &[1, 1]).unwrap();
    let dot = ops::mul(&mut g, picked, seed).unwrap();
    let loss = sum0(&mut g, dot).unwrap();
    let loss = sum0(&mut g, loss).unwrap();
    backward(&mut g, loss, None).unwrap();
    let grad = grads(&g, x);
    assert_eq!(grad[3..6], vec![5.0, 7.0, 9.0]); // 1+4, 2+5, 3+6
}

#[test]
fn diamond_graph_accumulates() {
    // y = (x + x) * x — three contributions to the same leaf.
    let mut g = G::new();
    let x = tensor(&mut g, &[2], vec![3.0, -1.0]);
    let s = ops::add(&mut g, x, x).unwrap();
    let m = ops::mul(&mut g, s, x).unwrap();
    let loss = sum0(&mut g, m).unwrap();
    backward(&mut g, loss, None).unwrap();
    // d/dx (2x * x) = 4x
    assert_eq!(grads(&g, x), vec![12.0, -4.0]);
}

#[test]
fn no_grad_leaf_gets_nothing() {
    let mut g = G::new();
    let x = constant(&mut g, &[2], vec![1.0, 2.0]);
    let y = ops::mul(&mut g, x, x).unwrap();
    let loss = sum0(&mut g, y).unwrap();
    assert!(backward(&mut g, loss, None).is_err()); // nothing requires grad
    assert!(x.grad(&g).is_none());
}

#[test]
fn second_order_gradient() {
    // f(x) = sum(sigmoid(x)^2); f'' should match finite differences of grad.
    let a = from_vec(&[2, 2], vec![0.3, -0.4, 0.9, -1.1]).unwrap();
    let mut g = G::new();
    let w = constant(&mut g, &[2, 2], vec![1.0; 4]);

    let x = Var::leaf(&mut g, a.clone(), true);
    let s = ops::sigmoid(&mut g, x).unwrap();
    let s2 = ops::mul(&mut g, s, s).unwrap();
    let dot = ops::mul(&mut g, s2, w).unwrap();
    let loss = sum0(&mut g, dot).unwrap();
    let loss = sum0(&mut g, loss).unwrap();
    backward(&mut g, loss, None).unwrap();
    assert_eq!(grads(&g, x).len(), 4);

    // Central differences of the first-order gradient: perturb x, recompute
    // grad, compare.
    let h = 1e-2_f32;
    for i in 0..4 {
        let mut base = a.to_vec().f32s();
        base[i] += h;
        let xp = tensor(&mut g, &[2, 2], base);
        let sp = ops::sigmoid(&mut g, xp).unwrap();
        let sp2 = ops::mul(&mut g, sp, sp).unwrap();
        let lp = sum0(&mut g, sp2).unwrap();
        let lp = sum0(&mut g, lp).unwrap();
        backward(&mut g, lp, None).unwrap();
        let gp = grads(&g, xp)[i];

        let mut base = a.to_vec().f32s();
        base[i] -= h;
        let xm = tensor(&mut g, &[2, 2], base);
        let sm = ops::sigmoid(&mut g, xm).unwrap();
        let sm2 = ops::mul(&mut g, sm, sm).unwrap();
        let lm = sum0(&mut g, sm2).unwrap();
        let lm = sum0(&mut g, lm).unwrap();
        backward(&mut g, lm, None).unwrap();
        let gm = grads(&g, xm)[i];

        let second_numeric = (gp - gm) / (2.0 * h);
        // f = sigma(x)^2  =>  f'' = 2 s^2 (1-s)(2-3s).
        let s = 1.0 / (1.0 + (-a.to_vec().f32s()[i]).exp());
        let analytic_second = 2.0 * s * s * (1.0 - s) * (2.0 - 3.0 * s);
        assert!(
            (second_numeric - analytic_second).abs() < 1e-2,
            "second-order mismatch at {i}: {second_numeric} vs {analytic_second}"
        );
    }
}

#[test]
fn no_grad_records_detached_and_enable_grad_reenters() {
    let mut g = G::new();
    let x = tensor(&mut g, &[2], vec![3.0, -1.0]);

    // Outside: ops record; inside no_grad: detached leaves.
    let outside = ops::mul(&mut g, x, x).unwrap();
    assert!(outside.requires_grad(&g));

    let inside = no_grad(&mut g, |g| ops::mul(g, x, x).unwrap());
    assert!(!inside.requires_grad(&g));
    assert_eq!(inside.op_name(&g), None); // recorded as a leaf
    assert_eq!(values(&g, inside), values(&g, outside));

    // Backward cannot flow through the detached branch...
    let sq = ops::mul(&mut g, inside, inside).unwrap();
    let loss = sum0(&mut g, sq).unwrap();
    assert!(backward(&mut g, loss, None).is_err());
    assert!(x.grad(&g).is_none());

    // ...but the recorded branch still works after the scope.
    let sq2 = ops::mul(&mut g, outside, outside).unwrap();
    let loss2 = sum0(&mut g, sq2).unwrap();
    backward(&mut g, loss2, None).unwrap();
    // d/dx Σ(x²)² = 4x·x²  (x = [3, -1] → outside = [9, 1])
    assert_eq!(grads(&g, x), vec![108.0, -4.0]);

    // enable_grad re-enters inside no_grad (torch parity).
    let reentered = no_grad(&mut g, |g| {
        let r = enable_grad(g, |g| ops::mul(g, x, x).unwrap());
        assert!(
            !is_grad_enabled(g),
            "inner scope must close before the outer"
        );
        r
    });
    assert!(reentered.requires_grad(&g));

    // enable_grad is the identity when already on.
    assert!(enable_grad(&mut g, |g| is_grad_enabled(g)));
    assert!(is_grad_enabled(&g));
}

#[test]
fn retain_graph_allows_repeated_backward_with_accumulation() {
    let mut g = G::new();
    let x = tensor(&mut g, &[2], vec![3.0, -1.0]);
    let y = ops::mul(&mut g, x, x).unwrap();
    let loss = sum0(&mut g, y).unwrap();

    // First pass retains; second pass accumulates; third frees.
    backward_ext(&mut g, loss, None, true).unwrap();
    assert_eq!(grads(&g, x), vec![6.0, -2.0]);

    backward_ext(&mut g, loss, None, true).unwrap();
    assert_eq!(grads(&g, x), vec![12.0, -4.0]);

    backward_ext(&mut g, loss, None, false).unwrap();
    assert_eq!(grads(&g, x), vec![18.0, -6.0]);

    // Graph is freed now: another pass errors instead of silently doing
    // nothing, and leaves .grad untouched.
    assert!(backward(&mut g, loss, None).is_err());
    assert_eq!(grads(&g, x), vec![18.0, -6.0]);
}

#[test]
fn default_backward_consumes_the_graph() {
    let mut g = G::new();
    let x = tensor(&mut g, &[2], vec![1.0, 2.0]);
    let sq = ops::mul(&mut g, x, x).unwrap();
    let loss = sum0(&mut g, sq).unwrap();
    backward(&mut g, loss, None).unwrap();
    assert_eq!(grads(&g, x), vec![2.0, 4.0]);
    let err = backward(&mut g, loss, None).unwrap_err();
    assert!(err.to_string().contains("retain_graph"), "{}", err.to_string());
}

#[test]
fn no_grad_results_bridge_back_into_graded_code() {
    // Inference output (detached) used as a constant in a later training
    // step: the constant must not receive gradients.
    let mut g = G::new();
    let w = tensor(&mut g, &[2, 2], vec![1.0, 2.0, 3.0, 4.0]);
    let frozen = no_grad(&mut g, |g| ops::matmul(g, w, w).unwrap());
    assert!(!frozen.requires_grad(&g));

    let x = tensor(&mut g, &[2, 2], vec![0.5; 4]);
    let out = ops::matmul(&mut g, x, frozen).unwrap();
    let loss = sum0(&mut g, out).unwrap();
    let loss = sum0(&mut g, loss).unwrap();
    backward(&mut g, loss, None).unwrap();
    assert!(x.grad(&g).is_some());
    assert!(w.grad(&g).is_none(), "frozen subgraph gets no gradient");
}

#[test]
fn bmm_gradcheck_both_operands() {
    let a = from_vec(&[2, 3, 4], rng_vec(24, 22)).unwrap();
    let b = from_vec(&[2, 4, 2], rng_vec(16, 23)).unwrap();
    // Grad w.r.t. a with b constant...
    let run_a = |g: &mut G, x: Var| -> OxitorchResult<Var> {
        let b = Var::leaf(g, b.clone(), false);
        let y = ops::bmm(g, x, b)?;
        let r = sum0(g, y)?;
        let r = sum0(g, r)?;
        sum0(g, r)
    };
    assert!(scalar_agrees(&a, run_a, 1e-3));
    // ...and w.r.t. b with a constant.
    let run_b = |g: &mut G, y: Var| -> OxitorchResult<Var> {
        let a = Var::leaf(g, a.clone(), false);
        let z = ops::bmm(g, a, y)?;
        let r = sum0(g, z)?;
        let r = sum0(g, r)?;
        sum0(g, r)
    };
    assert!(scalar_agrees(&b, run_b, 1e-3));
}

#[test]
fn bmm_grads_match_closed_form() {
    // dL/dA = g @ B^T, dL/dB = A^T @ g per batch — check exactly.
    let mut g = G::new();
    let a = tensor(&mut g, &[2, 2, 2], vec![1.0, 2.0, 3.0, 4.0, 5.0, 6.0, 7.0, 8.0]);
    let b = tensor(
        &mut g,
        &[2, 2, 2],
        vec![9.0, 10.0, 11.0, 12.0, 13.0, 14.0, 15.0, 16.0],
    );
    let seed = constant(
        &mut g,
        &[2, 2, 2],
        vec![1.0, 0.0, 0.0, 1.0, 2.0, 0.0, 0.0, 2.0],
    );
    let out = ops::bmm(&mut g, a, b).unwrap();
    let dot = ops::mul(&mut g, out, seed).unwrap();
    let loss = sum0(&mut g, dot).unwrap();
    let loss = sum0(&mut g, loss).unwrap();
    let loss = sum0(&mut g, loss).unwrap();
    backward(&mut g, loss, None).unwrap();

    // batch 0: g = I -> dA = B^T = [[9,11],[10,12]]; dB = A^T = [[1,3],[2,4]]
    // batch 1: g = 2I -> dA = 2 B^T = [[26,30],[28,32]]; dB = 2 A^T = [[10,14],[12,16]]
    assert_eq!(
        grads(&g, a),
        vec![9.0, 11.0, 10.0, 12.0, 26.0, 30.0, 28.0, 32.0]
    );
    assert_eq!(
        grads(&g, b),
        vec![1.0, 3.0, 2.0, 4.0, 10.0, 14.0, 12.0, 16.0]
    );
}

#[test]
fn bmm_respects_grad_mode() {
    let mut g = G::new();
    let a = tensor(&mut g, &[1, 2, 2], vec![1.0, 2.0, 3.0, 4.0]);
    let b = tensor(&mut g, &[1, 2, 2], vec![1.0, 0.0, 0.0, 1.0]);
    let detached = no_grad(&mut g, |g| ops::bmm(g, a, b).unwrap());
    assert!(!detached.requires_grad(&g));
    assert_eq!(detached.op_name(&g), None);
    let recorded = ops::bmm(&mut g, a, b).unwrap();
    assert!(recorded.requires_grad(&g));
    assert_eq!(recorded.op_name(&g), Some("bmm"));
}

/// The squared error of a line fit.
fn fit_loss(g: &mut G, x: Var, y: Var, params: &[Var]) -> Var {
    let pred = ops::matmul(g, x, params[0]).unwrap();
    let pred = ops::add(g, pred, params[1]).unwrap();
    let diff = ops::sub(g, pred, y).unwrap();
    let sq = ops::mul(g, diff, diff).unwrap();
    sum0(g, sq).unwrap()
}

#[test]
fn sgd_trains_linear_regression() {
    // y = 2x + 1 on 8 points; SGD must drive loss toward 0.
    let xs: Vec<f32> = (0..8).map(|i| i as f32 * 0.5 - 1.5).collect();
    let ys: Vec<f32> = xs.iter().map(|&x| 2.0 * x + 1.0).collect();
    let mut g = G::new();
    let x = constant(&mut g, &[8, 1], xs);
    let y = constant(&mut g, &[8, 1], ys);
    let mut params = vec![
        tensor(&mut g, &[1, 1], vec![0.5]), // w
        tensor(&mut g, &[1], vec![0.0]),    // b
    ];
    let mut opt = Sgd::new(F32(0.05), F32(0.0), false);

    let mut first_loss = f32::INFINITY;
    for step in 0..200 {
        let loss = fit_loss(&mut g, x, y, &params);
        if step == 0 {
            first_loss = values(&g, loss)[0];
        }
        backward(&mut g, loss, None).unwrap();
        opt.step(&mut g, &mut params).unwrap();
    }
    let loss = fit_loss(&mut g, x, y, &params);
    let final_loss = values(&g, loss)[0];
    assert!(
        final_loss < first_loss * 1e-4,
        "loss did not converge: {first_loss} -> {final_loss}"
    );
    // w ≈ 2, b ≈ 1
    let wv = values(&g, params[0])[0];
    let bv = values(&g, params[1])[0];
    assert!((wv - 2.0).abs() < 0.05, "w = {wv}");
    assert!((bv - 1.0).abs() < 0.05, "b = {bv}");
}

// ---- optimizers -------------------------------------------------------------

/// One-parameter step entry for the helper below.
trait OptimStep {
    fn step_param(&mut self, g: &mut G, index: usize, param: &mut Var) -> OxitorchResult<()>;
}
impl OptimStep for Sgd<F32> {
    fn step_param(&mut self, g: &mut G, index: usize, param: &mut Var) -> OxitorchResult<()> {
        Sgd::step_param(self, g, index, param)
    }
}
impl OptimStep for AdamW<F32> {
    fn step_param(&mut self, g: &mut G, index: usize, param: &mut Var) -> OxitorchResult<()> {
        AdamW::step_param(self, g, index, param)
    }
}

/// A scalar leaf trained against a fixed gradient, returning its value
/// after `step_param`.
fn step_scalar(opt: &mut impl OptimStep, index: usize, start: f32, grad: f32) -> f32 {
    let mut g = G::new();
    let mut param = tensor(&mut g, &[1], vec![start]);
    param
        .accumulate_grad(&mut g, from_vec(&[1], vec![grad]).unwrap())
        .unwrap();
    opt.step_param(&mut g, index, &mut param).unwrap();
    values(&g, param)[0]
}

/// A leaf with a gradient.
fn with_gradient(g: &mut G, data: Vec<f32>, grad: Vec<f32>) -> Var {
    let n = data.len() as i64;
    let v = tensor(g, &[n], data);
    v.accumulate_grad(g, from_vec(&[n], grad).unwrap()).unwrap();
    v
}

#[test]
fn sgd_momentum_matches_reference() {
    let mut opt = Sgd::new(F32(0.1), F32(0.9), false);
    // val=1, three steps of constant grad 0.5, lr 0.1, momentum 0.9:
    // buf = [0.5, 0.95, 1.355]; val decreases by lr*buf each step.
    let want = [1.0 - 0.05, 0.95 - 0.095, 0.855 - 0.1355];
    let mut val = 1.0;
    for &expected in &want {
        val = step_scalar(&mut opt, 0, val, 0.5);
        assert!((val - expected).abs() < 1e-6, "{val} vs {expected}");
    }
}

#[test]
fn sgd_nesterov_uses_lookahead() {
    let mut opt = Sgd::new(F32(0.1), F32(0.9), true);
    // Step 1: buf=0.5, update = g + 0.9*buf = 0.5 + 0.45 = 0.95.
    let val = step_scalar(&mut opt, 0, 1.0, 0.5);
    assert!((val - (1.0 - 0.1 * 0.95)).abs() < 1e-6);
}

#[test]
fn sgd_skipped_param_keeps_velocity() {
    let mut opt = Sgd::new(F32(0.1), F32(0.9), false);
    let mut g = G::new();
    let first = with_gradient(&mut g, vec![1.0], vec![0.5]);
    let second = tensor(&mut g, &[1], vec![1.0]);
    let mut params = vec![first, second];
    opt.step(&mut g, &mut params).unwrap(); // second has no grad yet

    // Next step: second's velocity initializes fresh (no stale momentum).
    let first_next = with_gradient(&mut g, vec![0.95], vec![0.5]);
    let second_next = with_gradient(&mut g, vec![1.0], vec![0.5]);
    let mut params = vec![first_next, second_next];
    opt.step(&mut g, &mut params).unwrap();
    // second: buf = 0.5 (fresh), val = 1 - 0.05.
    assert!((values(&g, params[1])[0] - 0.95).abs() < 1e-6);
    // first: buf = 0.9*0.5 + 0.5 = 0.95, val = 0.95 - 0.095.
    assert!((values(&g, params[0])[0] - (0.95 - 0.095)).abs() < 1e-6);
}

#[test]
fn adamw_two_steps_match_closed_form() {
    let mut opt = AdamW::new(F32(0.1), F32(0.9), F32(0.999), F32(1e-8), F32(0.1), true);
    let (lr, b1, b2, eps, wd, grad) = (0.1f64, 0.9f64, 0.999f64, 1e-8, 0.1, 0.5f64);
    let (mut val, mut moment, mut vel) = (1.0f64, 0.0, 0.0);
    for step in 1..=2 {
        moment = b1 * moment + (1.0 - b1) * grad;
        vel = b2 * vel + (1.0 - b2) * grad * grad;
        let m_hat = moment / (1.0 - b1.powi(step));
        let v_hat = vel / (1.0 - b2.powi(step));
        let want = val - lr * m_hat / (v_hat.sqrt() + eps) - lr * wd * val;
        let got = step_scalar(&mut opt, 0, val as f32, grad as f32);
        assert!(
            (f64::from(got) - want).abs() < 1e-5,
            "step {step}: engine {got} vs closed form {want}"
        );
        val = want;
    }
}

#[test]
fn adam_classic_decay_folds_into_gradient() {
    // decoupled=false: g_eff = g + wd*w feeds the moments; no param term.
    let mut opt = AdamW::new(F32(0.1), F32(0.9), F32(0.999), F32(1e-8), F32(0.1), false);
    let start = 1.0f32;
    let grad = 0.5f32;
    let wd = 0.1f32;
    let g_eff = grad + wd * start;
    let moment = (1.0 - 0.9) * g_eff;
    let vel = (1.0 - 0.999) * g_eff * g_eff;
    let m_hat = moment / (1.0 - 0.9);
    let v_hat = vel / (1.0 - 0.999);
    let want = start - 0.1 * m_hat / (v_hat.sqrt() + 1e-8);
    let got = step_scalar(&mut opt, 0, start, grad);
    assert!((got - want).abs() < 1e-5, "{got} vs {want}");
}

#[test]
fn per_param_step_counters_track_skips() {
    // Torch semantics: a parameter that skips a step does not advance its
    // own bias-correction counter.
    let mut opt = AdamW::new(F32(0.1), F32(0.9), F32(0.999), F32(1e-8), F32(0.0), true);
    let mut g = G::new();
    let first = with_gradient(&mut g, vec![1.0], vec![0.5]);
    let second = tensor(&mut g, &[1], vec![1.0]);
    let mut params = vec![first, second];
    opt.step(&mut g, &mut params).unwrap(); // second skipped

    // second's first real step must use t=1 (bc = 0.1), not t=2.
    let second_next = with_gradient(&mut g, vec![1.0], vec![0.5]);
    let first_again = tensor(&mut g, &[1], vec![1.0]);
    let mut params = vec![first_again, second_next];
    opt.step(&mut g, &mut params).unwrap();
    let grad = 0.5f64;
    let moment = 0.1 * grad;
    let vel = 0.001 * grad * grad;
    let want = 1.0 - 0.1 * (moment / 0.1) / ((vel / 0.001).sqrt() + 1e-8);
    let got = values(&g, params[1])[0];
    assert!((f64::from(got) - want).abs() < 1e-5, "{got} vs {want}");
}

#[test]
fn optimizer_trains_linear_regression_end_to_end() {
    // AdamW over the classic linear fit — the full engine path
    // (forward → backward → step) with a two-parameter model.
    let inputs: Vec<f32> = (0..8).map(|idx| idx as f32 * 0.5 - 1.5).collect();
    let targets: Vec<f32> = inputs.iter().map(|&xv| 2.0 * xv + 1.0).collect();
    let mut g = G::new();
    let x = constant(&mut g, &[8, 1], inputs);
    let y = constant(&mut g, &[8, 1], targets);
    let mut params = vec![
        tensor(&mut g, &[1, 1], vec![0.5]),
        tensor(&mut g, &[1], vec![0.0]),
    ];
    let mut opt = AdamW::new(F32(0.05), F32(0.9), F32(0.999), F32(1e-8), F32(0.0), true);
    for _ in 0..200 {
        let loss = fit_loss(&mut g, x, y, &params);
        backward(&mut g, loss, None).unwrap();
        opt.step(&mut g, &mut params).unwrap();
    }
    let weight = values(&g, params[0])[0];
    let bias = values(&g, params[1])[0];
    assert!((weight - 2.0).abs() < 0.05, "w = {weight}");
    assert!((bias - 1.0).abs() < 0.05, "b = {bias}");
}

#[test]
fn state_mismatch_is_an_error() {
    let mut opt = Sgd::new(F32(0.1), F32(0.9), false);
    let mut g = G::new();
    let first = with_gradient(&mut g, vec![1.0, 2.0], vec![0.5, 0.5]);
    let mut params = vec![first];
    opt.step(&mut g, &mut params).unwrap();
    // Same index, different element count: state no longer fits.
    let reshaped = with_gradient(&mut g, vec![1.0, 2.0, 3.0], vec![0.5, 0.5, 0.5]);
    let mut params = vec![reshaped];
    let err = opt.step(&mut g, &mut params).err().unwrap();
    assert_eq!(
        err.to_string(),
        "invalid argument: optimizer state for parameter 0 has 2 elements but the parameter now has 3; the parameter set changed mid-run"
    );
}

// ---- the graph --------------------------------------------------------------

#[test]
fn nodes_show_their_op_and_shape() {
    let mut g = G::new();
    let x = tensor(&mut g, &[2, 3], vec![1.0; 6]);
    let y = ops::neg(&mut g, x).unwrap();
    assert_eq!(x.to_string(&g), "Var(leaf, shape=[2, 3])");
    assert_eq!(y.to_string(&g), "Var(neg, shape=[2, 3])");
    assert_eq!(y.op_name(&g), Some("neg"));
    assert_eq!(y.detach(&g).to_vec().f32s(), [-1.0; 6]);
    assert_eq!(g.len(), 2);
    assert!(g.holds(y));
    g.rewind(1);
    assert!(g.holds(x) && !g.holds(y));
}

#[test]
fn guards_bring_the_previous_mode_back() {
    let mut g = G::new();
    let mut outer = GradGuard::pause(&mut g);
    assert!(!is_grad_enabled(outer.graph()));
    let mut inner = GradGuard::force(outer.graph());
    assert!(is_grad_enabled(inner.graph()));
    inner.restore();
    assert!(!is_grad_enabled(outer.graph()));
    outer.restore();
    assert!(is_grad_enabled(&g));
    // A guard that goes out of scope restores too.
    {
        let mut guard = GradGuard::pause(&mut g);
        let x = tensor(guard.graph(), &[1], vec![2.0]);
        let y = ops::mul(guard.graph(), x, x).unwrap();
        assert!(!y.requires_grad(guard.graph()));
    }
    assert!(is_grad_enabled(&g));
    assert!(set_grad_enabled(&mut g, false));
    assert!(!set_grad_enabled(&mut g, true));
}

/// Runs `f` on a graph in mode `on` until it panics, on a pool whose handler
/// takes the panic, and returns the mode that the graph is left in.
fn mode_after_panic<F: FnOnce(&mut G) + Send + 'static>(on: bool, f: F) -> bool {
    let mut g = G::new();
    let _ = set_grad_enabled(&mut g, on);
    let shared = Arc::new(Mutex::new(g));
    let (sender, unwound) = mpsc::channel();
    let sender = Mutex::new(sender);
    let pool = rayon::ThreadPoolBuilder::new()
        .num_threads(1)
        .panic_handler(move |payload| {
            let message = payload.downcast_ref::<&str>().copied();
            sender.lock().unwrap().send(message).unwrap();
        })
        .build()
        .unwrap();
    let on_pool = Arc::clone(&shared);
    pool.spawn(move || {
        let mut g = on_pool.lock().unwrap();
        f(&mut g);
    });
    assert_eq!(unwound.recv().unwrap(), Some("scope unwinds"));
    let g = shared.lock().unwrap_or_else(|poisoned| poisoned.into_inner());
    is_grad_enabled(&g)
}

#[test]
fn grad_guard_restores_mode_even_on_panic() {
    let restored = mode_after_panic(true, |g| {
        let mut guard = GradGuard::pause(g);
        assert!(!is_grad_enabled(guard.graph()));
        panic!("scope unwinds");
    });
    assert!(restored, "guard must restore mode on unwind");

    // And the forced variant.
    let restored = mode_after_panic(false, |g| {
        let mut guard = GradGuard::force(g);
        assert!(is_grad_enabled(guard.graph()));
        panic!("scope unwinds");
    });
    assert!(!restored);
}

#[test]
fn scopes_restore_the_mode_on_unwinding() {
    assert!(mode_after_panic(true, |g| no_grad(g, |g| {
        assert!(!is_grad_enabled(g));
        panic!("scope unwinds");
    })));
    assert!(!mode_after_panic(false, |g| enable_grad(g, |g| {
        assert!(is_grad_enabled(g));
        panic!("scope unwinds");
    })));
}

#[test]
fn gradients_can_be_set_and_zeroed() {
    let mut g = G::new();
    let x = tensor(&mut g, &[2], vec![1.0, 2.0]);
    x.set_grad(&mut g, from_vec(&[2], vec![3.0, 4.0]).unwrap()).unwrap();
    assert_eq!(grads(&g, x), [3.0, 4.0]);
    let err = x.set_grad(&mut g, from_vec(&[1], vec![3.0]).unwrap()).unwrap_err();
    assert_eq!(err.to_string(), "shape mismatch: [1] vs [2]");
    x.zero_grad(&mut g).unwrap();
    assert_eq!(grads(&g, x), [0.0, 0.0]);
}

#[test]
fn a_pass_touches_only_what_leads_to_its_root() {
    let mut g = G::new();
    let x = tensor(&mut g, &[1], vec![2.0]);
    let other = tensor(&mut g, &[1], vec![5.0]);
    let frozen = constant(&mut g, &[1], vec![3.0]);
    let y = ops::mul(&mut g, x, frozen).unwrap();
    let apart = ops::mul(&mut g, other, x).unwrap();
    backward(&mut g, y, None).unwrap();
    assert_eq!(grads(&g, x), [3.0]);
    assert!(other.grad(&g).is_none());
    assert!(frozen.grad(&g).is_none());
    assert!(apart.grad(&g).is_none());
}

#[test]
fn leaf_gradients_add_up_and_op_gradients_do_not() {
    let mut g = G::new();
    let x = tensor(&mut g, &[1], vec![2.0]);
    let y = ops::mul(&mut g, x, x).unwrap();
    backward_ext(&mut g, y, None, true).unwrap();
    assert_eq!(grads(&g, y), [1.0]);
    backward_ext(&mut g, y, None, true).unwrap();
    assert_eq!(grads(&g, y), [1.0]);
    assert_eq!(grads(&g, x), [8.0]);
}

#[test]
fn backward_errors_say_what_is_wrong() {
    let mut g = G::new();
    let x = tensor(&mut g, &[2], vec![1.0, 2.0]);
    let c = constant(&mut g, &[1], vec![1.0]);
    assert_eq!(
        backward(&mut g, c, None).unwrap_err().to_string(),
        "invalid argument: element 0 of tensors does not require grad and does not have a grad_fn"
    );
    assert_eq!(
        backward(&mut g, x, None).unwrap_err().to_string(),
        "invalid argument: grad can be implicitly created only for scalar outputs; pass a seed tensor"
    );
    oxitorch::autograd::backward_with_grad(
        &mut g,
        x,
        from_vec(&[2], vec![5.0, 6.0]).unwrap(),
    )
    .unwrap();
    assert_eq!(grads(&g, x), [5.0, 6.0]);
    let p = oxitorch::autograd::param(&mut g, from_vec(&[1], vec![3.0]).unwrap());
    let q = ops::mul(&mut g, p, p).unwrap();
    oxitorch::autograd::backward(&mut g, q).unwrap();
    assert_eq!(grads(&g, p), [6.0]);
    assert_eq!(oxitorch::autograd::engine_version(), "0.1.0");
}

#[test]
fn nodes_come_after_their_inputs() {
    let mut g = G::new();
    let x = tensor(&mut g, &[1], vec![2.0]);
    let mut y = x;
    // A long chain: the walk does not recurse.
    for _ in 0..20_000 {
        y = ops::neg(&mut g, y).unwrap();
    }
    backward(&mut g, y, None).unwrap();
    assert_eq!(grads(&g, x), [1.0]);
}

// ---- users' own rules -------------------------------------------------------

/// A rule that doubles the gradient, beside the built-in ones.
enum Rule {
    Builtin(OpGrad<F32>),
    Twice,
}

impl VjpRule<F32> for Rule {
    fn vjp(&self, upstream: &Tensor<F32>) -> OxitorchResult<Vec<Tensor<F32>>> {
        match self {
            Rule::Builtin(rule) => rule.vjp(upstream),
            Rule::Twice => Ok(vec![upstream.mul_scalar(F32(2.0))?]),
        }
    }
    fn from_builtin(rule: OpGrad<F32>) -> Self {
        Rule::Builtin(rule)
    }
}

#[test]
fn users_record_ops_with_rules_of_their_own() {
    let mut g: Graph<F32, Rule> = Graph::new();
    let x = Var::leaf(&mut g, from_vec(&[1], vec![3.0]).unwrap(), true);
    let value = x.value(&g).mul_scalar(F32(2.0)).unwrap();
    let y = Var::op(&mut g, value, "twice", &[x], Rule::Twice);
    let z = ops::mul(&mut g, y, y).unwrap();
    backward(&mut g, z, None).unwrap();
    // z = 4 x^2
    assert_eq!(x.grad(&g).unwrap().to_vec().f32s(), [24.0]);
}

// ---- rules ------------------------------------------------------------------

#[test]
fn broadcast_operands_get_summed_gradients() {
    let t = from_vec(&[2, 3], vec![1.0, 2.0, 3.0, 4.0, 5.0, 6.0]).unwrap();
    assert_eq!(
        unbroadcast(&t, &[3]).unwrap().to_vec().f32s(),
        [5.0, 7.0, 9.0]
    );
    assert_eq!(unbroadcast(&t, &[2, 1]).unwrap().to_vec().f32s(), [6.0, 15.0]);
    assert_eq!(unbroadcast(&t, &[]).unwrap().to_vec().f32s(), [21.0]);
    assert_eq!(unbroadcast(&t, &[2, 3]).unwrap().to_vec(), t.to_vec());
    assert!(unbroadcast(&t, &[2]).is_err());
    // A leading dim and an inner dim at once.
    let c = from_vec(&[2, 2, 3], (0..12).map(|i| i as f32).collect()).unwrap();
    assert_eq!(unbroadcast(&c, &[2, 1]).unwrap().to_vec().f32s(), [24.0, 42.0]);
}

#[test]
fn winners_get_the_whole_gradient() {
    let mut g = G::new();
    let x = tensor(&mut g, &[2, 3], vec![1.0, 9.0, 9.0, 7.0, 2.0, 5.0]);
    let top = ops::reduce(&mut g, x, ReduceKind::Max, 1, false).unwrap();
    let seed = constant(&mut g, &[2], vec![10.0, 20.0]);
    let dot = ops::mul(&mut g, top, seed).unwrap();
    let loss = sum0(&mut g, dot).unwrap();
    backward(&mut g, loss, None).unwrap();
    // The first of two equal winners gets it.
    assert_eq!(grads(&g, x), [0.0, 10.0, 0.0, 20.0, 0.0, 0.0]);
    assert!(ops::reduce(&mut g, x, ReduceKind::ArgMax, 1, false).is_err());
}

#[test]
fn slopes_at_chosen_points() {
    let mut g = G::new();
    let x = tensor(&mut g, &[3], vec![-2.0, 0.0, 3.0]);
    let relu = ops::relu(&mut g, x).unwrap();
    let loss = sum0(&mut g, relu).unwrap();
    backward(&mut g, loss, None).unwrap();
    assert_eq!(grads(&g, x), [0.0, 0.0, 1.0]);
    let y = tensor(&mut g, &[2], vec![-2.0, 3.0]);
    let abs = ops::abs(&mut g, y).unwrap();
    assert_eq!(values(&g, abs), [2.0, 3.0]);
    let scaled = ops::mul_scalar(&mut g, abs, F32(4.0)).unwrap();
    let loss = sum0(&mut g, scaled).unwrap();
    backward(&mut g, loss, None).unwrap();
    assert_eq!(grads(&g, y), [-4.0, 4.0]);
}

#[test]
fn narrow_pads_gradients_with_zeros_at_any_rank() {
    let mut g = G::new();
    let x = tensor(&mut g, &[3, 1, 2], vec![1.0; 6]);
    let rows = ops::narrow_dim0(&mut g, x, 1, 1).unwrap();
    let mut loss = rows;
    for _ in 0..3 {
        loss = sum0(&mut g, loss).unwrap();
    }
    backward(&mut g, loss, None).unwrap();
    assert_eq!(grads(&g, x), [0.0, 0.0, 1.0, 1.0, 0.0, 0.0]);
}

#[test]
fn permute_takes_dims_from_the_end() {
    let mut g = G::new();
    let x = tensor(&mut g, &[2, 3], (0..6).map(|i| i as f32).collect());
    let p = ops::permute(&mut g, x, &[-1, -2]).unwrap();
    let w = constant(&mut g, &[3, 2], (0..6).map(|i| i as f32).collect());
    let dot = ops::mul(&mut g, p, w).unwrap();
    let loss = sum0(&mut g, dot).unwrap();
    let loss = sum0(&mut g, loss).unwrap();
    backward(&mut g, loss, None).unwrap();
    assert_eq!(grads(&g, x), [0.0, 2.0, 4.0, 1.0, 3.0, 5.0]);
}

// ---- checks and optimizers --------------------------------------------------

#[test]
fn a_check_rejects_a_wrong_gradient() {
    let mut g: Graph<F32, Rule> = Graph::new();
    let input = from_vec(&[1], vec![3.0]).unwrap();
    // The value is three times the input, the rule says twice.
    let off = |mut g: Graph<F32, Rule>, x: Var| {
        let value = x.value(&g).mul_scalar(F32(3.0)).unwrap();
        let y = Var::op(&mut g, value, "wrong", &[x], Rule::Twice);
        (g, Ok(y))
    };
    assert!(!check_scalar(&mut g, &input, off, F32(1e-3)).unwrap());
    // An output that is no scalar does not agree either.
    let wide = |mut g: Graph<F32, Rule>, x: Var| {
        let r = ops::broadcast_to(&mut g, x, &[2]);
        (g, r)
    };
    assert!(!check_scalar(&mut g, &input, wide, F32(1e-3)).unwrap());
    // Errors of the function come out.
    let fails = |mut g: Graph<F32, Rule>, x: Var| {
        let r = ops::transpose(&mut g, x);
        (g, r)
    };
    assert!(check_scalar(&mut g, &input, fails, F32(1e-3)).is_err());
    assert_eq!(g.len(), 0);
}

#[test]
fn optimizers_keep_state_per_parameter() {
    let mut sgd = Sgd::new(F32(0.1), F32(0.5), false);
    // Parameter 1 moves on its own velocity, whatever happened to 0.
    step_scalar(&mut sgd, 0, 1.0, 4.0);
    let alone = step_scalar(&mut sgd, 1, 1.0, 1.0);
    assert!((alone - 0.9).abs() < 1e-6);
    let again = step_scalar(&mut sgd, 1, 1.0, 1.0);
    assert!((again - 0.85).abs() < 1e-6);

    let mut adam = AdamW::new(F32(0.1), F32(0.9), F32(0.999), F32(1e-8), F32(0.0), true);
    step_scalar(&mut adam, 0, 1.0, 4.0);
    let first = step_scalar(&mut adam, 1, 1.0, 0.5);
    // The first corrected step is one learning rate.
    assert!((first - 0.9).abs() < 1e-5);
}

#[test]
fn learning_rates_can_change() {
    let mut sgd = Sgd::new(F32(0.1), F32(0.0), false);
    assert_eq!(sgd.lr(), F32(0.1));
    sgd.set_lr(F32(0.5));
    assert_eq!(sgd.lr(), F32(0.5));
    assert_eq!(step_scalar(&mut sgd, 0, 1.0, 1.0), 0.5);
    let mut adam = AdamW::new(F32(0.1), F32(0.9), F32(0.999), F32(1e-8), F32(0.0), true);
    adam.set_lr(F32(0.2));
    assert_eq!(adam.lr(), F32(0.2));
}

#[test]
fn optimizers_zero_gradients() {
    let mut g = G::new();
    let a = with_gradient(&mut g, vec![1.0], vec![2.0]);
    let b = with_gradient(&mut g, vec![1.0, 2.0], vec![2.0, 3.0]);
    let sgd: Sgd<F32> = Sgd::new(F32(0.1), F32(0.0), false);
    sgd.zero_grad(&mut g, &[a, b]);
    assert_eq!(grads(&g, a), [0.0]);
    assert_eq!(grads(&g, b), [0.0, 0.0]);
}

// ---- layers, files and bare optimizers --------------------------------------

#[test]
fn linear_stub_reports_not_implemented() {
    let x: Tensor<F32> = Tensor::zeros(&[1, 1]).unwrap();
    let w: Tensor<F32> = Tensor::zeros(&[1, 1]).unwrap();
    let err = linear(&x, &w, None).err().unwrap();
    assert!(matches!(err, OxitorchError::NotImplemented(_)));
}

#[test]
fn save_stub_reports_not_implemented() {
    let t: Tensor<F32> = Tensor::zeros(&[1]).unwrap();
    let err = save_safetensors(&[("w".into(), t)], "out.safetensors").unwrap_err();
    assert!(matches!(err, OxitorchError::NotImplemented(_)));
}

#[test]
fn sgd_stub_reports_not_implemented() {
    let mut p: Tensor<F32> = Tensor::zeros(&[1]).unwrap();
    let g: Tensor<F32> = Tensor::zeros(&[1]).unwrap();
    let err = sgd_step(&mut p, &g, F32(0.1)).unwrap_err();
    assert!(matches!(err, OxitorchError::NotImplemented(_)));
}

#[test]
fn sweeping_keeps_what_the_handles_need() {
    let mut g = G::new();
    let gone = tensor(&mut g, &[1], vec![9.0]);
    let x = tensor(&mut g, &[1], vec![3.0]);
    let unused = ops::mul(&mut g, gone, x).unwrap();
    let y = ops::mul(&mut g, x, x).unwrap();
    assert!(g.holds(unused));
    let mut roots = vec![y, x, y];
    g.sweep(&mut roots);
    assert_eq!(g.len(), 2);
    let (y, x) = (roots[0], roots[1]);
    assert_eq!(roots[2], y);
    assert_eq!(values(&g, y), [9.0]);
    assert_eq!(y.op_name(&g), Some("mul"));
    backward(&mut g, y, None).unwrap();
    assert_eq!(grads(&g, x), [6.0]);
    // With no handles left, nothing is needed.
    g.sweep(&mut Vec::new());
    assert_eq!(g.len(), 0);
}

#[test]
fn swept_training_runs_stay_small() {
    let xs: Vec<f32> = (0..8).map(|i| i as f32 * 0.5 - 1.5).collect();
    let ys: Vec<f32> = xs.iter().map(|&x| 2.0 * x + 1.0).collect();
    let mut g = G::new();
    let mut data = vec![
        constant(&mut g, &[8, 1], xs),
        constant(&mut g, &[8, 1], ys),
        tensor(&mut g, &[1, 1], vec![0.5]),
        tensor(&mut g, &[1], vec![0.0]),
    ];
    let mut opt = Sgd::new(F32(0.05), F32(0.0), false);
    for _ in 0..200 {
        let mut params = vec![data[2], data[3]];
        let loss = fit_loss(&mut g, data[0], data[1], &params);
        backward(&mut g, loss, None).unwrap();
        opt.step(&mut g, &mut params).unwrap();
        data[2] = params[0];
        data[3] = params[1];
        g.sweep(&mut data);
        assert_eq!(g.len(), 4);
    }
    assert!((values(&g, data[2])[0] - 2.0).abs() < 0.05);
    assert!((values(&g, data[3])[0] - 1.0).abs() < 0.05);
}

#[test]
fn gradients_have_the_shapes_of_their_nodes() {
    let mut g = G::new();
    let a = tensor(&mut g, &[2, 1, 3], vec![1.0; 6]);
    let b = tensor(&mut g, &[4, 1], vec![2.0; 4]);
    let c = tensor(&mut g, &[], vec![3.0]);
    let ab = ops::mul(&mut g, a, b).unwrap();
    let abc = ops::div(&mut g, ab, c).unwrap();
    let mut loss = abc;
    for _ in 0..3 {
        loss = sum0(&mut g, loss).unwrap();
    }
    backward(&mut g, loss, None).unwrap();
    for v in [a, b, c, ab, abc, loss] {
        assert_eq!(v.grad(&g).unwrap().shape(), v.value(&g).shape());
    }
    assert_eq!(grads(&g, b), [2.0; 4]);
}
