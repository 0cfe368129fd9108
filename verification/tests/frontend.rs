//! The operations behind a scripting frontend.

use oxitorch::autograd::graph::pass::backward;
use oxitorch::autograd::graph::{Graph, Var};
use oxitorch::autograd::rules::OpGrad;
use oxitorch::elem::Elem;
use oxitorch::error::{OxitorchError, OxitorchResult};
use oxitorch::frontend::indexing::{
    broadcast_to, contiguous, index_select, masked_select, narrow, permute, reshape, scatter,
    select, subscript, transpose, Subscript,
};
use oxitorch::frontend::methods::{
    apply, apply_detached, compare, item, length, momentum_settings, reduce_all, reduction,
    to_float, winner_positions,
};
use oxitorch::frontend::{
    binary, exception_class, operand_binary, power, rdiv, rsub, Arithmetic, ExceptionClass,
    TensorOrScalar,
};
use oxitorch::ops::ReduceKind;
use oxitorch::tensor::Tensor;

/// 32-bit floats as tensor elements.
#[derive(Debug, Clone, Copy, PartialEq)]
struct F32(f32);

impl Elem for F32 {
    fn zero() -> Self {
        F32(0.0)
    }
    fn one() -> Self {
        F32(1.0)
    }
    fn two() -> Self {
        F32(2.0)
    }
    fn tiny() -> Self {
        F32(1e-12)
    }
    fn difference_step() -> Self {
        F32(1e-2)
    }
    fn half() -> Self {
        F32(0.5)
    }
    fn tau() -> Self {
        F32(std::f32::consts::TAU)
    }
    fn min_positive() -> Self {
        F32(f32::MIN_POSITIVE)
    }
    fn infinity() -> Self {
        F32(f32::INFINITY)
    }
    fn neg_infinity() -> Self {
        F32(f32::NEG_INFINITY)
    }
    fn plus(a: Self, b: Self) -> Self {
        F32(a.0 + b.0)
    }
    fn minus(a: Self, b: Self) -> Self {
        F32(a.0 - b.0)
    }
    fn times(a: Self, b: Self) -> Self {
        F32(a.0 * b.0)
    }
    fn divide(a: Self, b: Self) -> Self {
        F32(a.0 / b.0)
    }
    fn power(a: Self, b: Self) -> Self {
        F32(a.0.powf(b.0))
    }
    fn smaller(a: Self, b: Self) -> Self {
        F32(a.0.min(b.0))
    }
    fn larger(a: Self, b: Self) -> Self {
        F32(a.0.max(b.0))
    }
    fn negate(a: Self) -> Self {
        F32(-a.0)
    }
    fn magnitude(a: Self) -> Self {
        F32(a.0.abs())
    }
    fn sqrt(a: Self) -> Self {
        F32(a.0.sqrt())
    }
    fn exp(a: Self) -> Self {
        F32(a.0.exp())
    }
    fn ln(a: Self) -> Self {
        F32(a.0.ln())
    }
    fn log2(a: Self) -> Self {
        F32(a.0.log2())
    }
    fn log10(a: Self) -> Self {
        F32(a.0.log10())
    }
    fn sin(a: Self) -> Self {
        F32(a.0.sin())
    }
    fn cos(a: Self) -> Self {
        F32(a.0.cos())
    }
    fn tanh(a: Self) -> Self {
        F32(a.0.tanh())
    }
    fn floor(a: Self) -> Self {
        F32(a.0.floor())
    }
    fn ceil(a: Self) -> Self {
        F32(a.0.ceil())
    }
    fn round(a: Self) -> Self {
        F32(a.0.round())
    }
    fn signum(a: Self) -> Self {
        F32(a.0.signum())
    }
    fn equal(a: Self, b: Self) -> bool {
        a.0 == b.0
    }
    fn less(a: Self, b: Self) -> bool {
        a.0 < b.0
    }
    fn less_equal(a: Self, b: Self) -> bool {
        a.0 <= b.0
    }
    fn from_count(n: usize) -> Self {
        F32(n as f32)
    }
    fn to_count(a: Self) -> usize {
        a.0 as usize
    }
    fn from_byte(b: u8) -> Self {
        F32(f32::from(b))
    }
    fn from_53_bits(n: u64) -> Self {
        // Rounding must not reach 1.
        let below_one = 1.0 - f32::EPSILON / 2.0;
        F32(((n as f64 / 9_007_199_254_740_992.0) as f32).min(below_one))
    }
    fn gemm(m: usize, k: usize, n: usize, a: &[Self], b: &[Self]) -> Vec<Self> {
        let mut out = vec![F32(0.0); m * n];
        for i in 0..m {
            for p in 0..k {
                for j in 0..n {
                    out[i * n + j].0 += a[i * k + p].0 * b[p * n + j].0;
                }
            }
        }
        out
    }
    fn shown(a: Self) -> String {
        format!("{}", a.0)
    }
    fn listed(a: Self) -> String {
        format!("{:?}", a.0)
    }
}

/// The plain floats of a run of elements.
trait Floats {
    fn f32s(&self) -> Vec<f32>;
}

impl Floats for [F32] {
    fn f32s(&self) -> Vec<f32> {
        self.iter().map(|x| x.0).collect()
    }
}

/// Plain floats as elements.
fn elems(data: Vec<f32>) -> Vec<F32> {
    data.into_iter().map(F32).collect()
}

/// A tensor of plain floats.
fn from_vec(shape: &[i64], data: Vec<f32>) -> OxitorchResult<Tensor<F32>> {
    Tensor::from_vec(shape, elems(data))
}

type G = Graph<F32, OpGrad<F32>>;

fn leaf(g: &mut G, shape: &[i64], data: Vec<f32>, requires_grad: bool) -> Var {
    Var::leaf(g, from_vec(shape, data).unwrap(), requires_grad)
}

fn counting(n: usize) -> Vec<f32> {
    (0..n).map(|i| i as f32).collect()
}

fn values(g: &G, v: Var) -> Vec<f32> {
    v.value(g).to_vec().f32s()
}

fn grads(g: &G, v: Var) -> Vec<f32> {
    v.grad(g).unwrap().to_vec().f32s()
}

/// The gradient that arrives at `x` when every element of `v` counts by its
/// place.
fn gradient_of(g: &mut G, v: Var, x: Var) -> Vec<f32> {
    let n = v.value(g).numel();
    let shape = v.value(g).shape_i64();
    let seed = from_vec(&shape, (1..=n).map(|i| i as f32).collect()).unwrap();
    backward(g, v, Some(seed)).unwrap();
    grads(g, x)
}

#[test]
fn mapping_covers_every_variant() {
    let cases = [
        (
            OxitorchError::InvalidArgument("x".into()),
            ExceptionClass::ValueError,
        ),
        (
            OxitorchError::ShapeMismatch {
                lhs: "[1]".into(),
                rhs: "[2]".into(),
            },
            ExceptionClass::ValueError,
        ),
        (
            OxitorchError::NotImplemented("x".into()),
            ExceptionClass::NotImplementedError,
        ),
        (
            OxitorchError::OutOfBounds("x".into()),
            ExceptionClass::RuntimeError,
        ),
        (
            OxitorchError::Other("x".into()),
            ExceptionClass::RuntimeError,
        ),
    ];
    for (case, class) in cases {
        assert_eq!(exception_class(&case), class);
        assert!(!case.to_string().is_empty());
    }
}

// ---- arithmetic -------------------------------------------------------------

#[test]
fn numbers_act_as_constant_tensors() {
    let mut g = G::new();
    let x = leaf(&mut g, &[2], vec![2.0, 4.0], true);
    let cases = [
        (Arithmetic::Add, [5.0, 7.0], [1.0, 2.0]),
        (Arithmetic::Sub, [-1.0, 1.0], [1.0, 2.0]),
        (Arithmetic::Mul, [6.0, 12.0], [3.0, 6.0]),
        (Arithmetic::Pow, [8.0, 64.0], [12.0, 96.0]),
    ];
    for (op, want, slope) in cases {
        let y = operand_binary(&mut g, op, x, TensorOrScalar::Scalar(F32(3.0))).unwrap();
        assert_eq!(values(&g, y), want);
        assert!(y.requires_grad(&g));
        x.zero_grad(&mut g).unwrap();
        assert_eq!(gradient_of(&mut g, y, x), slope);
    }
    let y = operand_binary(&mut g, Arithmetic::Div, x, TensorOrScalar::Scalar(F32(2.0))).unwrap();
    assert_eq!(values(&g, y), [1.0, 2.0]);
    let z = operand_binary(&mut g, Arithmetic::Mul, x, TensorOrScalar::Tensor(x)).unwrap();
    assert_eq!(values(&g, z), [4.0, 16.0]);
    let s = binary(&mut g, Arithmetic::Sub, z, x).unwrap();
    assert_eq!(values(&g, s), [2.0, 12.0]);
}

#[test]
fn numbers_on_the_left() {
    let mut g = G::new();
    let x = leaf(&mut g, &[2], vec![2.0, 4.0], true);
    let d = rsub(&mut g, x, TensorOrScalar::Scalar(F32(10.0))).unwrap();
    assert_eq!(values(&g, d), [8.0, 6.0]);
    assert_eq!(gradient_of(&mut g, d, x), [-1.0, -2.0]);
    x.zero_grad(&mut g).unwrap();
    let q = rdiv(&mut g, x, TensorOrScalar::Scalar(F32(8.0))).unwrap();
    assert_eq!(values(&g, q), [4.0, 2.0]);
    // d/dx 8/x = -8/x^2
    assert_eq!(gradient_of(&mut g, q, x), [-2.0, -1.0]);
    let t = leaf(&mut g, &[2], vec![3.0, 5.0], false);
    let d = rsub(&mut g, x, TensorOrScalar::Tensor(t)).unwrap();
    assert_eq!(values(&g, d), [1.0, 1.0]);
    let q = rdiv(&mut g, x, TensorOrScalar::Tensor(t)).unwrap();
    assert_eq!(values(&g, q), [1.5, 1.25]);
}

#[test]
fn powers_stay_connected_only_where_needed() {
    let mut g = G::new();
    let c = leaf(&mut g, &[2], vec![2.0, 3.0], false);
    let p = power(&mut g, c, TensorOrScalar::Scalar(F32(2.0))).unwrap();
    assert_eq!(values(&g, p), [4.0, 9.0]);
    assert_eq!(p.op_name(&g), None);
    let x = leaf(&mut g, &[2], vec![2.0, 3.0], true);
    let p = power(&mut g, x, TensorOrScalar::Scalar(F32(2.0))).unwrap();
    assert_eq!(p.op_name(&g), Some("pow"));
    let p = power(&mut g, x, TensorOrScalar::Tensor(c)).unwrap();
    assert_eq!(values(&g, p), [4.0, 27.0]);
    let wide = leaf(&mut g, &[3], vec![1.0; 3], false);
    assert!(power(&mut g, x, TensorOrScalar::Tensor(wide)).is_err());
}

// ---- comparisons, reductions, named ops -------------------------------------

#[test]
fn comparisons_are_detached() {
    let mut g = G::new();
    let a = leaf(&mut g, &[3], vec![1.0, 2.0, 3.0], true);
    let b = leaf(&mut g, &[3], vec![2.0, 2.0, 2.0], true);
    let c = compare(&mut g, a, "le", b).unwrap();
    assert_eq!(values(&g, c), [1.0, 1.0, 0.0]);
    assert!(!c.requires_grad(&g));
    assert!(compare(&mut g, a, "frob", b).is_err());
}

#[test]
fn full_reductions_give_scalars() {
    let mut g = G::new();
    let x = leaf(&mut g, &[2, 3], counting(6), true);
    let s = reduce_all(&mut g, x, ReduceKind::Sum).unwrap();
    assert_eq!(s.value(&g).ndim(), 0);
    assert_eq!(values(&g, s), [15.0]);
    assert_eq!(gradient_of(&mut g, s, x), [1.0; 6]);
    let m = reduction(&mut g, x, ReduceKind::Mean, None, false).unwrap();
    assert_eq!(values(&g, m), [2.5]);
    assert!(m.requires_grad(&g));
    let top = reduction(&mut g, x, ReduceKind::Max, None, false).unwrap();
    assert_eq!(values(&g, top), [5.0]);
    assert!(!top.requires_grad(&g));
    let rows = reduction(&mut g, x, ReduceKind::Max, Some(-1), true).unwrap();
    assert_eq!(rows.value(&g).shape(), &[2, 1]);
    assert!(rows.requires_grad(&g));
    let at = winner_positions(&mut g, x, ReduceKind::ArgMax, 1, false).unwrap();
    assert_eq!(values(&g, at), [2.0, 2.0]);
    // A scalar is its own sum.
    let one = leaf(&mut g, &[], vec![3.0], true);
    assert_eq!(reduce_all(&mut g, one, ReduceKind::Sum).unwrap(), one);
    let none = leaf(&mut g, &[0], vec![], false);
    let zero = reduce_all(&mut g, none, ReduceKind::Sum).unwrap();
    assert_eq!(values(&g, zero), [0.0]);
    assert_eq!(
        reduce_all(&mut g, none, ReduceKind::Min).unwrap_err().to_string(),
        "invalid argument: cannot compute min/max/argmax/argmin over an empty reduction"
    );
}

#[test]
fn named_ops_stay_connected_where_they_have_a_derivative() {
    let mut g = G::new();
    let x = leaf(&mut g, &[1], vec![0.5], true);
    for name in ["relu", "sigmoid", "tanh", "exp", "log", "sqrt", "neg", "abs"] {
        let y = apply(&mut g, x, name).unwrap();
        assert!(y.requires_grad(&g), "{name}");
        let plain = apply_detached(&mut g, x, name).unwrap();
        assert!(!plain.requires_grad(&g));
        assert_eq!(values(&g, y), values(&g, plain), "{name}");
    }
    let y = apply(&mut g, x, "square").unwrap();
    assert!(!y.requires_grad(&g));
    assert_eq!(values(&g, y), [0.25]);
    let c = leaf(&mut g, &[1], vec![-1.0], false);
    let y = apply(&mut g, c, "relu").unwrap();
    assert_eq!(y.op_name(&g), None);
    assert_eq!(values(&g, y), [0.0]);
    assert_eq!(
        apply(&mut g, x, "frob").unwrap_err().to_string(),
        "invalid argument: unknown unary op \"frob\""
    );
}

#[test]
fn element_access_wants_one_element() {
    let one = from_vec(&[1, 1], vec![7.5]).unwrap();
    let two = from_vec(&[2], vec![1.0, 2.0]).unwrap();
    let scalar = from_vec(&[], vec![1.0]).unwrap();
    assert_eq!(item(&one).unwrap(), F32(7.5));
    assert_eq!(to_float(&one).unwrap(), F32(7.5));
    assert_eq!(
        item(&two).unwrap_err(),
        "only one-element tensors can be converted to scalars (got 2)"
    );
    assert_eq!(
        to_float(&two).unwrap_err(),
        "only one-element tensors can be converted to float, got 2 elements"
    );
    assert_eq!(length(&two).unwrap(), 2);
    assert_eq!(length(&scalar).unwrap_err(), "len() of a 0-d tensor");
    assert!(momentum_settings(F32(0.9), true).is_ok());
    assert!(momentum_settings(F32(0.0), false).is_ok());
    assert_eq!(
        momentum_settings(F32(0.0), true).unwrap_err(),
        "nesterov momentum requires momentum > 0"
    );
}

// ---- indexing ---------------------------------------------------------------

#[test]
fn slices_agree_whether_or_not_they_are_connected() {
    let mut g = G::new();
    let data = counting(24);
    let free = leaf(&mut g, &[2, 3, 4], data.clone(), false);
    let held = leaf(&mut g, &[2, 3, 4], data, true);
    for (dim, lo, hi) in [
        (0i64, 0i64, 1i64),
        (0, -1, 9),
        (1, 1, 3),
        (2, 1, -1),
        (-1, -10, 2),
        (1, -9, i64::MAX),
        (2, 3, 1),
    ] {
        let a = narrow(&mut g, free, dim, lo, hi, 1).unwrap();
        let b = narrow(&mut g, held, dim, lo, hi, 1).unwrap();
        assert!(!a.requires_grad(&g) && b.requires_grad(&g));
        assert_eq!(a.value(&g).shape(), b.value(&g).shape());
        assert_eq!(values(&g, a), values(&g, b));
    }
    for (dim, index) in [(0i64, 1i64), (1, -1), (2, 3), (-1, 0), (2, -4)] {
        let a = select(&mut g, free, dim, index).unwrap();
        let b = select(&mut g, held, dim, index).unwrap();
        assert_eq!(a.value(&g).shape(), b.value(&g).shape());
        assert_eq!(values(&g, a), values(&g, b));
    }
    for v in [free, held] {
        assert!(narrow(&mut g, v, 3, 0, 1, 1).is_err());
        assert!(narrow(&mut g, v, 0, 0, 1, 0).is_err());
        assert!(select(&mut g, v, 0, -3).is_err());
        assert!(select(&mut g, v, 5, 0).is_err());
    }
    // Stepped slices are detached.
    let s = narrow(&mut g, held, 2, 0, 4, 2).unwrap();
    assert!(!s.requires_grad(&g));
    assert_eq!(s.value(&g).shape(), &[2, 3, 2]);
}

#[test]
fn gradients_flow_through_slices() {
    let mut g = G::new();
    let x = leaf(&mut g, &[2, 3], counting(6), true);
    let w = narrow(&mut g, x, 1, 1, 3, 1).unwrap();
    assert_eq!(values(&g, w), [1.0, 2.0, 4.0, 5.0]);
    assert_eq!(gradient_of(&mut g, w, x), [0.0, 1.0, 2.0, 0.0, 3.0, 4.0]);
    x.zero_grad(&mut g).unwrap();
    let c = select(&mut g, x, 1, -1).unwrap();
    assert_eq!(values(&g, c), [2.0, 5.0]);
    assert_eq!(gradient_of(&mut g, c, x), [0.0, 0.0, 1.0, 0.0, 0.0, 2.0]);
}

#[test]
fn subscripts_select_slice_and_gather() {
    let mut g = G::new();
    let x = leaf(&mut g, &[3, 2], counting(6), true);
    let row = subscript(&mut g, x, &Subscript::Index(-1)).unwrap();
    assert_eq!(row.value(&g).shape(), &[2]);
    assert_eq!(values(&g, row), [4.0, 5.0]);
    let open = Subscript::Slice {
        start: Some(1),
        stop: None,
        step: None,
    };
    let tail = subscript(&mut g, x, &open).unwrap();
    assert_eq!(values(&g, tail), [2.0, 3.0, 4.0, 5.0]);
    let every = Subscript::Slice {
        start: None,
        stop: None,
        step: Some(2),
    };
    let odd = subscript(&mut g, x, &every).unwrap();
    assert_eq!(values(&g, odd), [0.0, 1.0, 4.0, 5.0]);
    let picked = subscript(&mut g, x, &Subscript::List(vec![2, 2, 0])).unwrap();
    assert_eq!(values(&g, picked), [4.0, 5.0, 4.0, 5.0, 0.0, 1.0]);
    // Rows picked twice get both gradients.
    assert_eq!(
        gradient_of(&mut g, picked, x),
        [5.0, 6.0, 0.0, 0.0, 4.0, 6.0]
    );
}

#[test]
fn views_are_connected_where_a_gradient_is_required() {
    let mut g = G::new();
    for held in [false, true] {
        let x = leaf(&mut g, &[2, 3], counting(6), held);
        let r = reshape(&mut g, x, &[3, -1]).unwrap();
        assert_eq!(r.value(&g).shape(), &[3, 2]);
        let t = transpose(&mut g, x).unwrap();
        assert_eq!(values(&g, t), [0.0, 3.0, 1.0, 4.0, 2.0, 5.0]);
        let p = permute(&mut g, x, &[1, 0]).unwrap();
        assert_eq!(values(&g, p), values(&g, t));
        let i = index_select(&mut g, x, 1, &[2, 0]).unwrap();
        assert_eq!(values(&g, i), [2.0, 0.0, 5.0, 3.0]);
        let rows = leaf(&mut g, &[1, 3], vec![9.0, 8.0, 7.0], false);
        let s = scatter(&mut g, x, &[0], rows).unwrap();
        assert_eq!(values(&g, s), [9.0, 8.0, 7.0, 3.0, 4.0, 5.0]);
        let mask = leaf(&mut g, &[3], vec![0.0, 1.0, 0.0], false);
        let m = masked_select(&mut g, x, mask).unwrap();
        assert_eq!(values(&g, m), [1.0, 4.0]);
        let b = broadcast_to(&mut g, x, &[2, 2, 3]).unwrap();
        assert_eq!(b.value(&g).numel(), 12);
        for v in [r, t, p, i, s, m, b] {
            assert_eq!(v.requires_grad(&g), held);
        }
        let c = contiguous(&mut g, t);
        assert!(c.value(&g).is_contiguous() && !c.requires_grad(&g));
        assert!(broadcast_to(&mut g, x, &[2, 4]).is_err());
        assert!(broadcast_to(&mut g, x, &[-1, 3]).is_err());
        assert!(transpose(&mut g, b).is_err());
    }
}

#[test]
fn slices_of_step_zero_are_invalid_arguments() {
    let mut g = G::new();
    for held in [false, true] {
        let x = leaf(&mut g, &[3], counting(3), held);
        let err = narrow(&mut g, x, 0, 0, 3, 0).unwrap_err();
        assert_eq!(exception_class(&err), ExceptionClass::ValueError);
        let key = Subscript::Slice {
            start: None,
            stop: None,
            step: Some(-1),
        };
        let err = subscript(&mut g, x, &key).unwrap_err();
        assert!(matches!(err, OxitorchError::InvalidArgument(_)));
    }
}
