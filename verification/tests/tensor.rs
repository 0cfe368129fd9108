//! Tensors: allocation, elementwise ops, reductions, views, indexing, matrix
//! products and display.

use std::sync::Arc;

use oxitorch::elem::Elem;
use oxitorch::error::{OxitorchError, OxitorchResult};
use oxitorch::index::{advance, offset_of};
use oxitorch::layout::{broadcast_shapes, element_count, row_major_strides};
use oxitorch::ops::{
    find_binary_op, find_cmp_op, find_unary_op, CpuBackend, DeviceBackend, ReduceKind,
};
use oxitorch::parallel::maybe_parallel;
use oxitorch::tensor::Tensor;
use oxitorch::types::{DType, Device};

/// 32-bit floats as tensor elements.
#[derive(Debug, Clone, Copy, PartialEq)]
struct F32(f32);

impl Elem for F32 {
    fn zero() -> Self {
        F32(0.0)
    }
    fn one() -> Self {
        F32(1.0)
    }
    fn two() -> Self {
        F32(2.0)
    }
    fn tiny() -> Self {
        F32(1e-12)
    }
    fn difference_step() -> Self {
        F32(1e-2)
    }
    fn half() -> Self {
        F32(0.5)
    }
    fn tau() -> Self {
        F32(std::f32::consts::TAU)
    }
    fn min_positive() -> Self {
        F32(f32::MIN_POSITIVE)
    }
    fn infinity() -> Self {
        F32(f32::INFINITY)
    }
    fn neg_infinity() -> Self {
        F32(f32::NEG_INFINITY)
    }
    fn plus(a: Self, b: Self) -> Self {
        F32(a.0 + b.0)
    }
    fn minus(a: Self, b: Self) -> Self {
        F32(a.0 - b.0)
    }
    fn times(a: Self, b: Self) -> Self {
        F32(a.0 * b.0)
    }
    fn divide(a: Self, b: Self) -> Self {
        F32(a.0 / b.0)
    }
    fn power(a: Self, b: Self) -> Self {
        F32(a.0.powf(b.0))
    }
    fn smaller(a: Self, b: Self) -> Self {
        F32(a.0.min(b.0))
    }
    fn larger(a: Self, b: Self) -> Self {
        F32(a.0.max(b.0))
    }
    fn negate(a: Self) -> Self {
        F32(-a.0)
    }
    fn magnitude(a: Self) -> Self {
        F32(a.0.abs())
    }
    fn sqrt(a: Self) -> Self {
        F32(a.0.sqrt())
    }
    fn exp(a: Self) -> Self {
        F32(a.0.exp())
    }
    fn ln(a: Self) -> Self {
        F32(a.0.ln())
    }
    fn log2(a: Self) -> Self {
        F32(a.0.log2())
    }
    fn log10(a: Self) -> Self {
        F32(a.0.log10())
    }
    fn sin(a: Self) -> Self {
        F32(a.0.sin())
    }
    fn cos(a: Self) -> Self {
        F32(a.0.cos())
    }
    fn tanh(a: Self) -> Self {
        F32(a.0.tanh())
    }
    fn floor(a: Self) -> Self {
        F32(a.0.floor())
    }
    fn ceil(a: Self) -> Self {
        F32(a.0.ceil())
    }
    fn round(a: Self) -> Self {
        F32(a.0.round())
    }
    fn signum(a: Self) -> Self {
        F32(a.0.signum())
    }
    fn equal(a: Self, b: Self) -> bool {
        a.0 == b.0
    }
    fn less(a: Self, b: Self) -> bool {
        a.0 < b.0
    }
    fn less_equal(a: Self, b: Self) -> bool {
        a.0 <= b.0
    }
    fn from_count(n: usize) -> Self {
        F32(n as f32)
    }
    fn to_count(a: Self) -> usize {
        a.0 as usize
    }
    fn from_byte(b: u8) -> Self {
        F32(f32::from(b))
    }
    fn from_53_bits(n: u64) -> Self {
        // Rounding must not reach 1.
        let below_one = 1.0 - f32::EPSILON / 2.0;
        F32(((n as f64 / 9_007_199_254_740_992.0) as f32).min(below_one))
    }
    fn gemm(m: usize, k: usize, n: usize, a: &[Self], b: &[Self]) -> Vec<Self> {
        let mut out = vec![F32(0.0); m * n];
        for i in 0..m {
            for p in 0..k {
                for j in 0..n {
                    out[i * n + j].0 += a[i * k + p].0 * b[p * n + j].0;
                }
            }
        }
        out
    }
    fn shown(a: Self) -> String {
        format!("{}", a.0)
    }
    fn listed(a: Self) -> String {
        format!("{:?}", a.0)
    }
}

/// The plain floats of a run of elements.
trait Floats {
    fn f32s(&self) -> Vec<f32>;
}

impl Floats for [F32] {
    fn f32s(&self) -> Vec<f32> {
        self.iter().map(|x| x.0).collect()
    }
}

/// Plain floats as elements.
fn elems(data: Vec<f32>) -> Vec<F32> {
    data.into_iter().map(F32).collect()
}

/// A tensor of plain floats.
fn from_vec(shape: &[i64], data: Vec<f32>) -> OxitorchResult<Tensor<F32>> {
    Tensor::from_vec(shape, elems(data))
}

fn zeros(shape: &[i64]) -> OxitorchResult<Tensor<F32>> {
    Tensor::zeros(shape)
}

fn full(shape: &[i64], value: f32) -> OxitorchResult<Tensor<F32>> {
    Tensor::full(shape, F32(value))
}

fn eye(n: usize) -> OxitorchResult<Tensor<F32>> {
    Tensor::eye(n)
}

/// Where broadcast indexing reads: `idx` is the multi-index
/// into an `out_rank`-D output grid; the operand (of rank <= out_rank, right-
/// aligned) contributes 0 for broadcast dims and its row-major offset
/// otherwise. Mirrors the semantics of `broadcast_strides`.
fn ref_offset(operand_shape: &[usize], idx: &[usize], out_rank: usize) -> usize {
    let mut off = 0usize;
    let strides = row_major_strides(operand_shape);
    let offset = out_rank - operand_shape.len();
    for (i, &ix) in idx.iter().enumerate() {
        if i >= offset {
            let j = i - offset;
            if operand_shape[j] != 1 {
                off += ix * strides[j];
            }
        }
    }
    off
}

#[test]
fn registry_lookups() {
    assert_eq!(find_binary_op("add").unwrap().name, "add");
    assert!(find_binary_op("frobnicate").is_none());
    assert_eq!(find_cmp_op("lt").unwrap().name, "lt");
    assert_eq!(find_unary_op("sqrt").unwrap().name, "sqrt");
}

#[test]
#[allow(clippy::float_cmp)] // test values are exactly representable
fn registry_kernels_smoke() {
    assert_eq!(find_binary_op("pow").unwrap().f(&[F32(2.0), F32(10.0)]), F32(1024.0));
    assert!(find_cmp_op("ge").unwrap().f(&[F32(2.0), F32(2.0)]));
    assert_eq!(find_unary_op("relu").unwrap().f(F32(-3.0)), F32(0.0));
    assert_eq!(find_unary_op("sigmoid").unwrap().f(F32(0.0)), F32(0.5));
}

#[test]
#[allow(clippy::float_cmp)] // test values are exactly representable
fn reduce_strips() {
    let data = [F32(1.0), F32(2.0), F32(3.0), F32(4.0)];
    assert_eq!(ReduceKind::Sum.reduce_strip(&data).unwrap(), F32(10.0));
    assert_eq!(ReduceKind::Mean.reduce_strip(&data).unwrap(), F32(2.5));
    assert_eq!(ReduceKind::Max.reduce_strip(&data).unwrap(), F32(4.0));
    assert_eq!(ReduceKind::Min.reduce_strip(&data).unwrap(), F32(1.0));
    assert_eq!(ReduceKind::ArgMax.reduce_strip(&data).unwrap(), F32(3.0));
    assert_eq!(ReduceKind::ArgMin.reduce_strip(&data).unwrap(), F32(0.0));
    // 3-4-5 triangle: norm = 5.
    assert_eq!(ReduceKind::Norm.reduce_strip(&[F32(3.0), F32(4.0)]).unwrap(), F32(5.0));
    assert_eq!(ReduceKind::Sum.reduce_strip::<F32>(&[]).unwrap(), F32(0.0));
    assert!(ReduceKind::Max.reduce_strip::<F32>(&[]).is_err());
}

#[test]
fn cpu_backend_capabilities() {
    let backend = CpuBackend;
    assert_eq!(backend.name(), "cpu");
    assert_eq!(backend.device(), Device::cpu());
    assert!(backend.supports_dtype(DType::F32));
    assert!(!backend.supports_dtype(DType::F16));
}

#[test]
fn allocation_reports_layout() {
    let t = zeros(&[2, 3]).unwrap();
    assert_eq!(t.shape(), &[2, 3]);
    assert_eq!(t.strides(), &[3, 1]);
    assert_eq!(t.numel(), 6);
    assert_eq!(t.ndim(), 2);
    assert!(t.is_contiguous());
    assert_eq!(t.dtype(), DType::F32);
    assert_eq!(t.device(), Device::cpu());
}

#[test]
fn from_vec_roundtrips_values() {
    let t = from_vec(&[2, 2], vec![1.0, 2.0, 3.0, 4.0]).unwrap();
    assert_eq!(t.as_slice().unwrap().f32s(), &[1.0, 2.0, 3.0, 4.0]);
}

#[test]
fn from_vec_rejects_length_mismatch() {
    let err = from_vec(&[2, 2], vec![1.0, 2.0]).err().unwrap();
    assert!(matches!(err, OxitorchError::InvalidArgument(_)));
}

#[test]
fn rejects_negative_dims_and_overflow() {
    assert!(zeros(&[-1]).is_err());
    assert!(zeros(&[i64::MAX, i64::MAX]).is_err());
}

#[test]
fn scalar_tensors_have_zero_dims() {
    let t = full(&[], 7.0).unwrap();
    assert_eq!(t.ndim(), 0);
    assert_eq!(t.numel(), 1);
    assert_eq!(t.to_string(), "7");
}

#[test]
fn eye_works() {
    let i3 = eye(3).unwrap();
    assert_eq!(
        i3.as_slice().unwrap().f32s()[..7],
        [1.0, 0.0, 0.0, 0.0, 1.0, 0.0, 0.0]
    );
}

// ---- broadcasting binary ops -------------------------------------------

#[test]
fn add_broadcasts_row_vector() {
    let a = from_vec(&[2, 3], vec![1.0, 2.0, 3.0, 4.0, 5.0, 6.0]).unwrap();
    let row = from_vec(&[3], vec![10.0, 20.0, 30.0]).unwrap();
    let out = a.add(&row).unwrap();
    assert_eq!(out.shape(), &[2, 3]);
    assert_eq!(
        out.as_slice().unwrap().f32s(),
        &[11.0, 22.0, 33.0, 14.0, 25.0, 36.0]
    );
}

#[test]
fn add_broadcasts_column_vector_and_scalar() {
    let a = from_vec(&[2, 3], vec![1.0, 2.0, 3.0, 4.0, 5.0, 6.0]).unwrap();
    let col = from_vec(&[2, 1], vec![100.0, 200.0]).unwrap();
    assert_eq!(
        a.add(&col).unwrap().as_slice().unwrap().f32s(),
        &[101.0, 102.0, 103.0, 204.0, 205.0, 206.0]
    );

    let s = from_vec(&[], vec![1.0]).unwrap();
    assert_eq!(
        a.add(&s).unwrap().as_slice().unwrap().f32s(),
        &[2.0, 3.0, 4.0, 5.0, 6.0, 7.0]
    );
    assert_eq!(s.add(&a).unwrap().shape(), &[2, 3], "commutes");
}

#[test]
fn add_broadcast_incompatible_shapes_error() {
    let a = zeros(&[2, 3]).unwrap();
    let b = zeros(&[4, 3]).unwrap();
    let err = a.add(&b).err().unwrap();
    assert!(matches!(err, OxitorchError::ShapeMismatch { .. }));
}

#[test]
fn binary_ops_and_registry() {
    let a = from_vec(&[2], vec![8.0, 9.0]).unwrap();
    let b = from_vec(&[2], vec![2.0, 3.0]).unwrap();
    assert_eq!(a.sub(&b).unwrap().as_slice().unwrap().f32s(), &[6.0, 6.0]);
    assert_eq!(a.mul(&b).unwrap().as_slice().unwrap().f32s(), &[16.0, 27.0]);
    assert_eq!(a.div(&b).unwrap().as_slice().unwrap().f32s(), &[4.0, 3.0]);
    assert_eq!(a.pow(&b).unwrap().as_slice().unwrap().f32s(), &[64.0, 729.0]);
    assert_eq!(
        a.binary_op("max", &b).unwrap().as_slice().unwrap().f32s(),
        &[8.0, 9.0]
    );
    assert!(a.binary_op("frob", &b).is_err());
}

#[test]
fn comparison_ops_produce_0_or_1() {
    let a = from_vec(&[3], vec![1.0, 2.0, 3.0]).unwrap();
    let b = from_vec(&[3], vec![2.0, 2.0, 1.0]).unwrap();
    assert_eq!(a.lt(&b).unwrap().as_slice().unwrap().f32s(), &[1.0, 0.0, 0.0]);
    assert_eq!(a.le(&b).unwrap().as_slice().unwrap().f32s(), &[1.0, 1.0, 0.0]);
    assert_eq!(a.eq(&b).unwrap().as_slice().unwrap().f32s(), &[0.0, 1.0, 0.0]);
    assert_eq!(a.ne(&b).unwrap().as_slice().unwrap().f32s(), &[1.0, 0.0, 1.0]);
    assert_eq!(a.gt(&b).unwrap().as_slice().unwrap().f32s(), &[0.0, 0.0, 1.0]);
    assert_eq!(a.ge(&b).unwrap().as_slice().unwrap().f32s(), &[0.0, 1.0, 1.0]);
}

#[test]
fn unary_ops_fast_and_strided_paths_agree() {
    let base = from_vec(&[2, 3], (0..6).map(|i| i as f32).collect()).unwrap();
    // Strided view: transpose.
    let t = base.transpose().unwrap();
    assert!(!t.is_contiguous());
    for name in ["neg", "abs", "sqrt", "exp", "relu", "sigmoid", "square"] {
        let fast = base.unary_op(name).unwrap();
        let slow = t.contiguous().transpose().unwrap().unary_op(name).unwrap();
        // same logical values in, same logical values out
        assert_eq!(
            fast.to_vec().f32s(),
            slow.to_vec().f32s(),
            "unary {name} disagrees between contiguous and strided paths"
        );
    }
}

#[test]
fn scalar_helpers() {
    let a = from_vec(&[2], vec![1.0, 2.0]).unwrap();
    assert_eq!(
        a.add_scalar(F32(10.0)).unwrap().as_slice().unwrap().f32s(),
        &[11.0, 12.0]
    );
    assert_eq!(a.mul_scalar(F32(3.0)).unwrap().as_slice().unwrap().f32s(), &[3.0, 6.0]);
}

// ---- reductions ----------------------------------------------------------

#[test]
fn reduce_last_dim_rows() {
    let a = from_vec(&[2, 3], vec![1.0, 2.0, 3.0, 10.0, 20.0, 30.0]).unwrap();
    let s = a.reduce(ReduceKind::Sum, -1, false).unwrap();
    assert_eq!(s.shape(), &[2]);
    assert_eq!(s.as_slice().unwrap().f32s(), &[6.0, 60.0]);
    let m = a.reduce(ReduceKind::Max, -1, true).unwrap();
    assert_eq!(m.shape(), &[2, 1]);
    assert_eq!(m.as_slice().unwrap().f32s(), &[3.0, 30.0]);
}

#[test]
fn reduce_inner_dim_columns() {
    let a = from_vec(&[3, 2], vec![1.0, 2.0, 3.0, 4.0, 5.0, 6.0]).unwrap();
    // Sum over dim 0 (columns): [1+3+5, 2+4+6] = [9, 12]
    let s = a.reduce(ReduceKind::Sum, 0, false).unwrap();
    assert_eq!(s.shape(), &[2]);
    assert_eq!(s.as_slice().unwrap().f32s(), &[9.0, 12.0]);
}

#[test]
fn reduce_argmax_argmin_first_tie_and_negative() {
    let a = from_vec(&[2, 3], vec![5.0, 7.0, 7.0, 1.0, 9.0, 2.0]).unwrap();
    let am = a.reduce(ReduceKind::ArgMax, -1, false).unwrap();
    // 7 appears twice in row 0 -> first occurrence (index 1).
    assert_eq!(am.as_slice().unwrap().f32s(), &[1.0, 1.0]);
    let an = a.reduce(ReduceKind::ArgMin, 1, false).unwrap();
    assert_eq!(an.as_slice().unwrap().f32s(), &[0.0, 0.0]);
}

#[test]
fn reduce_3d_middle_dim() {
    let a = from_vec(&[2, 2, 2], (1..=8).map(|x| x as f32).collect()).unwrap();
    // Sum over dim 1: [[1+3, 2+4], [5+7, 6+8]] = [[4, 6], [12, 14]]
    let s = a.reduce(ReduceKind::Sum, 1, false).unwrap();
    assert_eq!(s.shape(), &[2, 2]);
    assert_eq!(s.as_slice().unwrap().f32s(), &[4.0, 6.0, 12.0, 14.0]);
}

#[test]
fn reduce_mean_norm_and_all() {
    let a = from_vec(&[2, 2], vec![1.0, 2.0, 3.0, 4.0]).unwrap();
    assert_eq!(a.mean_all().unwrap().as_slice().unwrap().f32s(), &[2.5]);
    assert_eq!(a.sum_all().unwrap().as_slice().unwrap().f32s(), &[10.0]);
    // Norm over dim 1: sqrt(1+4)=√5, sqrt(9+16)=5.
    let n = a.norm(-1, false).unwrap();
    assert!((n.as_slice().unwrap().f32s()[0] - 5f32.sqrt()).abs() < 1e-6);
    assert!((n.as_slice().unwrap().f32s()[1] - 5.0).abs() < 1e-6);
}

#[test]
fn reduce_errors() {
    let e = zeros(&[0, 3]).unwrap();
    assert!(e.reduce(ReduceKind::Max, 0, false).is_err());
    assert!(e.reduce(ReduceKind::Sum, 0, false).is_ok()); // sum of empty = 0
    let a = zeros(&[2, 2]).unwrap();
    assert!(a.reduce(ReduceKind::Sum, 5, false).is_err());
}

// ---- views ----------------------------------------------------------------

#[test]
fn views_share_storage() {
    let base = from_vec(&[4], vec![1.0, 2.0, 3.0, 4.0]).unwrap();
    let v = base.narrow(0, 1, 3, 1).unwrap();
    assert_eq!(v.shape(), &[2]);
    assert_eq!(v.to_vec().f32s(), vec![2.0, 3.0]);
    // Mutating through one view must be visible through the other (same Arc).
    let ptr1 = Arc::as_ptr(base.clone().storage()).cast::<u8>();
    let ptr2 = Arc::as_ptr(v.storage()).cast::<u8>();
    assert_eq!(ptr1, ptr2);
}

#[test]
fn narrow_with_step_and_negatives() {
    let base = from_vec(&[6], (1..=6).map(|x| x as f32).collect()).unwrap();
    assert_eq!(
        base.narrow(0, 0, 6, 2).unwrap().to_vec().f32s(),
        vec![1.0, 3.0, 5.0]
    );
    assert_eq!(
        base.narrow(0, -3, 6, 1).unwrap().to_vec().f32s(),
        vec![4.0, 5.0, 6.0]
    );
    assert!(base.narrow(0, 0, 6, 0).is_err());
}

#[test]
fn select_drops_dim() {
    let base = from_vec(&[2, 3], vec![1.0, 2.0, 3.0, 4.0, 5.0, 6.0]).unwrap();
    let r1 = base.select(0, 1).unwrap();
    assert_eq!(r1.shape(), &[3]);
    assert_eq!(r1.to_vec().f32s(), vec![4.0, 5.0, 6.0]);
    let c2 = base.select(1, -2).unwrap();
    assert_eq!(c2.to_vec().f32s(), vec![2.0, 5.0]);
    assert!(base.select(0, 2).is_err());
}

#[test]
fn reshape_views_and_copies() {
    let base = from_vec(&[2, 3], (1..=6).map(|x| x as f32).collect()).unwrap();
    assert_eq!(base.reshape(&[3, 2]).unwrap().to_vec().f32s(), base.to_vec().f32s());
    assert_eq!(base.reshape(&[-1]).unwrap().shape(), &[6]);
    assert_eq!(base.reshape(&[6, -1]).unwrap().shape(), &[6, 1]);
    // torch semantics: reshaping N > 1 elements to [] is an error.
    assert!(base.reshape(&[]).is_err());
    assert_eq!(
        full(&[], 7.0)
            .unwrap()
            .reshape(&[])
            .unwrap()
            .numel(),
        1
    );
    assert!(base.reshape(&[4, 2]).is_err());
    assert!(base.reshape(&[-1, -1]).is_err());

    // Non-contiguous reshape falls back to a copy with correct values.
    let t = base.transpose().unwrap(); // [3, 2] non-contiguous
    let r = t.reshape(&[6]).unwrap();
    assert_eq!(r.to_vec().f32s(), t.to_vec().f32s());
}

#[test]
#[allow(clippy::float_cmp)] // integer-valued floats, bitwise equality is exact
fn permute_and_transpose_are_views() {
    let base = from_vec(&[2, 3, 4], (0..24).map(|x| x as f32).collect()).unwrap();
    let p = base.permute(&[2, 0, 1]).unwrap();
    assert_eq!(p.shape(), &[4, 2, 3]);
    assert!(!p.is_contiguous());
    // Logical read-back must match manual indexing: p[i, j, k] = base[j, k, i].
    let pv = p.to_vec().f32s();
    for i in 0..4 {
        for j in 0..2 {
            for k in 0..3 {
                assert_eq!(pv[i * 6 + j * 3 + k], (j * 12 + k * 4 + i) as f32);
            }
        }
    }
    assert!(base.permute(&[0, 0, 1]).is_err());
    assert!(base.permute(&[0, 1]).is_err());

    let m = from_vec(&[2, 2], vec![1.0, 2.0, 3.0, 4.0]).unwrap();
    assert_eq!(m.transpose().unwrap().to_vec().f32s(), vec![1.0, 3.0, 2.0, 4.0]);
    assert!(zeros(&[2, 2, 2]).unwrap().transpose().is_err());
}

#[test]
fn broadcast_to_zero_strides() {
    let row = from_vec(&[1, 3], vec![1.0, 2.0, 3.0]).unwrap();
    let big = row.broadcast_to(&[2, 3]).unwrap();
    assert_eq!(big.shape(), &[2, 3]);
    assert_eq!(big.to_vec().f32s(), vec![1.0, 2.0, 3.0, 1.0, 2.0, 3.0]);
    assert_eq!(row.broadcast_to(&[4, 3]).unwrap().numel(), 12);
    assert!(row.broadcast_to(&[2, 4]).is_err());
}

#[test]
fn contiguous_materializes() {
    let base = from_vec(&[2, 3], (1..=6).map(|x| x as f32).collect()).unwrap();
    let t = base.transpose().unwrap();
    let c = t.contiguous();
    assert!(c.is_contiguous());
    assert_eq!(c.to_vec().f32s(), t.to_vec().f32s());
    // contiguous() on an already-contiguous tensor is a cheap clone.
    let base2 = base.contiguous();
    assert!(Arc::ptr_eq(base.storage(), base2.storage()));
}

#[test]
fn as_slice_requires_contiguity() {
    let base = from_vec(&[2, 2], vec![1.0, 2.0, 3.0, 4.0]).unwrap();
    assert!(base.as_slice().is_ok());
    assert!(base.transpose().unwrap().as_slice().is_err());
}

// ---- fancy indexing -------------------------------------------------------

#[test]
fn index_select_rows_and_negative() {
    let base = from_vec(&[3, 2], vec![1.0, 2.0, 3.0, 4.0, 5.0, 6.0]).unwrap();
    let picked = base.index_select(0, &[2, 0]).unwrap();
    assert_eq!(picked.shape(), &[2, 2]);
    assert_eq!(picked.to_vec().f32s(), vec![5.0, 6.0, 1.0, 2.0]);
    let neg = base.index_select(0, &[-1]).unwrap();
    assert_eq!(neg.to_vec().f32s(), vec![5.0, 6.0]);
    assert!(base.index_select(0, &[3]).is_err());
}

#[test]
fn gather_flat_and_dim0() {
    let base = from_vec(&[2, 3], (1..=6).map(|x| x as f32).collect()).unwrap();
    assert_eq!(base.gather_flat(&[0, 5, 1]).unwrap().shape(), &[3]);
    assert_eq!(
        base.gather_flat(&[0, 5, 1]).unwrap().to_vec().f32s(),
        vec![1.0, 6.0, 2.0]
    );
    assert!(base.gather_flat(&[6]).is_err());
    assert!(base.gather_flat(&[-7]).is_err());

    let rows = base.gather_dim0(&[1, 1, 0]).unwrap();
    assert_eq!(rows.shape(), &[3, 3]);
    assert_eq!(
        rows.to_vec().f32s(),
        vec![4.0, 5.0, 6.0, 4.0, 5.0, 6.0, 1.0, 2.0, 3.0]
    );
    assert!(base.gather_dim0(&[2]).is_err());
}

#[test]
fn scatter_dim0_roundtrip_with_gather() {
    let base = from_vec(&[2, 2], vec![1.0, 2.0, 3.0, 4.0]).unwrap();
    let vals = from_vec(&[1, 2], vec![9.0, 8.0]).unwrap();
    let out = base.scatter_dim0(&[1], &vals).unwrap();
    assert_eq!(out.to_vec().f32s(), vec![1.0, 2.0, 9.0, 8.0]);
    // Roundtrip: gather what we scattered.
    let back = out.gather_dim0(&[1]).unwrap();
    assert_eq!(back.to_vec().f32s(), vec![9.0, 8.0]);
    assert!(base.scatter_dim0(&[5], &vals).is_err());
    assert!(base
        .scatter_dim0(&[0], &zeros(&[2, 2]).unwrap())
        .is_err());
}

#[test]
fn masked_select_basic_and_broadcast() {
    let base = from_vec(&[2, 3], vec![1.0, 2.0, 3.0, 4.0, 5.0, 6.0]).unwrap();
    let mask = from_vec(&[2, 3], vec![1.0, 0.0, 1.0, 0.0, 1.0, 0.0]).unwrap();
    assert_eq!(
        base.masked_select(&mask).unwrap().to_vec().f32s(),
        vec![1.0, 3.0, 5.0]
    );

    // Broadcast a row mask.
    let row_mask = from_vec(&[3], vec![1.0, 0.0, 0.0]).unwrap();
    assert_eq!(
        base.masked_select(&row_mask).unwrap().to_vec().f32s(),
        vec![1.0, 4.0]
    );
}

// ---- matmul -----------------------------------------------------------------

#[test]
fn matmul_identity_and_values() {
    let a = from_vec(&[2, 2], vec![1.0, 2.0, 3.0, 4.0]).unwrap();
    let i = eye(2).unwrap();
    assert_eq!(
        a.matmul(&i).unwrap().as_slice().unwrap().f32s(),
        &[1.0, 2.0, 3.0, 4.0]
    );

    let b = from_vec(&[2, 2], vec![5.0, 6.0, 7.0, 8.0]).unwrap();
    assert_eq!(
        a.matmul(&b).unwrap().as_slice().unwrap().f32s(),
        &[19.0, 22.0, 43.0, 50.0]
    );
}

#[test]
fn matmul_rectangular_and_transposed_inputs() {
    let a = from_vec(&[2, 3], vec![1.0, 2.0, 3.0, 4.0, 5.0, 6.0]).unwrap();
    let b = from_vec(&[3, 2], vec![7.0, 8.0, 9.0, 10.0, 11.0, 12.0]).unwrap();
    assert_eq!(
        a.matmul(&b).unwrap().as_slice().unwrap().f32s(),
        &[58.0, 64.0, 139.0, 154.0]
    );

    // Feeding transposed views must work (materialized internally):
    // a^T [3,2] @ b^T [2,3] -> [3,3].
    let at = a.transpose().unwrap();
    let bt = b.transpose().unwrap();
    let out = at.matmul(&bt).unwrap();
    assert_eq!(out.shape(), &[3, 3]);
    assert_eq!(
        out.as_slice().unwrap().f32s(),
        &[39.0, 49.0, 59.0, 54.0, 68.0, 82.0, 69.0, 87.0, 105.0]
    );
    // Inner-dim mismatch still errors through views.
    assert!(at.matmul(&b).is_err());
}

#[test]
fn matmul_parallel_path_matches_sequential() {
    // 64x64x64 = 262144 >= threshold -> exercises the rayon row-block path.
    let a = from_vec(
        &[64, 64],
        (0..64 * 64).map(|i| ((i * 7) % 13) as f32 - 6.0).collect(),
    )
    .unwrap();
    let b = from_vec(
        &[64, 64],
        (0..64 * 64).map(|i| ((i * 5) % 11) as f32 - 5.0).collect(),
    )
    .unwrap();
    let out = a.matmul(&b).unwrap();
    // Spot-check several entries against a naive dot product.
    let af = a.as_slice().unwrap().f32s();
    let bf = b.as_slice().unwrap().f32s();
    for &(i, j) in &[(0usize, 0usize), (17, 42), (63, 63), (31, 5)] {
        let expect: f32 = (0..64).map(|p| af[i * 64 + p] * bf[p * 64 + j]).sum();
        assert!((out.as_slice().unwrap().f32s()[i * 64 + j] - expect).abs() <= expect.abs() * 1e-5);
    }
}

// ---- bmm ---------------------------------------------------------------------

#[test]
fn bmm_values_and_shapes() {
    // Two batched 2x2 products, hand-checked.
    let a = from_vec(&[2, 2, 2], vec![1.0, 2.0, 3.0, 4.0, 5.0, 6.0, 7.0, 8.0]).unwrap();
    let b = from_vec(
        &[2, 2, 2],
        vec![9.0, 10.0, 11.0, 12.0, 13.0, 14.0, 15.0, 16.0],
    )
    .unwrap();
    let out = a.bmm(&b).unwrap();
    assert_eq!(out.shape(), &[2, 2, 2]);
    // batch 0: [[1,2],[3,4]] @ [[9,10],[11,12]] = [[31,34],[71,78]]
    // batch 1: [[5,6],[7,8]] @ [[13,14],[15,16]] = [[155,166],[211,226]]
    assert_eq!(
        out.as_slice().unwrap().f32s(),
        &[31.0, 34.0, 71.0, 78.0, 155.0, 166.0, 211.0, 226.0]
    );
}

#[test]
fn bmm_matches_per_batch_matmul() {
    // Property: bmm(a, b)[i] == a[i].matmul(b[i]) for deterministic data.
    let batch = 3usize;
    let (num_rows, inner, num_cols) = (4usize, 5usize, 2usize);
    let mut state = 43u64; // odd seed (42 | 1) for the xorshift below
    let mut gen = |len: usize| -> Vec<f32> {
        (0..len)
            .map(|_| {
                state ^= state << 13;
                state ^= state >> 7;
                state ^= state << 17;
                (state % 2000) as f32 / 1000.0 - 1.0
            })
            .collect()
    };
    let a = from_vec(
        &[batch as i64, num_rows as i64, inner as i64],
        gen(batch * num_rows * inner),
    )
    .unwrap();
    let b = from_vec(
        &[batch as i64, inner as i64, num_cols as i64],
        gen(batch * inner * num_cols),
    )
    .unwrap();
    let out = a.bmm(&b).unwrap();
    let of = out.as_slice().unwrap().f32s();
    let af = a.as_slice().unwrap().f32s();
    let bf = b.as_slice().unwrap().f32s();
    for bi in 0..batch {
        for row in 0..num_rows {
            for col in 0..num_cols {
                let expect: f32 = (0..inner)
                    .map(|p| {
                        af[bi * num_rows * inner + row * inner + p]
                            * bf[bi * inner * num_cols + p * num_cols + col]
                    })
                    .sum();
                let got = of[bi * num_rows * num_cols + row * num_cols + col];
                assert!(
                    (got - expect).abs() <= expect.abs().max(1.0) * 1e-5,
                    "batch {bi} [{row},{col}]: {got} vs {expect}"
                );
            }
        }
    }
}

#[test]
fn bmm_accepts_transposed_views_and_errors() {
    let a = from_vec(&[1, 2, 2], vec![1.0, 2.0, 3.0, 4.0]).unwrap();
    let b = from_vec(&[1, 2, 2], vec![5.0, 6.0, 7.0, 8.0]).unwrap();
    // Non-contiguous operand must be materialized internally.
    let out = a.bmm(&b.permute(&[0, 2, 1]).unwrap()).unwrap();
    assert_eq!(out.as_slice().unwrap().f32s(), &[17.0, 23.0, 39.0, 53.0]);

    // Batch mismatch and inner-dim mismatch are errors.
    let two = zeros(&[2, 2, 2]).unwrap();
    assert!(a.bmm(&two).is_err());
    assert!(two.bmm(&b).is_err());
    // Rank guard.
    let m2 = zeros(&[2, 2]).unwrap();
    assert!(a.bmm(&m2).is_err());
}

#[test]
fn bmm_parallel_path_matches_sequential() {
    // 8 planes of 64x64x64 = 2M elements >= threshold -> rayon batch path.
    let batch = 8usize;
    let dim = 64usize;
    let a = from_vec(
        &[batch as i64, dim as i64, dim as i64],
        (0..batch * dim * dim)
            .map(|i| ((i * 7) % 13) as f32 - 6.0)
            .collect(),
    )
    .unwrap();
    let b = from_vec(
        &[batch as i64, dim as i64, dim as i64],
        (0..batch * dim * dim)
            .map(|i| ((i * 5) % 11) as f32 - 5.0)
            .collect(),
    )
    .unwrap();
    let out = a.bmm(&b).unwrap();
    let af = a.as_slice().unwrap().f32s();
    let bf = b.as_slice().unwrap().f32s();
    let of = out.as_slice().unwrap().f32s();
    // Spot-check one entry per batch plane against a naive dot product.
    for bi in 0..batch {
        let (row, col) = (17usize, 42usize);
        let expect: f32 = (0..dim)
            .map(|p| af[bi * dim * dim + row * dim + p] * bf[bi * dim * dim + p * dim + col])
            .sum();
        assert!((of[bi * dim * dim + row * dim + col] - expect).abs() <= expect.abs() * 1e-5);
    }
}

#[test]
fn matmul_errors() {
    let a = zeros(&[2, 3]).unwrap();
    let b = zeros(&[2, 2]).unwrap();
    assert!(a
        .matmul(&b)
        .err().unwrap()
        .to_string()
        .contains("shape mismatch"));
    let c = zeros(&[2, 2, 2]).unwrap();
    assert!(c.matmul(&b).is_err());
}

// ---- properties over many inputs --------------------------------------------

fn check_broadcast_add(b_shape: &[usize], seed: usize) {
    // b keeps its shape; a takes b's trailing dims, some of them as 1.
    let a_rank = 1 + seed % b_shape.len();
    let a_shape: Vec<usize> = b_shape[b_shape.len() - a_rank..]
        .iter()
        .enumerate()
        .map(|(i, &d)| if (seed + i * 7) % 2 == 0 { 1 } else { d })
        .collect();
    let n_a = element_count(&a_shape);
    let n_b = element_count(b_shape);
    let a_data: Vec<f32> = (0..n_a).map(|i| ((seed + i * 31) % 19) as f32 - 9.0).collect();
    let b_data: Vec<f32> = (0..n_b).map(|i| ((seed + i * 17) % 7) as f32 - 3.0).collect();
    let a = from_vec(
        &a_shape.iter().map(|&d| d as i64).collect::<Vec<_>>(),
        a_data,
    )
    .unwrap();
    let b = from_vec(
        &b_shape.iter().map(|&d| d as i64).collect::<Vec<_>>(),
        b_data,
    )
    .unwrap();

    let out = a.add(&b).unwrap();
    let out_shape = broadcast_shapes(&a_shape, b_shape).unwrap();
    assert_eq!(out.shape(), &out_shape[..]);
    // Symmetry: the reversed add must agree element-for-element.
    let out_rev = b.add(&a).unwrap();
    assert_eq!(out.to_vec(), out_rev.to_vec());

    // Reference: walk the broadcast grid manually.
    for pos in 0..element_count(&out_shape) {
        let mut idx = vec![0usize; out_shape.len()];
        let mut rem = pos;
        for (i, &d) in out_shape.iter().enumerate().rev() {
            idx[i] = rem % d;
            rem /= d;
        }
        let av = a.to_vec().f32s()[ref_offset(&a_shape, &idx, out_shape.len())];
        let bv = b.to_vec().f32s()[ref_offset(b_shape, &idx, out_shape.len())];
        assert!((out.to_vec().f32s()[pos] - (av + bv)).abs() < 1e-5);
    }
}

#[test]
fn broadcast_add_matches_elementwise_reference() {
    let shapes: [&[usize]; 7] = [&[1], &[3], &[2, 3], &[3, 1], &[1, 2, 3], &[3, 2, 1], &[2, 2, 2]];
    for shape in shapes {
        for seed in [0usize, 1, 2, 5, 12, 77, 1_000_003] {
            check_broadcast_add(shape, seed);
        }
    }
}

#[test]
fn reshape_permute_roundtrip_preserves_values() {
    for rows in 1usize..6 {
        for cols in 1usize..6 {
            let data: Vec<f32> = (0..rows * cols).map(|i| i as f32).collect();
            let t = from_vec(&[rows as i64, cols as i64], data.clone()).unwrap();
            // reshape to flat and back must preserve everything.
            let flat = t.reshape(&[-1]).unwrap();
            assert_eq!(flat.shape(), &[rows * cols]);
            let back = flat.reshape(&[cols as i64, rows as i64]).unwrap();
            assert_eq!(back.to_vec().f32s(), data);
            // permute then contiguous gives the transposed data.
            let tr = t.permute(&[1, 0]).unwrap().contiguous();
            let data_ref = &data;
            let expect: Vec<f32> = (0..cols)
                .flat_map(move |c| (0..rows).map(move |r| data_ref[r * cols + c]))
                .collect();
            assert_eq!(tr.to_vec().f32s(), expect);
        }
    }
}

#[test]
fn matmul_matches_naive_reference() {
    for (m, k, n, seed) in [(1usize, 1usize, 1usize, 3u64), (2, 16, 5, 9), (16, 3, 16, 41), (7, 7, 1, 0)] {
        let mut state = seed;
        let mut next = move |_: usize| -> f32 {
            state = state
                .wrapping_mul(6_364_136_223_846_793_005)
                .wrapping_add(1_442_695_040_888_963_407);
            (state >> 40) as f32 / 16_777_216.0 - 64.0
        };
        let a: Vec<f32> = (0..m * k).map(&mut next).collect();
        let b: Vec<f32> = (0..k * n).map(&mut next).collect();
        let ta = from_vec(&[m as i64, k as i64], a.clone()).unwrap();
        let tb = from_vec(&[k as i64, n as i64], b.clone()).unwrap();
        let got = ta.matmul(&tb).unwrap();
        for i in 0..m {
            for j in 0..n {
                let mut acc = 0.0f32;
                for p in 0..k {
                    acc += a[i * k + p] * b[p * n + j];
                }
                let expect = got.as_slice().unwrap().f32s()[i * n + j];
                assert!((acc - expect).abs() <= acc.abs().max(expect.abs()) * 1e-5);
            }
        }
    }
}

// ---- laws on concrete values ------------------------------------------------

fn counting(shape: &[i64]) -> Tensor<F32> {
    let n: i64 = shape.iter().product();
    from_vec(shape, (0..n).map(|i| i as f32).collect()).unwrap()
}

#[test]
fn permuting_back_restores_a_tensor() {
    let t = counting(&[2, 3, 4]);
    let there = t.permute(&[2, 0, 1]).unwrap();
    let back = there.permute(&[1, 2, 0]).unwrap();
    assert_eq!(back.shape(), t.shape());
    assert_eq!(back.strides(), t.strides());
    assert_eq!(back.to_vec(), t.to_vec());
    let m = counting(&[2, 3]);
    let twice = m.transpose().unwrap().transpose().unwrap();
    assert_eq!(twice.to_vec(), m.to_vec());
}

#[test]
fn slices_compose_and_a_full_slice_changes_nothing() {
    let t = counting(&[10]);
    let full = t.narrow(0, 0, 10, 1).unwrap();
    assert_eq!(full.to_vec(), t.to_vec());
    let two = t.narrow(0, 1, 10, 2).unwrap().narrow(0, 1, 4, 2).unwrap();
    assert_eq!(two.to_vec().f32s(), [3.0, 7.0]);
    assert_eq!(two.to_vec(), t.narrow(0, 3, 8, 4).unwrap().to_vec());
}

#[test]
fn gathering_gives_back_what_was_scattered() {
    let base = counting(&[4, 2]);
    let rows = from_vec(&[3, 2], vec![10.0, 11.0, 20.0, 21.0, 30.0, 31.0]).unwrap();
    // Row 1 is written twice: the last write stays.
    let out = base.scatter_dim0(&[1, -1, 1], &rows).unwrap();
    assert_eq!(
        out.to_vec().f32s(),
        [0.0, 1.0, 30.0, 31.0, 4.0, 5.0, 20.0, 21.0]
    );
    let back = out.gather_dim0(&[3, 1]).unwrap();
    assert_eq!(back.to_vec().f32s(), [20.0, 21.0, 30.0, 31.0]);
    // Rows that were not written keep their elements.
    assert_eq!(out.gather_dim0(&[0, 2]).unwrap().to_vec().f32s(), [0.0, 1.0, 4.0, 5.0]);
}

#[test]
fn reshaping_to_the_own_shape_changes_nothing() {
    let t = counting(&[2, 3]);
    let r = t.reshape(&t.shape_i64()).unwrap();
    assert_eq!(r.shape(), t.shape());
    assert_eq!(r.to_vec(), t.to_vec());
    assert!(Arc::ptr_eq(r.storage(), t.storage()));
}

#[test]
fn masks_keep_what_is_set() {
    let t = counting(&[2, 2]);
    let ones = Tensor::ones_like(&t).unwrap();
    assert_eq!(t.masked_select(&ones).unwrap().to_vec(), t.to_vec());
    let none = zeros(&[2, 2]).unwrap();
    assert_eq!(t.masked_select(&none).unwrap().numel(), 0);
    // A flag that is not a number counts as set.
    let nan = from_vec(&[2, 2], vec![f32::NAN, 0.0, 0.0, 0.0]).unwrap();
    assert_eq!(t.masked_select(&nan).unwrap().to_vec().f32s(), [0.0]);
}

// ---- edges ------------------------------------------------------------------

#[test]
fn errors_say_what_is_wrong() {
    let t = counting(&[2, 3]);
    let text = |r: OxitorchResult<Tensor<F32>>| r.err().unwrap().to_string();
    assert_eq!(
        text(from_vec(&[2, 2], vec![1.0])),
        "invalid argument: shape [2, 2] implies 4 elements but the buffer holds 1"
    );
    assert_eq!(
        text(t.binary_op("frob", &t)),
        "invalid argument: unknown binary op \"frob\""
    );
    assert_eq!(
        text(t.unary_op("frob")),
        "invalid argument: unknown unary op \"frob\""
    );
    assert_eq!(
        text(t.cmp_op("frob", &t)),
        "invalid argument: unknown comparison op \"frob\""
    );
    assert_eq!(
        text(t.select(0, 2)),
        "out of bounds: index 2 out of range for dim 0 of size 2"
    );
    assert_eq!(
        text(t.reshape(&[-2])),
        "invalid argument: invalid dimension -2 in reshape"
    );
    assert_eq!(
        text(t.reshape(&[4])),
        "invalid argument: cannot reshape 6 elements into shape [4]"
    );
    assert_eq!(
        text(t.permute(&[0])),
        "invalid argument: permute expects 2 dims, got 1"
    );
    assert_eq!(
        text(t.permute(&[0, 0])),
        "invalid argument: repeated dim 0 in permute"
    );
    assert_eq!(text(t.add(&counting(&[2]))), "shape mismatch: [2, 3] vs [2]");
}

#[test]
fn empty_tensors_reduce_and_combine() {
    let e = zeros(&[0, 3]).unwrap();
    assert_eq!(e.sum_all().unwrap().to_vec().f32s(), [0.0]);
    assert_eq!(e.reduce(ReduceKind::Sum, 0, false).unwrap().to_vec().f32s(), [0.0; 3]);
    let row = counting(&[1, 3]);
    let out = e.add(&row).unwrap();
    assert_eq!(out.shape(), &[0, 3]);
    assert!(out.to_vec().is_empty());
    let product = e.matmul(&counting(&[3, 2])).unwrap();
    assert_eq!(product.shape(), &[0, 2]);
    let inner = zeros(&[2, 0]).unwrap().matmul(&zeros(&[0, 2]).unwrap()).unwrap();
    assert_eq!(inner.to_vec().f32s(), [0.0; 4]);
}

#[test]
fn large_elementwise_work_matches_its_formula() {
    // Large enough for the thread pool.
    let n = 200_000i64;
    let t = counting(&[n]);
    let sq = t.unary_op("square").unwrap().to_vec().f32s();
    for i in [0usize, 1, 1000, 77_777, 199_999] {
        assert_eq!(sq[i], i as f32 * i as f32);
    }
    let wide = counting(&[500, 400]);
    let sums = wide.reduce(ReduceKind::Max, 1, false).unwrap().to_vec().f32s();
    for (row, top) in sums.iter().enumerate() {
        assert_eq!(*top, (row * 400 + 399) as f32);
    }
}

#[test]
fn every_named_unary_op_is_its_formula() {
    let x = 0.7f32;
    let cases: [(&str, f32); 16] = [
        ("neg", -x),
        ("abs", x),
        ("sqrt", x.sqrt()),
        ("exp", x.exp()),
        ("log", x.ln()),
        ("log2", x.log2()),
        ("log10", x.log10()),
        ("sin", x.sin()),
        ("cos", x.cos()),
        ("tanh", x.tanh()),
        ("relu", x),
        ("sigmoid", 1.0 / (1.0 + (-x).exp())),
        ("square", x * x),
        ("floor", 0.0),
        ("ceil", 1.0),
        ("sign", 1.0),
    ];
    let t = from_vec(&[1], vec![x]).unwrap();
    for (name, want) in cases {
        let got = t.unary_op(name).unwrap().to_vec().f32s()[0];
        assert!((got - want).abs() < 1e-6, "{name}: {got} vs {want}");
    }
}

#[test]
fn tensors_are_shown_by_rank() {
    assert_eq!(full(&[], 7.5).unwrap().to_string(), "7.5");
    assert_eq!(
        from_vec(&[3], vec![1.0, 2.5, -3.0]).unwrap().to_string(),
        "Tensor(shape=[3], dtype=float32)\n  [0] 1\n  [1] 2.5\n  [2] -3\n"
    );
    assert_eq!(
        counting(&[8]).to_string(),
        "Tensor(shape=[8], dtype=float32)\n  [0] 0\n  [1] 1\n  [2] 2\n  [3] 3\n  [4] 4\n  [5] 5\n  ... (2 more)\n"
    );
    assert_eq!(
        counting(&[2, 2]).to_string(),
        "Tensor(shape=[2, 2], dtype=float32)\n  [0.0, 1.0]\n  [2.0, 3.0]\n"
    );
    assert_eq!(
        counting(&[7, 1]).to_string(),
        "Tensor(shape=[7, 1], dtype=float32)\n  [0.0]\n  [1.0]\n  [2.0]\n  [3.0]\n  [4.0]\n  [5.0]\n  ... (1 more rows)\n"
    );
}

#[test]
fn the_pool_keeps_results_in_place() {
    // Below and above the size at which the pool is used.
    for n in [0usize, 10, 5000] {
        assert_eq!(
            maybe_parallel(n, |i| i * 3),
            (0..n).map(|i| i * 3).collect::<Vec<_>>()
        );
    }
}

#[test]
fn batched_products_are_products_per_batch() {
    let a = counting(&[3, 2, 4]);
    let b = counting(&[3, 4, 5]);
    let out = a.bmm(&b).unwrap();
    for q in 0..3 {
        let one = a.select(0, q).unwrap().matmul(&b.select(0, q).unwrap()).unwrap();
        assert_eq!(out.select(0, q).unwrap().to_vec(), one.to_vec());
    }
}

#[test]
fn binary_ops_have_identities() {
    assert_eq!(find_binary_op("add").unwrap().identity::<F32>(), F32(0.0));
    assert_eq!(find_binary_op("mul").unwrap().identity::<F32>(), F32(1.0));
    let t = counting(&[3]);
    assert_eq!(
        t.apply_unary("square").unwrap().to_vec().f32s(),
        [0.0, 1.0, 4.0]
    );
}

#[test]
fn walking_a_shape_visits_row_major_positions() {
    let shape = [2usize, 3, 2];
    let strides = row_major_strides(&shape);
    let mut idx = vec![0usize; 3];
    for pos in 0..element_count(&shape) {
        assert_eq!(offset_of(&idx, &strides), pos);
        advance(&mut idx, &shape);
    }
    assert_eq!(idx, [0, 0, 0]);
}

#[test]
fn unknown_names_are_quoted() {
    let t = counting(&[1]);
    assert_eq!(
        t.unary_op("a\"b\n").err().unwrap().to_string(),
        "invalid argument: unknown unary op \"a\\\"b\\n\""
    );
}

#[test]
fn slice_steps_must_be_positive() {
    let t = from_vec(&[6], vec![1.0, 2.0, 3.0, 4.0, 5.0, 6.0]).unwrap();
    assert_eq!(t.narrow(0, 0, 6, 2).unwrap().to_vec().f32s(), [1.0, 3.0, 5.0]);
    for by in [0, -1, i64::MIN] {
        let err = t.narrow(0, 0, 6, by).err().unwrap();
        assert!(matches!(err, OxitorchError::InvalidArgument(_)));
    }
    let err = t.narrow(1, 0, 6, 0).err().unwrap();
    assert!(matches!(err, OxitorchError::InvalidArgument(_)));
}
