//! Types, errors, shapes, layout arithmetic and the element-wise walker.

use oxitorch::error::OxitorchError;
use oxitorch::iterate::{map_n, Operand};
use oxitorch::layout::{
    broadcast_shapes, broadcast_strides, element_count_checked, is_contiguous, normalize_dim,
    normalize_slice, row_major_strides, slice_len, validate_shape,
};
use oxitorch::shape::Shape;
use oxitorch::types::{DType, Device, DeviceType};

#[test]
fn item_sizes_match_spec() {
    assert_eq!(DType::U8.item_size(), 1);
    assert_eq!(DType::Bool.item_size(), 1);
    assert_eq!(DType::I16.item_size(), 2);
    assert_eq!(DType::F16.item_size(), 2);
    assert_eq!(DType::I32.item_size(), 4);
    assert_eq!(DType::F32.item_size(), 4);
    assert_eq!(DType::Bf16.item_size(), 4);
    assert_eq!(DType::I64.item_size(), 8);
    assert_eq!(DType::F64.item_size(), 8);
}

#[test]
fn dtype_kinds_and_names() {
    assert!(DType::F32.is_floating_point());
    assert!(DType::Bf16.is_floating_point());
    assert!(!DType::I64.is_floating_point());
    assert!(DType::I8.is_integer());
    assert!(!DType::Bool.is_integer());
    assert_eq!(DType::Bf16.name(), "bfloat16");
    assert_eq!(DType::default_dtype(), DType::F32);
    assert_eq!(DType::index_dtype(), DType::I64);
}

#[test]
fn device_display_matches_torch_style() {
    assert_eq!(Device::cpu().to_string(), "cpu");
    let cuda = Device {
        device_type: DeviceType::Cuda,
        index: 1,
    };
    assert_eq!(cuda.to_string(), "cuda:1");
    assert!(Device::cpu().is_cpu());
    assert_eq!(Device::default(), Device::cpu());
}

#[test]
fn errors_display_readably() {
    let err = OxitorchError::ShapeMismatch {
        lhs: "[2, 3]".into(),
        rhs: "[4, 5]".into(),
    };
    assert_eq!(err.to_string(), "shape mismatch: [2, 3] vs [4, 5]");
    assert_eq!(
        OxitorchError::NotImplemented("cuda backend".into()).to_string(),
        "not implemented: cuda backend"
    );
}

#[test]
fn strides_for_common_ranks() {
    assert_eq!(
        Shape::new(&[2, 3, 4]).unwrap().row_major_strides(),
        [12, 4, 1]
    );
    assert_eq!(Shape::new(&[5]).unwrap().row_major_strides(), [1]);
    assert_eq!(
        Shape::new(&[]).unwrap().row_major_strides(),
        Vec::<usize>::new()
    );
}

#[test]
fn element_count() {
    assert_eq!(Shape::new(&[2, 3, 4]).unwrap().element_count(), 24);
    assert_eq!(Shape::new(&[]).unwrap().element_count(), 1);
    assert_eq!(Shape::new(&[0, 7]).unwrap().element_count(), 0);
}

#[test]
fn rejects_bad_dims() {
    assert!(Shape::new(&[-2, 3]).is_err());
    assert!(Shape::new(&[i64::MAX; 3]).is_err());
}

#[test]
fn row_major_strides_basic() {
    assert_eq!(row_major_strides(&[2, 3, 4]), [12, 4, 1]);
    assert_eq!(row_major_strides(&[5]), [1]);
    assert_eq!(row_major_strides(&[]), Vec::<usize>::new());
    assert_eq!(row_major_strides(&[0, 7]), [7, 1]);
}

#[test]
fn contiguity() {
    assert!(is_contiguous(&[2, 3], &[3, 1]));
    assert!(!is_contiguous(&[2, 3], &[1, 2]));
    assert!(!is_contiguous(&[2, 3], &[3]));
}

#[test]
fn broadcast_shape_cases() {
    assert_eq!(broadcast_shapes(&[2, 3], &[2, 3]).unwrap(), [2, 3]);
    assert_eq!(broadcast_shapes(&[2, 1], &[1, 3]).unwrap(), [2, 3]);
    assert_eq!(broadcast_shapes(&[5, 1, 4], &[3, 1]).unwrap(), [5, 3, 4]);
    assert_eq!(broadcast_shapes(&[3], &[2, 3]).unwrap(), [2, 3]);
    assert_eq!(broadcast_shapes(&[], &[2, 3]).unwrap(), [2, 3]);
    // A vector broadcasts against any leading dims.
    assert_eq!(broadcast_shapes(&[3], &[3, 3]).unwrap(), [3, 3]);
    assert!(broadcast_shapes(&[2, 3], &[4, 3]).is_err());
}

#[test]
fn broadcast_strides_map_to_zero() {
    // [2,1] strides [3,1] -> [2,3]: last dim broadcasts (stride 0).
    assert_eq!(
        broadcast_strides(&[2, 1], &[3, 1], &[2, 3]).unwrap(),
        [3, 0]
    );
    // Leading missing dims get stride 0: [3] -> [2,3].
    assert_eq!(broadcast_strides(&[3], &[1], &[2, 3]).unwrap(), [0, 1]);
}

#[test]
fn slice_math() {
    assert_eq!(normalize_slice(5, 1, 4, 1).unwrap(), (1, 4, 1));
    assert_eq!(normalize_slice(5, -2, 5, 1).unwrap(), (3, 5, 1));
    assert_eq!(normalize_slice(5, 0, -1, 2).unwrap(), (0, 4, 2));
    assert_eq!(normalize_slice(5, 0, 10, 1).unwrap(), (0, 5, 1));
    assert!(normalize_slice(5, 0, 5, -1).is_err());
    assert_eq!(slice_len(1, 4, 1), 3);
    assert_eq!(slice_len(0, 5, 2), 3);
    assert_eq!(slice_len(3, 3, 1), 0);
}

#[test]
fn dim_normalization() {
    assert_eq!(normalize_dim(-1, 3).unwrap(), 2);
    assert_eq!(normalize_dim(0, 3).unwrap(), 0);
    assert!(normalize_dim(3, 3).is_err());
    assert!(normalize_dim(-4, 3).is_err());
}

#[test]
fn validation() {
    assert!(validate_shape(&[2, 3]).is_ok());
    assert!(validate_shape(&[-1]).is_err());
    assert!(validate_shape(&[i64::MAX, i64::MAX]).is_err());
}

#[test]
fn map_n_contiguous_fast_path() {
    let a = [1.0f32, 2.0, 3.0, 4.0];
    let b = [10.0f32, 20.0, 30.0, 40.0];
    let strides = &[2usize, 1]; // canonical row-major for [2, 2]
    let out = map_n(
        &[2, 2],
        &[Operand { data: &a, strides }, Operand { data: &b, strides }],
        |v| v[0] + v[1],
    );
    assert_eq!(out, vec![11.0, 22.0, 33.0, 44.0]);
}

#[test]
fn map_n_broadcast_row_vector() {
    // a: [1, 3] broadcast over [2, 3]; a contiguous strides [3, 1] with
    // dim0 broadcast to 0.
    let a = [1.0f32, 2.0, 3.0];
    let a_strides = [0usize, 1];
    let b = [10.0f32, 20.0, 30.0, 40.0, 50.0, 60.0];
    let b_strides = [3usize, 1];
    let out = map_n(
        &[2, 3],
        &[
            Operand {
                data: &a,
                strides: &a_strides,
            },
            Operand {
                data: &b,
                strides: &b_strides,
            },
        ],
        |v| v[0] * v[1],
    );
    assert_eq!(out, vec![10.0, 40.0, 90.0, 40.0, 100.0, 180.0]);
}

#[test]
fn map_n_transposed_operand() {
    // A [2,2] tensor stored transposed: strides [1, 2] reads column-major.
    let a = [1.0f32, 3.0, 2.0, 4.0]; // logical [1,2;3,4] via strides [1,2]
    let strides = [1usize, 2];
    let out = map_n(
        &[2, 2],
        &[Operand {
            data: &a,
            strides: &strides,
        }],
        |v| v[0],
    );
    assert_eq!(out, vec![1.0, 2.0, 3.0, 4.0]);
}

#[test]
fn map_n_scalar_broadcast() {
    // 0-d operand broadcasts everywhere (stride entry unused).
    let s = [5.0f32];
    let a = [1.0f32, 2.0];
    let a_strides = [1usize];
    // Shape [2]: 0-d operand's strides array is shorter; use zeros.
    let zero_strides = [0usize];
    let out = map_n(
        &[2],
        &[
            Operand {
                data: &s,
                strides: &zero_strides,
            },
            Operand {
                data: &a,
                strides: &a_strides,
            },
        ],
        |v| v[0] + v[1],
    );
    assert_eq!(out, vec![6.0, 7.0]);
}

#[test]
fn every_dtype_has_a_size_and_a_name() {
    let all = [
        (DType::Bool, 1, "bool"),
        (DType::U8, 1, "uint8"),
        (DType::I8, 1, "int8"),
        (DType::I16, 2, "int16"),
        (DType::I32, 4, "int32"),
        (DType::I64, 8, "int64"),
        (DType::F16, 2, "float16"),
        (DType::F32, 4, "float32"),
        (DType::F64, 8, "float64"),
    ];
    for (dtype, size, name) in all {
        assert_eq!(dtype.item_size(), size);
        assert_eq!(dtype.name(), name);
        assert_eq!(dtype.to_string(), name);
    }
}

#[test]
fn device_types_are_named() {
    assert_eq!(DeviceType::Cpu.name(), "cpu");
    assert_eq!(DeviceType::Cuda.name(), "cuda");
    assert_eq!(DeviceType::Cuda.to_string(), "cuda");
    let cuda = Device {
        device_type: DeviceType::Cuda,
        index: 0,
    };
    assert!(!cuda.is_cpu());
    assert_eq!(cuda.to_string(), "cuda:0");
}

#[test]
fn every_error_has_a_message() {
    let cases = [
        (
            OxitorchError::InvalidArgument("x".into()),
            "invalid argument: x",
        ),
        (OxitorchError::OutOfBounds("y".into()), "out of bounds: y"),
        (OxitorchError::Other("z".into()), "z"),
    ];
    for (err, message) in cases {
        assert_eq!(err.to_string(), message);
        assert_eq!(err.clone(), err);
    }
}

#[test]
fn shape_errors_say_what_is_wrong() {
    assert_eq!(
        validate_shape(&[-1]).err().unwrap().to_string(),
        "invalid argument: dimensions must be non-negative, got [-1]"
    );
    assert_eq!(
        broadcast_shapes(&[2, 3], &[4, 3]).err().unwrap(),
        OxitorchError::ShapeMismatch {
            lhs: "[2, 3]".into(),
            rhs: "[4, 3]".into(),
        }
    );
    assert!(element_count_checked(&[usize::MAX, 2]).is_err());
    assert_eq!(element_count_checked(&[usize::MAX, 0]).unwrap(), 0);
    let shape = Shape::new(&[2, 3]).unwrap();
    assert_eq!(shape.ndim(), 2);
    assert_eq!(shape.as_slice(), [2, 3]);
    assert_eq!(shape.as_i64(), [2, 3]);
}

#[test]
fn broadcasting_is_symmetric_and_keeps_equal_shapes() {
    let shapes: [&[usize]; 5] = [&[], &[1], &[3], &[2, 1], &[2, 3]];
    for a in shapes {
        assert_eq!(broadcast_shapes(a, a).unwrap(), a);
        for b in shapes {
            assert_eq!(
                broadcast_shapes(a, b).unwrap(),
                broadcast_shapes(b, a).unwrap()
            );
        }
    }
}

#[test]
fn a_shape_expands_exactly_where_broadcasting_keeps_the_other() {
    assert_eq!(broadcast_strides(&[], &[], &[2, 2]).unwrap(), [0, 0]);
    assert!(broadcast_strides(&[3], &[1], &[2]).is_err());
    assert!(broadcast_strides(&[2, 3], &[3, 1], &[3]).is_err());
    // An empty dim stretches a dim of one and nothing else.
    assert_eq!(broadcast_shapes(&[0], &[1]).unwrap(), [0]);
    assert!(broadcast_shapes(&[0], &[2]).is_err());
}

#[test]
fn slices_select_as_many_entries_as_they_count() {
    for (len, lo, hi, by) in [(5usize, 0i64, 5i64, 2i64), (5, -4, -1, 1), (5, 4, 2, 1), (0, 0, 3, 1)] {
        let (start, stop, step) = normalize_slice(len, lo, hi, by).unwrap();
        let mut picked: usize = 0;
        let mut at = start;
        while at < stop {
            assert!(at < len);
            picked += 1;
            at += step;
        }
        assert_eq!(picked, slice_len(start, stop, step));
    }
    assert_eq!(
        normalize_slice(5, 0, 5, 0).err().unwrap().to_string(),
        "not implemented: negative slice steps are not supported yet"
    );
}

#[test]
fn map_n_on_empty_and_scalar_shapes() {
    let a = [1u32, 2];
    let none: [usize; 0] = [];
    let out = map_n(
        &[0, 3],
        &[Operand {
            data: &a,
            strides: &[3, 1],
        }],
        |v| v[0],
    );
    assert!(out.is_empty());
    let out = map_n(
        &none,
        &[Operand {
            data: &a,
            strides: &none,
        }],
        |v| v[0] + 10,
    );
    assert_eq!(out, [11]);
}
