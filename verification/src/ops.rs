//! Elementwise kernels, the op registry and the reduction kernels.

use vstd::prelude::*;
use vstd::string::*;
use crate::elem::{
    Elem, argmax_of, argmin_of, is_argmax, is_argmin, is_max, is_mean, is_min, is_norm, is_one,
    is_sum, is_zero, max_of, mean_of, min_of, norm_of, sum_of,
};
use crate::error::{ErrorText, OxitorchError, OxitorchResult};
use crate::text::same_text;
use crate::types::{DType, Device, DeviceType};

verus! {

/// `m * k * n` work estimates at or above this use parallel row-block GEMM.
/// Below it, thread-fanout overhead exceeds the savings.
pub const PARALLEL_GEMM_THRESHOLD_ELEMENTS: usize = 8_388_608;

/// The binary elementwise kernels.
#[derive(Debug, Clone, Copy, PartialEq, Eq, Structural)]
pub enum BinaryOp {
    /// `add`.
    Add,
    /// `sub`.
    Sub,
    /// `mul`.
    Mul,
    /// `div`.
    Div,
    /// `pow`.
    Pow,
    /// `min`.
    Min,
    /// `max`.
    Max,
}

impl BinaryOp {
    /// The registry name.
    pub open spec fn label(self) -> Seq<char> {
        match self {
            BinaryOp::Add => "add"@,
            BinaryOp::Sub => "sub"@,
            BinaryOp::Mul => "mul"@,
            BinaryOp::Div => "div"@,
            BinaryOp::Pow => "pow"@,
            BinaryOp::Min => "min"@,
            BinaryOp::Max => "max"@,
        }
    }

    /// `r` is what the op gives for `a` and `b`.
    pub open spec fn gives<E: Elem>(self, a: E, b: E, r: E) -> bool {
        match self {
            BinaryOp::Add => call_ensures(E::plus, (a, b), r),
            BinaryOp::Sub => call_ensures(E::minus, (a, b), r),
            BinaryOp::Mul => call_ensures(E::times, (a, b), r),
            BinaryOp::Div => call_ensures(E::divide, (a, b), r),
            BinaryOp::Pow => call_ensures(E::power, (a, b), r),
            BinaryOp::Min => call_ensures(E::smaller, (a, b), r),
            BinaryOp::Max => call_ensures(E::larger, (a, b), r),
        }
    }

    /// The op on `a` and `b`.
    pub fn apply<E: Elem>(self, a: E, b: E) -> (r: E)
        ensures
            self.gives(a, b, r),
    {
        match self {
            BinaryOp::Add => E::plus(a, b),
            BinaryOp::Sub => E::minus(a, b),
            BinaryOp::Mul => E::times(a, b),
            BinaryOp::Div => E::divide(a, b),
            BinaryOp::Pow => E::power(a, b),
            BinaryOp::Min => E::smaller(a, b),
            BinaryOp::Max => E::larger(a, b),
        }
    }
}

/// The comparison kernels.
#[derive(Debug, Clone, Copy, PartialEq, Eq, Structural)]
pub enum ComparisonOp {
    /// `eq`.
    Eq,
    /// `ne`.
    Ne,
    /// `lt`.
    Lt,
    /// `le`.
    Le,
    /// `gt`.
    Gt,
    /// `ge`.
    Ge,
}

impl ComparisonOp {
    /// The registry name.
    pub open spec fn label(self) -> Seq<char> {
        match self {
            ComparisonOp::Eq => "eq"@,
            ComparisonOp::Ne => "ne"@,
            ComparisonOp::Lt => "lt"@,
            ComparisonOp::Le => "le"@,
            ComparisonOp::Gt => "gt"@,
            ComparisonOp::Ge => "ge"@,
        }
    }

    /// `r` is what the op says of `a` and `b`.
    pub open spec fn says<E: Elem>(self, a: E, b: E, r: bool) -> bool {
        match self {
            ComparisonOp::Eq => call_ensures(E::equal, (a, b), r),
            ComparisonOp::Ne => call_ensures(E::equal, (a, b), !r),
            ComparisonOp::Lt => call_ensures(E::less, (a, b), r),
            ComparisonOp::Le => call_ensures(E::less_equal, (a, b), r),
            ComparisonOp::Gt => call_ensures(E::less, (b, a), r),
            ComparisonOp::Ge => call_ensures(E::less_equal, (b, a), r),
        }
    }

    /// The op on `a` and `b`.
    pub fn apply<E: Elem>(self, a: E, b: E) -> (r: bool)
        ensures
            self.says(a, b, r),
    {
        match self {
            ComparisonOp::Eq => E::equal(a, b),
            ComparisonOp::Ne => !E::equal(a, b),
            ComparisonOp::Lt => E::less(a, b),
            ComparisonOp::Le => E::less_equal(a, b),
            ComparisonOp::Gt => E::less(b, a),
            ComparisonOp::Ge => E::less_equal(b, a),
        }
    }
}

/// The unary elementwise kernels.
#[derive(Debug, Clone, Copy, PartialEq, Eq, Structural)]
pub enum UnaryOp {
    /// `neg`.
    Neg,
    /// `abs`.
    Abs,
    /// `sqrt`.
    Sqrt,
    /// `rsqrt`.
    Rsqrt,
    /// `exp`.
    Exp,
    /// `log`.
    Log,
    /// `log2`.
    Log2,
    /// `log10`.
    Log10,
    /// `sin`.
    Sin,
    /// `cos`.
    Cos,
    /// `tanh`.
    Tanh,
    /// `relu`.
    Relu,
    /// `sigmoid`.
    Sigmoid,
    /// `floor`.
    Floor,
    /// `ceil`.
    Ceil,
    /// `round`.
    Round,
    /// `sign`.
    Sign,
    /// `square`.
    Square,
    /// `reciprocal`.
    Reciprocal,
}

impl UnaryOp {
    /// The registry name.
    pub open spec fn label(self) -> Seq<char> {
        match self {
            UnaryOp::Neg => "neg"@,
            UnaryOp::Abs => "abs"@,
            UnaryOp::Sqrt => "sqrt"@,
            UnaryOp::Rsqrt => "rsqrt"@,
            UnaryOp::Exp => "exp"@,
            UnaryOp::Log => "log"@,
            UnaryOp::Log2 => "log2"@,
            UnaryOp::Log10 => "log10"@,
            UnaryOp::Sin => "sin"@,
            UnaryOp::Cos => "cos"@,
            UnaryOp::Tanh => "tanh"@,
            UnaryOp::Relu => "relu"@,
            UnaryOp::Sigmoid => "sigmoid"@,
            UnaryOp::Floor => "floor"@,
            UnaryOp::Ceil => "ceil"@,
            UnaryOp::Round => "round"@,
            UnaryOp::Sign => "sign"@,
            UnaryOp::Square => "square"@,
            UnaryOp::Reciprocal => "reciprocal"@,
        }
    }

    /// `r` is what the op gives for `a`.
    pub open spec fn gives<E: Elem>(self, a: E, r: E) -> bool {
        match self {
            UnaryOp::Neg => call_ensures(E::negate, (a,), r),
            UnaryOp::Abs => call_ensures(E::magnitude, (a,), r),
            UnaryOp::Sqrt => call_ensures(E::sqrt, (a,), r),
            UnaryOp::Rsqrt => exists|s: E|
                #![trigger call_ensures(E::sqrt, (a,), s)]
                call_ensures(E::sqrt, (a,), s) && is_reciprocal(s, r),
            UnaryOp::Exp => call_ensures(E::exp, (a,), r),
            UnaryOp::Log => call_ensures(E::ln, (a,), r),
            UnaryOp::Log2 => call_ensures(E::log2, (a,), r),
            UnaryOp::Log10 => call_ensures(E::log10, (a,), r),
            UnaryOp::Sin => call_ensures(E::sin, (a,), r),
            UnaryOp::Cos => call_ensures(E::cos, (a,), r),
            UnaryOp::Tanh => call_ensures(E::tanh, (a,), r),
            UnaryOp::Relu => exists|z: E| is_zero(z) && #[trigger] call_ensures(E::larger, (a, z), r),
            UnaryOp::Sigmoid => is_sigmoid(a, r),
            UnaryOp::Floor => call_ensures(E::floor, (a,), r),
            UnaryOp::Ceil => call_ensures(E::ceil, (a,), r),
            UnaryOp::Round => call_ensures(E::round, (a,), r),
            UnaryOp::Sign => call_ensures(E::signum, (a,), r),
            UnaryOp::Square => call_ensures(E::times, (a, a), r),
            UnaryOp::Reciprocal => is_reciprocal(a, r),
        }
    }

    /// The op on `a`.
    pub fn apply<E: Elem>(self, a: E) -> (r: E)
        ensures
            self.gives(a, r),
    {
        match self {
            UnaryOp::Neg => E::negate(a),
            UnaryOp::Abs => E::magnitude(a),
            UnaryOp::Sqrt => E::sqrt(a),
            UnaryOp::Rsqrt => reciprocal_of(E::sqrt(a)),
            UnaryOp::Exp => E::exp(a),
            UnaryOp::Log => E::ln(a),
            UnaryOp::Log2 => E::log2(a),
            UnaryOp::Log10 => E::log10(a),
            UnaryOp::Sin => E::sin(a),
            UnaryOp::Cos => E::cos(a),
            UnaryOp::Tanh => E::tanh(a),
            UnaryOp::Relu => {
                let z = E::zero();
                E::larger(a, z)
            },
            UnaryOp::Sigmoid => sigmoid_of(a),
            UnaryOp::Floor => E::floor(a),
            UnaryOp::Ceil => E::ceil(a),
            UnaryOp::Round => E::round(a),
            UnaryOp::Sign => E::signum(a),
            UnaryOp::Square => E::times(a, a),
            UnaryOp::Reciprocal => reciprocal_of(a),
        }
    }
}

/// `r` is `1 / a`.
pub open spec fn is_reciprocal<E: Elem>(a: E, r: E) -> bool {
    exists|o: E| is_one(o) && #[trigger] call_ensures(E::divide, (o, a), r)
}

/// `r` is `1 / (1 + exp(-a))`.
pub open spec fn is_sigmoid<E: Elem>(a: E, r: E) -> bool {
    exists|n: E, x: E, o: E, d: E|
        #![trigger call_ensures(E::negate, (a,), n), call_ensures(E::exp, (n,), x), call_ensures(E::plus, (o, x), d)]
        call_ensures(E::negate, (a,), n) && call_ensures(E::exp, (n,), x) && is_one(o)
            && call_ensures(E::plus, (o, x), d) && is_reciprocal(d, r)
}

fn reciprocal_of<E: Elem>(a: E) -> (r: E)
    ensures
        is_reciprocal(a, r),
{
    let o = E::one();
    E::divide(o, a)
}

fn sigmoid_of<E: Elem>(a: E) -> (r: E)
    ensures
        is_sigmoid(a, r),
{
    let n = E::negate(a);
    let x = E::exp(n);
    let o = E::one();
    let d = E::plus(o, x);
    reciprocal_of(d)
}

/// Registry entry for a binary op.
#[derive(Debug, Clone, Copy)]
pub struct BinaryOpSpec {
    /// Registry name (e.g. `"add"`).
    pub name: &'static str,
    /// The kernel.
    pub op: BinaryOp,
}

impl BinaryOpSpec {
    /// The kernel on a pair of values.
    pub fn f<E: Elem>(&self, v: &[E]) -> (r: E)
        requires
            v.len() >= 2,
        ensures
            self.op.gives(v@[0], v@[1], r),
    {
        self.op.apply(v[0], v[1])
    }

    /// `r` is the op's reduction identity.
    pub open spec fn is_identity<E: Elem>(self, r: E) -> bool {
        match self.op {
            BinaryOp::Add => call_ensures(E::zero, (), r),
            BinaryOp::Sub => call_ensures(E::zero, (), r),
            BinaryOp::Mul => call_ensures(E::one, (), r),
            BinaryOp::Div => call_ensures(E::one, (), r),
            BinaryOp::Pow => call_ensures(E::one, (), r),
            BinaryOp::Min => call_ensures(E::infinity, (), r),
            BinaryOp::Max => call_ensures(E::neg_infinity, (), r),
        }
    }

    /// Reduction identity of the op.
    pub fn identity<E: Elem>(&self) -> (r: E)
        ensures
            self.is_identity(r),
    {
        match self.op {
            BinaryOp::Add => E::zero(),
            BinaryOp::Sub => E::zero(),
            BinaryOp::Mul => E::one(),
            BinaryOp::Div => E::one(),
            BinaryOp::Pow => E::one(),
            BinaryOp::Min => E::infinity(),
            BinaryOp::Max => E::neg_infinity(),
        }
    }
}

/// Registry entry for a comparison op.
#[derive(Debug, Clone, Copy)]
pub struct CmpOpSpec {
    /// Registry name (e.g. `"eq"`).
    pub name: &'static str,
    /// The kernel.
    pub op: ComparisonOp,
}

impl CmpOpSpec {
    /// The kernel on a pair of values.
    pub fn f<E: Elem>(&self, v: &[E]) -> (r: bool)
        requires
            v.len() >= 2,
        ensures
            self.op.says(v@[0], v@[1], r),
    {
        self.op.apply(v[0], v[1])
    }
}

/// Registry entry for a unary op.
#[derive(Debug, Clone, Copy)]
pub struct UnaryOpSpec {
    /// Registry name (e.g. `"sqrt"`).
    pub name: &'static str,
    /// The kernel.
    pub op: UnaryOp,
}

impl UnaryOpSpec {
    /// The kernel on one value.
    pub fn f<E: Elem>(&self, a: E) -> (r: E)
        ensures
            self.op.gives(a, r),
    {
        self.op.apply(a)
    }
}

/// Looks up a binary op by name.
#[must_use]
pub fn find_binary_op(name: &str) -> (r: Option<BinaryOpSpec>)
    ensures
        match r {
            Some(s) => s.name@ == name@ && s.op.label() == name@,
            None => forall|op: BinaryOp| #[trigger] op.label() != name@,
        },
{
    if same_text(name, "add") {
        Some(BinaryOpSpec { name: "add", op: BinaryOp::Add })
    } else if same_text(name, "sub") {
        Some(BinaryOpSpec { name: "sub", op: BinaryOp::Sub })
    } else if same_text(name, "mul") {
        Some(BinaryOpSpec { name: "mul", op: BinaryOp::Mul })
    } else if same_text(name, "div") {
        Some(BinaryOpSpec { name: "div", op: BinaryOp::Div })
    } else if same_text(name, "pow") {
        Some(BinaryOpSpec { name: "pow", op: BinaryOp::Pow })
    } else if same_text(name, "min") {
        Some(BinaryOpSpec { name: "min", op: BinaryOp::Min })
    } else if same_text(name, "max") {
        Some(BinaryOpSpec { name: "max", op: BinaryOp::Max })
    } else {
        None
    }
}

/// Looks up a comparison op by name.
#[must_use]
pub fn find_cmp_op(name: &str) -> (r: Option<CmpOpSpec>)
    ensures
        match r {
            Some(s) => s.name@ == name@ && s.op.label() == name@,
            None => forall|op: ComparisonOp| #[trigger] op.label() != name@,
        },
{
    if same_text(name, "eq") {
        Some(CmpOpSpec { name: "eq", op: ComparisonOp::Eq })
    } else if same_text(name, "ne") {
        Some(CmpOpSpec { name: "ne", op: ComparisonOp::Ne })
    } else if same_text(name, "lt") {
        Some(CmpOpSpec { name: "lt", op: ComparisonOp::Lt })
    } else if same_text(name, "le") {
        Some(CmpOpSpec { name: "le", op: ComparisonOp::Le })
    } else if same_text(name, "gt") {
        Some(CmpOpSpec { name: "gt", op: ComparisonOp::Gt })
    } else if same_text(name, "ge") {
        Some(CmpOpSpec { name: "ge", op: ComparisonOp::Ge })
    } else {
        None
    }
}

/// Looks up a unary op by name.
#[must_use]
pub fn find_unary_op(name: &str) -> (r: Option<UnaryOpSpec>)
    ensures
        match r {
            Some(s) => s.name@ == name@ && s.op.label() == name@,
            None => forall|op: UnaryOp| #[trigger] op.label() != name@,
        },
{
    if same_text(name, "neg") {
        Some(UnaryOpSpec { name: "neg", op: UnaryOp::Neg })
    } else if same_text(name, "abs") {
        Some(UnaryOpSpec { name: "abs", op: UnaryOp::Abs })
    } else if same_text(name, "sqrt") {
        Some(UnaryOpSpec { name: "sqrt", op: UnaryOp::Sqrt })
    } else if same_text(name, "rsqrt") {
        Some(UnaryOpSpec { name: "rsqrt", op: UnaryOp::Rsqrt })
    } else if same_text(name, "exp") {
        Some(UnaryOpSpec { name: "exp", op: UnaryOp::Exp })
    } else if same_text(name, "log") {
        Some(UnaryOpSpec { name: "log", op: UnaryOp::Log })
    } else if same_text(name, "log2") {
        Some(UnaryOpSpec { name: "log2", op: UnaryOp::Log2 })
    } else if same_text(name, "log10") {
        Some(UnaryOpSpec { name: "log10", op: UnaryOp::Log10 })
    } else if same_text(name, "sin") {
        Some(UnaryOpSpec { name: "sin", op: UnaryOp::Sin })
    } else if same_text(name, "cos") {
        Some(UnaryOpSpec { name: "cos", op: UnaryOp::Cos })
    } else if same_text(name, "tanh") {
        Some(UnaryOpSpec { name: "tanh", op: UnaryOp::Tanh })
    } else if same_text(name, "relu") {
        Some(UnaryOpSpec { name: "relu", op: UnaryOp::Relu })
    } else if same_text(name, "sigmoid") {
        Some(UnaryOpSpec { name: "sigmoid", op: UnaryOp::Sigmoid })
    } else if same_text(name, "floor") {
        Some(UnaryOpSpec { name: "floor", op: UnaryOp::Floor })
    } else if same_text(name, "ceil") {
        Some(UnaryOpSpec { name: "ceil", op: UnaryOp::Ceil })
    } else if same_text(name, "round") {
        Some(UnaryOpSpec { name: "round", op: UnaryOp::Round })
    } else if same_text(name, "sign") {
        Some(UnaryOpSpec { name: "sign", op: UnaryOp::Sign })
    } else if same_text(name, "square") {
        Some(UnaryOpSpec { name: "square", op: UnaryOp::Square })
    } else if same_text(name, "reciprocal") {
        Some(UnaryOpSpec { name: "reciprocal", op: UnaryOp::Reciprocal })
    } else {
        None
    }
}

/// Reduction kinds supported by [`crate::tensor::Tensor`] methods.
#[derive(Debug, Clone, Copy, PartialEq, Eq, Structural)]
pub enum ReduceKind {
    /// Sum of elements.
    Sum,
    /// Arithmetic mean.
    Mean,
    /// Maximum element.
    Max,
    /// Minimum element.
    Min,
    /// Index of the maximum element.
    ArgMax,
    /// Index of the minimum element.
    ArgMin,
    /// Euclidean (L2) norm.
    Norm,
}

/// The complaint about a reduction that has no value on empty data.
pub open spec fn empty_reduction_error() -> ErrorText {
    ErrorText::InvalidArgument("cannot compute min/max/argmax/argmin over an empty reduction"@)
}

impl ReduceKind {
    /// The reduction has a value for an empty strip.
    pub open spec fn has_empty_value(self) -> bool {
        self == ReduceKind::Sum || self == ReduceKind::Mean || self == ReduceKind::Norm
    }

    /// `r` is the reduction of the strip `s`.
    pub open spec fn gives<E: Elem>(self, s: Seq<E>, r: E) -> bool {
        if s.len() == 0 {
            self.has_empty_value() && is_zero(r)
        } else {
            match self {
                ReduceKind::Sum => is_sum(s, r),
                ReduceKind::Mean => is_mean(s, r),
                ReduceKind::Max => is_max(s, r),
                ReduceKind::Min => is_min(s, r),
                ReduceKind::ArgMax => exists|i: usize|
                    #![trigger call_ensures(E::from_count, (i,), r)]
                    i < s.len() && is_argmax(s, i as int) && call_ensures(E::from_count, (i,), r),
                ReduceKind::ArgMin => exists|i: usize|
                    #![trigger call_ensures(E::from_count, (i,), r)]
                    i < s.len() && is_argmin(s, i as int) && call_ensures(E::from_count, (i,), r),
                ReduceKind::Norm => is_norm(s, r),
            }
        }
    }

    /// Reduces a strip that the reduction has a value for.
    pub(crate) fn reduce_known<E: Elem>(self, data: &[E]) -> (r: E)
        requires
            data.len() > 0 || self.has_empty_value(),
        ensures
            self.gives(data@, r),
    {
        if data.len() == 0 {
            return E::zero();
        }
        match self {
            ReduceKind::Sum => sum_of(data),
            ReduceKind::Mean => mean_of(data),
            ReduceKind::Max => max_of(data),
            ReduceKind::Min => min_of(data),
            ReduceKind::ArgMax => E::from_count(argmax_of(data)),
            ReduceKind::ArgMin => E::from_count(argmin_of(data)),
            ReduceKind::Norm => norm_of(data),
        }
    }

    /// Reduces one contiguous strip `data` to its scalar result.
    ///
    /// Fails with [`OxitorchError::InvalidArgument`] for min/max/arg* over
    /// empty data.
    pub fn reduce_strip<E: Elem>(self, data: &[E]) -> (r: OxitorchResult<E>)
        ensures
            match r {
                Ok(v) => self.gives(data@, v),
                Err(e) => data.len() == 0 && !self.has_empty_value() && e@
                    == empty_reduction_error(),
            },
    {
        if data.len() == 0 && !self.allows_empty() {
            return Err(
                OxitorchError::InvalidArgument(
                    "cannot compute min/max/argmax/argmin over an empty reduction".to_string(),
                ),
            );
        }
        Ok(self.reduce_known(data))
    }

    /// Whether the reduction has a value for an empty strip.
    pub(crate) fn allows_empty(self) -> (r: bool)
        ensures
            r == self.has_empty_value(),
    {
        matches!(self, ReduceKind::Sum | ReduceKind::Mean | ReduceKind::Norm)
    }

    /// Whether the output holds indices (argmax/argmin) instead of elements.
    #[must_use]
    pub fn is_index_output(self) -> (r: bool)
        ensures
            r == (self == ReduceKind::ArgMax || self == ReduceKind::ArgMin),
    {
        matches!(self, ReduceKind::ArgMax | ReduceKind::ArgMin)
    }
}

/// The device-backend seam: identity plus a capability probe. The CPU comes
/// first; GPU backends slot in behind the same trait.
pub trait DeviceBackend: Send + Sync {
    /// Backend name (e.g. `"cpu"`).
    fn name(&self) -> &'static str;

    /// The device this backend serves.
    fn device(&self) -> Device;

    /// Whether this backend stores `dtype` natively.
    fn supports_dtype(&self, dtype: DType) -> bool;
}

/// The CPU backend.
#[derive(Debug, Clone, Copy)]
pub struct CpuBackend;

impl Default for CpuBackend {
    fn default() -> (r: Self)
        ensures
            r == CpuBackend,
    {
        CpuBackend
    }
}

impl DeviceBackend for CpuBackend {
    fn name(&self) -> (r: &'static str)
        ensures
            r@ == "cpu"@,
    {
        "cpu"
    }

    fn device(&self) -> (r: Device)
        ensures
            r == (Device { device_type: DeviceType::Cpu, index: 0 }),
    {
        Device::cpu()
    }

    /// Half-precision dtypes are storage only; everything else is native.
    fn supports_dtype(&self, dtype: DType) -> (r: bool)
        ensures
            r == !(dtype == DType::F16 || dtype == DType::Bf16),
    {
        !matches!(dtype, DType::F16 | DType::Bf16)
    }
}

} // verus!
