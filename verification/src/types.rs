//! Element types and devices.

use vstd::prelude::*;
use vstd::string::*;
use crate::text::{join3, nat_text, usize_string};
use crate::text::laws::{digit_value, law_decimal_reads_back, spelled};

verus! {

/// Element types supported by tensors.
///
/// `bf16`/`f16` are storage dtypes first; compute is promoted to `f32`.
#[derive(Debug, Clone, Copy, PartialEq, Eq, Hash, PartialOrd, Ord, Structural)]
pub enum DType {
    /// Unsigned 8-bit integer.
    U8,
    /// Signed 8-bit integer.
    I8,
    /// Signed 16-bit integer.
    I16,
    /// Signed 32-bit integer.
    I32,
    /// Signed 64-bit integer.
    I64,
    /// IEEE 754 half-precision float (storage; compute promotes to f32).
    F16,
    /// IEEE 754 single-precision float (the default compute dtype).
    F32,
    /// IEEE 754 double-precision float.
    F64,
    /// Brain floating point (storage; compute promotes to f32).
    Bf16,
    /// Boolean (stored as one byte, values 0 or 1).
    Bool,
}

impl DType {
    /// The bytes one element takes.
    pub open spec fn bytes(self) -> nat {
        match self {
            DType::U8 | DType::I8 | DType::Bool => 1,
            DType::I16 | DType::F16 => 2,
            DType::I32 | DType::F32 | DType::Bf16 => 4,
            DType::I64 | DType::F64 => 8,
        }
    }

    /// The short name.
    pub open spec fn label(self) -> Seq<char> {
        match self {
            DType::U8 => "uint8"@,
            DType::I8 => "int8"@,
            DType::I16 => "int16"@,
            DType::I32 => "int32"@,
            DType::I64 => "int64"@,
            DType::F16 => "float16"@,
            DType::F32 => "float32"@,
            DType::F64 => "float64"@,
            DType::Bf16 => "bfloat16"@,
            DType::Bool => "bool"@,
        }
    }

    /// Size of one element of this dtype in bytes.
    #[must_use]
    pub fn item_size(self) -> (r: usize)
        ensures
            r == self.bytes(),
    {
        match self {
            DType::U8 | DType::I8 | DType::Bool => 1,
            DType::I16 | DType::F16 => 2,
            DType::I32 | DType::F32 | DType::Bf16 => 4,
            DType::I64 | DType::F64 => 8,
        }
    }

    /// Whether this dtype represents floating-point values.
    #[must_use]
    pub fn is_floating_point(self) -> (r: bool)
        ensures
            r == (self == DType::F16 || self == DType::F32 || self == DType::F64 || self
                == DType::Bf16),
    {
        matches!(self, DType::F16 | DType::F32 | DType::F64 | DType::Bf16)
    }

    /// Whether this dtype represents signed or unsigned integers.
    #[must_use]
    pub fn is_integer(self) -> (r: bool)
        ensures
            r == (self == DType::U8 || self == DType::I8 || self == DType::I16 || self == DType::I32
                || self == DType::I64),
    {
        matches!(self, DType::U8 | DType::I8 | DType::I16 | DType::I32 | DType::I64)
    }

    /// The dtype used for index tensors (mirrors `torch.int64`).
    #[must_use]
    pub fn index_dtype() -> (r: Self)
        ensures
            r == DType::I64,
    {
        DType::I64
    }

    /// The dtype that new tensors default to (mirrors
    /// `torch.get_default_dtype()`, pinned to f32 for now).
    #[must_use]
    pub fn default_dtype() -> (r: Self)
        ensures
            r == DType::F32,
    {
        DType::F32
    }

    /// Short name, matching the `torch.*` naming (`float32`, `int64`, ...).
    #[must_use]
    pub fn name(self) -> (r: &'static str)
        ensures
            r@ == self.label(),
    {
        match self {
            DType::U8 => "uint8",
            DType::I8 => "int8",
            DType::I16 => "int16",
            DType::I32 => "int32",
            DType::I64 => "int64",
            DType::F16 => "float16",
            DType::F32 => "float32",
            DType::F64 => "float64",
            DType::Bf16 => "bfloat16",
            DType::Bool => "bool",
        }
    }

    /// The dtype as shown to a user: its short name.
    pub fn to_string(&self) -> (r: String)
        ensures
            r@ == self.label(),
    {
        (*self).name().to_string()
    }
}

/// Device families a tensor can live on.
///
/// Only [`DeviceType::Cpu`] is implemented; the enum names the GPU families
/// so that their backends slot in later without an API break.
#[derive(Debug, Clone, Copy, PartialEq, Eq, Hash, Structural)]
pub enum DeviceType {
    /// Host CPU.
    Cpu,
    /// wgpu-backed GPU (Vulkan/Metal/DX12/WebGPU).
    Wgpu,
    /// NVIDIA CUDA GPU.
    Cuda,
}

impl DeviceType {
    /// The short name.
    pub open spec fn label(self) -> Seq<char> {
        match self {
            DeviceType::Cpu => "cpu"@,
            DeviceType::Wgpu => "wgpu"@,
            DeviceType::Cuda => "cuda"@,
        }
    }

    /// Short name matching `torch.device` (`"cpu"`, `"cuda"`, ...).
    #[must_use]
    pub fn name(self) -> (r: &'static str)
        ensures
            r@ == self.label(),
    {
        match self {
            DeviceType::Cpu => "cpu",
            DeviceType::Wgpu => "wgpu",
            DeviceType::Cuda => "cuda",
        }
    }

    /// The family as shown to a user: its short name.
    pub fn to_string(&self) -> (r: String)
        ensures
            r@ == self.label(),
    {
        (*self).name().to_string()
    }
}

/// A specific device, e.g. `cpu` or `cuda:0`.
#[derive(Debug, Clone, Copy, PartialEq, Eq, Hash, Structural)]
pub struct Device {
    /// Device family.
    pub device_type: DeviceType,
    /// Device index (always 0 for the CPU).
    pub index: usize,
}

impl Device {
    /// `cpu` for the host, `family:index` for anything else.
    pub open spec fn label(self) -> Seq<char> {
        if self.device_type == DeviceType::Cpu {
            "cpu"@
        } else {
            self.device_type.label() + ":"@ + nat_text(self.index as nat)
        }
    }

    /// The default device: `cpu:0`.
    #[must_use]
    pub fn cpu() -> (r: Self)
        ensures
            r == (Device { device_type: DeviceType::Cpu, index: 0 }),
    {
        Device { device_type: DeviceType::Cpu, index: 0 }
    }

    /// Whether this device is the host CPU.
    #[must_use]
    pub fn is_cpu(self) -> (r: bool)
        ensures
            r == (self.device_type == DeviceType::Cpu),
    {
        matches!(self.device_type, DeviceType::Cpu)
    }

    /// The device as shown to a user: `cpu`, or e.g. `cuda:1`.
    pub fn to_string(&self) -> (r: String)
        ensures
            r@ == self.label(),
    {
        if self.is_cpu() {
            "cpu".to_string()
        } else {
            join3(self.device_type.name(), ":", usize_string(self.index).as_str())
        }
    }
}

impl Default for Device {
    fn default() -> (r: Self)
        ensures
            r == (Device { device_type: DeviceType::Cpu, index: 0 }),
    {
        Device::cpu()
    }
}

/// No two dtypes have the same name, and a name ends in the number of bits of
/// an element, but for `bool` and for `bfloat16`, which is held as `float32` is.
pub proof fn law_dtype_names(d: DType, e: DType)
    ensures
        d.label() == e.label() ==> d == e,
        d != DType::Bool && d != DType::Bf16 ==> exists|k: int|
            0 < k < d.label().len() && spelled(#[trigger] d.label().skip(k), 10) == 8 * d.bytes(),
        DType::Bf16.bytes() == DType::F32.bytes(),
        DType::Bool.bytes() == 1,
{
    reveal_strlit("uint8");
    reveal_strlit("int8");
    reveal_strlit("int16");
    reveal_strlit("int32");
    reveal_strlit("int64");
    reveal_strlit("float16");
    reveal_strlit("float32");
    reveal_strlit("float64");
    reveal_strlit("bfloat16");
    reveal_strlit("bool");
    lemma_dtype_letters(d);
    lemma_dtype_letters(e);
    lemma_dtype_bits(d);
}

/// What tells the names of dtypes apart: their length and three letters.
proof fn lemma_dtype_letters(d: DType)
    ensures
        d.label().len() == match d {
            DType::I8 | DType::Bool => 4nat,
            DType::U8 | DType::I16 | DType::I32 | DType::I64 => 5nat,
            DType::F16 | DType::F32 | DType::F64 => 7nat,
            DType::Bf16 => 8nat,
        },
        d == DType::Bool <==> d.label()[0] == 'b' && d.label().len() == 4,
        d == DType::U8 <==> d.label()[0] == 'u',
        d == DType::I16 ==> d.label()[3] == '1',
        d == DType::I32 ==> d.label()[3] == '3',
        d == DType::I64 ==> d.label()[3] == '6',
        d == DType::F16 ==> d.label()[5] == '1',
        d == DType::F32 ==> d.label()[5] == '3',
        d == DType::F64 ==> d.label()[5] == '6',
{
    reveal_strlit("uint8");
    reveal_strlit("int8");
    reveal_strlit("int16");
    reveal_strlit("int32");
    reveal_strlit("int64");
    reveal_strlit("float16");
    reveal_strlit("float32");
    reveal_strlit("float64");
    reveal_strlit("bfloat16");
    reveal_strlit("bool");
}

proof fn lemma_dtype_bits(d: DType)
    ensures
        d != DType::Bool && d != DType::Bf16 ==> exists|k: int|
            0 < k < d.label().len() && spelled(#[trigger] d.label().skip(k), 10) == 8 * d.bytes(),
{
    reveal_strlit("uint8");
    reveal_strlit("int8");
    reveal_strlit("int16");
    reveal_strlit("int32");
    reveal_strlit("int64");
    reveal_strlit("float16");
    reveal_strlit("float32");
    reveal_strlit("float64");
    reveal_strlit("bfloat16");
    reveal_strlit("bool");
    match d {
        DType::U8 => {
            assert(d.label().skip(4) =~= seq!['8']);
            lemma_spelled1('8');
        },
        DType::I8 => {
            assert(d.label().skip(3) =~= seq!['8']);
            lemma_spelled1('8');
        },
        DType::I16 => {
            assert(d.label().skip(3) =~= seq!['1', '6']);
            lemma_spelled2('1', '6');
        },
        DType::I32 => {
            assert(d.label().skip(3) =~= seq!['3', '2']);
            lemma_spelled2('3', '2');
        },
        DType::I64 => {
            assert(d.label().skip(3) =~= seq!['6', '4']);
            lemma_spelled2('6', '4');
        },
        DType::F16 => {
            assert(d.label().skip(5) =~= seq!['1', '6']);
            lemma_spelled2('1', '6');
        },
        DType::F32 => {
            assert(d.label().skip(5) =~= seq!['3', '2']);
            lemma_spelled2('3', '2');
        },
        DType::F64 => {
            assert(d.label().skip(5) =~= seq!['6', '4']);
            lemma_spelled2('6', '4');
        },
        DType::Bf16 => {
            assert(d.label().skip(6) =~= seq!['1', '6']);
            lemma_spelled2('1', '6');
        },
        DType::Bool => {},
    }
}

proof fn lemma_spelled1(a: char)
    ensures
        spelled(seq![a], 10) == digit_value(a),
{
    reveal_with_fuel(spelled, 2);
    assert(seq![a].drop_last() =~= Seq::<char>::empty());
}

proof fn lemma_spelled2(a: char, b: char)
    ensures
        spelled(seq![a, b], 10) == digit_value(a) * 10 + digit_value(b),
{
    lemma_spelled1(a);
    assert(seq![a, b].drop_last() =~= seq![a]);
}

/// No two devices but those of the host are shown alike.
pub proof fn law_device_labels(d: Device, e: Device)
    requires
        d.label() == e.label(),
    ensures
        d.device_type == e.device_type,
        d.device_type != DeviceType::Cpu ==> d.index == e.index,
{
    reveal_strlit("cpu");
    reveal_strlit("wgpu");
    reveal_strlit("cuda");
    reveal_strlit(":");
    law_decimal_reads_back(d.index as nat);
    law_decimal_reads_back(e.index as nat);
    assert(d.device_type == DeviceType::Cpu ==> d.label().len() == 3);
    assert(e.device_type == DeviceType::Cpu ==> e.label().len() == 3);
    assert(d.device_type == DeviceType::Wgpu ==> d.label()[0] == 'w' && d.label().len() > 4);
    assert(e.device_type == DeviceType::Wgpu ==> e.label()[0] == 'w' && e.label().len() > 4);
    assert(d.device_type == DeviceType::Cuda ==> d.label()[0] == 'c' && d.label().len() > 4);
    assert(e.device_type == DeviceType::Cuda ==> e.label()[0] == 'c' && e.label().len() > 4);
    if d.device_type != DeviceType::Cpu {
        assert(d.label().skip(5) =~= nat_text(d.index as nat));
        assert(e.label().skip(5) =~= nat_text(e.index as nat));
    }
}

} // verus!
