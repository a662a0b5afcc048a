//! The quantization scheme: which values are stored, and how they are stored.
use vstd::prelude::*;

verus! {

/// Data type of one quantized value.
#[derive(Clone, Copy, Debug, Hash, PartialEq, Eq, Structural)]
pub enum QuantValue {
    /// 8-bit quantization with full range.
    Q8F,
    /// 8-bit floating point, e5m2 format.
    E5M2,
    /// 8-bit floating point, e4m3 format.
    E4M3,
    /// 6-bit index into a 64-entry table (TQ6).
    Q6F,
    /// 4-bit quantization with full range; as a table index, TQ4.
    Q4F,
    /// 4-bit floating point, e2m1 format.
    E2M1,
    /// 3-bit index into an 8-entry table (TQ3).
    Q3F,
    /// 2-bit quantization with full range.
    Q2F,
    /// 8-bit quantization with symmetric range.
    Q8S,
    /// 4-bit quantization with symmetric range.
    Q4S,
    /// 2-bit quantization with symmetric range.
    Q2S,
}

/// The values that `cubecl_common` knows by name; the table widths TQ3 and TQ6
/// are not among them.
#[derive(Clone, Copy)]
enum SharedValue {
    Q8F,
    E5M2,
    E4M3,
    Q4F,
    E2M1,
    Q2F,
    Q8S,
    Q4S,
    Q2S,
}

impl SharedValue {
    /// The value of this library that a shared value stands for.
    spec fn as_value(self) -> QuantValue {
        match self {
            SharedValue::Q8F => QuantValue::Q8F,
            SharedValue::E5M2 => QuantValue::E5M2,
            SharedValue::E4M3 => QuantValue::E4M3,
            SharedValue::Q4F => QuantValue::Q4F,
            SharedValue::E2M1 => QuantValue::E2M1,
            SharedValue::Q2F => QuantValue::Q2F,
            SharedValue::Q8S => QuantValue::Q8S,
            SharedValue::Q4S => QuantValue::Q4S,
            SharedValue::Q2S => QuantValue::Q2S,
        }
    }
}

/// `cubecl_common`'s `QuantValue::size_bits`: the width of one value in bits, as
/// its source tabulates it (8 for Q8F, Q8S, E4M3, E5M2; 4 for Q4F, Q4S, E2M1;
/// 2 for Q2F, Q2S).
#[verifier::external_body]
fn shared_size_bits(value: SharedValue) -> (bits: usize)
    ensures
        bits == value.as_value().bits(),
{
    match value {
        SharedValue::Q8F => cubecl_common::quant::scheme::QuantValue::Q8F.size_bits(),
        SharedValue::E5M2 => cubecl_common::quant::scheme::QuantValue::E5M2.size_bits(),
        SharedValue::E4M3 => cubecl_common::quant::scheme::QuantValue::E4M3.size_bits(),
        SharedValue::Q4F => cubecl_common::quant::scheme::QuantValue::Q4F.size_bits(),
        SharedValue::E2M1 => cubecl_common::quant::scheme::QuantValue::E2M1.size_bits(),
        SharedValue::Q2F => cubecl_common::quant::scheme::QuantValue::Q2F.size_bits(),
        SharedValue::Q8S => cubecl_common::quant::scheme::QuantValue::Q8S.size_bits(),
        SharedValue::Q4S => cubecl_common::quant::scheme::QuantValue::Q4S.size_bits(),
        SharedValue::Q2S => cubecl_common::quant::scheme::QuantValue::Q2S.size_bits(),
    }
}

/// `cubecl_common`'s `QuantValue::is_symmetric`: whether the range is symmetric
/// around zero, which its source answers with yes for Q8S, Q4S and Q2S alone.
#[verifier::external_body]
fn shared_is_symmetric(value: SharedValue) -> (symmetric: bool)
    ensures
        symmetric == value.as_value().symmetric(),
{
    match value {
        SharedValue::Q8F => cubecl_common::quant::scheme::QuantValue::Q8F.is_symmetric(),
        SharedValue::E5M2 => cubecl_common::quant::scheme::QuantValue::E5M2.is_symmetric(),
        SharedValue::E4M3 => cubecl_common::quant::scheme::QuantValue::E4M3.is_symmetric(),
        SharedValue::Q4F => cubecl_common::quant::scheme::QuantValue::Q4F.is_symmetric(),
        SharedValue::E2M1 => cubecl_common::quant::scheme::QuantValue::E2M1.is_symmetric(),
        SharedValue::Q2F => cubecl_common::quant::scheme::QuantValue::Q2F.is_symmetric(),
        SharedValue::Q8S => cubecl_common::quant::scheme::QuantValue::Q8S.is_symmetric(),
        SharedValue::Q4S => cubecl_common::quant::scheme::QuantValue::Q4S.is_symmetric(),
        SharedValue::Q2S => cubecl_common::quant::scheme::QuantValue::Q2S.is_symmetric(),
    }
}

/// The upper end of `cubecl_common`'s `QuantValue::range`, a whole number for
/// every value, as its source tabulates it (127 for Q8F and Q8S; 7 for Q4F and
/// Q4S; 1 for Q2F and Q2S; 448, 57344 and 6 for E4M3, E5M2 and E2M1).
#[verifier::external_body]
fn shared_range_max(value: SharedValue) -> (max: i32)
    ensures
        max == value.as_value().largest(),
{
    let range = match value {
        SharedValue::Q8F => cubecl_common::quant::scheme::QuantValue::Q8F.range(),
        SharedValue::E5M2 => cubecl_common::quant::scheme::QuantValue::E5M2.range(),
        SharedValue::E4M3 => cubecl_common::quant::scheme::QuantValue::E4M3.range(),
        SharedValue::Q4F => cubecl_common::quant::scheme::QuantValue::Q4F.range(),
        SharedValue::E2M1 => cubecl_common::quant::scheme::QuantValue::E2M1.range(),
        SharedValue::Q2F => cubecl_common::quant::scheme::QuantValue::Q2F.range(),
        SharedValue::Q8S => cubecl_common::quant::scheme::QuantValue::Q8S.range(),
        SharedValue::Q4S => cubecl_common::quant::scheme::QuantValue::Q4S.range(),
        SharedValue::Q2S => cubecl_common::quant::scheme::QuantValue::Q2S.range(),
    };
    range.1 as i32
}

impl QuantValue {
    /// Width of one value in bits.
    pub open spec fn bits(self) -> nat {
        match self {
            QuantValue::Q8F | QuantValue::Q8S | QuantValue::E4M3 | QuantValue::E5M2 => 8,
            QuantValue::Q6F => 6,
            QuantValue::Q4F | QuantValue::Q4S | QuantValue::E2M1 => 4,
            QuantValue::Q3F => 3,
            QuantValue::Q2F | QuantValue::Q2S => 2,
        }
    }

    /// Whether the range of values is symmetric around zero.
    pub open spec fn symmetric(self) -> bool {
        self == QuantValue::Q8S || self == QuantValue::Q4S || self == QuantValue::Q2S
    }

    /// The largest value of the range. Those of Q6F and Q3F, which `cubecl_common` does
    /// not know, are this library's own: as for the other full ranges, the largest
    /// number of a two's complement of their width.
    pub open spec fn largest(self) -> int {
        match self {
            QuantValue::E4M3 => 448,
            QuantValue::E5M2 => 57344,
            QuantValue::E2M1 => 6,
            QuantValue::Q8F | QuantValue::Q8S => 127,
            QuantValue::Q6F => 31,
            QuantValue::Q4F | QuantValue::Q4S => 7,
            QuantValue::Q3F => 3,
            QuantValue::Q2F | QuantValue::Q2S => 1,
        }
    }

    /// The shared value of the same name; `None` for the table widths.
    fn shared(self) -> (shared: Option<SharedValue>)
        ensures
            match shared {
                Some(s) => s.as_value() == self,
                None => self == QuantValue::Q6F || self == QuantValue::Q3F,
            },
    {
        match self {
            QuantValue::Q8F => Some(SharedValue::Q8F),
            QuantValue::E5M2 => Some(SharedValue::E5M2),
            QuantValue::E4M3 => Some(SharedValue::E4M3),
            QuantValue::Q6F => None,
            QuantValue::Q4F => Some(SharedValue::Q4F),
            QuantValue::E2M1 => Some(SharedValue::E2M1),
            QuantValue::Q3F => None,
            QuantValue::Q2F => Some(SharedValue::Q2F),
            QuantValue::Q8S => Some(SharedValue::Q8S),
            QuantValue::Q4S => Some(SharedValue::Q4S),
            QuantValue::Q2S => Some(SharedValue::Q2S),
        }
    }

    /// Returns the width of one value in bits.
    pub fn size_bits(&self) -> (bits: usize)
        ensures
            bits == self.bits(),
    {
        match self.shared() {
            Some(shared) => shared_size_bits(shared),
            None => if *self == QuantValue::Q6F {
                6
            } else {
                3
            },
        }
    }

    /// Returns whether the range of values is symmetric around zero.
    pub fn is_symmetric(&self) -> (symmetric: bool)
        ensures
            symmetric == self.symmetric(),
    {
        match self.shared() {
            Some(shared) => shared_is_symmetric(shared),
            None => false,
        }
    }

    /// Returns the largest value of the range; for Q6F and Q3F, the library's own.
    pub fn range_max(&self) -> (max: i32)
        ensures
            max == self.largest(),
    {
        match self.shared() {
            Some(shared) => shared_range_max(shared),
            None => if *self == QuantValue::Q6F {
                31
            } else {
                3
            },
        }
    }
}

/// Type of an element in memory.
#[derive(Clone, Copy, Debug, Hash, PartialEq, Eq, Structural)]
pub enum ElemType {
    /// A floating-point number.
    Float(FloatKind),
    /// A signed integer.
    Int(IntKind),
    /// An unsigned integer.
    UInt(UIntKind),
    /// A truth value.
    Bool,
}

/// Width of a floating-point number.
#[derive(Clone, Copy, Debug, Hash, PartialEq, Eq, Structural)]
pub enum FloatKind {
    /// 16 bits, half precision.
    Half,
    /// 16 bits, with the exponent of a single.
    Brain,
    /// 32 bits.
    Single,
    /// 64 bits.
    Double,
}

/// Width of a signed integer.
#[derive(Clone, Copy, Debug, Hash, PartialEq, Eq, Structural)]
pub enum IntKind {
    /// 8 bits.
    I8,
    /// 16 bits.
    I16,
    /// 32 bits.
    I32,
    /// 64 bits.
    I64,
}

/// Width of an unsigned integer.
#[derive(Clone, Copy, Debug, Hash, PartialEq, Eq, Structural)]
pub enum UIntKind {
    /// 8 bits.
    U8,
    /// 16 bits.
    U16,
    /// 32 bits.
    U32,
    /// 64 bits.
    U64,
}

/// How quantized values are stored.
#[derive(Clone, Copy, Debug, Hash, PartialEq, Eq, Structural)]
pub enum QuantStore {
    /// One by one, unpacked.
    Native,
    /// Packed as the hardware packs them, along the given dimension, the innermost
    /// being 0.
    PackedNative(usize),
    /// Packed into 32-bit words, padded to whole values, along the given dimension.
    PackedU32(usize),
    /// Packed into 32-bit words without padding, along the given dimension.
    PackedU32Dense(usize),
}

/// Which values share a scale.
#[derive(Debug, PartialEq, Eq)]
pub enum QuantLevel {
    /// All of them.
    Tensor,
    /// Those of a block of the given size, the innermost dimension last.
    Block(Vec<u8>),
}

/// A quantization scheme.
#[derive(Debug, PartialEq, Eq)]
pub struct QuantScheme {
    /// Type of the values.
    pub value: QuantValue,
    /// How they are stored.
    pub store: QuantStore,
    /// Which of them share a scale.
    pub level: QuantLevel,
}

/// A block size that is no multiple of what it must be divisible by.
#[derive(Clone, Copy, Debug, PartialEq, Eq, Structural)]
pub struct BlockSizeError {
    /// What it must be divisible by.
    pub div: usize,
    /// The innermost block size.
    pub block_size: usize,
}

/// Whether blocks, where the scheme has them, are a whole number of `div` long. No block
/// but an empty one is a whole number of nothing.
pub open spec fn blocks_fit(level: QuantLevel, div: usize) -> bool {
    match level {
        QuantLevel::Tensor => true,
        QuantLevel::Block(sizes) => if div == 0 {
            sizes@.last() == 0
        } else {
            sizes@.last() as int % div as int == 0
        },
    }
}

/// The verdict on the blocks of a scheme: whether they are a whole number of `div` long.
pub fn block_size_verdict(scheme: &QuantScheme, div: usize) -> (r: Result<(), BlockSizeError>)
    requires
        scheme.level matches QuantLevel::Block(sizes) ==> sizes@.len() > 0,
    ensures
        match scheme.level {
            QuantLevel::Tensor => r == Ok::<(), BlockSizeError>(()),
            QuantLevel::Block(sizes) => r == (if blocks_fit(scheme.level, div) {
                Ok::<(), BlockSizeError>(())
            } else {
                Err(BlockSizeError { div, block_size: sizes@.last() as usize })
            }),
        },
{
    match &scheme.level {
        QuantLevel::Tensor => Ok(()),
        QuantLevel::Block(sizes) => {
            let block_size: usize = sizes[sizes.len() - 1] as usize;
            if block_size.is_multiple_of(div) {
                Ok(())
            } else {
                Err(BlockSizeError { div, block_size })
            }
        },
    }
}

/// Checks that blocks, where the scheme has them, are a whole number of `div` long. A
/// scheme on which [`block_size_verdict`] is an error is not to be checked.
pub fn check_block_size_compat(scheme: &QuantScheme, div: usize)
    requires
        scheme.level matches QuantLevel::Block(sizes) ==> sizes@.len() > 0,
        blocks_fit(scheme.level, div),
{
    let verdict: Result<(), BlockSizeError> = block_size_verdict(scheme, div);
    assert(verdict is Ok);
}

impl QuantStore {
    /// Whether values are packed into 32-bit words.
    pub open spec fn packed_u32(self) -> bool {
        self is PackedU32 || self is PackedU32Dense
    }

    /// Returns whether values are packed into 32-bit words.
    pub fn is_packed_u32(&self) -> (packed: bool)
        ensures
            packed == self.packed_u32(),
    {
        matches!(self, QuantStore::PackedU32(_) | QuantStore::PackedU32Dense(_))
    }
}

/// Returns the element type of packed storage.
pub fn packed_storage_elem(scheme: &QuantScheme) -> (elem: ElemType)
    requires
        scheme.store.packed_u32(),
    ensures
        elem == ElemType::UInt(UIntKind::U32),
{
    ElemType::UInt(UIntKind::U32)
}

} // verus!
