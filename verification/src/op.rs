//! The primitive operations that array graphs are made of.
use vstd::prelude::*;

verus! {

/// A floating-point parameter, carried as the bits of an IEEE 754 double.
#[derive(Clone, Copy, Debug, PartialEq, Eq)]
pub struct Scalar {
    pub bits: u64,
}

/// The factor that attention scores are multiplied by, rounded to single
/// precision.
#[derive(Clone, Copy, Debug, PartialEq, Eq)]
pub enum Scale {
    /// The factor that the caller chose.
    Given(Scalar),
    /// One over the square root of the head dimension.
    InvSqrt(usize),
}

/// A floating-point constant.
#[derive(Clone, Copy, Debug, PartialEq, Eq)]
pub enum Const {
    Zero,
    One,
    NegInfinity,
    /// `num / den`.
    Ratio { num: u32, den: u32 },
    /// One over an element count, the count being rounded to single precision
    /// first.
    Reciprocal(usize),
    Value(Scalar),
    /// A scalar rounded to single precision.
    Single(Scalar),
    Scale(Scale),
}

/// Element-wise operations of one operand.
#[derive(Clone, Copy, Debug, PartialEq, Eq)]
pub enum UnaryOp {
    Sigmoid,
    Log,
    Tanh,
    /// The larger of `x` and `slope * x`, the slope being rounded to single
    /// precision.
    LeakyRelu(Scalar),
    /// Conversion to the float type of the backend.
    CastFloat,
}

/// Element-wise operations of two operands.
#[derive(Clone, Copy, Debug, PartialEq, Eq)]
pub enum BinaryOp {
    Add,
    Multiply,
    Divide,
    Maximum,
    Minimum,
    Greater,
    FloorDivide,
    Remainder,
}

/// Element-wise operations of three operands.
#[derive(Clone, Copy, Debug, PartialEq, Eq)]
pub enum TernaryOp {
    /// The second operand where the first is true, the third elsewhere.
    Where,
    /// The first operand, bounded below by the second and above by the third.
    Clip,
}

/// Reductions of a run of adjacent axes.
#[derive(Clone, Copy, Debug, PartialEq, Eq)]
pub enum ReduceOp {
    Mean,
    Max,
    Sum,
    /// The position, in row-major order of the reduced axes, of the largest
    /// element.
    ArgMax,
}

/// One of the three arrays that quantization produces.
#[derive(Clone, Copy, Debug, PartialEq, Eq)]
pub enum QuantPart {
    Packed,
    Scales,
    Biases,
}

/// Numeric kernels, which are used as a whole.
#[derive(Clone, Copy, Debug, PartialEq, Eq)]
#[allow(inconsistent_fields)]
pub enum Kernel {
    /// Convolution of an `[N, L, C]` input with `[O, K, C / groups]` weights.
    Conv1d { stride: i32, padding: i32, dilation: i32, groups: i32 },
    /// Convolution of an `[N, H, W, C]` input with `[O, KH, KW, C / groups]` weights.
    Conv2d { stride: (i32, i32), padding: (i32, i32), dilation: (i32, i32), groups: i32 },
    /// Scaled dot-product attention of query, key and value, with an additive
    /// mask as an optional fourth operand.
    Attention { scale: Scale, causal: bool },
    Quantize { group_size: i32, bits: i32, part: QuantPart },
    /// Operands: packed values, scales, biases.
    Dequantize { group_size: i32, bits: i32 },
    /// Operands: the left matrix, then packed values, scales and biases of the
    /// right one.
    QuantizedMatmul { transpose: bool, group_size: i32, bits: i32 },
}

} // verus!
