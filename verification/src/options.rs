//! Options of the neural network operations.
use crate::op::Scalar;
use vstd::prelude::*;

verus! {

/// Options of a convolution over `N` axes.
#[derive(Clone, Copy, Debug, PartialEq, Eq)]
pub struct ConvOptions<const N: usize> {
    pub stride: [usize; N],
    pub padding: [usize; N],
    pub dilation: [usize; N],
    pub groups: usize,
}

/// Options of a transposed convolution over `N` axes.
#[derive(Clone, Copy, Debug, PartialEq, Eq)]
pub struct ConvTransposeOptions<const N: usize> {
    pub stride: [usize; N],
    pub padding: [usize; N],
    pub padding_out: [usize; N],
    pub dilation: [usize; N],
    pub groups: usize,
}

/// Options of a deformable convolution over `N` axes.
#[derive(Clone, Copy, Debug, PartialEq, Eq)]
pub struct DeformConvOptions<const N: usize> {
    pub stride: [usize; N],
    pub padding: [usize; N],
    pub dilation: [usize; N],
    pub weight_groups: usize,
    pub offset_groups: usize,
}

/// How values between samples are found.
#[derive(Clone, Copy, Debug, PartialEq, Eq)]
pub enum InterpolateMode {
    Nearest,
    Bilinear,
    Bicubic,
    Lanczos3,
}

/// Options of interpolation.
#[derive(Clone, Copy, Debug, PartialEq, Eq)]
pub struct InterpolateOptions {
    pub mode: InterpolateMode,
    pub align_corners: bool,
}

/// Options of attention.
#[derive(Clone, Copy, Debug, PartialEq, Eq)]
pub struct AttentionModuleOptions {
    /// The factor on the scores; one over the square root of the head dimension
    /// if there is none.
    pub scale: Option<Scalar>,
    /// The bound that scores are squashed to.
    pub softcap: Option<Scalar>,
    /// Every query position attends to key positions at or before it only.
    pub is_causal: bool,
}

} // verus!
