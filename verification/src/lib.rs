//! Dense-tensor kernels for the forward pass of a transformer: embedding
//! lookup, rotary positional encoding, causally masked softmax, RMS
//! normalisation, the SiLU gate, a matrix product with a transposed right
//! operand, a dot product, and a temperature / top-k / top-p sampler.
//!
//! Numbers are IEEE 754 binary32 values held as bit patterns
//! ([`binary32::Binary32`]). How they are ordered is defined and proved here.
//! How they are added, multiplied, exponentiated and so on is the business of
//! an [`arithmetic::Arithmetic`] provider that the caller names; the kernels
//! state which operations they apply to which elements, in which order.
pub mod arithmetic;
pub mod binary32;
pub mod checked;
pub mod operators;
pub mod rotary;
pub mod sampler;
pub mod softmax;
pub mod tensor;
