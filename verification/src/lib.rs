//! Shape bookkeeping, array layout, convolution patch extraction, pooling,
//! autograd traversal order and IDX data decoding for a small machine
//! learning library. Numeric kernels over floating point values live in the
//! application crate; everything here is integer and layout logic.

pub mod array;
pub mod autograd;
pub mod conv;
pub mod error;
pub mod layers;
pub mod mnist;
pub mod shape;
