//! FELICS lossless image codec: bit-stream primitives, Rice and phased-in
//! entropy coders, an adaptive Rice-parameter estimator, a reversible
//! YCoCg-R color transform, and the raster-scan predictive channel codec,
//! all with machine-checked functional contracts.

pub mod bitio;
pub mod bits;
pub mod bitvector;
pub mod channel;
pub mod color_transform;
pub mod compression;
pub mod encoding;
pub mod error;
pub mod format;
pub mod parameter_selection;
pub mod phase_in_coding;
pub mod predictor;
pub mod rice_coding;
