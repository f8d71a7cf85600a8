//! The computing parts of a sound visualizer: spectrum bands, the logarithmic scale that they are
//! shown on, and the decisions of the service that hands them out.

pub mod accuracy;
pub mod binary32;
pub mod ffi_spectrum;
pub mod levels;
pub mod log_partition;
pub mod nearness;
pub mod power;
pub mod rounding;
pub mod service;
pub mod transformation;
