//! Deterministic physics kernels with machine-checked contracts.
pub mod codec;
pub mod dynamics;
pub mod exact;
pub mod fixed;
pub mod geometry;
pub mod linalg;
pub mod math;
pub mod pipeline;
pub mod placement;
pub mod reals;
pub mod scalar;
pub mod sequences;
pub mod spatial_hash;
