//! Joints between rigid bodies.
pub mod generic_joint;
pub mod wheel_joint;
