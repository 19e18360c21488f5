//! Bodies and the forces between them.
pub mod ccd;
pub mod fluid;
pub mod fluid_laws;
pub mod force_containers;
pub mod force_laws;
pub mod granular;
pub mod granular_laws;
pub mod joint;
pub mod rigid_body;
pub mod soft_body;
