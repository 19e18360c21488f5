//! Running simulations and keeping what they did.
pub mod recorder;
