//! Shapes in space and searches among them.
pub mod aabb;
pub mod compound_baker;
pub mod direction_hull;
pub mod shape_laws;
pub mod user_index;
