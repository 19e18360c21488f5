//! Deformable bodies: point masses joined by springs, or by position constraints.
pub mod balance;
pub mod between;
pub mod bodies;
pub mod constraints;
pub mod deformation;
pub mod forces;
pub mod laws;
pub mod model;
pub mod motion;
pub mod neighbours;
pub mod projection;
pub mod refine;
pub mod rounding;
pub mod routing;
pub mod self_collision;
pub mod settings;
pub mod solver;
pub mod step;
pub mod topology;

pub use self::between::{solve_cohesion, solve_cross_body_collisions};
pub use self::bodies::SoftBodySet;
pub use self::model::{
    CohesionParams, DistanceConstraint, PlasticityParams, SelfCollisionParams, SoftBody,
    SoftBodyId, SoftParticle, SoftSolver, Spring, Wind, SOFT_SPRING_CUSTOM_ID,
};
