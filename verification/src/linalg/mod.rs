//! Dense vectors and matrices whose every kernel runs its arithmetic in one fixed order.
pub mod factors;
pub mod kernels;
pub mod laws;
pub mod layout;
pub mod lu;
pub mod matrix;
pub mod products;
pub mod sums;
pub mod rows;
pub mod vector;
pub mod view;

pub use self::lu::gauss_step;
pub use self::lu::gauss_step_swap;
pub use self::lu::solve_lower_triangular_with_diag_mut;
pub use self::lu::solve_upper_triangular_mut;
pub use self::lu::PermutationSequence;
pub use self::lu::SolveTarget;
pub use self::lu::LU;
pub use self::matrix::DMatrix;
pub use self::matrix::Jacobian;
pub use self::matrix::OMatrix;
pub use self::matrix::SMatrix;
pub use self::products::ColAccess;
pub use self::products::MatrixLike;
pub use self::products::ProductKernel;
pub use self::rows::RowsViewMut;
pub use self::vector::DVector;
pub use self::vector::DVectorView;
pub use self::vector::DVectorViewMut;
pub use self::view::MatrixView;
pub use self::view::MatrixViewMut;
