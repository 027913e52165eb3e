//! A small sparse LU with a reusable column ordering and partial pivoting.
pub mod active;
pub mod algebra;
pub mod column;
pub mod count;
pub mod dynamic;
pub mod factor;
pub mod frozen;
pub mod markowitz;
pub mod matrix;
pub mod order;
pub mod pivoting;
pub mod reach;
pub mod solve;
pub mod symbolic;
pub mod triangular;

pub use matrix::SparseMatrix;
pub use symbolic::Symbolic;
