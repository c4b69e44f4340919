//! Exact ranks of random integer matrices.
//!
//! A matrix of integers is reduced by Gaussian elimination in exact rational
//! arithmetic; the number of its nonzero rows is then its rank. The trials
//! draw random matrices and sum up their ranks, and the sweep runs the trials
//! over a grid of matrix shapes.

pub mod arith;
pub mod bigint;
pub mod bignat;
pub mod content;
pub mod echelon;
pub mod elimination;
pub mod linalg;
pub mod matrix;
pub mod reduce;
pub mod sweep;
pub mod trials;
pub mod uniqueness;
