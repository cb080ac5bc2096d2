//! Bounded search for the non-negative integer solution `(a, b)` of a pair of
//! linear equations `x_a * a + x_b * b = x` and `y_a * a + y_b * b = y`.
//!
//! The candidates for `a` are scanned in increasing order, either one at a
//! time or in fixed-width chunks whose lanes are judged together.

use vstd::prelude::*;

pub mod faster_solver;
pub mod faster_solver_u64;
pub mod lanes;
pub mod model;
pub mod naive_solver;

verus! {

/// A pair `(a, b)` that satisfies both equations.
#[derive(Debug, PartialEq, Eq, Structural)]
pub struct Solution {
    pub a: u64,
    pub b: u64,
}

} // verus!
