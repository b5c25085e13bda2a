//! Solvers that take an instance by value.
use vstd::prelude::*;
use crate::problem::OptProblemKind;

verus! {

/// A strategy that consumes an instance of `V` and returns its solution.
pub trait Solver<V: OptProblemKind> {
    /// Solves `instance`.
    fn solve(&self, instance: V) -> V::Solution;
}

} // verus!
