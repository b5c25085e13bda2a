//! What an optimization problem is: an instance type with the kind of
//! solution it has and the type its cost is measured in.
use vstd::prelude::*;
use crate::algorithm::Algorithm;

verus! {

/// A solution of an instance of `P`.
pub trait SolutionKind<P> {
    /// The type the cost of a solution is measured in.
    type Cost;

    /// The cost of this solution on `instance`, as the mathematics sees it.
    spec fn cost_spec(&self, instance: &P) -> Option<Self::Cost>;

    /// The cost of this solution on `instance`, where it has one.
    fn cost(&self, instance: &P) -> (cost: Option<Self::Cost>)
        ensures
            cost == self.cost_spec(instance),
    ;
}

/// An instance of an optimization problem.
pub trait OptProblemKind: Sized {
    /// The type the cost of a solution is measured in.
    type Cost;

    /// The kind of solution that an instance has.
    type Solution: SolutionKind<Self, Cost = Self::Cost>;
}

/// The entry point on every instance: hand it an algorithm and get the
/// algorithm's solution.
pub trait Solvable: OptProblemKind {
    /// Runs `algorithm` on this instance. The solution is one that the
    /// algorithm guarantees for the instance.
    fn run<T: Algorithm<Self>>(&self, algorithm: T) -> (solution: Self::Solution)
        requires
            algorithm.accepts(self),
        ensures
            algorithm.guarantees(self, &solution),
    {
        algorithm.run(self)
    }
}

impl<P: OptProblemKind> Solvable for P {
}

} // verus!
