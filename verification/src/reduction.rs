//! Reductions: solving an instance of one problem through an algorithm for
//! another.
use vstd::prelude::*;
use crate::algorithm::Algorithm;
use crate::problem::OptProblemKind;

verus! {

/// A problem whose instances map forward to instances of `V`, and whose
/// solutions map back from the solutions of `V`.
pub trait Reduction<V: OptProblemKind>: OptProblemKind {
    /// Whether `reduced` is an instance of `V` that stands for this one.
    spec fn reduces_to(&self, reduced: &V) -> bool;

    /// The solutions of `V` that can be mapped back.
    spec fn can_map_back(&self, solution: &V::Solution) -> bool;

    /// Whether `own` is the solution of this instance that `solution`
    /// stands for.
    spec fn maps_back(&self, solution: &V::Solution, own: &Self::Solution) -> bool;

    /// The instance of `V` that stands for this one.
    fn reduce_instance(&self) -> (reduced: V)
        ensures
            self.reduces_to(&reduced),
    ;

    /// The solution of this instance that `solution` stands for.
    fn reduce_solution(&self, solution: &V::Solution) -> (own: Self::Solution)
        requires
            self.can_map_back(solution),
        ensures
            self.maps_back(solution, &own),
    ;

    /// Solves this instance with an algorithm for `V`: reduces the instance,
    /// runs the algorithm once on the reduced instance, and maps the
    /// solution back.
    fn solve_by_reduction<A: Algorithm<V>>(&self, algorithm: &A) -> (own: Self::Solution)
        requires
            forall|reduced: V| #[trigger] self.reduces_to(&reduced) ==> algorithm.accepts(&reduced),
            forall|reduced: V, solution: V::Solution|
                self.reduces_to(&reduced) && #[trigger] algorithm.guarantees(&reduced, &solution)
                    ==> self.can_map_back(&solution),
        ensures
            exists|reduced: V, solution: V::Solution|
                self.reduces_to(&reduced) && #[trigger] algorithm.guarantees(&reduced, &solution)
                    && self.maps_back(&solution, &own),
    {
        let reduced = self.reduce_instance();
        let solution = algorithm.run(&reduced);
        self.reduce_solution(&solution)
    }
}

} // verus!
