//! Algorithms, and the validation of an algorithm's result against the
//! approximation ratio that theory proves for it.
use vstd::prelude::*;
use crate::problem::OptProblemKind;

verus! {

/// The outcome of holding a solution against a proven bound.
pub enum TheoreticGuarantee {
    /// The bound was tried and holds.
    Consistent,
    /// The bound was tried and is violated; the text is the evidence.
    Inconsistent(String),
    /// The bound could not be tried; the text says why.
    Failed(String),
}

impl TheoreticGuarantee {
    /// Whether the bound holds.
    pub fn is_correct(&self) -> (correct: bool)
        ensures
            correct == (self is Consistent),
    {
        matches!(self, TheoreticGuarantee::Consistent)
    }
}

/// A stateless strategy that maps an instance of `V` to a solution.
pub trait Algorithm<V: OptProblemKind> {
    /// The instances that the algorithm takes: all of them, unless the
    /// algorithm says otherwise.
    open spec fn accepts(&self, instance: &V) -> bool {
        true
    }

    /// What the algorithm promises of the solution it returns for
    /// `instance`: nothing, unless the algorithm says otherwise.
    open spec fn guarantees(&self, instance: &V, solution: &V::Solution) -> bool {
        true
    }

    /// Solves `instance`.
    fn run(&self, instance: &V) -> (solution: V::Solution)
        requires
            self.accepts(instance),
        ensures
            self.guarantees(instance, &solution),
    ;
}

/// An algorithm whose results can be held against its proven bound.
pub trait TheoreticValidation<V: OptProblemKind> {
    /// The instances on which the bound can be tried.
    spec fn validates(&self, instance: &V) -> bool;

    /// Whether `guarantee` is the outcome that is owed for `solution`.
    spec fn verdict(&self, instance: &V, solution: &V::Solution, guarantee: TheoreticGuarantee) -> bool;

    /// Holds `solution` against the bound that is proven for the algorithm.
    fn validate(&self, instance: &V, solution: &V::Solution) -> (guarantee: TheoreticGuarantee)
        requires
            self.validates(instance),
        ensures
            self.verdict(instance, solution, guarantee),
    ;

    /// Whether the validation of `solution` ends in `Consistent`.
    fn is_correct(&self, instance: &V, solution: &V::Solution) -> (correct: bool)
        requires
            self.validates(instance),
        ensures
            exists|guarantee: TheoreticGuarantee| #[trigger]
                self.verdict(instance, solution, guarantee) && correct == (guarantee is Consistent),
    {
        self.validate(instance, solution).is_correct()
    }
}

} // verus!
