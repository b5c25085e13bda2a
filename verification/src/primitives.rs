//! The scalars that weights and costs are made of.
use vstd::prelude::*;

verus! {

/// A scalar with an additive identity.
pub trait Zero: Sized {
    /// The additive identity, as the mathematics sees it.
    spec fn zero_spec() -> Self;

    /// The additive identity.
    fn zero() -> (z: Self)
        ensures
            z == Self::zero_spec(),
    ;
}

/// A scalar that converts into a real number without loss.
pub trait NumericKind: Clone + Copy {
}

/// A scalar that can stand for a weight or a cost: it is copied freely, has
/// an additive identity, and its values add up and compare.
pub trait Numeric: core::ops::Add<Output = Self> + PartialOrd + Clone + Copy + Zero {
}

impl NumericKind for i32 {
}

impl NumericKind for i16 {
}

impl Numeric for i32 {
}

impl Numeric for u32 {
}

impl Numeric for usize {
}

impl Zero for i32 {
    open spec fn zero_spec() -> i32 {
        0
    }

    fn zero() -> i32 {
        0
    }
}

impl Zero for u32 {
    open spec fn zero_spec() -> u32 {
        0
    }

    fn zero() -> u32 {
        0
    }
}

impl Zero for usize {
    open spec fn zero_spec() -> usize {
        0
    }

    fn zero() -> usize {
        0
    }
}

} // verus!
