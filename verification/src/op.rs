//! Element-wise operations that the data-parallel algorithms apply.
//!
//! Each operation is a unit type whose `apply` is described by a spec
//! function; the algorithms' contracts are stated over that spec function.
//! Implementations in this crate are verified against it; an implementation
//! written outside Verus (for the `f32` operations of the pipeline) is
//! believed to return what its `spec_apply` describes.
use vstd::prelude::*;

verus! {

/// A function applied to every element of an input column.
pub trait UnaryOp<I> {
    type Output;

    /// What `apply` returns on `x`.
    spec fn spec_apply(x: I) -> Self::Output;

    fn apply(x: I) -> (r: Self::Output)
        ensures
            r == Self::spec_apply(x),
    ;
}

/// A binary operation that combines two values of a segment into one.
pub trait ReductionOp<T> {
    /// What `apply` returns on `x` and `y`.
    spec fn spec_apply(x: T, y: T) -> T;

    fn apply(x: T, y: T) -> (r: T)
        ensures
            r == Self::spec_apply(x, y),
    ;
}

/// A binary predicate on two values (an ordering or an equivalence).
pub trait BinaryPredicateOp<T> {
    /// What `apply` returns on `x` and `y`.
    spec fn spec_apply(x: T, y: T) -> bool;

    fn apply(x: T, y: T) -> (r: bool)
        ensures
            r == Self::spec_apply(x, y),
    ;
}

} // verus!
