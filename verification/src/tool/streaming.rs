//! Streaming: advancing particle positions and velocities by one time step.
use vstd::prelude::*;
use std::marker::PhantomData;

verus! {

/// First-order (explicit Euler) streaming under the force `F`:
/// `(x, v, dt) -> (x + v dt, v + F(x, v) dt)`.
pub struct RungeKutta1<F> {
    _ops: PhantomData<F>,
}

impl<F> RungeKutta1<F> {
    /// The one value of the streaming operation for the force `F`.
    pub closed spec fn spec_new() -> Self {
        RungeKutta1 { _ops: PhantomData }
    }

    /// The streaming operation for the force `F`.
    pub fn new() -> (r: Self)
        ensures
            r == Self::spec_new(),
    {
        RungeKutta1 { _ops: PhantomData }
    }
}

} // verus!
