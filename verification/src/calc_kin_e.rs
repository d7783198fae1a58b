//! Kinetic energy of a particle.
use vstd::prelude::*;

verus! {

/// Computes kinetic energy: `(u, v, w, m) -> m (u² + v² + w²) / 2`.
pub struct CalcKinE;

} // verus!
