//! Total energy of a particle.
use vstd::prelude::*;

verus! {

/// Computes total energy: `(u, v, w, m, in_e) -> m (u² + v² + w²) / 2 + in_e`.
pub struct CalcTotalE;

} // verus!
