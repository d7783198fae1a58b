//! External forces on particles.
use vstd::prelude::*;

verus! {

/// No external force: `(x, y, z, u, v, w) -> (0, 0, 0)`.
pub struct NoForce;

} // verus!
