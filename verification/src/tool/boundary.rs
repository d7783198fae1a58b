//! Boundary conditions: detecting particles outside a wall and moving them
//! back in.
use vstd::prelude::*;

verus! {

/// `(v, wall) -> v > wall`: the particle is beyond a high wall.
pub struct OutHi;

/// `(v, wall) -> v < wall`: the particle is beyond a low wall.
pub struct OutLo;

/// `(x, wall) -> 2 wall - x`: mirrors a position at a high wall.
pub struct ReflectHi;

/// `(x, wall) -> 2 wall - x`: mirrors a position at a low wall.
pub struct ReflectLo;

/// `v -> -v`: reverses a velocity component.
pub struct Negate;

/// `(x, lo, hi) -> x - (hi - lo)`: wraps a position past the high end of a
/// periodic range.
pub struct WrapHi;

/// `(x, lo, hi) -> x + (hi - lo)`: wraps a position past the low end of a
/// periodic range.
pub struct WrapLo;

} // verus!
