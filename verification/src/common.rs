//! Per-cell reduction and averaging operations on particle velocities and
//! energies.
//!
//! Their element functions work on `f32`, so their bodies live with the
//! floating-point code outside this crate; here they are the names that the
//! pipeline refers to.
#![allow(non_camel_case_types)]
use vstd::prelude::*;

verus! {

/// Sum of two one-component values.
pub struct Add_F32_1;

/// Per-cell average of a one-component sum: the sum divided by the particle
/// count, or zero for an empty cell.
pub struct CellAve_F32_1;

/// Component-wise sum of two three-component values.
pub struct Add_F32_3;

/// Component-wise difference of two three-component values.
pub struct Sub_F32_3;

/// Per-cell average of a three-component sum, component-wise, or zero for an
/// empty cell.
pub struct CellAve_F32_3;

} // verus!
