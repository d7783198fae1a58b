//! Boltzmann Particle Hydrodynamics (BPH): the integer and data-movement
//! layer of the particle pipeline, with verified contracts.
//!
//! Particles are kept sorted by the index of the cell that holds them. The
//! algorithms here count the particles of each cell, reduce per-cell values,
//! sort particle columns by cell key, and move values between per-particle
//! and per-cell arrays. The element-wise operations that the pipeline hands
//! to them implement the traits of [`op`].
pub mod op;
pub mod algorithm;
pub mod common;
pub mod calc_kin_e;
pub mod calc_total_e;
pub mod tool;
pub mod relax;
