//! Tools for setting up and advancing a simulation.
pub mod boundary;
pub mod force;
pub mod space;
pub mod streaming;
