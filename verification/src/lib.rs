//! Verified core of a toy cosmological rip-field simulation: a cubic
//! lattice of cells whose curvature and matter density evolve over
//! discrete time steps, with localized gravitational collapse, density
//! smoothing, and a compressed tabular snapshot stream.

pub mod cell;
pub mod codec;
pub mod config;
pub mod engine;
pub mod post;
pub mod record;
pub mod rng;
pub mod scalar;
pub mod smoothing;
pub mod snapshot;
