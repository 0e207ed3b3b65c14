//! Colour pipeline, path resolution and image assembly of a stochastic ray tracer.
//!
//! Geometry and sampling work in floating point and live with the caller; they
//! hand this library plain values: fixed-point colours, bounce events, samples
//! and hits, through closures.
pub mod color;
pub mod hittable;
pub mod ppm;
pub mod tracer;
pub mod utils;
