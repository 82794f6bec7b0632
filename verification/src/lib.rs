//! Escape-time rendering of the Mandelbrot set.
//!
//! Each pixel of a raster grid is mapped to a point of the complex plane,
//! the quadratic recurrence `z <- z * z + c` is iterated there with
//! overflow-checked fixed-point arithmetic until the squared magnitude
//! leaves a clamp threshold or an iteration bound is reached, and the
//! resulting iteration count is turned into an RGB triple by a table of
//! linear color bands.  The caller supplies the pixel buffer and a
//! callback that converts an RGB triple into its own pixel type.

use vstd::prelude::*;

pub mod color;
pub mod escape;
pub mod fixpoint;
pub mod raster;

verus! {

/// Iteration bound of the escape-time evaluator: a point that never
/// escapes reports exactly this count, every other point a smaller one.
pub const MAX_ITER: usize = 500;

} // verus!
