//! The whole-number core of a small ray caster.
//!
//! - `sphere`: the unit sphere, the one shape there is.
//! - `intersections`: the meetings of a ray with shapes, and the choice of
//!   the one that is seen.
//! - `matrix`: the bookkeeping of a matrix, whatever its elements are: its
//!   size, its transpose, and what is left when a row and a column are struck
//!   out.
//! - `canvas`: a rectangular grid of pixels.
//! - `ppm`: the plain-text PPM form of a canvas.
//!
//! Nothing here computes with real numbers. Distances come in as whole
//! numbers that order as the distances do, colours as whole-number channel
//! levels, and the elements of a matrix are only moved around. That leaves
//! every function with a contract that Verus proves.

pub mod canvas;
pub mod intersections;
pub mod matrix;
pub mod ppm;
pub mod sphere;
