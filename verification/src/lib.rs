//! The integer core of a recursive path tracer.
//!
//! Shading itself is numeric work that the caller does. What is decided on
//! whole numbers lives here: which surface a ray meets first and when the
//! recursion stops, whether a light reaches a point, which pixels a frame has,
//! how shaded pixels are put back in order, and how they are written out.
//!
//! Distances are handed over as keys: unsigned integers that are ordered as
//! the distances are. The bit pattern of a non-negative IEEE 754 single is
//! such a key.

pub mod color;
pub mod frame;
pub mod lighting;
pub mod order;
pub mod ppm;
pub mod prelude;
pub mod scene;
