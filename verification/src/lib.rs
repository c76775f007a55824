//! An escape-time fractal engine.
//!
//! `escape` iterates a map from a starting point until an escape test holds
//! or a cap is reached; `color` turns the verdict into a colour, in gray by
//! the count or along a gradient by the continuous escape index; `render`
//! does both for every pixel of a row or a frame;
//! `frame` gathers rows that were rendered in any order into a frame;
//! `control` decides which adjustments of the view a tick of input asks for.
//! The number type that the plane is made of, its arithmetic and the
//! logarithms of the continuous index are the caller's.

pub mod color;
pub mod control;
pub mod escape;
pub mod frame;
pub mod ramp;
pub mod render;
