//! Rasterization of basic 2D primitives — points, lines, triangles,
//! rectangles and circles — onto a pixel canvas.
//!
//! Each shape draws its outline by writing discrete pixels through the
//! canvas's pixel-set operation; the contracts state exactly which pixels
//! are written.

pub mod canvas;
pub mod circle_step;
pub mod geometrical_shapes;
pub mod rng;
pub mod rounding;
