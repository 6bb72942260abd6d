//! A terminal "digital rain" engine: a grid of aging glyph cells advanced one
//! tick at a time (age, spawn new cells in the top row, let one-tick-old cells
//! seed a child one row below), rendered as a frame of grayscale-colored
//! glyphs.

pub mod cell;
pub mod color;
mod rng;
pub mod matrix;
