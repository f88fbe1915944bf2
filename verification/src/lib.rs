//! Escape-time rendering of the Mandelbrot set: the discrete half.
//!
//! The orbit arithmetic runs in floating point and lives with the caller.
//! Everything that follows from the escape counts is here, and proved:
//! the colour of a count, the pixel buffer, the split of the grid into
//! tiles and its reassembly, the text of the command-line settings, and the
//! zoom state of an interactive session.

pub mod escape;
pub mod color;
pub mod buffer;
pub mod grid;
pub mod render;
pub mod text;
pub mod settings;
pub mod session;
