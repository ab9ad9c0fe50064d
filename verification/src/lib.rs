//! A verified engine for a sparse, aging variant of Conway's Game of Life.
//!
//! The grid is an unbounded plane of `i32` coordinates; each live cell
//! carries a counter in `1..=100`.  One generation step ages every cell by
//! one (cells reaching the cap die), counts the neighbors of freshly-alive
//! cells (counter exactly 1), and inserts births and survivals with counter
//! reset to 1.  A rasterizer projects the live region onto a packed RGB
//! pixel buffer through a rational pixels-per-cell zoom.

pub mod grid;
pub mod position;
pub mod render;
pub mod seed;
pub mod step;
